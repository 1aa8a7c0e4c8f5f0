//! Enumeration of the subsets of a given size, by the include/exclude
//! construction, and the proof that it yields every such subset.

use vstd::prelude::*;
use crate::coord::Coord;

verus! {

/// All ways to choose `k` of the elements of `s`, each kept in the order of
/// `s`.
///
/// Every choice either leaves the first element out, and is then a choice of
/// `k` among the rest, or takes it, and is then the first element followed by
/// a choice of `k - 1` among the rest. The choices that leave it out come
/// first.
pub open spec fn combinations<T>(s: Seq<T>, k: nat) -> Seq<Seq<T>>
    decreases s.len(),
{
    if s.len() < k {
        Seq::empty()
    } else if s.len() == k {
        seq![s]
    } else if k == 0 {
        seq![Seq::empty()]
    } else {
        combinations(s.drop_first(), k) + combinations(s.drop_first(), (k - 1) as nat).map_values(
            |c: Seq<T>| seq![s[0]] + c,
        )
    }
}

/// `idx` lists positions below `n` in strictly ascending order.
pub open spec fn ascending(idx: Seq<int>, n: int) -> bool {
    &&& forall|a: int| 0 <= a < idx.len() ==> 0 <= #[trigger] idx[a] < n
    &&& forall|a: int, b: int| 0 <= a < b < idx.len() ==> #[trigger] idx[a] < #[trigger] idx[b]
}

/// The elements of `s` at the positions `idx`, in that order.
pub open spec fn pick<T>(s: Seq<T>, idx: Seq<int>) -> Seq<T> {
    Seq::new(idx.len(), |a: int| s[idx[a]])
}

/// The number of ways to choose `k` of `n` things.
pub open spec fn binomial(n: nat, k: nat) -> nat
    decreases n,
{
    if k == 0 {
        1
    } else if n == 0 {
        0
    } else {
        binomial((n - 1) as nat, k) + binomial((n - 1) as nat, (k - 1) as nat)
    }
}

/// Positions in ascending order lie at least as far right as their rank, and
/// leave room for the positions that follow them.
proof fn lemma_ascending_bounds(idx: Seq<int>, n: int, a: int)
    requires
        ascending(idx, n),
        0 <= a < idx.len(),
    ensures
        a <= idx[a] <= n - (idx.len() - a),
    decreases idx.len(),
{
    if a > 0 {
        lemma_ascending_bounds(idx.drop_last(), n, a - 1);
        assert(idx.drop_last()[a - 1] == idx[a - 1]);
    }
    if a < idx.len() - 1 {
        let tail = idx.drop_first();
        assert forall|x: int, y: int| 0 <= x < y < tail.len() implies #[trigger] tail[x]
            < #[trigger] tail[y] by {
            assert(idx[x + 1] < idx[y + 1]);
        }
        assert forall|x: int| 0 <= x < tail.len() implies 0 <= #[trigger] tail[x] < n by {
            assert(0 <= idx[x + 1] < n);
        }
        lemma_ascending_bounds(tail, n, a);
        assert(tail[a] == idx[a + 1]);
        assert(idx[a] < idx[a + 1]);
    }
}

/// Every choice that `combinations` lists has `k` elements, picked from `s`
/// at ascending positions.
pub proof fn lemma_combinations_sound<T>(s: Seq<T>, k: nat, j: int) -> (idx: Seq<int>)
    requires
        0 <= j < combinations(s, k).len(),
    ensures
        idx.len() == k,
        ascending(idx, s.len() as int),
        combinations(s, k)[j] == pick(s, idx),
    decreases s.len(),
{
    if s.len() == k {
        let idx = Seq::new(k, |a: int| a);
        assert(pick(s, idx) =~= s);
        idx
    } else if k == 0 {
        let idx = Seq::<int>::empty();
        assert(pick(s, idx) =~= Seq::<T>::empty());
        idx
    } else {
        let rest = s.drop_first();
        let without = combinations(rest, k);
        let with = combinations(rest, (k - 1) as nat);
        if j < without.len() {
            let below = lemma_combinations_sound(rest, k, j);
            let idx = Seq::new(k, |a: int| below[a] + 1);
            assert(pick(s, idx) =~= pick(rest, below));
            idx
        } else {
            let below = lemma_combinations_sound(rest, (k - 1) as nat, j - without.len());
            let idx = Seq::new(k, |a: int| if a == 0 { 0 } else { below[a - 1] + 1 });
            assert forall|a: int, b: int| 0 <= a < b < idx.len() implies #[trigger] idx[a]
                < #[trigger] idx[b] by {
                if a > 0 {
                    assert(below[a - 1] < below[b - 1]);
                }
            }
            assert(pick(s, idx) =~= seq![s[0]] + pick(rest, below));
            idx
        }
    }
}

/// Every way to pick elements of `s` at ascending positions is among the
/// choices that `combinations` lists for that many elements.
pub proof fn lemma_combinations_complete<T>(s: Seq<T>, idx: Seq<int>) -> (j: int)
    requires
        ascending(idx, s.len() as int),
    ensures
        0 <= j < combinations(s, idx.len()).len(),
        combinations(s, idx.len())[j] == pick(s, idx),
    decreases s.len(),
{
    let k = idx.len();
    if k > 0 {
        lemma_ascending_bounds(idx, s.len() as int, k - 1);
    }
    if s.len() == k {
        assert forall|a: int| 0 <= a < k implies idx[a] == a by {
            lemma_ascending_bounds(idx, s.len() as int, a);
        }
        assert(pick(s, idx) =~= s);
        0
    } else if k == 0 {
        assert(pick(s, idx) =~= Seq::<T>::empty());
        0
    } else {
        let rest = s.drop_first();
        let without = combinations(rest, k);
        let with = combinations(rest, (k - 1) as nat);
        if idx[0] == 0 {
            let below = Seq::new((k - 1) as nat, |a: int| idx[a + 1] - 1);
            assert forall|a: int| 0 <= a < below.len() implies 0 <= #[trigger] below[a]
                < rest.len() by {
                assert(idx[0] < idx[a + 1]);
            }
            assert forall|a: int, b: int| 0 <= a < b < below.len() implies #[trigger] below[a]
                < #[trigger] below[b] by {
                assert(idx[a + 1] < idx[b + 1]);
            }
            let i = lemma_combinations_complete(rest, below);
            assert(pick(s, idx) =~= seq![s[0]] + pick(rest, below));
            without.len() + i
        } else {
            let below = Seq::new(k, |a: int| idx[a] - 1);
            assert forall|a: int| 0 <= a < below.len() implies 0 <= #[trigger] below[a]
                < rest.len() by {
                if a > 0 {
                    assert(idx[0] < idx[a]);
                }
            }
            assert forall|a: int, b: int| 0 <= a < b < below.len() implies #[trigger] below[a]
                < #[trigger] below[b] by {
                assert(idx[a] < idx[b]);
            }
            let i = lemma_combinations_complete(rest, below);
            assert(pick(s, idx) =~= pick(rest, below));
            i
        }
    }
}

/// There are `binomial(n, k)` ways to choose `k` of `n` elements.
pub proof fn lemma_combinations_count<T>(s: Seq<T>, k: nat)
    ensures
        combinations(s, k).len() == binomial(s.len(), k),
    decreases s.len(),
{
    if s.len() < k {
        lemma_binomial_zero(s.len(), k);
    } else if s.len() == k {
        lemma_binomial_full(k);
    } else if k == 0 {
    } else {
        lemma_combinations_count(s.drop_first(), k);
        lemma_combinations_count(s.drop_first(), (k - 1) as nat);
    }
}

/// There is no way to choose more than there is.
proof fn lemma_binomial_zero(n: nat, k: nat)
    requires
        n < k,
    ensures
        binomial(n, k) == 0,
    decreases n,
{
    if n > 0 {
        lemma_binomial_zero((n - 1) as nat, k);
        lemma_binomial_zero((n - 1) as nat, (k - 1) as nat);
    }
}

/// There is one way to choose everything.
proof fn lemma_binomial_full(n: nat)
    ensures
        binomial(n, n) == 1,
    decreases n,
{
    if n > 0 {
        lemma_binomial_zero((n - 1) as nat, n);
        lemma_binomial_full((n - 1) as nat);
    }
}

/// The elements of `set` but the first.
fn tail<'a>(set: &Vec<&'a Coord>) -> (rest: Vec<&'a Coord>)
    requires
        set@.len() > 0,
    ensures
        rest@ == set@.drop_first(),
{
    let mut rest: Vec<&'a Coord> = Vec::new();
    let mut i: usize = 1;
    while i < set.len()
        invariant
            1 <= i <= set.len(),
            rest@ == set@.subrange(1, i as int),
        decreases set.len() - i,
    {
        rest.push(set[i]);
        i += 1;
    }
    rest
}

/// `first`, followed by the elements of `rest`.
fn prepend<'a>(first: &'a Coord, rest: &Vec<&'a Coord>) -> (whole: Vec<&'a Coord>)
    ensures
        whole@ == seq![first] + rest@,
{
    let mut whole: Vec<&'a Coord> = Vec::new();
    whole.push(first);
    let mut i: usize = 0;
    while i < rest.len()
        invariant
            i <= rest.len(),
            whole@ == seq![first] + rest@.take(i as int),
        decreases rest.len() - i,
    {
        whole.push(rest[i]);
        i += 1;
    }
    whole
}

/// All subsets of `set` with `size` elements: those that leave the first
/// element out, then those that hold it.
pub fn subsets_of_size<'a>(set: Vec<&'a Coord>, size: usize) -> (subsets: Vec<Vec<&'a Coord>>)
    ensures
        subsets@.len() == combinations(set@, size as nat).len(),
        forall|i: int|
            0 <= i < subsets@.len() ==> (#[trigger] subsets@[i])@ == combinations(
                set@,
                size as nat,
            )[i],
    decreases set@.len(),
{
    if set.len() < size {
        Vec::new()
    } else if set.len() == size {
        let mut subsets: Vec<Vec<&'a Coord>> = Vec::new();
        subsets.push(set);
        subsets
    } else if size == 0 {
        let mut subsets: Vec<Vec<&'a Coord>> = Vec::new();
        subsets.push(Vec::new());
        subsets
    } else {
        let first: &'a Coord = set[0];
        let mut subsets = subsets_of_size(tail(&set), size);
        let smaller = subsets_of_size(tail(&set), size - 1);
        let ghost without = combinations(set@.drop_first(), size as nat);
        let ghost with = combinations(set@.drop_first(), (size - 1) as nat);
        let ghost join = |c: Seq<&'a Coord>| seq![set@[0]] + c;
        let mut i: usize = 0;
        while i < smaller.len()
            invariant
                i <= smaller.len(),
                set@.len() > 0,
                first == set@[0],
                forall|c: Seq<&'a Coord>| #[trigger] join(c) == seq![set@[0]] + c,
                smaller@.len() == with.len(),
                forall|j: int| 0 <= j < smaller@.len() ==> (#[trigger] smaller@[j])@ == with[j],
                subsets@.len() == without.len() + i,
                forall|j: int|
                    0 <= j < subsets@.len() ==> (#[trigger] subsets@[j])@ == (without
                        + with.map_values(join))[j],
            decreases smaller.len() - i,
        {
            let subset = prepend(first, &smaller[i]);
            assert(smaller@[i as int]@ == with[i as int]);
            assert(subset@ == join(with[i as int]));
            assert((without + with.map_values(join))[without.len() + i] == join(with[i as int]));
            subsets.push(subset);
            i += 1;
        }
        assert(combinations(set@, size as nat) == without + with.map_values(join));
        subsets
    }
}

} // verus!
