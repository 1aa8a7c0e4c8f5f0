//! Win detection on sets of coordinates: a set is a line when its points,
//! in lexicographic order, are evenly spaced.

use vstd::prelude::*;
use vstd::relations::sorted_by;
use vstd::seq_lib::lemma_sorted_unique;
use vstd::seq_lib::group_to_multiset_ensures;
use crate::coord::{
    Coord, difference, lemma_lex_connected, lemma_lex_total_order, lemma_lex_transitive, lex_le,
    lex_order, precedes, sub_coords,
};
use crate::error::BoardError;
use crate::subsets::{ascending, pick};

verus! {

/// The number of points that make a winning line.
pub const LINE_LENGTH: usize = 3;

/// The index sequences of the coordinates in `set`.
pub open spec fn coords_of(set: Seq<&Coord>) -> Seq<Seq<u8>> {
    set.map_values(|c: &Coord| c@)
}

/// All coordinates in `s` have the same number of components.
pub open spec fn uniform_arity(s: Seq<Seq<u8>>) -> bool {
    forall|i: int, j: int|
        0 <= i < s.len() && 0 <= j < s.len() ==> (#[trigger] s[i]).len() == (#[trigger] s[j]).len()
}

/// The coordinates of `s` in lexicographic order.
pub open spec fn in_order(s: Seq<Seq<u8>>) -> Seq<Seq<u8>> {
    s.sort_by(lex_order())
}

/// Each point of `p` differs from the next by the same step as the first
/// from the second.
pub open spec fn constant_step(p: Seq<Seq<u8>>) -> bool {
    forall|i: int|
        1 <= i < p.len() - 1 ==> difference(#[trigger] p[i], p[i + 1]) == difference(p[0], p[1])
}

/// The coordinates of `s`, taken in lexicographic order, advance by a
/// constant step.
pub open spec fn is_line(s: Seq<Seq<u8>>) -> bool {
    constant_step(in_order(s))
}

/// The outcome of testing one candidate set: coordinates of different arity
/// cannot be subtracted; otherwise the set is a line or it is not.
pub open spec fn line_verdict(s: Seq<Seq<u8>>) -> Result<bool, BoardError> {
    if uniform_arity(s) {
        Ok(is_line(s))
    } else {
        Err(BoardError::ArityMismatch)
    }
}

/// Some three of the coordinates in `s` form a line.
pub open spec fn has_line(s: Seq<Seq<u8>>) -> bool {
    exists|idx: Seq<int>|
        idx.len() == LINE_LENGTH && ascending(idx, s.len() as int) && is_line(
            #[trigger] pick(s, idx),
        )
}

/// The outcome of looking for a line among the coordinates `s`. With fewer
/// than three there is no candidate and nothing is subtracted; with three or
/// more, every candidate is tested, so all must have the same arity.
pub open spec fn capture_verdict(s: Seq<Seq<u8>>) -> Result<bool, BoardError> {
    if s.len() >= LINE_LENGTH && !uniform_arity(s) {
        Err(BoardError::ArityMismatch)
    } else {
        Ok(has_line(s))
    }
}

/// Whether all coordinates in `set` have the same number of components.
pub fn same_arity(set: &Vec<&Coord>) -> (r: bool)
    ensures
        r == uniform_arity(coords_of(set@)),
{
    let mut i: usize = 1;
    while i < set.len()
        invariant
            1 <= i,
            forall|j: int|
                0 <= j < i && j < set@.len() ==> (#[trigger] set@[j])@.len() == set@[0]@.len(),
        decreases set.len() - i,
    {
        if set[i].coord.len() != set[0].coord.len() {
            assert(coords_of(set@)[i as int].len() != coords_of(set@)[0].len());
            return false;
        }
        i += 1;
    }
    true
}

/// The coordinates of `set` in lexicographic order.
pub fn sort_coords<'a>(set: &Vec<&'a Coord>) -> (sorted: Vec<&'a Coord>)
    ensures
        sorted@.len() == set@.len(),
        coords_of(sorted@) == in_order(coords_of(set@)),
{
    let mut sorted: Vec<&'a Coord> = Vec::new();
    let mut i: usize = 0;
    assert(coords_of(set@.take(0)) =~= coords_of(sorted@));
    while i < set.len()
        invariant
            i <= set.len(),
            sorted@.len() == i,
            sorted_by(coords_of(sorted@), lex_order()),
            coords_of(sorted@).to_multiset() == coords_of(set@.take(i as int)).to_multiset(),
        decreases set.len() - i,
    {
        let next: &'a Coord = set[i];
        let mut at: usize = 0;
        while at < sorted.len() && precedes(sorted[at], next)
            invariant
                at <= sorted.len(),
                forall|m: int| 0 <= m < at ==> lex_le(#[trigger] sorted@[m]@, next@),
            decreases sorted.len() - at,
        {
            at += 1;
        }
        proof {
            let before = coords_of(sorted@);
            let after = coords_of(sorted@.insert(at as int, next));
            assert(after =~= before.insert(at as int, next@));
            assert forall|a: int, b: int| 0 <= a < b < after.len() implies #[trigger] lex_order()(
                after[a],
                after[b],
            ) by {
                if b < at {
                    assert(lex_order()(before[a], before[b]));
                } else if b == at {
                    assert(lex_le(sorted@[a]@, next@));
                } else if a < at {
                    assert(lex_order()(before[a], before[b - 1]));
                } else if a == at {
                    lemma_lex_connected(before[at as int], next@);
                    if b - 1 > at {
                        assert(lex_order()(before[at as int], before[b - 1]));
                        lemma_lex_transitive(next@, before[at as int], before[b - 1]);
                    }
                } else {
                    assert(lex_order()(before[a - 1], before[b - 1]));
                }
            }
            broadcast use group_to_multiset_ensures;
            assert(coords_of(set@.take(i + 1)) =~= coords_of(set@.take(i as int)).push(next@));
        }
        sorted.insert(at, next);
        i += 1;
    }
    proof {
        let given = coords_of(set@);
        assert(set@.take(i as int) == set@);
        lemma_lex_total_order();
        given.lemma_sort_by_ensures(lex_order());
        lemma_sorted_unique(coords_of(sorted@), in_order(given), lex_order());
    }
    sorted
}

/// Whether two differences are the same.
fn same_step(x: &Vec<i16>, y: &Vec<i16>) -> (r: bool)
    ensures
        r == (x@ == y@),
{
    if x.len() != y.len() {
        return false;
    }
    let mut i: usize = 0;
    while i < x.len()
        invariant
            i <= x.len(),
            x.len() == y.len(),
            forall|j: int| 0 <= j < i ==> x@[j] == y@[j],
        decreases x.len() - i,
    {
        if x[i] != y[i] {
            return false;
        }
        i += 1;
    }
    assert(x@ =~= y@);
    true
}

/// Whether all of `set` lies on one line: its coordinates, sorted
/// lexicographically, differ from each to the next by one constant step.
///
/// Coordinates of different arity cannot be subtracted and give
/// `ArityMismatch`. Fewer than three points are trivially evenly spaced.
pub fn captured_subset(set: Vec<&Coord>) -> (r: Result<bool, BoardError>)
    ensures
        r == line_verdict(coords_of(set@)),
{
    if !same_arity(&set) {
        return Err(BoardError::ArityMismatch);
    }
    let sorted = sort_coords(&set);
    let ghost p = coords_of(sorted@);
    proof {
        lemma_order_keeps_arity(coords_of(set@));
    }
    if sorted.len() < 2 {
        return Ok(true);
    }
    assert(p[0] == sorted@[0]@ && p[1] == sorted@[1]@);
    assert(p[0].len() == p[1].len());
    let base = sub_coords(sorted[0], sorted[1]);
    let mut i: usize = 1;
    while i + 1 < sorted.len()
        invariant
            1 <= i < sorted.len(),
            p == coords_of(sorted@),
            p == in_order(coords_of(set@)),
            uniform_arity(coords_of(set@)),
            uniform_arity(p),
            base@.len() == p[0].len(),
            forall|c: int| 0 <= c < base@.len() ==> base@[c] == #[trigger] difference(p[0], p[1])[c],
            forall|j: int| 1 <= j < i ==> difference(#[trigger] p[j], p[j + 1]) == difference(p[0], p[1]),
        decreases sorted.len() - i,
    {
        assert(p[i as int].len() == p[i + 1].len() && p[i as int].len() == p[0].len());
        let step = sub_coords(sorted[i], sorted[i + 1]);
        let same = same_step(&step, &base);
        proof {
            let d = difference(p[i as int], p[i + 1]);
            let d0 = difference(p[0], p[1]);
            if same {
                assert forall|c: int| 0 <= c < d.len() implies d[c] == d0[c] by {
                    assert(step@[c] == base@[c]);
                }
                assert(d =~= d0);
            } else {
                if d == d0 {
                    assert forall|c: int| 0 <= c < step@.len() implies step@[c] == base@[c] by {
                        assert(step@[c] == d[c]);
                        assert(base@[c] == d0[c]);
                    }
                    assert(step@ =~= base@);
                }
            }
        }
        if !same {
            return Ok(false);
        }
        i += 1;
    }
    Ok(true)
}

/// Putting coordinates in order rearranges them and leaves them sorted, and
/// there is only one way to do so: any sorted arrangement of the same points
/// is the one that `in_order` gives.
pub proof fn lemma_in_order_sorts(s: Seq<Seq<u8>>, p: Seq<Seq<u8>>)
    ensures
        sorted_by(in_order(s), lex_order()),
        in_order(s).to_multiset() == s.to_multiset(),
        sorted_by(p, lex_order()) && p.to_multiset() == s.to_multiset() ==> p == in_order(s),
{
    lemma_lex_total_order();
    s.lemma_sort_by_ensures(lex_order());
    if sorted_by(p, lex_order()) && p.to_multiset() == s.to_multiset() {
        lemma_sorted_unique(p, in_order(s), lex_order());
    }
}

/// Sorting keeps the coordinates, so it keeps their common arity.
pub proof fn lemma_order_keeps_arity(s: Seq<Seq<u8>>)
    ensures
        uniform_arity(s) == uniform_arity(in_order(s)),
        in_order(s).len() == s.len(),
{
    broadcast use group_to_multiset_ensures;
    lemma_lex_total_order();
    s.lemma_sort_by_ensures(lex_order());
    lemma_same_points_same_arity(s, in_order(s));
}

/// Two sequences that hold the same points, whatever their order, agree on
/// whether all points have one arity.
pub proof fn lemma_same_points_same_arity(a: Seq<Seq<u8>>, b: Seq<Seq<u8>>)
    requires
        a.to_multiset() == b.to_multiset(),
    ensures
        a.len() == b.len(),
        uniform_arity(a) == uniform_arity(b),
{
    broadcast use group_to_multiset_ensures;
    assert(a.len() == b.len()) by {
        vstd::seq_lib::to_multiset_len(a);
        vstd::seq_lib::to_multiset_len(b);
    }
    if uniform_arity(a) {
        assert forall|i: int, j: int| 0 <= i < b.len() && 0 <= j < b.len() implies (#[trigger] b[i]).len()
            == (#[trigger] b[j]).len() by {
            assert(b.contains(b[i]) && b.contains(b[j]));
            assert(a.to_multiset().count(b[i]) > 0 && a.to_multiset().count(b[j]) > 0);
            assert(a.contains(b[i]) && a.contains(b[j]));
        }
    }
    if uniform_arity(b) {
        assert forall|i: int, j: int| 0 <= i < a.len() && 0 <= j < a.len() implies (#[trigger] a[i]).len()
            == (#[trigger] a[j]).len() by {
            assert(a.contains(a[i]) && a.contains(a[j]));
            assert(b.to_multiset().count(a[i]) > 0 && b.to_multiset().count(a[j]) > 0);
            assert(b.contains(a[i]) && b.contains(a[j]));
        }
    }
}

/// Whether coordinates form a line does not depend on the order in which
/// they are given: two sequences that hold the same points, each as often,
/// are judged alike.
pub proof fn lemma_line_order_insensitive(a: Seq<Seq<u8>>, b: Seq<Seq<u8>>)
    requires
        a.to_multiset() == b.to_multiset(),
    ensures
        in_order(a) == in_order(b),
        is_line(a) == is_line(b),
        line_verdict(a) == line_verdict(b),
{
    lemma_lex_total_order();
    a.lemma_sort_by_ensures(lex_order());
    b.lemma_sort_by_ensures(lex_order());
    lemma_sorted_unique(in_order(a), in_order(b), lex_order());
    lemma_same_points_same_arity(a, b);
}

/// The points of `p` form an arithmetic progression: each is the first
/// point plus as many times the step from the first to the second as its
/// position says.
pub open spec fn progression(p: Seq<Seq<u8>>) -> bool {
    forall|i: int, c: int|
        0 <= i < p.len() && 0 <= c < p[0].len() ==> (#[trigger] p[i][c]) == p[0][c] + i * (
        p[1][c] - p[0][c])
}

/// Coordinates of one arity form a line exactly when, in lexicographic
/// order, they are an arithmetic progression.
pub proof fn lemma_line_is_progression(s: Seq<Seq<u8>>)
    requires
        uniform_arity(s),
        s.len() >= 2,
    ensures
        is_line(s) <==> progression(in_order(s)),
{
    let p = in_order(s);
    lemma_order_keeps_arity(s);
    if constant_step(p) {
        assert forall|i: int, c: int| 0 <= i < p.len() && 0 <= c < p[0].len() implies (
        #[trigger] p[i][c]) == p[0][c] + i * (p[1][c] - p[0][c]) by {
            lemma_constant_step_reaches(p, i, c);
        }
    }
    if progression(p) {
        assert forall|i: int| 1 <= i < p.len() - 1 implies difference(#[trigger] p[i], p[i + 1])
            == difference(p[0], p[1]) by {
            let d = difference(p[i], p[i + 1]);
            let d0 = difference(p[0], p[1]);
            assert(p[i].len() == p[0].len() && p[i + 1].len() == p[0].len() && p[1].len()
                == p[0].len());
            assert forall|c: int| 0 <= c < d.len() implies d[c] == d0[c] by {
                let step = p[1][c] - p[0][c];
                assert(p[i][c] == p[0][c] + i * step);
                assert(p[i + 1][c] == p[0][c] + (i + 1) * step);
                assert((i + 1) * step == i * step + step) by (nonlinear_arith);
            }
            assert(d =~= d0);
        }
    }
}

/// With a constant step, the point at position `i` lies `i` steps from the
/// first.
proof fn lemma_constant_step_reaches(p: Seq<Seq<u8>>, i: int, c: int)
    requires
        uniform_arity(p),
        constant_step(p),
        0 <= i < p.len(),
        0 <= c < p[0].len(),
    ensures
        p[i][c] == p[0][c] + i * (p[1][c] - p[0][c]),
    decreases i,
{
    let step = p[1][c] - p[0][c];
    if i == 0 {
        assert(0 * step == 0) by (nonlinear_arith);
    } else if i == 1 {
        assert(1 * step == step) by (nonlinear_arith);
    } else {
        lemma_constant_step_reaches(p, i - 1, c);
        assert(p[i - 1].len() == p[0].len() && p[i].len() == p[0].len() && p[1].len()
            == p[0].len());
        assert(difference(p[i - 1], p[i]) == difference(p[0], p[1]));
        assert(difference(p[i - 1], p[i])[c] == p[i - 1][c] - p[i][c]);
        assert(difference(p[0], p[1])[c] == p[0][c] - p[1][c]);
        assert(i * step == (i - 1) * step + step) by (nonlinear_arith);
    }
}

/// Where `a` and `b` hold the same points, each as often, every position of
/// `a` can be given a position of `b` that holds the same point, and no
/// position of `b` is given twice.
proof fn lemma_rearrangement(a: Seq<Seq<u8>>, b: Seq<Seq<u8>>) -> (f: Seq<int>)
    requires
        a.to_multiset() == b.to_multiset(),
    ensures
        f.len() == a.len(),
        a.len() == b.len(),
        forall|i: int| 0 <= i < a.len() ==> 0 <= #[trigger] f[i] < b.len() && b[f[i]] == a[i],
        forall|i: int, j: int| 0 <= i < j < a.len() ==> #[trigger] f[i] != #[trigger] f[j],
    decreases a.len(),
{
    broadcast use group_to_multiset_ensures;
    vstd::seq_lib::to_multiset_len(a);
    vstd::seq_lib::to_multiset_len(b);
    if a.len() == 0 {
        Seq::empty()
    } else {
        let last = a.len() - 1;
        let x = a[last];
        let shorter = a.remove(last);
        assert(a.contains(x));
        assert(b.to_multiset().count(x) > 0);
        assert(b.contains(x));
        let j = choose|j: int| 0 <= j < b.len() && b[j] == x;
        let rest = b.remove(j);
        assert(shorter.to_multiset() == a.to_multiset().remove(x));
        assert(rest.to_multiset() == b.to_multiset().remove(x));
        let g = lemma_rearrangement(shorter, rest);
        let f = Seq::new(
            a.len(),
            |i: int|
                if i == last {
                    j
                } else if g[i] < j {
                    g[i]
                } else {
                    g[i] + 1
                },
        );
        assert forall|i: int| 0 <= i < a.len() implies 0 <= #[trigger] f[i] < b.len() && b[f[i]]
            == a[i] by {
            if i != last {
                assert(0 <= g[i] < rest.len() && rest[g[i]] == shorter[i]);
                assert(shorter[i] == a[i]);
            }
        }
        assert forall|i: int, k: int| 0 <= i < k < a.len() implies #[trigger] f[i]
            != #[trigger] f[k] by {
            if k != last {
                assert(g[i] != g[k]);
            }
        }
        f
    }
}

/// Three points give the same collection in whatever order they are listed.
proof fn lemma_three_in_any_order(x: Seq<u8>, y: Seq<u8>, z: Seq<u8>)
    ensures
        seq![x, z, y].to_multiset() == seq![x, y, z].to_multiset(),
        seq![y, x, z].to_multiset() == seq![x, y, z].to_multiset(),
        seq![y, z, x].to_multiset() == seq![x, y, z].to_multiset(),
        seq![z, x, y].to_multiset() == seq![x, y, z].to_multiset(),
        seq![z, y, x].to_multiset() == seq![x, y, z].to_multiset(),
{
    broadcast use group_to_multiset_ensures;
    broadcast use vstd::multiset::group_multiset_axioms;
    let none = Seq::<Seq<u8>>::empty();
    let bag = none.to_multiset();
    assert(seq![x, y, z] =~= none.push(x).push(y).push(z));
    assert(seq![x, z, y] =~= none.push(x).push(z).push(y));
    assert(seq![y, x, z] =~= none.push(y).push(x).push(z));
    assert(seq![y, z, x] =~= none.push(y).push(z).push(x));
    assert(seq![z, x, y] =~= none.push(z).push(x).push(y));
    assert(seq![z, y, x] =~= none.push(z).push(y).push(x));
    assert(bag.insert(x).insert(z).insert(y) =~= bag.insert(x).insert(y).insert(z));
    assert(bag.insert(y).insert(x).insert(z) =~= bag.insert(x).insert(y).insert(z));
    assert(bag.insert(y).insert(z).insert(x) =~= bag.insert(x).insert(y).insert(z));
    assert(bag.insert(z).insert(x).insert(y) =~= bag.insert(x).insert(y).insert(z));
    assert(bag.insert(z).insert(y).insert(x) =~= bag.insert(x).insert(y).insert(z));
}

/// Three points of `s` at different positions that form a line are a line
/// among the coordinates of `s`, whichever of the positions comes first.
proof fn lemma_line_at_positions(s: Seq<Seq<u8>>, p: int, q: int, r: int)
    requires
        0 <= p < s.len(),
        0 <= q < s.len(),
        0 <= r < s.len(),
        p != q && q != r && p != r,
        is_line(seq![s[p], s[q], s[r]]),
    ensures
        has_line(s),
{
    let x = s[p];
    let y = s[q];
    let z = s[r];
    lemma_three_in_any_order(x, y, z);
    let idx = if p < q && q < r {
        seq![p, q, r]
    } else if p < r && r < q {
        seq![p, r, q]
    } else if q < p && p < r {
        seq![q, p, r]
    } else if q < r && r < p {
        seq![q, r, p]
    } else if r < p && p < q {
        seq![r, p, q]
    } else {
        seq![r, q, p]
    };
    assert(pick(s, idx) =~= seq![s[idx[0]], s[idx[1]], s[idx[2]]]);
    lemma_line_order_insensitive(pick(s, idx), seq![x, y, z]);
    assert(ascending(idx, s.len() as int));
    assert(idx.len() == LINE_LENGTH);
}

/// Whether some three of the coordinates form a line does not depend on the
/// order in which the coordinates are given: two sequences that hold the
/// same points, each as often, give the same outcome.
pub proof fn lemma_capture_order_insensitive(a: Seq<Seq<u8>>, b: Seq<Seq<u8>>)
    requires
        a.to_multiset() == b.to_multiset(),
    ensures
        has_line(a) == has_line(b),
        capture_verdict(a) == capture_verdict(b),
{
    lemma_same_points_same_arity(a, b);
    if has_line(a) {
        lemma_line_carries_over(a, b);
    }
    if has_line(b) {
        lemma_line_carries_over(b, a);
    }
}

/// A line among the coordinates of `a` is a line among those of `b`, where
/// `b` holds the same points.
proof fn lemma_line_carries_over(a: Seq<Seq<u8>>, b: Seq<Seq<u8>>)
    requires
        a.to_multiset() == b.to_multiset(),
        has_line(a),
    ensures
        has_line(b),
{
    let idx = choose|idx: Seq<int>|
        idx.len() == LINE_LENGTH && ascending(idx, a.len() as int) && is_line(
            #[trigger] pick(a, idx),
        );
    let f = lemma_rearrangement(a, b);
    let p = f[idx[0]];
    let q = f[idx[1]];
    let r = f[idx[2]];
    assert(idx[0] < idx[1] && idx[1] < idx[2]);
    assert(pick(a, idx) =~= seq![b[p], b[q], b[r]]);
    lemma_line_at_positions(b, p, q, r);
}

} // verus!
