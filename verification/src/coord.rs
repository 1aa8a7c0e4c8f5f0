//! Coordinates: the address of a child inside one board, and the
//! lexicographic order and the difference that line detection is built on.

use vstd::prelude::*;

verus! {

/// The address of a child inside one board: one small index per dimension.
///
/// Coordinates are not validated when they are made. A coordinate is only
/// ever meaningful as a key among the children of an existing cell.
#[derive(Debug, Hash)]
pub struct Coord {
    pub coord: Vec<u8>,
}

impl View for Coord {
    type V = Seq<u8>;

    open spec fn view(&self) -> Seq<u8> {
        self.coord@
    }
}

impl Clone for Coord {
    fn clone(&self) -> (copy: Self)
        ensures
            copy@ == self@,
    {
        let mut indices: Vec<u8> = Vec::new();
        let mut i: usize = 0;
        while i < self.coord.len()
            invariant
                i <= self.coord.len(),
                indices@ == self.coord@.take(i as int),
            decreases self.coord.len() - i,
        {
            indices.push(self.coord[i]);
            i += 1;
        }
        Coord { coord: indices }
    }
}

impl PartialEq for Coord {
    /// Two coordinates are equal when they have the same indices in the same
    /// order.
    fn eq(&self, other: &Self) -> (same: bool) {
        if self.coord.len() != other.coord.len() {
            return false;
        }
        let mut i: usize = 0;
        while i < self.coord.len()
            invariant
                i <= self.coord.len(),
                self.coord.len() == other.coord.len(),
                self.coord@.take(i as int) == other.coord@.take(i as int),
            decreases self.coord.len() - i,
        {
            if self.coord[i] != other.coord[i] {
                return false;
            }
            assert(self.coord@.take(i + 1) == self.coord@.take(i as int).push(self.coord@[i as int]));
            assert(other.coord@.take(i + 1) == other.coord@.take(i as int).push(
                other.coord@[i as int],
            ));
            i += 1;
        }
        assert(self.coord@ == self.coord@.take(i as int));
        assert(other.coord@ == other.coord@.take(i as int));
        true
    }
}

impl vstd::std_specs::cmp::PartialEqSpecImpl for Coord {
    open spec fn obeys_eq_spec() -> bool {
        true
    }

    open spec fn eq_spec(&self, other: &Self) -> bool {
        self@ == other@
    }
}

impl Eq for Coord {

}

impl Coord {
    /// A coordinate with the given indices.
    pub fn new(coord: Vec<u8>) -> (c: Self)
        ensures
            c@ == coord@,
    {
        Coord { coord }
    }

    /// The two-dimensional coordinate `[x, y]`.
    pub fn pair(x: u8, y: u8) -> (c: Self)
        ensures
            c@ == seq![x, y],
    {
        let mut indices: Vec<u8> = Vec::new();
        indices.push(x);
        indices.push(y);
        Coord { coord: indices }
    }

    /// The number of dimensions of the coordinate.
    pub fn arity(&self) -> (n: usize)
        ensures
            n == self@.len(),
    {
        self.coord.len()
    }
}

/// Coordinates as mathematical values: the index sequence of each, in order.
/// This is how a path, one coordinate per level, enters the contracts.
pub open spec fn views(coords: Seq<Coord>) -> Seq<Seq<u8>> {
    coords.map_values(|c: Coord| c@)
}

/// The component-wise difference `a - b` of two coordinates of one arity.
pub open spec fn difference(a: Seq<u8>, b: Seq<u8>) -> Seq<int> {
    Seq::new(a.len(), |i: int| a[i] - b[i])
}

/// Lexicographic order on index sequences: the first index in which the two
/// differ decides, and a proper prefix comes before what extends it.
pub open spec fn lex_le(a: Seq<u8>, b: Seq<u8>) -> bool
    decreases a.len(),
{
    if a.len() == 0 {
        true
    } else if b.len() == 0 {
        false
    } else if a[0] != b[0] {
        a[0] < b[0]
    } else {
        lex_le(a.drop_first(), b.drop_first())
    }
}

/// The lexicographic order as a relation, for use with sorting.
pub open spec fn lex_order() -> spec_fn(Seq<u8>, Seq<u8>) -> bool {
    |a: Seq<u8>, b: Seq<u8>| lex_le(a, b)
}

/// The difference of two coordinates, component by component.
///
/// Subtracting coordinates of different arity is a programming error, so
/// both must have the same number of components.
pub fn sub_coords(lhs: &Coord, rhs: &Coord) -> (diff: Vec<i16>)
    requires
        lhs@.len() == rhs@.len(),
    ensures
        diff@.len() == lhs@.len(),
        forall|i: int| 0 <= i < diff@.len() ==> diff@[i] == #[trigger] difference(lhs@, rhs@)[i],
{
    let mut diff: Vec<i16> = Vec::new();
    let mut i: usize = 0;
    while i < lhs.coord.len()
        invariant
            i <= lhs.coord.len(),
            lhs.coord.len() == rhs.coord.len(),
            diff@.len() == i,
            forall|j: int| 0 <= j < i ==> diff@[j] == #[trigger] difference(lhs@, rhs@)[j],
        decreases lhs.coord.len() - i,
    {
        diff.push(lhs.coord[i] as i16 - rhs.coord[i] as i16);
        i += 1;
    }
    diff
}

/// Whether `a` comes before `b`, or equals it, in lexicographic order.
pub fn precedes(a: &Coord, b: &Coord) -> (r: bool)
    ensures
        r == lex_le(a@, b@),
{
    let mut i: usize = 0;
    assert(a@.skip(0) == a@ && b@.skip(0) == b@);
    while i < a.coord.len() && i < b.coord.len()
        invariant
            i <= a.coord.len(),
            i <= b.coord.len(),
            lex_le(a@, b@) == lex_le(a@.skip(i as int), b@.skip(i as int)),
        decreases a.coord.len() - i,
    {
        let x: u8 = a.coord[i];
        let y: u8 = b.coord[i];
        proof {
            let sa = a@.skip(i as int);
            let sb = b@.skip(i as int);
            assert(sa[0] == x && sb[0] == y);
            assert(sa.drop_first() == a@.skip(i + 1));
            assert(sb.drop_first() == b@.skip(i + 1));
        }
        if x != y {
            return x < y;
        }
        i += 1;
    }
    proof {
        assert(a@.skip(i as int).len() == a@.len() - i);
        assert(b@.skip(i as int).len() == b@.len() - i);
    }
    i == a.coord.len()
}

/// Every sequence is at most itself.
pub proof fn lemma_lex_reflexive(a: Seq<u8>)
    ensures
        lex_le(a, a),
    decreases a.len(),
{
    if a.len() > 0 {
        lemma_lex_reflexive(a.drop_first());
    }
}

/// Two sequences that are each at most the other are the same sequence.
pub proof fn lemma_lex_antisymmetric(a: Seq<u8>, b: Seq<u8>)
    requires
        lex_le(a, b),
        lex_le(b, a),
    ensures
        a == b,
    decreases a.len(),
{
    if a.len() == 0 {
        assert(b.len() == 0);
        assert(a =~= b);
    } else {
        assert(b.len() > 0);
        lemma_lex_antisymmetric(a.drop_first(), b.drop_first());
        assert(a =~= seq![a[0]] + a.drop_first());
        assert(b =~= seq![b[0]] + b.drop_first());
    }
}

/// The order passes along chains.
pub proof fn lemma_lex_transitive(a: Seq<u8>, b: Seq<u8>, c: Seq<u8>)
    requires
        lex_le(a, b),
        lex_le(b, c),
    ensures
        lex_le(a, c),
    decreases a.len(),
{
    if a.len() > 0 && a[0] == b[0] && b[0] == c[0] {
        lemma_lex_transitive(a.drop_first(), b.drop_first(), c.drop_first());
    }
}

/// Any two sequences are comparable.
pub proof fn lemma_lex_connected(a: Seq<u8>, b: Seq<u8>)
    ensures
        lex_le(a, b) || lex_le(b, a),
    decreases a.len(),
{
    if a.len() > 0 && b.len() > 0 && a[0] == b[0] {
        lemma_lex_connected(a.drop_first(), b.drop_first());
    }
}

/// The lexicographic order is a total order.
pub proof fn lemma_lex_total_order()
    ensures
        vstd::relations::total_ordering(lex_order()),
{
    let r = lex_order();
    assert forall|a: Seq<u8>| #[trigger] r(a, a) by {
        lemma_lex_reflexive(a);
    }
    assert forall|a: Seq<u8>, b: Seq<u8>| #[trigger] r(a, b) && #[trigger] r(b, a) implies a
        == b by {
        lemma_lex_antisymmetric(a, b);
    }
    assert forall|a: Seq<u8>, b: Seq<u8>, c: Seq<u8>| #[trigger] r(a, b) && #[trigger] r(
        b,
        c,
    ) implies r(a, c) by {
        lemma_lex_transitive(a, b, c);
    }
    assert forall|a: Seq<u8>, b: Seq<u8>| #[trigger] r(a, b) || #[trigger] r(b, a) by {
        lemma_lex_connected(a, b);
    }
}

} // verus!
