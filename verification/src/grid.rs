//! The three by three grid of a standard board: its coordinates and its
//! winning lines.

use vstd::prelude::*;
use vstd::relations::sorted_by;
use crate::coord::{difference, lemma_lex_transitive, lex_le, lex_order};
use crate::line::{constant_step, in_order, is_line, lemma_in_order_sorts};

verus! {

/// The coordinate of the child at position `i` of a board: the children are
/// laid out row by row.
pub open spec fn grid_coord(i: int) -> Seq<u8> {
    seq![(i / 3) as u8, (i % 3) as u8]
}

/// A coordinate of the three by three grid.
pub open spec fn on_grid(c: Seq<u8>) -> bool {
    c.len() == 2 && c[0] < 3 && c[1] < 3
}

/// The point `[x, y]`.
pub open spec fn point(x: int, y: int) -> Seq<u8> {
    seq![x as u8, y as u8]
}

/// The line that starts at `[x, y]` and advances by `[dx, dy]`.
pub open spec fn line_from(x: int, y: int, dx: int, dy: int) -> Seq<Seq<u8>> {
    seq![point(x, y), point(x + dx, y + dy), point(x + 2 * dx, y + 2 * dy)]
}

/// The winning lines of the three by three grid: the three rows, the three
/// columns, and the two diagonals.
pub open spec fn grid_lines() -> Seq<Seq<Seq<u8>>> {
    seq![
        line_from(0, 0, 0, 1),
        line_from(1, 0, 0, 1),
        line_from(2, 0, 0, 1),
        line_from(0, 0, 1, 0),
        line_from(0, 1, 1, 0),
        line_from(0, 2, 1, 0),
        line_from(0, 0, 1, 1),
        line_from(0, 2, 1, -1),
    ]
}

/// Coordinates that are given in lexicographic order are a line exactly
/// when they advance by a constant step as given.
pub proof fn lemma_ordered_line(t: Seq<Seq<u8>>)
    requires
        sorted_by(t, lex_order()),
    ensures
        in_order(t) == t,
        is_line(t) == constant_step(t),
{
    lemma_in_order_sorts(t, t);
}

/// Points of two components are ordered by the first, and by the second
/// where the first are equal.
pub proof fn lemma_lex_pairs(a: Seq<u8>, b: Seq<u8>)
    requires
        a.len() == 2,
        b.len() == 2,
    ensures
        lex_le(a, b) <==> a[0] < b[0] || (a[0] == b[0] && a[1] <= b[1]),
{
    reveal_with_fuel(lex_le, 3);
    assert(a.drop_first()[0] == a[1] && b.drop_first()[0] == b[1]);
    assert(a.drop_first().drop_first().len() == 0);
}

/// Three different points of the grid, in lexicographic order and evenly
/// spaced.
pub open spec fn winning_triple(t: Seq<Seq<u8>>) -> bool {
    &&& t.len() == 3
    &&& on_grid(t[0]) && on_grid(t[1]) && on_grid(t[2])
    &&& t[0] != t[1]
    &&& lex_le(t[0], t[1]) && lex_le(t[1], t[2])
    &&& difference(t[1], t[2]) == difference(t[0], t[1])
}

/// The table of winning lines holds the rows, the columns and the diagonals
/// and nothing else: a triple is in it exactly when it is three different
/// points of the grid, in order and evenly spaced. Each of them is a line.
pub proof fn lemma_grid_lines_are_exact(t: Seq<Seq<u8>>)
    ensures
        winning_triple(t) <==> grid_lines().contains(t),
        winning_triple(t) ==> is_line(t),
{
    let table = grid_lines();
    if winning_triple(t) {
        let a = t[0];
        let b = t[1];
        let c = t[2];
        lemma_lex_pairs(a, b);
        lemma_lex_pairs(b, c);
        let d = difference(a, b);
        let e = difference(b, c);
        assert(d[0] == a[0] - b[0] && d[1] == a[1] - b[1]);
        assert(e[0] == b[0] - c[0] && e[1] == b[1] - c[1]);
        if a[0] == b[0] && a[1] == b[1] {
            assert(a =~= b);
        }
        let dx = b[0] - a[0];
        let dy = b[1] - a[1];
        assert(a =~= point(a[0] as int, a[1] as int));
        assert(b =~= point(a[0] + dx, a[1] + dy));
        assert(c =~= point(a[0] + 2 * dx, a[1] + 2 * dy));
        assert(t =~= line_from(a[0] as int, a[1] as int, dx, dy));
        let l: int = if dx == 0 {
            a[0] as int
        } else if dy == 0 {
            3 + a[1]
        } else if dy == 1 {
            6
        } else {
            7
        };
        assert(table[l] == t);
        lemma_lex_transitive(a, b, c);
        assert(sorted_by(t, lex_order()));
        lemma_ordered_line(t);
        assert(constant_step(t)) by {
            assert(difference(t[1], t[2]) == difference(t[0], t[1]));
        }
    }
    if table.contains(t) {
        let l = choose|l: int| 0 <= l < table.len() && table[l] == t;
        assert(t.len() == 3);
        lemma_lex_pairs(t[0], t[1]);
        lemma_lex_pairs(t[1], t[2]);
        assert(difference(t[1], t[2]) =~= difference(t[0], t[1]));
        assert(t[0][0] != t[1][0] || t[0][1] != t[1][1]);
    }
}

} // verus!
