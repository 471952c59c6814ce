//! The generation step, the pattern parser and the centering transform.
//!
//! All three work on a board of live cells (`Vec<Pos>`) and are specified
//! against its mathematical value, the coordinate set `cells(b@)`.

use vstd::prelude::*;

use crate::logic::Pos;
use crate::logic::cells;
use crate::logic::contains_pos;
use crate::logic::coords;
use crate::logic::distinct_cells;
use crate::logic::find_max_x;
use crate::logic::find_max_y;
use crate::logic::find_min_x;
use crate::logic::find_min_y;
use crate::logic::greatest_x;
use crate::logic::greatest_y;
use crate::logic::is_neighbour;
use crate::logic::least_x;
use crate::logic::least_y;
use crate::logic::lemma_cells_contains;
use crate::logic::lemma_cells_push;
use crate::logic::lemma_count_empty;
use crate::logic::lemma_count_insert;
use crate::logic::lemma_distinct_push;
use crate::logic::neighbour_cells;
use crate::logic::neighbour_count;
use crate::logic::neighbours;

verus! {

/// Viewport dimensions: columns and rows of the visible grid.
#[derive(Copy, Clone, PartialEq, Eq, Debug, Structural)]
pub struct Board(pub u16, pub u16);

/// The standard survive/birth rule applied over a `cols x rows` viewport:
/// a cell of the next generation is live iff it lies in the viewport and
/// has exactly 3 live neighbours, or has exactly 2 and is live now.
pub open spec fn next_cells(s: Set<(int, int)>, cols: int, rows: int) -> Set<(int, int)> {
    Set::new(
        |c: (int, int)|
            0 <= c.0 < cols && 0 <= c.1 < rows && (neighbour_count(s, c) == 3 || (neighbour_count(
                s,
                c,
            ) == 2 && s.contains(c))),
    )
}

/// A live cell with no live cell within distance 1 is dead in the next
/// generation: it has 0 neighbours, and 0 is neither 2 nor 3.
pub proof fn lemma_isolated_cell_dies(s: Set<(int, int)>, c: (int, int), cols: int, rows: int)
    requires
        s.contains(c),
        forall|q: (int, int)| #[trigger] s.contains(q) ==> !is_neighbour(c, q),
    ensures
        !next_cells(s, cols, rows).contains(c),
{
    broadcast use vstd::set::group_set_axioms;

    assert(neighbour_cells(s, c) =~= Set::<(int, int)>::empty());
    assert(neighbour_count(s, c) == 0);
}

/// The four live cells of a 2x2 block whose upper-left cell is `(x, y)`.
pub open spec fn block_cells(x: int, y: int) -> Set<(int, int)> {
    set![(x, y), (x + 1, y), (x, y + 1), (x + 1, y + 1)]
}

/// The three live cells of a horizontal blinker whose left cell is `(x, y)`.
pub open spec fn blinker_row(x: int, y: int) -> Set<(int, int)> {
    set![(x, y), (x + 1, y), (x + 2, y)]
}

/// The three live cells of a vertical blinker whose top cell is `(x, y)`.
pub open spec fn blinker_column(x: int, y: int) -> Set<(int, int)> {
    set![(x, y), (x, y + 1), (x, y + 2)]
}

proof fn lemma_block_count(x: int, y: int, c: (int, int))
    ensures
        neighbour_count(block_cells(x, y), c) == (if is_neighbour(c, (x, y)) {
            1int
        } else {
            0int
        }) + (if is_neighbour(c, (x + 1, y)) {
            1int
        } else {
            0int
        }) + (if is_neighbour(c, (x, y + 1)) {
            1int
        } else {
            0int
        }) + (if is_neighbour(c, (x + 1, y + 1)) {
            1int
        } else {
            0int
        }),
{
    broadcast use vstd::set::group_set_axioms;

    let s0 = Set::<(int, int)>::empty();
    let s1 = s0.insert((x, y));
    let s2 = s1.insert((x + 1, y));
    let s3 = s2.insert((x, y + 1));
    let s4 = s3.insert((x + 1, y + 1));
    lemma_count_empty(c);
    lemma_count_insert(s0, c, (x, y));
    lemma_count_insert(s1, c, (x + 1, y));
    lemma_count_insert(s2, c, (x, y + 1));
    lemma_count_insert(s3, c, (x + 1, y + 1));
    assert(block_cells(x, y) =~= s4);
}

/// A 2x2 block of live cells that lies inside the viewport is a still
/// life: the next generation is exactly the block again.  Each block cell
/// has exactly 3 live neighbours and survives; every other viewport cell
/// sees at most 2 of the block's cells and stays dead.
pub proof fn lemma_block_is_stable(x: int, y: int, cols: int, rows: int)
    requires
        0 <= x,
        x + 1 < cols,
        0 <= y,
        y + 1 < rows,
    ensures
        next_cells(block_cells(x, y), cols, rows) =~= block_cells(x, y),
{
    broadcast use vstd::set::group_set_axioms;

    let s = block_cells(x, y);
    assert forall|c: (int, int)| s.contains(c) implies next_cells(s, cols, rows).contains(c) by {
        lemma_block_count(x, y, c);
    }
    assert forall|c: (int, int)| next_cells(s, cols, rows).contains(c) implies s.contains(c) by {
        lemma_block_count(x, y, c);
    }
}

proof fn lemma_blinker_row_count(x: int, y: int, c: (int, int))
    ensures
        neighbour_count(blinker_row(x, y), c) == (if is_neighbour(c, (x, y)) {
            1int
        } else {
            0int
        }) + (if is_neighbour(c, (x + 1, y)) {
            1int
        } else {
            0int
        }) + (if is_neighbour(c, (x + 2, y)) {
            1int
        } else {
            0int
        }),
{
    broadcast use vstd::set::group_set_axioms;

    let s0 = Set::<(int, int)>::empty();
    let s1 = s0.insert((x, y));
    let s2 = s1.insert((x + 1, y));
    let s3 = s2.insert((x + 2, y));
    lemma_count_empty(c);
    lemma_count_insert(s0, c, (x, y));
    lemma_count_insert(s1, c, (x + 1, y));
    lemma_count_insert(s2, c, (x + 2, y));
    assert(blinker_row(x, y) =~= s3);
}

proof fn lemma_blinker_column_count(x: int, y: int, c: (int, int))
    ensures
        neighbour_count(blinker_column(x, y), c) == (if is_neighbour(c, (x, y)) {
            1int
        } else {
            0int
        }) + (if is_neighbour(c, (x, y + 1)) {
            1int
        } else {
            0int
        }) + (if is_neighbour(c, (x, y + 2)) {
            1int
        } else {
            0int
        }),
{
    broadcast use vstd::set::group_set_axioms;

    let s0 = Set::<(int, int)>::empty();
    let s1 = s0.insert((x, y));
    let s2 = s1.insert((x, y + 1));
    let s3 = s2.insert((x, y + 2));
    lemma_count_empty(c);
    lemma_count_insert(s0, c, (x, y));
    lemma_count_insert(s1, c, (x, y + 1));
    lemma_count_insert(s2, c, (x, y + 2));
    assert(blinker_column(x, y) =~= s3);
}

proof fn lemma_blinker_row_flips(x: int, y: int, cols: int, rows: int)
    requires
        0 <= x,
        x + 2 < cols,
        1 <= y,
        y + 1 < rows,
    ensures
        next_cells(blinker_row(x, y), cols, rows) =~= blinker_column(x + 1, y - 1),
{
    broadcast use vstd::set::group_set_axioms;

    let s = blinker_row(x, y);
    assert forall|c: (int, int)| blinker_column(x + 1, y - 1).contains(c) implies next_cells(
        s,
        cols,
        rows,
    ).contains(c) by {
        lemma_blinker_row_count(x, y, c);
    }
    assert forall|c: (int, int)| next_cells(s, cols, rows).contains(c) implies blinker_column(
        x + 1,
        y - 1,
    ).contains(c) by {
        lemma_blinker_row_count(x, y, c);
    }
}

proof fn lemma_blinker_column_flips(x: int, y: int, cols: int, rows: int)
    requires
        1 <= x,
        x + 1 < cols,
        0 <= y,
        y + 2 < rows,
    ensures
        next_cells(blinker_column(x, y), cols, rows) =~= blinker_row(x - 1, y + 1),
{
    broadcast use vstd::set::group_set_axioms;

    let s = blinker_column(x, y);
    assert forall|c: (int, int)| blinker_row(x - 1, y + 1).contains(c) implies next_cells(
        s,
        cols,
        rows,
    ).contains(c) by {
        lemma_blinker_column_count(x, y, c);
    }
    assert forall|c: (int, int)| next_cells(s, cols, rows).contains(c) implies blinker_row(
        x - 1,
        y + 1,
    ).contains(c) by {
        lemma_blinker_column_count(x, y, c);
    }
}

/// The classic 3-cell blinker oscillates with period 2: one generation
/// turns a horizontal blinker clear of the viewport edges into the
/// vertical one through its middle cell, and a second generation turns it
/// back into the horizontal one.
pub proof fn lemma_blinker_period_two(x: int, y: int, cols: int, rows: int)
    requires
        0 <= x,
        x + 2 < cols,
        1 <= y,
        y + 1 < rows,
    ensures
        next_cells(blinker_row(x, y), cols, rows) =~= blinker_column(x + 1, y - 1),
        next_cells(next_cells(blinker_row(x, y), cols, rows), cols, rows) =~= blinker_row(x, y),
{
    lemma_blinker_row_flips(x, y, cols, rows);
    lemma_blinker_column_flips(x + 1, y - 1, cols, rows);
}

/// Computes the next generation of `b` over the viewport grid: every
/// position of the viewport is examined and kept exactly when the
/// survive/birth rule keeps it.
pub fn next_turn(b: &Vec<Pos>, dims: &Board) -> (r: Vec<Pos>)
    requires
        distinct_cells(b@),
    ensures
        distinct_cells(r@),
        cells(r@) == next_cells(cells(b@), dims.0 as int, dims.1 as int),
{
    let cols: u16 = dims.0;
    let rows: u16 = dims.1;
    let mut out: Vec<Pos> = Vec::new();
    proof {
        broadcast use vstd::set::group_set_axioms;

        assert forall|c: (int, int)| !cells(out@).contains(c) by {
            lemma_cells_contains(out@, c);
        }
        assert(cells(out@) =~= next_cells(cells(b@), cols as int, rows as int).filter(
            |c: (int, int)| c.0 < 0,
        ));
    }
    let mut col: u16 = 0;
    while col < cols
        invariant
            col <= cols,
            distinct_cells(b@),
            distinct_cells(out@),
            cells(out@) == next_cells(cells(b@), cols as int, rows as int).filter(
                |c: (int, int)| c.0 < col as int,
            ),
        decreases cols - col,
    {
        let mut row: u16 = 0;
        proof {
            broadcast use vstd::set::group_set_axioms;

            assert(next_cells(cells(b@), cols as int, rows as int).filter(
                |c: (int, int)| c.0 < col as int,
            ) =~= next_cells(cells(b@), cols as int, rows as int).filter(
                |c: (int, int)| c.0 < col as int || (c.0 == col as int && c.1 < 0),
            ));
        }
        while row < rows
            invariant
                row <= rows,
                col < cols,
                distinct_cells(b@),
                distinct_cells(out@),
                cells(out@) == next_cells(cells(b@), cols as int, rows as int).filter(
                    |c: (int, int)| c.0 < col as int || (c.0 == col as int && c.1 < row as int),
                ),
            decreases rows - row,
        {
            let p = Pos(col as i32, row as i32);
            let n = neighbours(&p, b);
            let live = contains_pos(b, &p);
            let ghost pre = out@;
            let ghost target = next_cells(cells(b@), cols as int, rows as int);
            let ghost here = (col as int, row as int);
            if (n == 2 && live) || n == 3 {
                proof {
                    broadcast use vstd::set::group_set_axioms;

                    assert(target.contains(here));
                    assert(!cells(pre).contains(here));
                    lemma_distinct_push(pre, p);
                    lemma_cells_push(pre, p);
                }
                out.push(p);
            }
            proof {
                broadcast use vstd::set::group_set_axioms;

                if !((n == 2 && live) || n == 3) {
                    assert(!target.contains(here));
                }
                assert(cells(out@) =~= target.filter(
                    |c: (int, int)| c.0 < col as int || (c.0 == col as int && c.1 < row as int + 1),
                ));
            }
            row = row + 1;
        }
        proof {
            broadcast use vstd::set::group_set_axioms;

            assert(next_cells(cells(b@), cols as int, rows as int).filter(
                |c: (int, int)| c.0 < col as int || (c.0 == col as int && c.1 < rows as int),
            ) =~= next_cells(cells(b@), cols as int, rows as int).filter(
                |c: (int, int)| c.0 < col as int + 1,
            ));
        }
        col = col + 1;
    }
    proof {
        broadcast use vstd::set::group_set_axioms;

        assert(next_cells(cells(b@), cols as int, rows as int).filter(
            |c: (int, int)| c.0 < cols as int,
        ) =~= next_cells(cells(b@), cols as int, rows as int));
    }
    out
}

/// Every cell of `s`, translated by `(dx, dy)`.
pub open spec fn shifted(s: Set<(int, int)>, dx: int, dy: int) -> Set<(int, int)> {
    s.map(|q: (int, int)| (q.0 + dx, q.1 + dy))
}

/// The horizontal translation that centers the bounding box of `s` in a
/// viewport of `cols` columns.
pub open spec fn center_dx(s: Set<(int, int)>, cols: int) -> int {
    cols / 2 - (greatest_x(s) - least_x(s)) / 2
}

/// The vertical translation that centers the bounding box of `s` in a
/// viewport of `rows` rows.
pub open spec fn center_dy(s: Set<(int, int)>, rows: int) -> int {
    rows / 2 - (greatest_y(s) - least_y(s)) / 2
}

/// Translates a board so that the center of its bounding box falls on the
/// center of the viewport.  An empty board has no bounding box and is
/// returned unchanged (empty).
///
/// Positions are viewport-relative, and the renderer addresses the
/// terminal with 16-bit coordinates, so a board handed here holds only
/// coordinates in `0 ..= u16::MAX`; the shifted coordinates then fit an
/// `i32`, though they may leave the viewport (even fall below zero) when
/// the pattern is larger than it.
pub fn center_board(elems: &Vec<Pos>, dims: &Board) -> (r: Vec<Pos>)
    requires
        distinct_cells(elems@),
        forall|q: (int, int)| #[trigger] cells(elems@).contains(q) ==> 0 <= q.0 <= u16::MAX as int
            && 0 <= q.1 <= u16::MAX as int,
    ensures
        distinct_cells(r@),
        elems@.len() == 0 ==> r@ == Seq::<Pos>::empty(),
        elems@.len() > 0 ==> cells(r@) == shifted(
            cells(elems@),
            center_dx(cells(elems@), dims.0 as int),
            center_dy(cells(elems@), dims.1 as int),
        ),
{
    let mut out: Vec<Pos> = Vec::new();
    if elems.len() == 0 {
        return out;
    }
    let ghost s = cells(elems@);
    let min_x = find_min_x(elems);
    let max_x = find_max_x(elems);
    let min_y = find_min_y(elems);
    let max_y = find_max_y(elems);
    proof {
        let qnx = choose|q: (int, int)| #[trigger] s.contains(q) && q.0 == min_x as int;
        let qxx = choose|q: (int, int)| #[trigger] s.contains(q) && q.0 == max_x as int;
        let qny = choose|q: (int, int)| #[trigger] s.contains(q) && q.1 == min_y as int;
        let qxy = choose|q: (int, int)| #[trigger] s.contains(q) && q.1 == max_y as int;
        assert(0 <= min_x as int <= u16::MAX as int);
        assert(0 <= max_x as int <= u16::MAX as int);
        assert(0 <= min_y as int <= u16::MAX as int);
        assert(0 <= max_y as int <= u16::MAX as int);
        assert(min_x as int <= qxx.0 && qnx.0 <= max_x as int);
        assert(min_y as int <= qxy.1 && qny.1 <= max_y as int);
    }
    let dx: i32 = (dims.0 / 2) as i32 - (((max_x - min_x) as u32) / 2) as i32;
    let dy: i32 = (dims.1 / 2) as i32 - (((max_y - min_y) as u32) / 2) as i32;
    proof {
        assert(dx as int == center_dx(s, dims.0 as int));
        assert(dy as int == center_dy(s, dims.1 as int));
    }
    let mut i: usize = 0;
    while i < elems.len()
        invariant
            i <= elems@.len(),
            out@.len() == i,
            distinct_cells(elems@),
            forall|q: (int, int)| #[trigger] cells(elems@).contains(q) ==> 0 <= q.0
                <= u16::MAX as int && 0 <= q.1 <= u16::MAX as int,
            -(u16::MAX as int) <= dx as int <= u16::MAX as int,
            -(u16::MAX as int) <= dy as int <= u16::MAX as int,
            forall|k: int| 0 <= k < i ==> coords(#[trigger] out@[k]) == (
                coords(elems@[k]).0 + dx as int,
                coords(elems@[k]).1 + dy as int,
            ),
        decreases elems@.len() - i,
    {
        let el = elems[i];
        proof {
            lemma_cells_contains(elems@, coords(elems@[i as int]));
            assert(cells(elems@).contains(coords(elems@[i as int])));
        }
        out.push(Pos(el.0 + dx, el.1 + dy));
        i = i + 1;
    }
    proof {
        broadcast use vstd::set::group_set_axioms;

        let d = (dx as int, dy as int);
        assert forall|a: int, bk: int| 0 <= a < bk < out@.len() implies coords(#[trigger] out@[a])
            != coords(#[trigger] out@[bk]) by {
            assert(coords(elems@[a]) != coords(elems@[bk]));
        }
        assert forall|c: (int, int)| cells(out@).contains(c) implies shifted(
            s,
            d.0,
            d.1,
        ).contains(c) by {
            lemma_cells_contains(out@, c);
            let k = choose|k: int| 0 <= k < out@.len() && coords(#[trigger] out@[k]) == c;
            lemma_cells_contains(elems@, coords(elems@[k]));
            assert(s.contains(coords(elems@[k])) && c == (
                coords(elems@[k]).0 + d.0,
                coords(elems@[k]).1 + d.1,
            ));
        }
        assert forall|c: (int, int)| shifted(s, d.0, d.1).contains(c) implies cells(
            out@,
        ).contains(c) by {
            let q = choose|q: (int, int)| s.contains(q) && c == ((q.0 + d.0, q.1 + d.1));
            lemma_cells_contains(elems@, q);
            let k = choose|k: int| 0 <= k < elems@.len() && coords(#[trigger] elems@[k]) == q;
            assert(coords(out@[k]) == c);
            lemma_cells_contains(out@, c);
        }
        assert(cells(out@) =~= shifted(s, d.0, d.1));
    }
    out
}

/// The live cells of the pattern text from index `i` on, when the
/// character at `i` stands in column `col` of row `row`: a `#` yields a
/// live cell at `(col, row)`, a newline starts the next row, and any
/// other character is a dead cell.
pub open spec fn parse_from(s: Seq<char>, i: int, col: int, row: int) -> Set<(int, int)>
    decreases s.len() - i,
{
    if i < 0 || i >= s.len() {
        Set::empty()
    } else if s[i] == '\n' {
        parse_from(s, i + 1, 0, row + 1)
    } else if s[i] == '#' {
        parse_from(s, i + 1, col + 1, row).insert((col, row))
    } else {
        parse_from(s, i + 1, col + 1, row)
    }
}

/// The live cells of a pattern text: cell `(c, r)` is live iff the
/// character in column `c` of line `r` is `#`.  Lines are separated by
/// newlines; columns and rows are counted from 0.
pub open spec fn pattern_cells(s: Seq<char>) -> Set<(int, int)> {
    parse_from(s, 0, 0, 0)
}

/// Builds the starting board from a pattern text, one live cell for every
/// `#` at its (column, row) position.
pub fn parse_input_board(text: &Vec<char>) -> (r: Vec<Pos>)
    requires
        text@.len() + 1 <= i32::MAX as int,
    ensures
        distinct_cells(r@),
        cells(r@) == pattern_cells(text@),
{
    let mut out: Vec<Pos> = Vec::new();
    let mut col: i32 = 0;
    let mut row: i32 = 0;
    let mut i: usize = 0;
    proof {
        broadcast use vstd::set::group_set_axioms;

        assert forall|c: (int, int)| !cells(out@).contains(c) by {
            lemma_cells_contains(out@, c);
        }
        assert(pattern_cells(text@) =~= cells(out@).union(parse_from(text@, 0, 0, 0)));
    }
    while i < text.len()
        invariant
            i <= text@.len(),
            text@.len() + 1 <= i32::MAX as int,
            0 <= col as int <= i as int,
            0 <= row as int <= i as int,
            distinct_cells(out@),
            pattern_cells(text@) == cells(out@).union(
                parse_from(text@, i as int, col as int, row as int),
            ),
            forall|c: (int, int)| #[trigger] cells(out@).contains(c) ==> c.1 < row as int || (c.1
                == row as int && c.0 < col as int),
        decreases text@.len() - i,
    {
        let ch = text[i];
        if ch == '\n' {
            proof {
                broadcast use vstd::set::group_set_axioms;

                assert(parse_from(text@, i as int, col as int, row as int) == parse_from(
                    text@,
                    i as int + 1,
                    0,
                    row as int + 1,
                ));
            }
            row = row + 1;
            col = 0;
        } else if ch == '#' {
            let ghost pre = out@;
            let ghost here = (col as int, row as int);
            let p = Pos(col, row);
            proof {
                broadcast use vstd::set::group_set_axioms;

                assert(parse_from(text@, i as int, col as int, row as int) == parse_from(
                    text@,
                    i as int + 1,
                    col as int + 1,
                    row as int,
                ).insert(here));
                assert(!cells(pre).contains(here));
                lemma_distinct_push(pre, p);
                lemma_cells_push(pre, p);
            }
            out.push(p);
            proof {
                broadcast use vstd::set::group_set_axioms;

                assert(cells(pre).union(
                    parse_from(text@, i as int, col as int, row as int),
                ) =~= cells(out@).union(
                    parse_from(text@, i as int + 1, col as int + 1, row as int),
                ));
            }
            col = col + 1;
        } else {
            proof {
                assert(parse_from(text@, i as int, col as int, row as int) == parse_from(
                    text@,
                    i as int + 1,
                    col as int + 1,
                    row as int,
                ));
            }
            col = col + 1;
        }
        i = i + 1;
    }
    proof {
        broadcast use vstd::set::group_set_axioms;

        assert(parse_from(text@, i as int, col as int, row as int) =~= Set::<(int, int)>::empty());
        assert(cells(out@).union(Set::<(int, int)>::empty()) =~= cells(out@));
    }
    out
}

} // verus!
