//! Engine primitives: the cell type, neighbour counting, and the bounding
//! box of a board.
//!
//! A board is a `Vec<Pos>` of live cells; a well-formed board lists every
//! live cell once (`distinct_cells`).  Contracts speak of the board's
//! mathematical value, the set of coordinate pairs `cells(b@)`.

use vstd::prelude::*;

verus! {

/// One grid cell, identified by its `(x, y)` coordinates.
#[derive(Copy, Clone, PartialEq, Eq, Hash, Debug, Structural)]
pub struct Pos(pub i32, pub i32);

/// The mathematical value of a position: a pair of unbounded integers.
pub open spec fn coords(p: Pos) -> (int, int) {
    (p.0 as int, p.1 as int)
}

/// The set of live cells that a board holds.
pub open spec fn cells(b: Seq<Pos>) -> Set<(int, int)> {
    b.map_values(|p: Pos| coords(p)).to_set()
}

/// A well-formed board lists every live cell once.
pub open spec fn distinct_cells(b: Seq<Pos>) -> bool {
    forall|i: int, j: int| 0 <= i < j < b.len() ==> coords(#[trigger] b[i]) != coords(#[trigger] b[j])
}

/// `q` lies in the 8-cell neighbourhood of `p`: Chebyshev distance 1,
/// `p` itself excluded.
pub open spec fn is_neighbour(p: (int, int), q: (int, int)) -> bool {
    &&& q != p
    &&& -1 <= q.0 - p.0 <= 1
    &&& -1 <= q.1 - p.1 <= 1
}

/// The live cells of `s` that border `p`.
pub open spec fn neighbour_cells(s: Set<(int, int)>, p: (int, int)) -> Set<(int, int)> {
    s.filter(|q: (int, int)| is_neighbour(p, q))
}

/// How many live cells of `s` border `p`.
pub open spec fn neighbour_count(s: Set<(int, int)>, p: (int, int)) -> nat {
    neighbour_cells(s, p).len()
}

/// A coordinate pair is a live cell of `b` exactly when some entry of
/// `b` carries it.
pub proof fn lemma_cells_contains(b: Seq<Pos>, q: (int, int))
    ensures
        cells(b).contains(q) <==> exists|i: int| 0 <= i < b.len() && coords(#[trigger] b[i]) == q,
{
    broadcast use vstd::set::group_set_axioms;

    let m = b.map_values(|p: Pos| coords(p));
    if cells(b).contains(q) {
        let i = choose|i: int| 0 <= i < m.len() && m[i] == q;
        assert(coords(b[i]) == q);
    }
    if exists|i: int| 0 <= i < b.len() && coords(#[trigger] b[i]) == q {
        let i = choose|i: int| 0 <= i < b.len() && coords(#[trigger] b[i]) == q;
        assert(m[i] == q);
        assert(m.contains(q));
    }
}

/// A board holds finitely many live cells.
pub proof fn lemma_cells_finite(b: Seq<Pos>)
    ensures
        cells(b).finite(),
{
    broadcast use vstd::seq_lib::seq_to_set_is_finite;

}

/// Pushing a position onto a board inserts its coordinates into the
/// board's cell set.
pub proof fn lemma_cells_push(b: Seq<Pos>, p: Pos)
    ensures
        cells(b.push(p)) =~= cells(b).insert(coords(p)),
{
    broadcast use vstd::set::group_set_axioms;

    assert forall|q: (int, int)| cells(b.push(p)).contains(q) implies cells(b).insert(
        coords(p),
    ).contains(q) by {
        lemma_cells_contains(b.push(p), q);
        let i = choose|i: int| 0 <= i < b.push(p).len() && coords(#[trigger] b.push(p)[i]) == q;
        if i < b.len() {
            lemma_cells_contains(b, q);
        }
    }
    assert forall|q: (int, int)| cells(b).insert(coords(p)).contains(q) implies cells(
        b.push(p),
    ).contains(q) by {
        lemma_cells_contains(b.push(p), q);
        if q == coords(p) {
            assert(coords(b.push(p)[b.len() as int]) == q);
        } else {
            lemma_cells_contains(b, q);
            let i = choose|i: int| 0 <= i < b.len() && coords(#[trigger] b[i]) == q;
            assert(coords(b.push(p)[i]) == q);
        }
    }
}

/// An empty board gives every position 0 neighbours.
pub proof fn lemma_count_empty(p: (int, int))
    ensures
        neighbour_count(Set::<(int, int)>::empty(), p) == 0,
{
    broadcast use vstd::set::group_set_axioms;

    assert(neighbour_cells(Set::<(int, int)>::empty(), p) =~= Set::<(int, int)>::empty());
}

/// Inserting a new live cell raises the neighbour count of `p` by one
/// exactly when the inserted cell borders `p`.
pub proof fn lemma_count_insert(s: Set<(int, int)>, p: (int, int), x: (int, int))
    requires
        s.finite(),
        !s.contains(x),
    ensures
        neighbour_count(s.insert(x), p) == neighbour_count(s, p) + (if is_neighbour(p, x) {
            1int
        } else {
            0int
        }),
{
    broadcast use vstd::set::group_set_axioms;

    s.lemma_len_filter(|q: (int, int)| is_neighbour(p, q));
    if is_neighbour(p, x) {
        assert(neighbour_cells(s.insert(x), p) =~= neighbour_cells(s, p).insert(x));
        assert(!neighbour_cells(s, p).contains(x));
    } else {
        assert(neighbour_cells(s.insert(x), p) =~= neighbour_cells(s, p));
    }
}

/// Counting the live neighbours of `p` in the one-longer prefix of `b`
/// adds one exactly when the newly considered cell borders `p`.
proof fn lemma_prefix_count_step(b: Seq<Pos>, i: int, p: (int, int))
    requires
        0 <= i < b.len(),
        distinct_cells(b),
    ensures
        cells(b.take(i)).finite(),
        neighbour_count(cells(b.take(i + 1)), p) == neighbour_count(cells(b.take(i)), p) + (
        if is_neighbour(p, coords(b[i])) {
            1int
        } else {
            0int
        }),
{
    let s = cells(b.take(i));
    let x = coords(b[i]);
    lemma_cells_finite(b.take(i));
    assert(b.take(i + 1) =~= b.take(i).push(b[i]));
    lemma_cells_push(b.take(i), b[i]);
    assert(cells(b.take(i + 1)) =~= s.insert(x));
    assert(!s.contains(x)) by {
        lemma_cells_contains(b.take(i), x);
    }
    lemma_count_insert(s, p, x);
}

/// A cell has at most 8 live neighbours: its neighbourhood has 8 positions.
pub proof fn lemma_neighbour_count_le_8(s: Set<(int, int)>, p: (int, int))
    requires
        s.finite(),
    ensures
        neighbour_count(s, p) <= 8,
{
    broadcast use vstd::set::group_set_axioms;

    let ring = set![
        (p.0 - 1, p.1 - 1),
        (p.0, p.1 - 1),
        (p.0 + 1, p.1 - 1),
        (p.0 - 1, p.1),
        (p.0 + 1, p.1),
        (p.0 - 1, p.1 + 1),
        (p.0, p.1 + 1),
        (p.0 + 1, p.1 + 1),
    ];
    assert forall|q: (int, int)| neighbour_cells(s, p).contains(q) implies ring.contains(q) by {
        assert(q == (q.0, q.1));
    }
    assert(ring.len() <= 8);
    vstd::set_lib::lemma_len_subset(neighbour_cells(s, p), ring);
}

/// `m` is attained as an x-coordinate in `s` and bounds every
/// x-coordinate of `s` from below.
pub open spec fn is_least_x(s: Set<(int, int)>, m: int) -> bool {
    &&& exists|q: (int, int)| #[trigger] s.contains(q) && q.0 == m
    &&& forall|q: (int, int)| #[trigger] s.contains(q) ==> m <= q.0
}

/// `m` is attained as an x-coordinate in `s` and bounds every
/// x-coordinate of `s` from above.
pub open spec fn is_greatest_x(s: Set<(int, int)>, m: int) -> bool {
    &&& exists|q: (int, int)| #[trigger] s.contains(q) && q.0 == m
    &&& forall|q: (int, int)| #[trigger] s.contains(q) ==> q.0 <= m
}

/// `m` is attained as a y-coordinate in `s` and bounds every
/// y-coordinate of `s` from below.
pub open spec fn is_least_y(s: Set<(int, int)>, m: int) -> bool {
    &&& exists|q: (int, int)| #[trigger] s.contains(q) && q.1 == m
    &&& forall|q: (int, int)| #[trigger] s.contains(q) ==> m <= q.1
}

/// `m` is attained as a y-coordinate in `s` and bounds every
/// y-coordinate of `s` from above.
pub open spec fn is_greatest_y(s: Set<(int, int)>, m: int) -> bool {
    &&& exists|q: (int, int)| #[trigger] s.contains(q) && q.1 == m
    &&& forall|q: (int, int)| #[trigger] s.contains(q) ==> q.1 <= m
}

/// The least x-coordinate attained by a cell of `s` (meaningful only when
/// one is attained, as it is on any non-empty finite set).
pub open spec fn least_x(s: Set<(int, int)>) -> int {
    choose|m: int| is_least_x(s, m)
}

/// The greatest x-coordinate attained by a cell of `s`.
pub open spec fn greatest_x(s: Set<(int, int)>) -> int {
    choose|m: int| is_greatest_x(s, m)
}

/// The least y-coordinate attained by a cell of `s`.
pub open spec fn least_y(s: Set<(int, int)>) -> int {
    choose|m: int| is_least_y(s, m)
}

/// The greatest y-coordinate attained by a cell of `s`.
pub open spec fn greatest_y(s: Set<(int, int)>) -> int {
    choose|m: int| is_greatest_y(s, m)
}

/// A value that is attained and is a lower bound of the x-coordinates is
/// the least x-coordinate.
pub proof fn lemma_least_x_pins(s: Set<(int, int)>, m: int)
    requires
        is_least_x(s, m),
    ensures
        least_x(s) == m,
{
    let k = least_x(s);
    assert(is_least_x(s, k));
    let qm = choose|q: (int, int)| #[trigger] s.contains(q) && q.0 == m;
    let qk = choose|q: (int, int)| #[trigger] s.contains(q) && q.0 == k;
    assert(m <= qk.0 && k <= qm.0);
}

/// A value that is attained and is an upper bound of the x-coordinates is
/// the greatest x-coordinate.
pub proof fn lemma_greatest_x_pins(s: Set<(int, int)>, m: int)
    requires
        is_greatest_x(s, m),
    ensures
        greatest_x(s) == m,
{
    let k = greatest_x(s);
    assert(is_greatest_x(s, k));
    let qm = choose|q: (int, int)| #[trigger] s.contains(q) && q.0 == m;
    let qk = choose|q: (int, int)| #[trigger] s.contains(q) && q.0 == k;
    assert(qk.0 <= m && qm.0 <= k);
}

/// A value that is attained and is a lower bound of the y-coordinates is
/// the least y-coordinate.
pub proof fn lemma_least_y_pins(s: Set<(int, int)>, m: int)
    requires
        is_least_y(s, m),
    ensures
        least_y(s) == m,
{
    let k = least_y(s);
    assert(is_least_y(s, k));
    let qm = choose|q: (int, int)| #[trigger] s.contains(q) && q.1 == m;
    let qk = choose|q: (int, int)| #[trigger] s.contains(q) && q.1 == k;
    assert(m <= qk.1 && k <= qm.1);
}

/// A value that is attained and is an upper bound of the y-coordinates is
/// the greatest y-coordinate.
pub proof fn lemma_greatest_y_pins(s: Set<(int, int)>, m: int)
    requires
        is_greatest_y(s, m),
    ensures
        greatest_y(s) == m,
{
    let k = greatest_y(s);
    assert(is_greatest_y(s, k));
    let qm = choose|q: (int, int)| #[trigger] s.contains(q) && q.1 == m;
    let qk = choose|q: (int, int)| #[trigger] s.contains(q) && q.1 == k;
    assert(qk.1 <= m && qm.1 <= k);
}

/// The least x-coordinate among the live cells of `b`, or `-1` on an empty
/// board (a sentinel kept for compatibility; an empty board has no bounds).
pub fn find_min_x(b: &Vec<Pos>) -> (r: i32)
    ensures
        b@.len() == 0 ==> r == -1,
        b@.len() > 0 ==> {
            &&& exists|q: (int, int)| #[trigger] cells(b@).contains(q) && q.0 == r as int
            &&& forall|q: (int, int)| #[trigger] cells(b@).contains(q) ==> r as int <= q.0
            &&& r as int == least_x(cells(b@))
        },
{
    if b.len() == 0 {
        return -1;
    }
    let mut m = b[0].0;
    let mut i: usize = 1;
    while i < b.len()
        invariant
            1 <= i <= b@.len(),
            exists|k: int| 0 <= k < i && coords(#[trigger] b@[k]).0 == m as int,
            forall|k: int| 0 <= k < i ==> m as int <= coords(#[trigger] b@[k]).0,
        decreases b@.len() - i,
    {
        if b[i].0 < m {
            m = b[i].0;
        }
        i = i + 1;
    }
    proof {
        lemma_bounds_from_indices(b@, m as int, true, false);
    }
    m
}

/// The greatest x-coordinate among the live cells of `b`, or `-1` on an
/// empty board.
pub fn find_max_x(b: &Vec<Pos>) -> (r: i32)
    ensures
        b@.len() == 0 ==> r == -1,
        b@.len() > 0 ==> {
            &&& exists|q: (int, int)| #[trigger] cells(b@).contains(q) && q.0 == r as int
            &&& forall|q: (int, int)| #[trigger] cells(b@).contains(q) ==> q.0 <= r as int
            &&& r as int == greatest_x(cells(b@))
        },
{
    if b.len() == 0 {
        return -1;
    }
    let mut m = b[0].0;
    let mut i: usize = 1;
    while i < b.len()
        invariant
            1 <= i <= b@.len(),
            exists|k: int| 0 <= k < i && coords(#[trigger] b@[k]).0 == m as int,
            forall|k: int| 0 <= k < i ==> coords(#[trigger] b@[k]).0 <= m as int,
        decreases b@.len() - i,
    {
        if b[i].0 > m {
            m = b[i].0;
        }
        i = i + 1;
    }
    proof {
        lemma_bounds_from_indices(b@, m as int, true, true);
    }
    m
}

/// The least y-coordinate among the live cells of `b`, or `-1` on an empty
/// board.
pub fn find_min_y(b: &Vec<Pos>) -> (r: i32)
    ensures
        b@.len() == 0 ==> r == -1,
        b@.len() > 0 ==> {
            &&& exists|q: (int, int)| #[trigger] cells(b@).contains(q) && q.1 == r as int
            &&& forall|q: (int, int)| #[trigger] cells(b@).contains(q) ==> r as int <= q.1
            &&& r as int == least_y(cells(b@))
        },
{
    if b.len() == 0 {
        return -1;
    }
    let mut m = b[0].1;
    let mut i: usize = 1;
    while i < b.len()
        invariant
            1 <= i <= b@.len(),
            exists|k: int| 0 <= k < i && coords(#[trigger] b@[k]).1 == m as int,
            forall|k: int| 0 <= k < i ==> m as int <= coords(#[trigger] b@[k]).1,
        decreases b@.len() - i,
    {
        if b[i].1 < m {
            m = b[i].1;
        }
        i = i + 1;
    }
    proof {
        lemma_bounds_from_indices(b@, m as int, false, false);
    }
    m
}

/// The greatest y-coordinate among the live cells of `b`, or `-1` on an
/// empty board.
pub fn find_max_y(b: &Vec<Pos>) -> (r: i32)
    ensures
        b@.len() == 0 ==> r == -1,
        b@.len() > 0 ==> {
            &&& exists|q: (int, int)| #[trigger] cells(b@).contains(q) && q.1 == r as int
            &&& forall|q: (int, int)| #[trigger] cells(b@).contains(q) ==> q.1 <= r as int
            &&& r as int == greatest_y(cells(b@))
        },
{
    if b.len() == 0 {
        return -1;
    }
    let mut m = b[0].1;
    let mut i: usize = 1;
    while i < b.len()
        invariant
            1 <= i <= b@.len(),
            exists|k: int| 0 <= k < i && coords(#[trigger] b@[k]).1 == m as int,
            forall|k: int| 0 <= k < i ==> coords(#[trigger] b@[k]).1 <= m as int,
        decreases b@.len() - i,
    {
        if b[i].1 > m {
            m = b[i].1;
        }
        i = i + 1;
    }
    proof {
        lemma_bounds_from_indices(b@, m as int, false, true);
    }
    m
}

/// Turns an index-wise bound on one axis of a board into the set-phrased
/// bound and the pinned least/greatest value of that axis.
proof fn lemma_bounds_from_indices(b: Seq<Pos>, m: int, on_x: bool, upper: bool)
    requires
        b.len() > 0,
        on_x && !upper ==> (exists|k: int| 0 <= k < b.len() && coords(#[trigger] b[k]).0 == m)
            && (forall|k: int| 0 <= k < b.len() ==> m <= coords(#[trigger] b[k]).0),
        on_x && upper ==> (exists|k: int| 0 <= k < b.len() && coords(#[trigger] b[k]).0 == m)
            && (forall|k: int| 0 <= k < b.len() ==> coords(#[trigger] b[k]).0 <= m),
        !on_x && !upper ==> (exists|k: int| 0 <= k < b.len() && coords(#[trigger] b[k]).1 == m)
            && (forall|k: int| 0 <= k < b.len() ==> m <= coords(#[trigger] b[k]).1),
        !on_x && upper ==> (exists|k: int| 0 <= k < b.len() && coords(#[trigger] b[k]).1 == m)
            && (forall|k: int| 0 <= k < b.len() ==> coords(#[trigger] b[k]).1 <= m),
    ensures
        on_x && !upper ==> (exists|q: (int, int)| #[trigger] cells(b).contains(q) && q.0 == m) && (
        forall|q: (int, int)| #[trigger] cells(b).contains(q) ==> m <= q.0) && least_x(cells(b))
            == m,
        on_x && upper ==> (exists|q: (int, int)| #[trigger] cells(b).contains(q) && q.0 == m) && (
        forall|q: (int, int)| #[trigger] cells(b).contains(q) ==> q.0 <= m) && greatest_x(cells(b))
            == m,
        !on_x && !upper ==> (exists|q: (int, int)| #[trigger] cells(b).contains(q) && q.1 == m) && (
        forall|q: (int, int)| #[trigger] cells(b).contains(q) ==> m <= q.1) && least_y(cells(b))
            == m,
        !on_x && upper ==> (exists|q: (int, int)| #[trigger] cells(b).contains(q) && q.1 == m) && (
        forall|q: (int, int)| #[trigger] cells(b).contains(q) ==> q.1 <= m) && greatest_y(cells(b))
            == m,
{
    let s = cells(b);
    assert forall|q: (int, int)| #[trigger] s.contains(q) implies exists|k: int|
        0 <= k < b.len() && coords(#[trigger] b[k]) == q by {
        lemma_cells_contains(b, q);
    }
    if on_x && !upper {
        let k = choose|k: int| 0 <= k < b.len() && coords(#[trigger] b[k]).0 == m;
        lemma_cells_contains(b, coords(b[k]));
        assert(s.contains(coords(b[k])) && coords(b[k]).0 == m);
        assert forall|q: (int, int)| #[trigger] s.contains(q) implies m <= q.0 by {
            let j = choose|j: int| 0 <= j < b.len() && coords(#[trigger] b[j]) == q;
            assert(m <= coords(b[j]).0);
        }
        lemma_least_x_pins(s, m);
    }
    if on_x && upper {
        let k = choose|k: int| 0 <= k < b.len() && coords(#[trigger] b[k]).0 == m;
        lemma_cells_contains(b, coords(b[k]));
        assert(s.contains(coords(b[k])) && coords(b[k]).0 == m);
        assert forall|q: (int, int)| #[trigger] s.contains(q) implies q.0 <= m by {
            let j = choose|j: int| 0 <= j < b.len() && coords(#[trigger] b[j]) == q;
            assert(coords(b[j]).0 <= m);
        }
        lemma_greatest_x_pins(s, m);
    }
    if !on_x && !upper {
        let k = choose|k: int| 0 <= k < b.len() && coords(#[trigger] b[k]).1 == m;
        lemma_cells_contains(b, coords(b[k]));
        assert(s.contains(coords(b[k])) && coords(b[k]).1 == m);
        assert forall|q: (int, int)| #[trigger] s.contains(q) implies m <= q.1 by {
            let j = choose|j: int| 0 <= j < b.len() && coords(#[trigger] b[j]) == q;
            assert(m <= coords(b[j]).1);
        }
        lemma_least_y_pins(s, m);
    }
    if !on_x && upper {
        let k = choose|k: int| 0 <= k < b.len() && coords(#[trigger] b[k]).1 == m;
        lemma_cells_contains(b, coords(b[k]));
        assert(s.contains(coords(b[k])) && coords(b[k]).1 == m);
        assert forall|q: (int, int)| #[trigger] s.contains(q) implies q.1 <= m by {
            let j = choose|j: int| 0 <= j < b.len() && coords(#[trigger] b[j]) == q;
            assert(coords(b[j]).1 <= m);
        }
        lemma_greatest_y_pins(s, m);
    }
}

/// A board stays well-formed when a position not already live is pushed.
pub proof fn lemma_distinct_push(b: Seq<Pos>, p: Pos)
    requires
        distinct_cells(b),
        !cells(b).contains(coords(p)),
    ensures
        distinct_cells(b.push(p)),
{
    assert forall|i: int, j: int| 0 <= i < j < b.push(p).len() implies coords(
        #[trigger] b.push(p)[i],
    ) != coords(#[trigger] b.push(p)[j]) by {
        if j == b.len() {
            lemma_cells_contains(b, coords(b[i]));
        }
    }
}

/// Counting the neighbours of `p` never counts `p` itself: `p` is not
/// among its own neighbour cells, and removing `p` from the board leaves
/// its neighbour count unchanged.
pub proof fn lemma_neighbours_exclude_self(s: Set<(int, int)>, p: (int, int))
    ensures
        !neighbour_cells(s, p).contains(p),
        neighbour_count(s, p) == neighbour_count(s.remove(p), p),
{
    broadcast use vstd::set::group_set_axioms;

    assert(neighbour_cells(s.remove(p), p) =~= neighbour_cells(s, p));
}

/// Whether `p` is a live cell of `b`.
pub fn contains_pos(b: &Vec<Pos>, p: &Pos) -> (r: bool)
    ensures
        r == cells(b@).contains(coords(*p)),
{
    let mut i: usize = 0;
    while i < b.len()
        invariant
            i <= b@.len(),
            forall|k: int| 0 <= k < i ==> coords(#[trigger] b@[k]) != coords(*p),
        decreases b@.len() - i,
    {
        if b[i].0 == p.0 && b[i].1 == p.1 {
            proof {
                lemma_cells_contains(b@, coords(*p));
            }
            return true;
        }
        i = i + 1;
    }
    proof {
        lemma_cells_contains(b@, coords(*p));
    }
    false
}

/// Counts the live cells of `b` in the 8 positions around `p`
/// (Chebyshev distance 1), `p` itself excluded.
pub fn neighbours(p: &Pos, b: &Vec<Pos>) -> (n: usize)
    requires
        distinct_cells(b@),
    ensures
        n == neighbour_count(cells(b@), coords(*p)),
        n <= 8,
{
    let ghost pt = coords(*p);
    let mut count: usize = 0;
    let mut i: usize = 0;
    proof {
        assert(b@.take(0) =~= Seq::<Pos>::empty());
        assert(cells(b@.take(0)) =~= Set::<(int, int)>::empty()) by {
            lemma_cells_contains(b@.take(0), pt);
            assert forall|q: (int, int)| !cells(b@.take(0)).contains(q) by {
                lemma_cells_contains(b@.take(0), q);
            }
        }
        assert(neighbour_cells(Set::<(int, int)>::empty(), pt) =~= Set::<(int, int)>::empty());
        assert(Set::<(int, int)>::empty().len() == 0) by {
            broadcast use vstd::set::group_set_axioms;

        }
    }
    while i < b.len()
        invariant
            i <= b@.len(),
            distinct_cells(b@),
            count == neighbour_count(cells(b@.take(i as int)), pt),
            pt == coords(*p),
            count <= i,
        decreases b@.len() - i,
    {
        let q = b[i];
        proof {
            lemma_prefix_count_step(b@, i as int, pt);
        }
        let dx = q.0 as i64 - p.0 as i64;
        let dy = q.1 as i64 - p.1 as i64;
        if dx >= -1 && dx <= 1 && dy >= -1 && dy <= 1 && !(q.0 == p.0 && q.1 == p.1) {
            count = count + 1;
        }
        i = i + 1;
    }
    proof {
        assert(b@.take(b@.len() as int) =~= b@);
        lemma_cells_finite(b@);
        lemma_neighbour_count_le_8(cells(b@), pt);
    }
    count
}

} // verus!
