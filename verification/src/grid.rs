//! The mathematical model of a position: a square grid of points, adjacency,
//! groups and their borders.

use vstd::prelude::*;
use vstd::set_lib::lemma_len_subset;
use crate::stone::{Point, spec_opposite};

verus! {

/// A position as a sequence of columns; `g[x][y]` is the point at column `x`, row `y`.
pub type Grid = Seq<Seq<Point>>;

/// A coordinate `(x, y)`.
pub type Coord = (usize, usize);

/// A grid that a board can hold: square, not empty, small enough to count its cells.
pub open spec fn valid_grid(g: Grid) -> bool {
    &&& 0 < g.len()
    &&& g.len() * g.len() <= i32::MAX
    &&& forall|x: int| 0 <= x < g.len() ==> (#[trigger] g[x]).len() == g.len()
}

/// `c` lies on a board of side `n`.
pub open spec fn on_board(n: nat, c: Coord) -> bool {
    c.0 < n && c.1 < n
}

/// The point that `g` holds at `c`.
pub open spec fn cell(g: Grid, c: Coord) -> Point {
    g[c.0 as int][c.1 as int]
}

/// `g` with the point at `c` replaced by `p`.
pub open spec fn place(g: Grid, c: Coord, p: Point) -> Grid {
    g.update(c.0 as int, g[c.0 as int].update(c.1 as int, p))
}

/// `g` with every point of `s` made empty.
pub open spec fn clear(g: Grid, s: Set<Coord>) -> Grid {
    Seq::new(
        g.len(),
        |x: int|
            Seq::new(
                g[x].len(),
                |y: int|
                    if s.contains((x as usize, y as usize)) {
                        Point::Empty
                    } else {
                        g[x][y]
                    },
            ),
    )
}

/// The grid of side `n` with no stone on it.
pub open spec fn empty_grid(n: nat) -> Grid {
    Seq::new(n, |x: int| Seq::new(n, |y: int| Point::Empty))
}

/// `a` and `b` are next to each other along a line of the board.
pub open spec fn adjacent(a: Coord, b: Coord) -> bool {
    ||| (a.0 == b.0 && (a.1 + 1 == b.1 || b.1 + 1 == a.1))
    ||| (a.1 == b.1 && (a.0 + 1 == b.0 || b.0 + 1 == a.0))
}

/// The neighbour of `c` in direction `k` on a board of side `n`, where it lies on
/// the board: 0 is left, 1 right, 2 top, 3 bottom.
pub open spec fn neighbor(n: nat, c: Coord, k: int) -> Option<Coord> {
    if k == 0 {
        if 0 < c.0 <= n && c.1 < n {
            Some(((c.0 - 1) as usize, c.1))
        } else {
            None
        }
    } else if k == 1 {
        if c.0 + 1 < n && c.1 < n {
            Some(((c.0 + 1) as usize, c.1))
        } else {
            None
        }
    } else if k == 2 {
        if 0 < c.1 <= n && c.0 < n {
            Some((c.0, (c.1 - 1) as usize))
        } else {
            None
        }
    } else if k == 3 {
        if c.1 + 1 < n && c.0 < n {
            Some((c.0, (c.1 + 1) as usize))
        } else {
            None
        }
    } else {
        None
    }
}

/// The neighbours of a point are the adjacent points that lie on the board.
pub proof fn lemma_neighbor_adjacent(n: nat, b: Coord, c: Coord)
    requires
        n <= usize::MAX,
    ensures
        (on_board(n, c) && adjacent(b, c)) <==> (exists|k: int|
            0 <= k < 4 && #[trigger] neighbor(n, b, k) == Some(c)),
{
    if on_board(n, c) && adjacent(b, c) {
        if b.1 == c.1 && c.0 + 1 == b.0 {
            assert(neighbor(n, b, 0) == Some(c));
        } else if b.1 == c.1 && b.0 + 1 == c.0 {
            assert(neighbor(n, b, 1) == Some(c));
        } else if b.0 == c.0 && c.1 + 1 == b.1 {
            assert(neighbor(n, b, 2) == Some(c));
        } else {
            assert(neighbor(n, b, 3) == Some(c));
        }
    }
    if exists|k: int| 0 <= k < 4 && #[trigger] neighbor(n, b, k) == Some(c) {
        let k = choose|k: int| 0 <= k < 4 && #[trigger] neighbor(n, b, k) == Some(c);
        assert(on_board(n, c) && adjacent(b, c));
    }
}

/// A walk over the board, from point to adjacent point, on which every point
/// equals the first.
pub open spec fn is_chain(g: Grid, p: Seq<Coord>) -> bool {
    &&& p.len() > 0
    &&& forall|i: int|
        0 <= i < p.len() ==> on_board(g.len(), #[trigger] p[i]) && cell(g, p[i]) == cell(g, p[0])
    &&& forall|i: int| 0 <= i < p.len() - 1 ==> adjacent(#[trigger] p[i], p[i + 1])
}

/// `a` and `b` lie on the board, hold the same point, and a walk over such
/// points leads from one to the other.
pub open spec fn connected(g: Grid, a: Coord, b: Coord) -> bool {
    exists|p: Seq<Coord>| #[trigger] is_chain(g, p) && p[0] == a && p.last() == b
}

/// The maximal connected area of equal points around `a`: the group of a stone,
/// or a stretch of empty points.
pub open spec fn region(g: Grid, a: Coord) -> Set<Coord> {
    Set::new(|b: Coord| connected(g, a, b))
}

/// The points next to the region of `a` that differ from it.
pub open spec fn border(g: Grid, a: Coord) -> Set<Coord> {
    Set::new(
        |c: Coord|
            on_board(g.len(), c) && cell(g, c) != cell(g, a) && exists|b: Coord|
                #[trigger] connected(g, a, b) && adjacent(b, c),
    )
}

/// The empty points next to the region of `a`: the liberties of a group.
pub open spec fn liberties_of(g: Grid, a: Coord) -> Set<Coord> {
    Set::new(|c: Coord| border(g, a).contains(c) && cell(g, c) == Point::Empty)
}

/// The stones that a stone just placed at `c` takes off the board: every group
/// of the other colour that is next to `c` and has no liberty left.
pub open spec fn captured(g: Grid, c: Coord) -> Set<Coord> {
    captured_upto(g, c, 4)
}

/// The stones taken through the first `k` sides of `c`.
pub open spec fn captured_upto(g: Grid, c: Coord, k: int) -> Set<Coord> {
    Set::new(|d: Coord| exists|j: int| 0 <= j < k && #[trigger] takes(g, c, j, d))
}

/// The stone at `d` belongs to a group without liberties that faces the stone at
/// `c` through side `j` of `c`.
pub open spec fn takes(g: Grid, c: Coord, j: int, d: Coord) -> bool {
    match neighbor(g.len(), c, j) {
        Some(m) => {
            &&& spec_opposite(cell(g, c)) == Some(cell(g, m))
            &&& liberties_of(g, m).len() == 0
            &&& connected(g, m, d)
        },
        None => false,
    }
}

/// The points of the board that hold `p`.
pub open spec fn stones_of(g: Grid, p: Point) -> Set<Coord> {
    Set::new(|c: Coord| on_board(g.len(), c) && cell(g, c) == p)
}

/// The region of `c` has a point of kind `p` on its border.
pub open spec fn touches(g: Grid, c: Coord, p: Point) -> bool {
    exists|d: Coord| #[trigger] border(g, c).contains(d) && cell(g, d) == p
}

/// The empty points whose region borders on black stones and on no white one.
pub open spec fn black_territory(g: Grid) -> Set<Coord> {
    Set::new(
        |c: Coord|
            on_board(g.len(), c) && cell(g, c) == Point::Empty && touches(g, c, Point::Black)
                && !touches(g, c, Point::White),
    )
}

/// The empty points whose region borders on white stones and on no black one.
pub open spec fn white_territory(g: Grid) -> Set<Coord> {
    Set::new(
        |c: Coord|
            on_board(g.len(), c) && cell(g, c) == Point::Empty && touches(g, c, Point::White)
                && !touches(g, c, Point::Black),
    )
}

/// The empty points that belong to neither side: their region borders on both
/// colours, or on no stone at all.
pub open spec fn neutral_points(g: Grid) -> Set<Coord> {
    Set::new(
        |c: Coord|
            on_board(g.len(), c) && cell(g, c) == Point::Empty && (touches(g, c, Point::Black)
                == touches(g, c, Point::White)),
    )
}

/// The area of Black: the black stones and Black's territory.
pub open spec fn black_area(g: Grid) -> nat {
    stones_of(g, Point::Black).len() + black_territory(g).len()
}

/// The area of White: the white stones and White's territory.
pub open spec fn white_area(g: Grid) -> nat {
    stones_of(g, Point::White).len() + white_territory(g).len()
}

/// How many of the points of `s` hold `p`.
pub open spec fn count_of(g: Grid, s: Seq<Coord>, p: Point) -> nat
    decreases s.len(),
{
    if s.len() == 0 {
        0
    } else {
        count_of(g, s.drop_last(), p) + if cell(g, s.last()) == p {
            1nat
        } else {
            0nat
        }
    }
}

/// Every point of the board before `(x, y)`, columns first and each column from
/// the top.
pub open spec fn scanned(n: nat, x: int, y: int) -> Set<Coord> {
    Set::new(|c: Coord| on_board(n, c) && (c.0 < x || (c.0 == x && c.1 < y)))
}

/// `c` is the first empty point of `g`, columns first and each column from the
/// top.
pub open spec fn first_empty(g: Grid, c: Coord) -> bool {
    &&& on_board(g.len(), c)
    &&& cell(g, c) == Point::Empty
    &&& forall|d: Coord|
        #[trigger] scanned(g.len(), c.0 as int, c.1 as int).contains(d) ==> cell(g, d)
            != Point::Empty
}

/// Every point of a board of side `n`.
pub open spec fn board_cells(n: nat) -> Set<Coord> {
    Set::new(|c: Coord| on_board(n, c))
}

/// The side of a valid grid fits the machine's integers.
pub proof fn lemma_valid_side(g: Grid)
    requires
        valid_grid(g),
    ensures
        g.len() <= i32::MAX,
        g.len() <= usize::MAX,
{
    assert(g.len() <= g.len() * g.len()) by (nonlinear_arith)
        requires
            g.len() >= 1,
    ;
}

/// Every point of the board is connected to itself.
pub proof fn lemma_connected_refl(g: Grid, a: Coord)
    requires
        on_board(g.len(), a),
    ensures
        connected(g, a, a),
{
    let p = seq![a];
    assert(is_chain(g, p) && p[0] == a && p.last() == a);
}

/// Connected points lie on the board and hold the same point.
pub proof fn lemma_connected_same(g: Grid, a: Coord, b: Coord)
    requires
        connected(g, a, b),
    ensures
        on_board(g.len(), a),
        on_board(g.len(), b),
        cell(g, a) == cell(g, b),
{
    let p = choose|p: Seq<Coord>| #[trigger] is_chain(g, p) && p[0] == a && p.last() == b;
    assert(on_board(g.len(), p[0]));
    assert(on_board(g.len(), p[p.len() - 1]));
}

/// A point stays connected to what lies one step further on an equal point.
pub proof fn lemma_connected_step(g: Grid, a: Coord, b: Coord, c: Coord)
    requires
        connected(g, a, b),
        adjacent(b, c),
        on_board(g.len(), c),
        cell(g, c) == cell(g, a),
    ensures
        connected(g, a, c),
{
    let p = choose|p: Seq<Coord>| #[trigger] is_chain(g, p) && p[0] == a && p.last() == b;
    let q = p.push(c);
    assert forall|i: int| 0 <= i < q.len() - 1 implies adjacent(#[trigger] q[i], q[i + 1]) by {
        if i < p.len() - 1 {
            assert(q[i] == p[i] && q[i + 1] == p[i + 1]);
        }
    }
    assert(is_chain(g, q) && q[0] == a && q.last() == c);
}

/// A walk can be taken backwards.
pub proof fn lemma_connected_sym(g: Grid, a: Coord, b: Coord)
    requires
        connected(g, a, b),
    ensures
        connected(g, b, a),
{
    let p = choose|p: Seq<Coord>| #[trigger] is_chain(g, p) && p[0] == a && p.last() == b;
    let q = Seq::new(p.len(), |i: int| p[p.len() - 1 - i]);
    assert(cell(g, p[p.len() - 1]) == cell(g, p[0]));
    assert forall|i: int| 0 <= i < q.len() implies on_board(g.len(), #[trigger] q[i]) && cell(
        g,
        q[i],
    ) == cell(g, q[0]) by {
        assert(q[i] == p[p.len() - 1 - i]);
    }
    assert forall|i: int| 0 <= i < q.len() - 1 implies adjacent(#[trigger] q[i], q[i + 1]) by {
        let j = p.len() - 2 - i;
        assert(adjacent(p[j], p[j + 1]));
    }
    assert(is_chain(g, q) && q[0] == b && q.last() == a);
}

/// Two walks that meet make one.
pub proof fn lemma_connected_trans(g: Grid, a: Coord, b: Coord, c: Coord)
    requires
        connected(g, a, b),
        connected(g, b, c),
    ensures
        connected(g, a, c),
{
    let p = choose|p: Seq<Coord>| #[trigger] is_chain(g, p) && p[0] == a && p.last() == b;
    let r = choose|r: Seq<Coord>| #[trigger] is_chain(g, r) && r[0] == b && r.last() == c;
    let m = p.len() - 1;
    let q = p.drop_last() + r;
    assert(cell(g, p[m]) == cell(g, p[0]));
    assert forall|i: int| 0 <= i < q.len() implies on_board(g.len(), #[trigger] q[i]) && cell(
        g,
        q[i],
    ) == cell(g, q[0]) by {
        if i < m {
            assert(q[i] == p[i]);
        } else {
            assert(q[i] == r[i - m]);
        }
        if 0 < m {
            assert(q[0] == p[0]);
        } else {
            assert(q[0] == r[0]);
        }
    }
    assert forall|i: int| 0 <= i < q.len() - 1 implies adjacent(#[trigger] q[i], q[i + 1]) by {
        if i < m {
            assert(adjacent(p[i], p[i + 1]));
            assert(q[i] == p[i]);
            if i + 1 < m {
                assert(q[i + 1] == p[i + 1]);
            } else {
                assert(q[i + 1] == r[0]);
            }
        } else {
            let j = i - m;
            assert(adjacent(r[j], r[j + 1]));
            assert(q[i] == r[j] && q[i + 1] == r[j + 1]);
        }
    }
    assert(q[0] == a);
    assert(q.last() == c);
    assert(is_chain(g, q));
}

/// A set that holds `a` and, with each of its points, the adjacent points equal
/// to `a`, holds the whole region of `a`.
pub proof fn lemma_region_within(g: Grid, a: Coord, s: Set<Coord>, b: Coord)
    requires
        s.contains(a),
        forall|u: Coord, v: Coord|
            #![trigger s.contains(u), adjacent(u, v)]
            s.contains(u) && adjacent(u, v) && on_board(g.len(), v) && cell(g, v) == cell(g, a)
                ==> s.contains(v),
        connected(g, a, b),
    ensures
        s.contains(b),
{
    let p = choose|p: Seq<Coord>| #[trigger] is_chain(g, p) && p[0] == a && p.last() == b;
    lemma_chain_within(g, p, s, p.len() - 1);
}

/// Such a set holds every point of a walk that starts in it.
proof fn lemma_chain_within(g: Grid, p: Seq<Coord>, s: Set<Coord>, i: int)
    requires
        is_chain(g, p),
        s.contains(p[0]),
        forall|u: Coord, v: Coord|
            #![trigger s.contains(u), adjacent(u, v)]
            s.contains(u) && adjacent(u, v) && on_board(g.len(), v) && cell(g, v) == cell(g, p[0])
                ==> s.contains(v),
        0 <= i < p.len(),
    ensures
        s.contains(p[i]),
    decreases i,
{
    if i > 0 {
        lemma_chain_within(g, p, s, i - 1);
        assert(adjacent(p[i - 1], p[i - 1 + 1]));
        assert(on_board(g.len(), p[i]) && cell(g, p[i]) == cell(g, p[0]));
    }
}

/// Two connected points have the same region and the same border.
pub proof fn lemma_region_shared(g: Grid, a: Coord, b: Coord)
    requires
        connected(g, a, b),
    ensures
        region(g, a) == region(g, b),
        border(g, a) == border(g, b),
        liberties_of(g, a) == liberties_of(g, b),
{
    lemma_connected_sym(g, a, b);
    lemma_connected_same(g, a, b);
    assert forall|c: Coord| connected(g, a, c) <==> connected(g, b, c) by {
        if connected(g, a, c) {
            lemma_connected_trans(g, b, a, c);
        }
        if connected(g, b, c) {
            lemma_connected_trans(g, a, b, c);
        }
    }
    assert(region(g, a) =~= region(g, b));
    assert forall|c: Coord| border(g, a).contains(c) <==> border(g, b).contains(c) by {
        if border(g, a).contains(c) {
            let u = choose|u: Coord| #[trigger] connected(g, a, u) && adjacent(u, c);
            assert(connected(g, b, u));
        }
        if border(g, b).contains(c) {
            let u = choose|u: Coord| #[trigger] connected(g, b, u) && adjacent(u, c);
            assert(connected(g, a, u));
        }
    }
    assert(border(g, a) =~= border(g, b));
}

/// The points before `(x, y)` number `x * n + y`.
pub proof fn lemma_scanned_len(n: nat, x: int, y: int)
    requires
        n <= usize::MAX,
        (0 <= x < n && 0 <= y <= n) || (x == n && y == 0),
    ensures
        scanned(n, x, y).finite(),
        scanned(n, x, y).len() == x * n + y,
    decreases x, y,
{
    if y > 0 {
        lemma_scanned_len(n, x, y - 1);
        let c: Coord = (x as usize, (y - 1) as usize);
        assert(scanned(n, x, y) =~= scanned(n, x, y - 1).insert(c));
        assert(!scanned(n, x, y - 1).contains(c));
        assert(scanned(n, x, y).len() == x * n + y);
    } else if x > 0 {
        lemma_scanned_len(n, x - 1, n as int);
        assert(scanned(n, x, 0) =~= scanned(n, x - 1, n as int));
        assert((x - 1) * n + n == x * n) by (nonlinear_arith);
        assert(scanned(n, x, y).len() == x * n + y);
    } else {
        assert(scanned(n, 0, 0) =~= Set::<Coord>::empty());
        assert(0 * n == 0) by (nonlinear_arith);
        assert(scanned(n, x, y).len() == x * n + y);
    }
}

/// A board of side `n` has `n * n` points.
pub proof fn lemma_board_cells(n: nat)
    requires
        n <= usize::MAX,
    ensures
        board_cells(n).finite(),
        board_cells(n).len() == n * n,
{
    lemma_scanned_len(n, n as int, 0);
    assert(board_cells(n) =~= scanned(n, n as int, 0));
}

/// A set of points of the board is finite and has at most `n * n` elements.
pub proof fn lemma_cells_bounded(n: nat, s: Set<Coord>)
    requires
        n <= usize::MAX,
        forall|c: Coord| s.contains(c) ==> on_board(n, c),
    ensures
        s.finite(),
        s.len() <= n * n,
{
    lemma_board_cells(n);
    lemma_len_subset(s, board_cells(n));
}

/// Distinct points of the board number at most `n * n`.
pub proof fn lemma_distinct_cells_bounded(n: nat, s: Seq<Coord>)
    requires
        n <= usize::MAX,
        s.no_duplicates(),
        forall|i: int| 0 <= i < s.len() ==> on_board(n, #[trigger] s[i]),
    ensures
        s.len() <= n * n,
        s.to_set().finite(),
        s.to_set().len() == s.len(),
{
    s.unique_seq_to_set();
    lemma_cells_bounded(n, s.to_set());
}

} // verus!
