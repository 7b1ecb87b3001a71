//! Scoring: stones, territory and area.

use vstd::prelude::*;
use vstd::set_lib::lemma_set_disjoint_lens;
use crate::stone::Point;
use crate::board::Board;
use crate::region::{flags, square, marked, mark, blank_marks};
use crate::grid::{
    Grid, Coord, valid_grid, on_board, cell, connected, region, border, scanned, board_cells,
    stones_of, touches, black_territory, white_territory, neutral_points, black_area, white_area,
    count_of, lemma_connected_refl, lemma_valid_side, lemma_connected_same, lemma_connected_sym,
    lemma_connected_trans, lemma_region_shared, lemma_scanned_len, lemma_board_cells,
    lemma_cells_bounded, lemma_distinct_cells_bounded,
};

verus! {

/// The points before `(x, y)` that hold `p`.
pub open spec fn stones_before(g: Grid, p: Point, x: int, y: int) -> Set<Coord> {
    Set::new(|c: Coord| scanned(g.len(), x, y).contains(c) && cell(g, c) == p)
}

/// One point further, the stones counted grow by one where that point holds one.
proof fn lemma_stones_next(g: Grid, p: Point, x: int, y: int)
    requires
        valid_grid(g),
        0 <= x < g.len(),
        0 <= y < g.len(),
    ensures
        stones_before(g, p, x, y).finite(),
        stones_before(g, p, x, y).len() <= x * g.len() + y,
        x * g.len() + y < g.len() * g.len(),
        stones_before(g, p, x, y + 1).len() == stones_before(g, p, x, y).len() + if cell(
            g,
            (x as usize, y as usize),
        ) == p {
            1nat
        } else {
            0nat
        },
{
    lemma_valid_side(g);
    let n = g.len();
    let c: Coord = (x as usize, y as usize);
    let s = stones_before(g, p, x, y);
    let t = stones_before(g, p, x, y + 1);
    lemma_scanned_len(n, x, y);
    vstd::set_lib::lemma_len_subset(s, scanned(n, x, y));
    assert(x * n + y < n * n) by (nonlinear_arith)
        requires
            0 <= x < n,
            0 <= y < n,
    ;
    if cell(g, c) == p {
        assert(t =~= s.insert(c));
    } else {
        assert(t =~= s);
    }
}

/// The end of a column is the start of the next, and the end of the last
/// column is the whole board.
proof fn lemma_stones_row(g: Grid, p: Point, x: int)
    requires
        0 <= x < g.len(),
    ensures
        stones_before(g, p, x, g.len() as int) == stones_before(g, p, x + 1, 0),
        x + 1 == g.len() ==> stones_before(g, p, x + 1, 0) == stones_of(g, p),
{
    assert(stones_before(g, p, x, g.len() as int) =~= stones_before(g, p, x + 1, 0));
    if x + 1 == g.len() {
        assert(stones_before(g, p, x + 1, 0) =~= stones_of(g, p));
    }
}

/// The marked points that lie in `t`.
spec fn counted(g: Grid, m: Seq<Seq<bool>>, t: Set<Coord>) -> Set<Coord> {
    Set::new(|c: Coord| on_board(g.len(), c) && marked(m, c) && t.contains(c))
}

/// A class of empty points that holds all of a region or none of it.
spec fn by_region(g: Grid, t: Set<Coord>) -> bool {
    &&& forall|c: Coord| t.contains(c) ==> on_board(g.len(), c) && cell(g, c) == Point::Empty
    &&& forall|c: Coord, d: Coord| #[trigger] connected(g, c, d) ==> (t.contains(c) <==> t.contains(d))
}

/// The territory of each colour and the neutral points are classes by region.
proof fn lemma_classes_by_region(g: Grid)
    ensures
        by_region(g, black_territory(g)),
        by_region(g, white_territory(g)),
        by_region(g, neutral_points(g)),
{
    assert forall|c: Coord, d: Coord| #[trigger] connected(g, c, d) implies (black_territory(
        g,
    ).contains(c) <==> black_territory(g).contains(d)) && (white_territory(g).contains(c)
        <==> white_territory(g).contains(d)) && (neutral_points(g).contains(c)
        <==> neutral_points(g).contains(d)) by {
        lemma_connected_same(g, c, d);
        lemma_region_shared(g, c, d);
    }
}

/// What holds of a sweep over the empty regions that has come to `(x, y)`.
#[verifier::opaque]
spec fn sweeping(g: Grid, m: Seq<Seq<bool>>, x: int, y: int, b: int, w: int, u: int) -> bool {
    let n = g.len();
    &&& valid_grid(g)
    &&& n <= usize::MAX
    &&& square(m, n)
    &&& forall|c: Coord| on_board(n, c) && #[trigger] marked(m, c) ==> cell(g, c) == Point::Empty
    &&& forall|c: Coord, d: Coord|
        on_board(n, c) && marked(m, c) && #[trigger] connected(g, c, d) ==> marked(m, d)
    &&& forall|c: Coord|
        #[trigger] scanned(n, x, y).contains(c) && cell(g, c) == Point::Empty ==> marked(m, c)
    &&& b == counted(g, m, black_territory(g)).len()
    &&& w == counted(g, m, white_territory(g)).len()
    &&& u == counted(g, m, neutral_points(g)).len()
}

/// A sweep starts with nothing marked and nothing counted.
proof fn lemma_sweep_start(g: Grid, m: Seq<Seq<bool>>)
    requires
        valid_grid(g),
        square(m, g.len()),
        forall|c: Coord| on_board(g.len(), c) ==> !#[trigger] marked(m, c),
    ensures
        sweeping(g, m, 0, 0, 0, 0, 0),
{
    lemma_valid_side(g);
    reveal(sweeping);
    assert(counted(g, m, black_territory(g)) =~= Set::<Coord>::empty());
    assert(counted(g, m, white_territory(g)) =~= Set::<Coord>::empty());
    assert(counted(g, m, neutral_points(g)) =~= Set::<Coord>::empty());
    assert forall|c: Coord, d: Coord|
        on_board(g.len(), c) && marked(m, c) && #[trigger] connected(g, c, d) implies marked(
        m,
        d,
    ) by {}
}

/// Under way the marks cover the board and each count is at most the board.
proof fn lemma_sweep_shape(g: Grid, m: Seq<Seq<bool>>, x: int, y: int, b: int, w: int, u: int)
    requires
        sweeping(g, m, x, y, b, w, u),
    ensures
        square(m, g.len()),
        0 <= b <= g.len() * g.len(),
        0 <= w <= g.len() * g.len(),
        0 <= u <= g.len() * g.len(),
{
    reveal(sweeping);
    lemma_cells_bounded(g.len(), counted(g, m, black_territory(g)));
    lemma_cells_bounded(g.len(), counted(g, m, white_territory(g)));
    lemma_cells_bounded(g.len(), counted(g, m, neutral_points(g)));
}

/// A stone, or an empty point marked before, is passed over.
proof fn lemma_sweep_pass(g: Grid, m: Seq<Seq<bool>>, x: int, y: int, b: int, w: int, u: int)
    requires
        sweeping(g, m, x, y, b, w, u),
        0 <= x < g.len(),
        0 <= y < g.len(),
        cell(g, (x as usize, y as usize)) != Point::Empty || marked(m, (x as usize, y as usize)),
    ensures
        sweeping(g, m, x, y + 1, b, w, u),
{
    reveal(sweeping);
    let n = g.len();
    assert forall|c: Coord|
        #[trigger] scanned(n, x, y + 1).contains(c) && cell(g, c) == Point::Empty implies marked(
        m,
        c,
    ) by {
        if c != (x as usize, y as usize) {
            assert(scanned(n, x, y).contains(c));
        }
    }
}

/// The end of a column is the start of the next.
proof fn lemma_sweep_row(g: Grid, m: Seq<Seq<bool>>, x: int, b: int, w: int, u: int)
    requires
        sweeping(g, m, x, g.len() as int, b, w, u),
        0 <= x < g.len(),
    ensures
        sweeping(g, m, x + 1, 0, b, w, u),
{
    reveal(sweeping);
    let n = g.len();
    assert forall|c: Coord|
        #[trigger] scanned(n, x + 1, 0).contains(c) && cell(g, c) == Point::Empty implies marked(
        m,
        c,
    ) by {
        assert(scanned(n, x, n as int).contains(c));
    }
}

/// Marking a fresh region adds its size to the count of the class that holds it.
proof fn lemma_count_region(
    g: Grid,
    m0: Seq<Seq<bool>>,
    m1: Seq<Seq<bool>>,
    seed: Coord,
    area: Seq<Coord>,
    t: Set<Coord>,
)
    requires
        valid_grid(g),
        by_region(g, t),
        on_board(g.len(), seed),
        area.no_duplicates(),
        area.to_set() == region(g, seed),
        forall|c: Coord| area.contains(c) ==> !marked(m0, c),
        forall|c: Coord|
            on_board(g.len(), c) ==> (#[trigger] marked(m1, c) <==> (marked(m0, c) || area.contains(
                c,
            ))),
    ensures
        counted(g, m1, t).finite(),
        counted(g, m1, t).len() <= g.len() * g.len(),
        counted(g, m1, t).len() == counted(g, m0, t).len() + if t.contains(seed) {
            area.len()
        } else {
            0
        },
{
    lemma_valid_side(g);
    let n = g.len();
    let old_set = counted(g, m0, t);
    let new_set = counted(g, m1, t);
    lemma_cells_bounded(n, old_set);
    lemma_cells_bounded(n, new_set);
    assert forall|c: Coord| area.contains(c) implies on_board(n, c) && (t.contains(c)
        <==> t.contains(seed)) by {
        assert(area.to_set().contains(c));
        lemma_connected_same(g, seed, c);
    }
    if t.contains(seed) {
        assert forall|i: int| 0 <= i < area.len() implies on_board(n, #[trigger] area[i]) by {
            assert(area.contains(area[i]));
        }
        lemma_distinct_cells_bounded(n, area);
        assert(new_set =~= old_set + area.to_set());
        assert(old_set.disjoint(area.to_set()));
        lemma_set_disjoint_lens(old_set, area.to_set());
    } else {
        assert(new_set =~= old_set);
    }
}

/// A list holds a point of kind `p` exactly where its count of them is positive.
proof fn lemma_count_positive(g: Grid, s: Seq<Coord>, p: Point)
    ensures
        count_of(g, s, p) > 0 <==> exists|i: int| 0 <= i < s.len() && cell(g, #[trigger] s[i]) == p,
        count_of(g, s, p) <= s.len(),
    decreases s.len(),
{
    if s.len() > 0 {
        let t = s.drop_last();
        lemma_count_positive(g, t, p);
        if count_of(g, s, p) > 0 {
            if cell(g, s.last()) == p {
                assert(cell(g, s[s.len() - 1]) == p);
            } else {
                let i = choose|i: int| 0 <= i < t.len() && cell(g, #[trigger] t[i]) == p;
                assert(cell(g, s[i]) == p);
            }
        }
        if exists|i: int| 0 <= i < s.len() && cell(g, #[trigger] s[i]) == p {
            let i = choose|i: int| 0 <= i < s.len() && cell(g, #[trigger] s[i]) == p;
            if i < t.len() {
                assert(cell(g, t[i]) == p);
            }
        }
    }
}

/// A region borders on a colour exactly where the list of its border counts a
/// stone of that colour.
proof fn lemma_touches(g: Grid, seed: Coord, rim: Seq<Coord>, p: Point)
    requires
        rim.to_set() == border(g, seed),
    ensures
        touches(g, seed, p) <==> count_of(g, rim, p) > 0,
{
    lemma_count_positive(g, rim, p);
    if touches(g, seed, p) {
        let d = choose|d: Coord| #[trigger] border(g, seed).contains(d) && cell(g, d) == p;
        assert(rim.to_set().contains(d));
        let i = choose|i: int| 0 <= i < rim.len() && rim[i] == d;
        assert(cell(g, rim[i]) == p);
    }
    if count_of(g, rim, p) > 0 {
        let i = choose|i: int| 0 <= i < rim.len() && cell(g, #[trigger] rim[i]) == p;
        assert(rim.to_set().contains(rim[i]));
    }
}

/// A fresh empty region is marked and counted for the colour that alone stands
/// on its border, or as neutral.
proof fn lemma_sweep_region(
    g: Grid,
    m0: Seq<Seq<bool>>,
    m1: Seq<Seq<bool>>,
    x: int,
    y: int,
    b: int,
    w: int,
    u: int,
    area: Seq<Coord>,
    rim: Seq<Coord>,
)
    requires
        sweeping(g, m0, x, y, b, w, u),
        0 <= x < g.len(),
        0 <= y < g.len(),
        cell(g, (x as usize, y as usize)) == Point::Empty,
        !marked(m0, (x as usize, y as usize)),
        area.no_duplicates(),
        area.to_set() == region(g, (x as usize, y as usize)),
        rim.to_set() == border(g, (x as usize, y as usize)),
        square(m1, g.len()),
        forall|c: Coord|
            on_board(g.len(), c) ==> (#[trigger] marked(m1, c) <==> (marked(m0, c) || area.contains(
                c,
            ))),
    ensures
        area.len() <= g.len() * g.len(),
        ({
            let black_rim = count_of(g, rim, Point::Black) > 0;
            let white_rim = count_of(g, rim, Point::White) > 0;
            let t = area.len() as int;
            if black_rim && !white_rim {
                sweeping(g, m1, x, y + 1, b + t, w, u) && b + t <= g.len() * g.len()
            } else if white_rim && !black_rim {
                sweeping(g, m1, x, y + 1, b, w + t, u) && w + t <= g.len() * g.len()
            } else {
                sweeping(g, m1, x, y + 1, b, w, u + t) && u + t <= g.len() * g.len()
            }
        }),
{
    reveal(sweeping);
    let n = g.len();
    let seed: Coord = (x as usize, y as usize);
    lemma_connected_refl(g, seed);
    assert forall|c: Coord| area.contains(c) implies !marked(m0, c) && on_board(n, c) && cell(
        g,
        c,
    ) == Point::Empty by {
        assert(area.to_set().contains(c));
        lemma_connected_same(g, seed, c);
        if marked(m0, c) {
            lemma_connected_sym(g, seed, c);
            assert(connected(g, c, seed));
        }
    }
    assert forall|i: int| 0 <= i < area.len() implies on_board(n, #[trigger] area[i]) by {
        assert(area.contains(area[i]));
    }
    lemma_distinct_cells_bounded(n, area);
    assert(area.to_set().contains(seed));
    assert(area.contains(seed));
    assert forall|c: Coord| on_board(n, c) && #[trigger] marked(m1, c) implies cell(g, c)
        == Point::Empty by {}
    assert forall|c: Coord, d: Coord|
        on_board(n, c) && marked(m1, c) && #[trigger] connected(g, c, d) implies marked(m1, d) by {
        lemma_connected_same(g, c, d);
        if marked(m0, c) {
            assert(marked(m0, d));
        } else {
            assert(area.to_set().contains(c));
            lemma_connected_trans(g, seed, c, d);
            assert(area.to_set().contains(d));
        }
    }
    assert forall|c: Coord|
        #[trigger] scanned(n, x, y + 1).contains(c) && cell(g, c) == Point::Empty implies marked(
        m1,
        c,
    ) by {
        if c != seed {
            assert(scanned(n, x, y).contains(c));
        }
    }
    lemma_classes_by_region(g);
    lemma_count_region(g, m0, m1, seed, area, black_territory(g));
    lemma_count_region(g, m0, m1, seed, area, white_territory(g));
    lemma_count_region(g, m0, m1, seed, area, neutral_points(g));
    lemma_touches(g, seed, rim, Point::Black);
    lemma_touches(g, seed, rim, Point::White);
}

/// At the end of the board the counts are the territories and the neutral points.
proof fn lemma_sweep_done(g: Grid, m: Seq<Seq<bool>>, b: int, w: int, u: int)
    requires
        sweeping(g, m, g.len() as int, 0, b, w, u),
    ensures
        b == black_territory(g).len(),
        w == white_territory(g).len(),
        u == neutral_points(g).len(),
{
    reveal(sweeping);
    let n = g.len();
    assert forall|c: Coord| on_board(n, c) && cell(g, c) == Point::Empty implies marked(m, c) by {
        assert(scanned(n, n as int, 0).contains(c));
    }
    assert(counted(g, m, black_territory(g)) =~= black_territory(g));
    assert(counted(g, m, white_territory(g)) =~= white_territory(g));
    assert(counted(g, m, neutral_points(g)) =~= neutral_points(g));
}

/// Every point of the board is a black stone, a white stone, black or white
/// territory, or neutral: the two areas and the neutral points add up to the
/// whole board.
pub proof fn lemma_area_partition(g: Grid)
    requires
        valid_grid(g),
    ensures
        black_area(g) + white_area(g) + neutral_points(g).len() == g.len() * g.len(),
{
    lemma_valid_side(g);
    let n = g.len();
    let sb = stones_of(g, Point::Black);
    let sw = stones_of(g, Point::White);
    let tb = black_territory(g);
    let tw = white_territory(g);
    let tn = neutral_points(g);
    lemma_board_cells(n);
    lemma_cells_bounded(n, sb);
    lemma_cells_bounded(n, sw);
    lemma_cells_bounded(n, tb);
    lemma_cells_bounded(n, tw);
    lemma_cells_bounded(n, tn);
    let u1 = sb + sw;
    let u2 = u1 + tb;
    let u3 = u2 + tw;
    let u4 = u3 + tn;
    assert(sb.disjoint(sw));
    lemma_set_disjoint_lens(sb, sw);
    assert(u1.disjoint(tb));
    lemma_set_disjoint_lens(u1, tb);
    assert(u2.disjoint(tw));
    lemma_set_disjoint_lens(u2, tw);
    assert(u3.disjoint(tn));
    lemma_set_disjoint_lens(u3, tn);
    assert forall|c: Coord| board_cells(n).contains(c) implies u4.contains(c) by {
        match cell(g, c) {
            Point::Black => {
                assert(sb.contains(c));
            },
            Point::White => {
                assert(sw.contains(c));
            },
            Point::Empty => {
                assert(tb.contains(c) || tw.contains(c) || tn.contains(c));
            },
        }
    }
    assert(u4 =~= board_cells(n));
}

impl Board {
    /// The numbers of black and of white stones on the board.
    pub fn count_stones(&self) -> (r: (i32, i32))
        requires
            self.wf(),
        ensures
            r.0 == stones_of(self@, Point::Black).len(),
            r.1 == stones_of(self@, Point::White).len(),
    {
        let n = self.size();
        let mut black: i32 = 0;
        let mut white: i32 = 0;
        let mut x: usize = 0;
        proof {
            assert(stones_before(self@, Point::Black, 0, 0) =~= Set::<Coord>::empty());
            assert(stones_before(self@, Point::White, 0, 0) =~= Set::<Coord>::empty());
        }
        while x < n
            invariant
                self.wf(),
                valid_grid(self@),
                n == self@.len(),
                x <= n,
                black == stones_before(self@, Point::Black, x as int, 0).len(),
                white == stones_before(self@, Point::White, x as int, 0).len(),
                x == n ==> stones_before(self@, Point::Black, x as int, 0) == stones_of(
                    self@,
                    Point::Black,
                ) && stones_before(self@, Point::White, x as int, 0) == stones_of(
                    self@,
                    Point::White,
                ),
            decreases n - x,
        {
            let mut y: usize = 0;
            while y < n
                invariant
                    self.wf(),
                    valid_grid(self@),
                    n == self@.len(),
                    x < n,
                    y <= n,
                    black == stones_before(self@, Point::Black, x as int, y as int).len(),
                    white == stones_before(self@, Point::White, x as int, y as int).len(),
                decreases n - y,
            {
                proof {
                    lemma_stones_next(self@, Point::Black, x as int, y as int);
                    lemma_stones_next(self@, Point::White, x as int, y as int);
                }
                match self.get(x, y).unwrap() {
                    Point::Black => {
                        black += 1;
                    },
                    Point::White => {
                        white += 1;
                    },
                    Point::Empty => (),
                }
                y += 1;
            }
            proof {
                lemma_stones_row(self@, Point::Black, x as int);
                lemma_stones_row(self@, Point::White, x as int);
            }
            x += 1;
        }
        (black, white)
    }

    /// The empty points of the board by owner: Black's territory, White's
    /// territory and the neutral points.
    pub fn count_territories(&self) -> (r: (i32, i32, i32))
        requires
            self.wf(),
        ensures
            r.0 == black_territory(self@).len(),
            r.1 == white_territory(self@).len(),
            r.2 == neutral_points(self@).len(),
    {
        let n = self.size();
        let mut visited = blank_marks(n);
        let mut black: u32 = 0;
        let mut white: u32 = 0;
        let mut neutral: u32 = 0;
        proof {
            lemma_sweep_start(self@, flags(visited@));
        }
        let mut x: usize = 0;
        while x < n
            invariant
                self.wf(),
                valid_grid(self@),
                n == self@.len(),
                x <= n,
                sweeping(
                    self@,
                    flags(visited@),
                    x as int,
                    0,
                    black as int,
                    white as int,
                    neutral as int,
                ),
            decreases n - x,
        {
            let mut y: usize = 0;
            while y < n
                invariant
                    self.wf(),
                    valid_grid(self@),
                    n == self@.len(),
                    x < n,
                    y <= n,
                    sweeping(
                        self@,
                        flags(visited@),
                        x as int,
                        y as int,
                        black as int,
                        white as int,
                        neutral as int,
                    ),
                decreases n - y,
            {
                let ghost marks0 = flags(visited@);
                proof {
                    lemma_sweep_shape(
                        self@,
                        marks0,
                        x as int,
                        y as int,
                        black as int,
                        white as int,
                        neutral as int,
                    );
                    assert(marks0[x as int].len() == n);
                }
                let p = self.get(x, y).unwrap();
                if p == Point::Empty && !visited[x][y] {
                    let (area, perimeter) = self.spread(x, y).unwrap();
                    proof {
                        assert forall|i: int| 0 <= i < area@.len() implies on_board(
                            n as nat,
                            #[trigger] area@[i],
                        ) by {
                            assert(area@.to_set().contains(area@[i]));
                            lemma_connected_same(self@, (x, y), area@[i]);
                        }
                        lemma_distinct_cells_bounded(n as nat, area@);
                    }
                    let territory = area.len() as u32;
                    let mut i: usize = 0;
                    while i < area.len()
                        invariant
                            n == self@.len(),
                            i <= area@.len(),
                            square(marks0, n as nat),
                            square(flags(visited@), n as nat),
                            forall|j: int| 0 <= j < area@.len() ==> on_board(n as nat, #[trigger] area@[j]),
                            forall|c: Coord|
                                on_board(n as nat, c) ==> (#[trigger] marked(flags(visited@), c) <==> (
                                marked(marks0, c) || area@.take(i as int).contains(c))),
                        decreases area@.len() - i,
                    {
                        let (ax, ay) = area[i];
                        let ghost marks1 = flags(visited@);
                        assert(on_board(n as nat, area@[i as int]));
                        assert(marks1[ax as int].len() == n);
                        visited[ax][ay] = true;
                        proof {
                            assert(flags(visited@) =~= mark(marks1, (ax, ay)));
                            let t0 = area@.take(i as int);
                            let t1 = area@.take(i + 1);
                            assert forall|c: Coord| t1.contains(c) <==> (t0.contains(c) || c == (
                                ax,
                                ay,
                            )) by {
                                if t1.contains(c) {
                                    let j = choose|j: int| 0 <= j < t1.len() && t1[j] == c;
                                    if j < i {
                                        assert(t0[j] == c);
                                    }
                                }
                                if t0.contains(c) {
                                    let j = choose|j: int| 0 <= j < t0.len() && t0[j] == c;
                                    assert(t1[j] == c);
                                }
                                if c == (ax, ay) {
                                    assert(t1[i as int] == c);
                                }
                            }
                            assert forall|c: Coord| on_board(n as nat, c) implies (#[trigger] marked(
                                flags(visited@),
                                c,
                            ) <==> (marked(marks0, c) || t1.contains(c))) by {
                                assert(marked(marks1, c) <==> (marked(marks0, c) || t0.contains(c)));
                                assert(marked(mark(marks1, (ax, ay)), c) == (marked(marks1, c) || c
                                    == (ax, ay)));
                            }
                        }
                        i += 1;
                    }
                    proof {
                        assert(area@.take(i as int) =~= area@);
                        assert forall|j: int| 0 <= j < perimeter@.len() implies on_board(
                            n as nat,
                            #[trigger] perimeter@[j],
                        ) by {
                            assert(perimeter@.to_set().contains(perimeter@[j]));
                        }
                        lemma_distinct_cells_bounded(n as nat, perimeter@);
                    }
                    let mut black_perimeter: u32 = 0;
                    let mut white_perimeter: u32 = 0;
                    let mut j: usize = 0;
                    while j < perimeter.len()
                        invariant
                            self.wf(),
                            n == self@.len(),
                            j <= perimeter@.len(),
                            perimeter@.len() <= i32::MAX,
                            forall|k: int|
                                0 <= k < perimeter@.len() ==> on_board(n as nat, #[trigger] perimeter@[k]),
                            black_perimeter == count_of(self@, perimeter@.take(j as int), Point::Black),
                            white_perimeter == count_of(self@, perimeter@.take(j as int), Point::White),
                            black_perimeter <= j,
                            white_perimeter <= j,
                        decreases perimeter@.len() - j,
                    {
                        let (px, py) = perimeter[j];
                        assert(on_board(n as nat, perimeter@[j as int]));
                        let p = self.get(px, py).unwrap();
                        proof {
                            let t1 = perimeter@.take(j + 1);
                            assert(t1.drop_last() =~= perimeter@.take(j as int));
                            assert(t1.last() == (px, py));
                            assert(count_of(self@, t1, Point::Black) == count_of(
                                self@,
                                t1.drop_last(),
                                Point::Black,
                            ) + if cell(self@, t1.last()) == Point::Black {
                                1nat
                            } else {
                                0nat
                            });
                            assert(count_of(self@, t1, Point::White) == count_of(
                                self@,
                                t1.drop_last(),
                                Point::White,
                            ) + if cell(self@, t1.last()) == Point::White {
                                1nat
                            } else {
                                0nat
                            });
                        }
                        match p {
                            Point::Black => {
                                black_perimeter += 1;
                            },
                            Point::White => {
                                white_perimeter += 1;
                            },
                            Point::Empty => (),
                        }
                        j += 1;
                    }
                    proof {
                        assert(perimeter@.take(j as int) =~= perimeter@);
                        lemma_sweep_region(
                            self@,
                            marks0,
                            flags(visited@),
                            x as int,
                            y as int,
                            black as int,
                            white as int,
                            neutral as int,
                            area@,
                            perimeter@,
                        );
                    }
                    if black_perimeter == 0 && white_perimeter == 0 {
                        neutral += territory;
                    } else if black_perimeter > 0 && white_perimeter == 0 {
                        black += territory;
                    } else if white_perimeter > 0 && black_perimeter == 0 {
                        white += territory;
                    } else {
                        neutral += territory;
                    }
                } else {
                    proof {
                        lemma_sweep_pass(
                            self@,
                            marks0,
                            x as int,
                            y as int,
                            black as int,
                            white as int,
                            neutral as int,
                        );
                    }
                }
                y += 1;
            }
            proof {
                lemma_sweep_row(
                    self@,
                    flags(visited@),
                    x as int,
                    black as int,
                    white as int,
                    neutral as int,
                );
            }
            x += 1;
        }
        proof {
            lemma_sweep_shape(
                self@,
                flags(visited@),
                x as int,
                0,
                black as int,
                white as int,
                neutral as int,
            );
            lemma_sweep_done(
                self@,
                flags(visited@),
                black as int,
                white as int,
                neutral as int,
            );
        }
        (black as i32, white as i32, neutral as i32)
    }

    /// The territory of Black, the territory of White and the neutral points.
    /// Groups that live side by side without eyes get no special treatment.
    pub fn calculate_territory_score(&self) -> (r: (i32, i32, i32))
        requires
            self.wf(),
        ensures
            r.0 == black_territory(self@).len(),
            r.1 == white_territory(self@).len(),
            r.2 == neutral_points(self@).len(),
    {
        let (black, white, neutral) = self.count_territories();
        (black, white, neutral)
    }

    /// The area of Black and the area of White: for each, its stones and its
    /// territory. With the neutral points they make up the whole board.
    pub fn calculate_area_score(&self) -> (r: (i32, i32))
        requires
            self.wf(),
        ensures
            r.0 == black_area(self@),
            r.1 == white_area(self@),
            r.0 + r.1 + neutral_points(self@).len() == self@.len() * self@.len(),
    {
        let n = self.size();
        let (black_stones, white_stones) = self.count_stones();
        let (black_terr, white_terr, _neutral_terr) = self.count_territories();
        proof {
            lemma_area_partition(self@);
        }
        (black_stones + black_terr, white_stones + white_terr)
    }
}

} // verus!
