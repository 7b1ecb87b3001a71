//! Flood fill: the region around a point and the border of that region.

use std::collections::VecDeque;
use vstd::prelude::*;
use crate::board::{Board, GoError};
use crate::grid::{
    Grid, Coord, valid_grid, on_board, cell, adjacent, neighbor, connected, region, border,
    lemma_neighbor_adjacent, lemma_connected_refl, lemma_valid_side, lemma_connected_same,
    lemma_connected_step,
    lemma_region_within, lemma_distinct_cells_bounded,
};

verus! {

/// The marks of a sweep over the board, one flag for each point.
pub(crate) open spec fn flags(v: Seq<Vec<bool>>) -> Seq<Seq<bool>> {
    Seq::new(v.len(), |x: int| v[x]@)
}

pub(crate) open spec fn square(m: Seq<Seq<bool>>, n: nat) -> bool {
    &&& m.len() == n
    &&& forall|x: int| 0 <= x < n ==> (#[trigger] m[x]).len() == n
}

pub(crate) open spec fn marked(m: Seq<Seq<bool>>, c: Coord) -> bool {
    m[c.0 as int][c.1 as int]
}

pub(crate) open spec fn mark(m: Seq<Seq<bool>>, c: Coord) -> Seq<Seq<bool>> {
    m.update(c.0 as int, m[c.0 as int].update(c.1 as int, true))
}

/// A sweep of `n` by `n` flags, none of them set.
pub(crate) fn blank_marks(n: usize) -> (v: Vec<Vec<bool>>)
    ensures
        square(flags(v@), n as nat),
        forall|c: Coord| on_board(n as nat, c) ==> !#[trigger] marked(flags(v@), c),
{
    let mut v: Vec<Vec<bool>> = Vec::new();
    let mut x: usize = 0;
    while x < n
        invariant
            x <= n,
            v@.len() == x,
            forall|i: int| 0 <= i < x ==> (#[trigger] v@[i])@.len() == n,
            forall|i: int, j: int| 0 <= i < x && 0 <= j < n ==> !(#[trigger] v@[i]@[j]),
        decreases n - x,
    {
        let mut column: Vec<bool> = Vec::new();
        let mut y: usize = 0;
        while y < n
            invariant
                y <= n,
                column@.len() == y,
                forall|j: int| 0 <= j < y ==> !column@[j],
            decreases n - y,
        {
            column.push(false);
            y += 1;
        }
        v.push(column);
        x += 1;
    }
    assert forall|c: Coord| on_board(n as nat, c) implies !#[trigger] marked(flags(v@), c) by {
        assert(!v@[c.0 as int]@[c.1 as int]);
    }
    v
}

/// A list with one more point holds that point and what it held.
proof fn lemma_contains_push(s: Seq<Coord>, a: Coord, b: Coord)
    ensures
        s.push(a).contains(b) <==> (s.contains(b) || a == b),
{
    if s.contains(b) {
        let i = choose|i: int| 0 <= i < s.len() && s[i] == b;
        assert(s.push(a)[i] == b);
    }
    if a == b {
        assert(s.push(a)[s.len() as int] == b);
    }
}

/// A list holds its head and what its tail holds.
proof fn lemma_contains_tail(s: Seq<Coord>, b: Coord)
    requires
        s.len() > 0,
    ensures
        s.contains(b) <==> (s[0] == b || s.subrange(1, s.len() as int).contains(b)),
{
    let t = s.subrange(1, s.len() as int);
    if s.contains(b) {
        let i = choose|i: int| 0 <= i < s.len() && s[i] == b;
        if i > 0 {
            assert(t[i - 1] == b);
        }
    }
    if t.contains(b) {
        let i = choose|i: int| 0 <= i < t.len() && t[i] == b;
        assert(s[i + 1] == b);
    }
}

/// A neighbour is settled once the fill has it in hand: queued or taken where it
/// equals the start, on the rim where it differs.
spec fn settled(
    g: Grid,
    start: Coord,
    d: Coord,
    queue: Seq<Coord>,
    area: Seq<Coord>,
    rim: Seq<Coord>,
) -> bool {
    if cell(g, d) == cell(g, start) {
        area.contains(d) || queue.contains(d)
    } else {
        rim.contains(d)
    }
}

spec fn side_settled(
    g: Grid,
    start: Coord,
    c: Coord,
    j: int,
    queue: Seq<Coord>,
    area: Seq<Coord>,
    rim: Seq<Coord>,
) -> bool {
    match neighbor(g.len(), c, j) {
        Some(d) => settled(g, start, d, queue, area, rim),
        None => true,
    }
}

/// How many sides of the `i`-th of `len` taken points are done, when `k` sides of
/// the last are.
spec fn sides_done(i: int, len: int, k: int) -> int {
    if i == len - 1 {
        k
    } else {
        4
    }
}

/// What holds of a fill under way; `k` sides of the last point taken are done.
#[verifier::opaque]
spec fn flooding(
    g: Grid,
    start: Coord,
    m: Seq<Seq<bool>>,
    queue: Seq<Coord>,
    area: Seq<Coord>,
    rim: Seq<Coord>,
    k: int,
) -> bool {
    let n = g.len();
    &&& n <= usize::MAX
    &&& on_board(n, start)
    &&& square(m, n)
    &&& forall|c: Coord|
        on_board(n, c) ==> (#[trigger] marked(m, c) <==> (area.contains(c) || rim.contains(c)))
    &&& area.no_duplicates()
    &&& rim.no_duplicates()
    &&& forall|i: int| 0 <= i < area.len() ==> connected(g, start, #[trigger] area[i])
    &&& forall|i: int| 0 <= i < queue.len() ==> connected(g, start, #[trigger] queue[i])
    &&& forall|i: int| 0 <= i < rim.len() ==> border(g, start).contains(#[trigger] rim[i])
    &&& if area.len() > 0 {
        area[0] == start
    } else {
        queue.len() > 0 && queue[0] == start
    }
    &&& forall|i: int, j: int|
        0 <= i < area.len() && 0 <= j < sides_done(i, area.len() as int, k)
            ==> #[trigger] side_settled(g, start, area[i], j, queue, area, rim)
}

/// A fill starts with its start in the queue and nothing marked.
proof fn lemma_flood_start(g: Grid, start: Coord, m: Seq<Seq<bool>>)
    requires
        valid_grid(g),
        on_board(g.len(), start),
        square(m, g.len()),
        forall|c: Coord| on_board(g.len(), c) ==> !#[trigger] marked(m, c),
    ensures
        flooding(g, start, m, seq![start], Seq::<Coord>::empty(), Seq::<Coord>::empty(), 4),
{
    lemma_valid_side(g);
    reveal(flooding);
    lemma_connected_refl(g, start);
}

/// A taken point is never on the rim, and a rim point never taken.
proof fn lemma_marked_kind(
    g: Grid,
    start: Coord,
    m: Seq<Seq<bool>>,
    queue: Seq<Coord>,
    area: Seq<Coord>,
    rim: Seq<Coord>,
    k: int,
    d: Coord,
)
    requires
        flooding(g, start, m, queue, area, rim, k),
        on_board(g.len(), d),
        marked(m, d),
    ensures
        cell(g, d) == cell(g, start) ==> area.contains(d),
        cell(g, d) != cell(g, start) ==> rim.contains(d),
{
    reveal(flooding);
    if area.contains(d) {
        let i = choose|i: int| 0 <= i < area.len() && area[i] == d;
        lemma_connected_same(g, start, area[i]);
    }
    if rim.contains(d) {
        let i = choose|i: int| 0 <= i < rim.len() && rim[i] == d;
        assert(border(g, start).contains(rim[i]));
    }
}

/// The head of the queue lies on the board, which the marks cover.
proof fn lemma_flood_head(
    g: Grid,
    start: Coord,
    m: Seq<Seq<bool>>,
    queue: Seq<Coord>,
    area: Seq<Coord>,
    rim: Seq<Coord>,
    k: int,
)
    requires
        flooding(g, start, m, queue, area, rim, k),
    ensures
        square(m, g.len()),
        queue.len() > 0 ==> on_board(g.len(), queue[0]),
{
    reveal(flooding);
    if queue.len() > 0 {
        lemma_connected_same(g, start, queue[0]);
    }
}

/// A queued point that is marked already is dropped from the queue.
proof fn lemma_flood_skip(
    g: Grid,
    start: Coord,
    m: Seq<Seq<bool>>,
    queue: Seq<Coord>,
    area: Seq<Coord>,
    rim: Seq<Coord>,
)
    requires
        flooding(g, start, m, queue, area, rim, 4),
        queue.len() > 0,
        marked(m, queue[0]),
    ensures
        flooding(g, start, m, queue.subrange(1, queue.len() as int), area, rim, 4),
{
    reveal(flooding);
    let cur = queue[0];
    let rest = queue.subrange(1, queue.len() as int);
    lemma_connected_same(g, start, cur);
    lemma_marked_kind(g, start, m, queue, area, rim, 4, cur);
    assert(area.contains(cur));
    assert forall|i: int| 0 <= i < rest.len() implies connected(g, start, #[trigger] rest[i]) by {
        assert(rest[i] == queue[i + 1]);
    }
    assert forall|i: int, j: int| 0 <= i < area.len() && 0 <= j < 4 implies #[trigger] side_settled(
        g,
        start,
        area[i],
        j,
        rest,
        area,
        rim,
    ) by {
        assert(side_settled(g, start, area[i], j, queue, area, rim));
        if let Some(d) = neighbor(g.len(), area[i], j) {
            lemma_contains_tail(queue, d);
        }
    }
}

/// A queued point that is not marked yet is marked and taken into the area.
proof fn lemma_flood_enter(
    g: Grid,
    start: Coord,
    m: Seq<Seq<bool>>,
    queue: Seq<Coord>,
    area: Seq<Coord>,
    rim: Seq<Coord>,
)
    requires
        flooding(g, start, m, queue, area, rim, 4),
        queue.len() > 0,
        !marked(m, queue[0]),
    ensures
        flooding(
            g,
            start,
            mark(m, queue[0]),
            queue.subrange(1, queue.len() as int),
            area.push(queue[0]),
            rim,
            0,
        ),
        area.len() < g.len() * g.len(),
{
    reveal(flooding);
    let n = g.len();
    let cur = queue[0];
    let rest = queue.subrange(1, queue.len() as int);
    let grown = area.push(cur);
    let m2 = mark(m, cur);
    lemma_connected_same(g, start, cur);
    assert(!area.contains(cur));
    assert forall|c: Coord| on_board(n, c) implies (#[trigger] marked(m2, c) <==> (grown.contains(c)
        || rim.contains(c))) by {
        lemma_contains_push(area, cur, c);
        assert(marked(m, c) <==> (area.contains(c) || rim.contains(c)));
        assert(marked(m2, c) == (marked(m, c) || c == cur));
    }
    assert(grown.no_duplicates()) by {
        assert forall|i: int, j: int|
            0 <= i < grown.len() && 0 <= j < grown.len() && i != j implies grown[i] != grown[j] by {
            if i < area.len() && j < area.len() {
            } else if i < area.len() {
                assert(area[i] == grown[i]);
                assert(area.contains(grown[i]));
            } else {
                assert(area[j] == grown[j]);
                assert(area.contains(grown[j]));
            }
        }
    }
    assert forall|i: int| 0 <= i < grown.len() implies connected(g, start, #[trigger] grown[i]) by {
        if i < area.len() {
            assert(grown[i] == area[i]);
        }
    }
    assert forall|i: int| 0 <= i < rest.len() implies connected(g, start, #[trigger] rest[i]) by {
        assert(rest[i] == queue[i + 1]);
    }
    assert forall|i: int, j: int|
        0 <= i < grown.len() && 0 <= j < sides_done(i, grown.len() as int, 0)
            implies #[trigger] side_settled(g, start, grown[i], j, rest, grown, rim) by {
        assert(grown[i] == area[i]);
        assert(side_settled(g, start, area[i], j, queue, area, rim));
        if let Some(d) = neighbor(n, area[i], j) {
            lemma_contains_tail(queue, d);
            lemma_contains_push(area, cur, d);
        }
    }
    assert forall|i: int| 0 <= i < grown.len() implies on_board(n, #[trigger] grown[i]) by {
        lemma_connected_same(g, start, grown[i]);
    }
    lemma_distinct_cells_bounded(n, grown);
    assert(square(m2, n));
}

/// One more side of the point taken last is done: its neighbour there is left
/// alone if marked, queued if equal to the start, and put on the rim if not.
proof fn lemma_flood_side(
    g: Grid,
    start: Coord,
    m: Seq<Seq<bool>>,
    queue: Seq<Coord>,
    area: Seq<Coord>,
    rim: Seq<Coord>,
    k: int,
)
    requires
        flooding(g, start, m, queue, area, rim, k),
        0 <= k < 4,
        area.len() > 0,
    ensures
        match neighbor(g.len(), area.last(), k) {
            None => flooding(g, start, m, queue, area, rim, k + 1),
            Some(d) => {
                &&& on_board(g.len(), d)
                &&& if marked(m, d) {
                    flooding(g, start, m, queue, area, rim, k + 1)
                } else if cell(g, d) == cell(g, start) {
                    flooding(g, start, m, queue.push(d), area, rim, k + 1)
                } else {
                    flooding(g, start, mark(m, d), queue, area, rim.push(d), k + 1)
                }
            },
        },
{
    reveal(flooding);
    let n = g.len();
    let cur = area.last();
    assert(connected(g, start, area[area.len() - 1]));
    lemma_connected_same(g, start, cur);
    match neighbor(n, cur, k) {
        None => {
            assert forall|i: int, j: int|
                0 <= i < area.len() && 0 <= j < sides_done(i, area.len() as int, k + 1)
                    implies #[trigger] side_settled(g, start, area[i], j, queue, area, rim) by {
                if i == area.len() - 1 && j == k {
                } else {
                    assert(side_settled(g, start, area[i], j, queue, area, rim));
                }
            }
        },
        Some(d) => {
            lemma_neighbor_adjacent(n, cur, d);
            assert(on_board(n, d) && adjacent(cur, d));
            if marked(m, d) {
                lemma_marked_kind(g, start, m, queue, area, rim, k, d);
                assert forall|i: int, j: int|
                    0 <= i < area.len() && 0 <= j < sides_done(i, area.len() as int, k + 1)
                        implies #[trigger] side_settled(g, start, area[i], j, queue, area, rim) by {
                    if i == area.len() - 1 && j == k {
                    } else {
                        assert(side_settled(g, start, area[i], j, queue, area, rim));
                    }
                }
            } else if cell(g, d) == cell(g, start) {
                let q2 = queue.push(d);
                lemma_connected_step(g, start, cur, d);
                assert forall|i: int| 0 <= i < q2.len() implies connected(
                    g,
                    start,
                    #[trigger] q2[i],
                ) by {
                    if i < queue.len() {
                        assert(q2[i] == queue[i]);
                    }
                }
                assert(area.len() == 0 ==> q2[0] == queue[0]);
                assert forall|i: int, j: int|
                    0 <= i < area.len() && 0 <= j < sides_done(i, area.len() as int, k + 1)
                        implies #[trigger] side_settled(g, start, area[i], j, q2, area, rim) by {
                    if i == area.len() - 1 && j == k {
                        lemma_contains_push(queue, d, d);
                    } else {
                        assert(side_settled(g, start, area[i], j, queue, area, rim));
                        if let Some(e) = neighbor(n, area[i], j) {
                            lemma_contains_push(queue, d, e);
                        }
                    }
                }
            } else {
                let r2 = rim.push(d);
                let m2 = mark(m, d);
                assert(!rim.contains(d));
                assert forall|c: Coord| on_board(n, c) implies (#[trigger] marked(m2, c) <==> (
                area.contains(c) || r2.contains(c))) by {
                    lemma_contains_push(rim, d, c);
                    assert(marked(m, c) <==> (area.contains(c) || rim.contains(c)));
                    assert(marked(m2, c) == (marked(m, c) || c == d));
                }
                assert(r2.no_duplicates()) by {
                    assert forall|i: int, j: int|
                        0 <= i < r2.len() && 0 <= j < r2.len() && i != j implies r2[i] != r2[j] by {
                        if i < rim.len() && j < rim.len() {
                        } else if i < rim.len() {
                            assert(rim[i] == r2[i]);
                            assert(rim.contains(r2[i]));
                        } else {
                            assert(rim[j] == r2[j]);
                            assert(rim.contains(r2[j]));
                        }
                    }
                }
                assert(border(g, start).contains(d));
                assert forall|i: int| 0 <= i < r2.len() implies border(g, start).contains(
                    #[trigger] r2[i],
                ) by {
                    if i < rim.len() {
                        assert(r2[i] == rim[i]);
                    }
                }
                assert forall|i: int, j: int|
                    0 <= i < area.len() && 0 <= j < sides_done(i, area.len() as int, k + 1)
                        implies #[trigger] side_settled(g, start, area[i], j, queue, area, r2) by {
                    if i == area.len() - 1 && j == k {
                        lemma_contains_push(rim, d, d);
                    } else {
                        assert(side_settled(g, start, area[i], j, queue, area, rim));
                        if let Some(e) = neighbor(n, area[i], j) {
                            lemma_contains_push(rim, d, e);
                        }
                    }
                }
                assert(square(m2, n));
            }
        },
    }
}

/// With the queue empty, the area is the region and the rim its border.
proof fn lemma_flood_done(
    g: Grid,
    start: Coord,
    m: Seq<Seq<bool>>,
    queue: Seq<Coord>,
    area: Seq<Coord>,
    rim: Seq<Coord>,
)
    requires
        flooding(g, start, m, queue, area, rim, 4),
        queue.len() == 0,
    ensures
        on_board(g.len(), start),
        area.len() > 0,
        area[0] == start,
        area.no_duplicates(),
        rim.no_duplicates(),
        area.to_set() == region(g, start),
        rim.to_set() == border(g, start),
{
    reveal(flooding);
    let n = g.len();
    let s = area.to_set();
    assert(s.contains(start)) by {
        assert(area[0] == start);
    }
    assert forall|u: Coord, v: Coord|
        #![trigger s.contains(u), adjacent(u, v)]
        s.contains(u) && adjacent(u, v) && on_board(n, v) && cell(g, v) == cell(
            g,
            start,
        ) implies s.contains(v) by {
        let i = choose|i: int| 0 <= i < area.len() && area[i] == u;
        lemma_neighbor_adjacent(n, u, v);
        let j = choose|j: int| 0 <= j < 4 && #[trigger] neighbor(n, u, j) == Some(v);
        assert(side_settled(g, start, area[i], j, queue, area, rim));
    }
    assert forall|b: Coord| s.contains(b) <==> region(g, start).contains(b) by {
        if s.contains(b) {
            let i = choose|i: int| 0 <= i < area.len() && area[i] == b;
            assert(connected(g, start, area[i]));
        }
        if connected(g, start, b) {
            lemma_region_within(g, start, s, b);
        }
    }
    assert(s =~= region(g, start));
    assert forall|c: Coord| rim.to_set().contains(c) <==> border(g, start).contains(c) by {
        if rim.contains(c) {
            let i = choose|i: int| 0 <= i < rim.len() && rim[i] == c;
            assert(border(g, start).contains(rim[i]));
        }
        if border(g, start).contains(c) {
            let b = choose|b: Coord| #[trigger] connected(g, start, b) && adjacent(b, c);
            assert(s.contains(b));
            let i = choose|i: int| 0 <= i < area.len() && area[i] == b;
            lemma_neighbor_adjacent(n, b, c);
            let j = choose|j: int| 0 <= j < 4 && #[trigger] neighbor(n, b, j) == Some(c);
            assert(side_settled(g, start, area[i], j, queue, area, rim));
        }
    }
    assert(rim.to_set() =~= border(g, start));
}

impl Board {
    /// The region around `(x, y)` and its border: every point that a walk over
    /// points equal to the one at `(x, y)` reaches, and every differing point
    /// next to one of them, each listed once.
    pub fn spread(&self, x: usize, y: usize) -> (r: Result<(Vec<Coord>, Vec<Coord>), GoError>)
        requires
            self.wf(),
        ensures
            match r {
                Ok((area, perimeter)) => {
                    &&& on_board(self@.len(), (x, y))
                    &&& area@.no_duplicates()
                    &&& area@.to_set() == region(self@, (x, y))
                    &&& area@.len() > 0
                    &&& area@[0] == (x, y)
                    &&& perimeter@.no_duplicates()
                    &&& perimeter@.to_set() == border(self@, (x, y))
                },
                Err(e) => e == GoError::OutOfRange && !on_board(self@.len(), (x, y)),
            },
    {
        let point = self.get(x, y)?;
        let n = self.size();
        let mut visited = blank_marks(n);
        let mut to_be_visited: VecDeque<Coord> = VecDeque::new();
        to_be_visited.push_back((x, y));
        let mut area: Vec<Coord> = Vec::new();
        let mut perimeter: Vec<Coord> = Vec::new();
        proof {
            lemma_flood_start(self@, (x, y), flags(visited@));
            assert(to_be_visited@ =~= seq![(x, y)]);
            assert(area@ =~= Seq::<Coord>::empty());
            assert(perimeter@ =~= Seq::<Coord>::empty());
        }
        while to_be_visited.len() > 0
            invariant
                self.wf(),
                n == self@.len(),
                point == cell(self@, (x, y)),
                flooding(self@, (x, y), flags(visited@), to_be_visited@, area@, perimeter@, 4),
                area@.len() <= n * n,
            decreases n * n - area@.len(), to_be_visited@.len(),
        {
            let ghost queue0 = to_be_visited@;
            let ghost marks0 = flags(visited@);
            let ghost before = area@.len();
            proof {
                lemma_flood_head(self@, (x, y), marks0, queue0, area@, perimeter@, 4);
            }
            let (cx, cy) = to_be_visited.pop_front().unwrap();
            assert(marks0[cx as int].len() == n);
            if !visited[cx][cy] {
                proof {
                    lemma_flood_enter(self@, (x, y), marks0, queue0, area@, perimeter@);
                }
                visited[cx][cy] = true;
                area.push((cx, cy));
                assert(flags(visited@) =~= mark(marks0, (cx, cy)));
                let neighbors = self.get_neighbors(cx, cy);
                let mut k: usize = 0;
                while k < 4
                    invariant
                        self.wf(),
                        n == self@.len(),
                        point == cell(self@, (x, y)),
                        k <= 4,
                        area@.len() == before + 1,
                        area@.len() <= n * n,
                        area@.last() == (cx, cy),
                        forall|j: int|
                            0 <= j < 4 ==> neighbors@[j] == neighbor(n as nat, (cx, cy), j),
                        flooding(
                            self@,
                            (x, y),
                            flags(visited@),
                            to_be_visited@,
                            area@,
                            perimeter@,
                            k as int,
                        ),
                    decreases 4 - k,
                {
                    let ghost marks1 = flags(visited@);
                    proof {
                        lemma_flood_side(
                            self@,
                            (x, y),
                            marks1,
                            to_be_visited@,
                            area@,
                            perimeter@,
                            k as int,
                        );
                        lemma_flood_head(
                            self@,
                            (x, y),
                            marks1,
                            to_be_visited@,
                            area@,
                            perimeter@,
                            k as int,
                        );
                    }
                    if let Some((dx, dy)) = neighbors[k] {
                        assert(neighbor(n as nat, (cx, cy), k as int) == Some((dx, dy)));
                        assert(marks1[dx as int].len() == n);
                        let p = self.get(dx, dy)?;
                        let v = visited[dx][dy];
                        assert(v == marked(marks1, (dx, dy)));
                        if p == point {
                            if !v {
                                to_be_visited.push_back((dx, dy));
                            }
                        } else {
                            if !v {
                                visited[dx][dy] = true;
                                perimeter.push((dx, dy));
                                assert(flags(visited@) =~= mark(marks1, (dx, dy)));
                            }
                        }
                    }
                    k += 1;
                }
            } else {
                proof {
                    lemma_flood_skip(self@, (x, y), marks0, queue0, area@, perimeter@);
                }
            }
        }
        proof {
            lemma_flood_done(
                self@,
                (x, y),
                flags(visited@),
                to_be_visited@,
                area@,
                perimeter@,
            );
        }
        Ok((area, perimeter))
    }
}

} // verus!
