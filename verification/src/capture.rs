//! Liberties, captures and the suicide test.

use vstd::prelude::*;
use crate::stone::{Point, opposite, spec_opposite};
use crate::board::{Board, GoError};
use crate::grid::{
    Grid, Coord, valid_grid, on_board, cell, place, clear, adjacent, neighbor, is_chain, connected,
    region, border, liberties_of, captured, captured_upto, takes, count_of,
    lemma_neighbor_adjacent, lemma_valid_side, lemma_connected_same, lemma_connected_step,
    lemma_cells_bounded, lemma_distinct_cells_bounded,
};

verus! {

/// `s` is made of whole groups of colour `q`.
pub open spec fn groups_of(g: Grid, s: Set<Coord>, q: Point) -> bool {
    &&& forall|a: Coord| s.contains(a) ==> on_board(g.len(), a) && cell(g, a) == q
    &&& forall|a: Coord, b: Coord|
        #![trigger s.contains(a), adjacent(a, b)]
        s.contains(a) && adjacent(a, b) && on_board(g.len(), b) && cell(g, b) == q ==> s.contains(
            b,
        )
}

/// Counting the points of a list that hold `p` counts the set of them, where no
/// point is listed twice.
pub proof fn lemma_count_of(g: Grid, s: Seq<Coord>, p: Point)
    requires
        s.no_duplicates(),
    ensures
        Set::new(|c: Coord| s.to_set().contains(c) && cell(g, c) == p).finite(),
        Set::new(|c: Coord| s.to_set().contains(c) && cell(g, c) == p).len() == count_of(g, s, p),
        count_of(g, s, p) <= s.len(),
    decreases s.len(),
{
    let whole = Set::new(|c: Coord| s.to_set().contains(c) && cell(g, c) == p);
    if s.len() == 0 {
        assert(whole =~= Set::<Coord>::empty());
    } else {
        let t = s.drop_last();
        let part = Set::new(|c: Coord| t.to_set().contains(c) && cell(g, c) == p);
        lemma_count_of(g, t, p);
        assert forall|c: Coord| s.contains(c) <==> (t.contains(c) || c == s.last()) by {
            if s.contains(c) {
                let i = choose|i: int| 0 <= i < s.len() && s[i] == c;
                if i < t.len() {
                    assert(t[i] == c);
                }
            }
            if t.contains(c) {
                let i = choose|i: int| 0 <= i < t.len() && t[i] == c;
                assert(s[i] == c);
            }
        }
        assert(!t.contains(s.last())) by {
            if t.contains(s.last()) {
                let i = choose|i: int| 0 <= i < t.len() && t[i] == s.last();
                assert(s[i] == s[s.len() - 1]);
            }
        }
        if cell(g, s.last()) == p {
            assert(whole =~= part.insert(s.last()));
        } else {
            assert(whole =~= part);
        }
    }
}

/// In a position from which whole groups of colour `q` were taken, a walk from a
/// remaining stone of that colour is what it was before.
proof fn lemma_clear_chain(g: Grid, s: Set<Coord>, q: Point, p: Seq<Coord>, i: int)
    requires
        valid_grid(g),
        groups_of(g, s, q),
        q != Point::Empty,
        p.len() > 0,
        !s.contains(p[0]),
        cell(g, p[0]) == q,
        is_chain(g, p) || is_chain(clear(g, s), p),
        0 <= i < p.len(),
    ensures
        !s.contains(p[i]),
        cell(g, p[i]) == q,
        cell(clear(g, s), p[i]) == q,
        on_board(g.len(), p[i]),
    decreases i,
{
    let h = clear(g, s);
    assert(h.len() == g.len());
    assert(on_board(g.len(), p[0]));
    assert(cell(h, p[0]) == q);
    if i > 0 {
        lemma_clear_chain(g, s, q, p, i - 1);
        assert(adjacent(p[i - 1], p[i - 1 + 1]));
        assert(on_board(g.len(), p[i]));
        if is_chain(g, p) {
            assert(cell(g, p[i]) == q);
            if s.contains(p[i]) {
                assert(adjacent(p[i], p[i - 1]));
                assert(s.contains(p[i - 1]));
            }
        } else {
            assert(cell(h, p[i]) == q);
        }
    }
}

/// Taking whole groups of colour `q` off the board leaves every other stone of
/// that colour its group and its liberties.
pub proof fn lemma_clear_keeps_group(g: Grid, s: Set<Coord>, q: Point, d: Coord)
    requires
        valid_grid(g),
        groups_of(g, s, q),
        q != Point::Empty,
        on_board(g.len(), d),
        cell(g, d) == q,
        !s.contains(d),
    ensures
        region(clear(g, s), d) == region(g, d),
        border(clear(g, s), d) == border(g, d),
        liberties_of(clear(g, s), d) == liberties_of(g, d),
{
    let h = clear(g, s);
    assert(h.len() == g.len());
    assert(cell(h, d) == q);
    assert forall|b: Coord| connected(g, d, b) <==> connected(h, d, b) by {
        if connected(g, d, b) {
            let p = choose|p: Seq<Coord>| #[trigger] is_chain(g, p) && p[0] == d && p.last() == b;
            assert forall|i: int| 0 <= i < p.len() implies on_board(h.len(), #[trigger] p[i])
                && cell(h, p[i]) == cell(h, p[0]) by {
                lemma_clear_chain(g, s, q, p, i);
            }
            assert(is_chain(h, p));
        }
        if connected(h, d, b) {
            let p = choose|p: Seq<Coord>| #[trigger] is_chain(h, p) && p[0] == d && p.last() == b;
            assert forall|i: int| 0 <= i < p.len() implies on_board(g.len(), #[trigger] p[i])
                && cell(g, p[i]) == cell(g, p[0]) by {
                lemma_clear_chain(g, s, q, p, i);
            }
            assert(is_chain(g, p));
        }
    }
    assert(region(h, d) =~= region(g, d));
    assert forall|c: Coord| border(g, d).contains(c) <==> border(h, d).contains(c) by {
        if border(g, d).contains(c) {
            let b = choose|b: Coord| #[trigger] connected(g, d, b) && adjacent(b, c);
            assert(connected(h, d, b));
            assert(!s.contains(c));
        }
        if border(h, d).contains(c) {
            let b = choose|b: Coord| #[trigger] connected(h, d, b) && adjacent(b, c);
            assert(connected(g, d, b));
            lemma_connected_same(g, d, b);
            if cell(g, c) == q {
                assert(s.contains(c));
                lemma_connected_step(g, d, b, c);
                lemma_walk_stays_out(g, s, q, d, c);
            }
        }
    }
    assert(border(h, d) =~= border(g, d));
    assert forall|c: Coord| liberties_of(g, d).contains(c) <==> liberties_of(h, d).contains(c) by {
        if border(g, d).contains(c) {
            assert(!s.contains(c));
        }
    }
    assert(liberties_of(h, d) =~= liberties_of(g, d));
}

/// A stone outside whole groups is connected to no stone inside them.
proof fn lemma_walk_stays_out(g: Grid, s: Set<Coord>, q: Point, d: Coord, b: Coord)
    requires
        valid_grid(g),
        groups_of(g, s, q),
        q != Point::Empty,
        cell(g, d) == q,
        !s.contains(d),
        connected(g, d, b),
    ensures
        !s.contains(b),
{
    let p = choose|p: Seq<Coord>| #[trigger] is_chain(g, p) && p[0] == d && p.last() == b;
    lemma_clear_chain(g, s, q, p, p.len() - 1);
}

/// The stones taken through the first sides of `c` are whole groups of the
/// other colour.
pub proof fn lemma_captured_groups(g: Grid, c: Coord, k: int, q: Point)
    requires
        valid_grid(g),
        spec_opposite(cell(g, c)) == Some(q),
    ensures
        groups_of(g, captured_upto(g, c, k), q),
        captured_upto(g, c, k).finite(),
        captured_upto(g, c, k).len() <= g.len() * g.len(),
{
    lemma_valid_side(g);
    let s = captured_upto(g, c, k);
    assert forall|a: Coord| s.contains(a) implies on_board(g.len(), a) && cell(g, a) == q by {
        let j = choose|j: int| 0 <= j < k && #[trigger] takes(g, c, j, a);
        let m = neighbor(g.len(), c, j)->0;
        lemma_connected_same(g, m, a);
    }
    assert forall|a: Coord, b: Coord|
        #![trigger s.contains(a), adjacent(a, b)]
        s.contains(a) && adjacent(a, b) && on_board(g.len(), b) && cell(g, b) == q implies s.contains(
        b,
    ) by {
        let j = choose|j: int| 0 <= j < k && #[trigger] takes(g, c, j, a);
        let m = neighbor(g.len(), c, j)->0;
        lemma_connected_same(g, m, a);
        lemma_connected_step(g, m, a, b);
        assert(takes(g, c, j, b));
    }
    lemma_cells_bounded(g.len(), s);
}

/// One more side of `c` adds the group that faces it there, if that group is
/// of the other colour, has no liberty and was not taken before.
proof fn lemma_captured_next(g: Grid, c: Coord, k: int, q: Point)
    requires
        valid_grid(g),
        spec_opposite(cell(g, c)) == Some(q),
        0 <= k < 4,
    ensures
        match neighbor(g.len(), c, k) {
            Some(m) => {
                if cell(g, m) == q && !captured_upto(g, c, k).contains(m) && liberties_of(
                    g,
                    m,
                ).len() == 0 {
                    &&& captured_upto(g, c, k + 1) == captured_upto(g, c, k).union(region(g, m))
                    &&& captured_upto(g, c, k).disjoint(region(g, m))
                } else {
                    captured_upto(g, c, k + 1) == captured_upto(g, c, k)
                }
            },
            None => captured_upto(g, c, k + 1) == captured_upto(g, c, k),
        },
{
    lemma_valid_side(g);
    let s = captured_upto(g, c, k);
    let t = captured_upto(g, c, k + 1);
    lemma_captured_groups(g, c, k, q);
    assert forall|d: Coord| s.contains(d) implies t.contains(d) by {
        let j = choose|j: int| 0 <= j < k && #[trigger] takes(g, c, j, d);
        assert(0 <= j < k + 1 && takes(g, c, j, d));
    }
    match neighbor(g.len(), c, k) {
        Some(m) => {
            lemma_neighbor_adjacent(g.len(), c, m);
            if cell(g, m) == q && !s.contains(m) && liberties_of(g, m).len() == 0 {
                assert forall|d: Coord| t.contains(d) <==> (s.contains(d) || region(g, m).contains(
                    d,
                )) by {
                    if t.contains(d) {
                        let j = choose|j: int| 0 <= j < k + 1 && #[trigger] takes(g, c, j, d);
                        if j < k {
                            assert(s.contains(d));
                        }
                    }
                    if region(g, m).contains(d) {
                        assert(takes(g, c, k, d));
                    }
                }
                assert(t =~= s.union(region(g, m)));
                assert forall|d: Coord| !(s.contains(d) && region(g, m).contains(d)) by {
                    if s.contains(d) && region(g, m).contains(d) {
                        lemma_walk_stays_out(g, s, q, m, d);
                    }
                }
            } else {
                assert forall|d: Coord| t.contains(d) implies s.contains(d) by {
                    let j = choose|j: int| 0 <= j < k + 1 && #[trigger] takes(g, c, j, d);
                    if j == k {
                        assert(cell(g, m) == q);
                        assert(s.contains(m));
                        lemma_groups_closed(g, s, q, m, d);
                    }
                }
                assert(t =~= s);
            }
        },
        None => {
            assert forall|d: Coord| t.contains(d) implies s.contains(d) by {
                let j = choose|j: int| 0 <= j < k + 1 && #[trigger] takes(g, c, j, d);
                assert(j < k);
            }
            assert(t =~= s);
        },
    }
}

/// Whole groups hold every stone connected to one of theirs.
proof fn lemma_groups_closed(g: Grid, s: Set<Coord>, q: Point, a: Coord, b: Coord)
    requires
        groups_of(g, s, q),
        s.contains(a),
        connected(g, a, b),
    ensures
        s.contains(b),
{
    crate::grid::lemma_region_within(g, a, s, b);
}

impl Board {
    /// The number of liberties of the group of the stone at `(x, y)`, and that
    /// group, each stone listed once.
    pub fn liberties(&self, x: usize, y: usize) -> (r: Result<(i32, Vec<Coord>), GoError>)
        requires
            self.wf(),
        ensures
            match r {
                Ok((lib, group)) => {
                    &&& on_board(self@.len(), (x, y))
                    &&& cell(self@, (x, y)) != Point::Empty
                    &&& lib == liberties_of(self@, (x, y)).len()
                    &&& group@.no_duplicates()
                    &&& group@.to_set() == region(self@, (x, y))
                },
                Err(e) => {
                    ||| e == GoError::OutOfRange && !on_board(self@.len(), (x, y))
                    ||| e == GoError::PointEmpty && on_board(self@.len(), (x, y)) && cell(
                        self@,
                        (x, y),
                    ) == Point::Empty
                },
            },
    {
        let player_point = self.get(x, y)?;
        let opponent_point = match opposite(player_point) {
            Some(p) => p,
            None => {
                return Err(GoError::PointEmpty);
            },
        };
        let n = self.size();
        let (group, perimeter) = self.spread(x, y)?;
        proof {
            assert forall|i: int| 0 <= i < perimeter@.len() implies on_board(
                n as nat,
                #[trigger] perimeter@[i],
            ) by {
                assert(perimeter@.to_set().contains(perimeter@[i]));
            }
            lemma_distinct_cells_bounded(n as nat, perimeter@);
        }
        let mut lib: i32 = 0;
        let mut i: usize = 0;
        while i < perimeter.len()
            invariant
                self.wf(),
                n == self@.len(),
                i <= perimeter@.len(),
                perimeter@.len() <= i32::MAX,
                forall|j: int| 0 <= j < perimeter@.len() ==> on_board(n as nat, #[trigger] perimeter@[j]),
                lib == count_of(self@, perimeter@.take(i as int), Point::Empty),
                lib <= i,
                opponent_point != Point::Empty,
            decreases perimeter@.len() - i,
        {
            let (px, py) = perimeter[i];
            assert(on_board(n as nat, perimeter@[i as int]));
            let p = self.get(px, py)?;
            proof {
                let t1 = perimeter@.take(i + 1);
                assert(t1.drop_last() =~= perimeter@.take(i as int));
                assert(t1.last() == (px, py));
                assert(count_of(self@, t1, Point::Empty) == count_of(
                    self@,
                    t1.drop_last(),
                    Point::Empty,
                ) + if cell(self@, t1.last()) == Point::Empty {
                    1nat
                } else {
                    0nat
                });
            }
            if p == opponent_point {
            } else if p == Point::Empty {
                lib += 1;
            }
            i += 1;
        }
        proof {
            assert(perimeter@.take(i as int) =~= perimeter@);
            lemma_count_of(self@, perimeter@, Point::Empty);
            assert(liberties_of(self@, (x, y)) =~= Set::new(
                |c: Coord| perimeter@.to_set().contains(c) && cell(self@, c) == Point::Empty,
            ));
        }
        Ok((lib, group))
    }

    /// Whether the stone at `(x, y)` stands in a group without liberties.
    pub fn is_suicide(&self, x: usize, y: usize) -> (r: Result<bool, GoError>)
        requires
            self.wf(),
        ensures
            match r {
                Ok(dead) => {
                    &&& on_board(self@.len(), (x, y))
                    &&& cell(self@, (x, y)) != Point::Empty
                    &&& dead == (liberties_of(self@, (x, y)).len() == 0)
                },
                Err(e) => {
                    ||| e == GoError::OutOfRange && !on_board(self@.len(), (x, y))
                    ||| e == GoError::PointEmpty && on_board(self@.len(), (x, y)) && cell(
                        self@,
                        (x, y),
                    ) == Point::Empty
                },
            },
    {
        let (lib, _group) = self.liberties(x, y)?;
        Ok(lib == 0)
    }

    /// Takes off the board what the stone at `(x, y)`, the last one played,
    /// captures, and returns how many stones that were.
    pub fn capture_stones(&mut self, x: usize, y: usize) -> (r: Result<i32, GoError>)
        requires
            old(self).wf(),
        ensures
            final(self).wf(),
            match r {
                Ok(taken) => {
                    &&& on_board(old(self)@.len(), (x, y))
                    &&& cell(old(self)@, (x, y)) != Point::Empty
                    &&& taken == captured(old(self)@, (x, y)).len()
                    &&& final(self)@ == clear(old(self)@, captured(old(self)@, (x, y)))
                },
                Err(e) => {
                    &&& final(self)@ == old(self)@
                    &&& {
                        ||| e == GoError::OutOfRange && !on_board(old(self)@.len(), (x, y))
                        ||| e == GoError::PointEmpty && on_board(old(self)@.len(), (x, y)) && cell(
                            old(self)@,
                            (x, y),
                        ) == Point::Empty
                    }
                },
            },
    {
        let player_point = self.get(x, y)?;
        let opponent_point = match opposite(player_point) {
            Some(p) => p,
            None => {
                return Err(GoError::PointEmpty);
            },
        };
        let n = self.size();
        let ghost g = self@;
        let ghost c: Coord = (x, y);
        let neighbors = self.get_neighbors(x, y);
        let mut captures: i32 = 0;
        proof {
            assert(captured_upto(g, c, 0) =~= Set::<Coord>::empty());
            assert(clear(g, captured_upto(g, c, 0)) =~~= g);
        }
        let mut k: usize = 0;
        while k < 4
            invariant
                self.wf(),
                valid_grid(g),
                n == g.len(),
                g == old(self)@,
                c == (x, y),
                on_board(n as nat, c),
                spec_opposite(cell(g, c)) == Some(opponent_point),
                k <= 4,
                forall|j: int| 0 <= j < 4 ==> neighbors@[j] == neighbor(n as nat, c, j),
                self@ == clear(g, captured_upto(g, c, k as int)),
                captures == captured_upto(g, c, k as int).len(),
            decreases 4 - k,
        {
            let ghost s = captured_upto(g, c, k as int);
            proof {
                lemma_captured_groups(g, c, k as int, opponent_point);
                lemma_captured_groups(g, c, k + 1, opponent_point);
                lemma_captured_next(g, c, k as int, opponent_point);
            }
            if let Some((mx, my)) = neighbors[k] {
                let ghost m: Coord = (mx, my);
                assert(neighbor(n as nat, c, k as int) == Some(m));
                proof {
                    lemma_neighbor_adjacent(n as nat, c, m);
                }
                if opponent_point == self.get(mx, my)? {
                    assert(!s.contains(m));
                    assert(cell(g, m) == opponent_point);
                    proof {
                        lemma_clear_keeps_group(g, s, opponent_point, m);
                    }
                    let (lib, group) = self.liberties(mx, my)?;
                    if lib == 0 {
                        proof {
                            assert forall|i: int| 0 <= i < group@.len() implies on_board(
                                n as nat,
                                #[trigger] group@[i],
                            ) by {
                                assert(group@.to_set().contains(group@[i]));
                                lemma_connected_same(g, m, group@[i]);
                            }
                            lemma_distinct_cells_bounded(n as nat, group@);
                            vstd::set_lib::lemma_set_disjoint_lens(s, region(g, m));
                        }
                        captures += group.len() as i32;
                        let ghost base = self@;
                        proof {
                            assert(group@.take(0).to_set() =~= Set::<Coord>::empty());
                            assert(clear(base, group@.take(0).to_set()) =~~= base);
                        }
                        let mut i: usize = 0;
                        while i < group.len()
                            invariant
                                self.wf(),
                                valid_grid(base),
                                n == base.len(),
                                i <= group@.len(),
                                forall|j: int|
                                    0 <= j < group@.len() ==> on_board(n as nat, #[trigger] group@[j]),
                                self@ == clear(base, group@.take(i as int).to_set()),
                            decreases group@.len() - i,
                        {
                            let (gx, gy) = group[i];
                            assert(on_board(n as nat, group@[i as int]));
                            let ghost prev = self@;
                            self.remove_stone(gx, gy)?;
                            proof {
                                let t0 = group@.take(i as int);
                                let t1 = group@.take(i + 1);
                                let before = t0.to_set();
                                let after = t1.to_set();
                                assert forall|d: Coord| after.contains(d) <==> (before.contains(d)
                                    || d == (gx, gy)) by {
                                    if t1.contains(d) {
                                        let j = choose|j: int| 0 <= j < t1.len() && t1[j] == d;
                                        if j < i {
                                            assert(t0[j] == d);
                                        }
                                    }
                                    if t0.contains(d) {
                                        let j = choose|j: int| 0 <= j < t0.len() && t0[j] == d;
                                        assert(t1[j] == d);
                                    }
                                    if d == (gx, gy) {
                                        assert(t1[i as int] == d);
                                    }
                                }
                                assert(place(prev, (gx, gy), Point::Empty) =~~= clear(base, after));
                            }
                            i += 1;
                        }
                        proof {
                            assert(group@.take(i as int) =~= group@);
                            assert(clear(clear(g, s), region(g, m)) =~~= clear(
                                g,
                                s.union(region(g, m)),
                            ));
                        }
                    }
                }
            }
            k += 1;
        }
        Ok(captures)
    }
}

} // verus!
