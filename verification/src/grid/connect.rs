use crate::grid::index::index_of;
use crate::grid::scan::occupied;
use crate::grid::Coordinate;
use crate::grid::Grid;
use crate::grid::GridIndex;
use crate::grid::flat;
use crate::Error;
use vstd::prelude::*;

verus! {

/// Whether two storage cells are cardinal neighbors.
pub open spec fn adjacent_cells(a: (int, int), b: (int, int)) -> bool {
    (a.0 == b.0 && (a.1 == b.1 + 1 || a.1 == b.1 - 1)) || (a.1 == b.1 && (a.0 == b.0 + 1 || a.0
        == b.0 - 1))
}

/// A walk over occupied cells whose consecutive cells are cardinal
/// neighbors; each cell is a `(col, row)` storage address.
pub open spec fn is_path(s: Seq<Option<char>>, path: Seq<(int, int)>) -> bool {
    &&& path.len() > 0
    &&& forall|k: int| 0 <= k < path.len() ==> occupied(s, #[trigger] path[k].0, path[k].1)
    &&& forall|k: int| 0 <= k < path.len() - 1 ==> adjacent_cells(#[trigger] path[k], path[k + 1])
}

/// Whether cell `b` can be reached from cell `a` by a walk over occupied
/// cells under 4-connectivity.
pub open spec fn reaches(s: Seq<Option<char>>, a: (int, int), b: (int, int)) -> bool {
    exists|path: Seq<(int, int)>| is_path(s, path) && path.first() == a && path.last() == b
}

/// Whether the occupied cells of the grid form one connected region: every
/// occupied cell can be reached from every other. A grid with at most one
/// occupied cell is trivially connected.
pub open spec fn connected(s: Seq<Option<char>>) -> bool {
    forall|a: (int, int), b: (int, int)|
        occupied(s, #[trigger] a.0, a.1) && occupied(s, #[trigger] b.0, b.1) ==> reaches(s, a, b)
}

/// Whether the visited mark at storage address `(col, row)` is set; an
/// address outside the grid counts as unmarked.
pub open spec fn visited_at(v: Seq<bool>, c: int, r: int) -> bool {
    0 <= c < 256 && 0 <= r < 256 && v[r * 256 + c]
}

/// Whether some entry of the work list lies at storage address `(c, r)`.
pub open spec fn in_stack(st: Seq<GridIndex>, c: int, r: int) -> bool {
    exists|k: int| 0 <= k < st.len() && #[trigger] st[k].0 == c && st[k].1 == r
}

/// Every visited cell is occupied and reachable from the seed.
pub open spec fn visited_sound(s: Seq<Option<char>>, v: Seq<bool>, seed: (int, int)) -> bool {
    forall|c: int, r: int| #[trigger]
        visited_at(v, c, r) ==> occupied(s, c, r) && reaches(s, seed, (c, r))
}

/// Every work-list entry is marked visited.
pub open spec fn stack_marked(v: Seq<bool>, st: Seq<GridIndex>) -> bool {
    forall|k: int| 0 <= k < st.len() ==> visited_at(v, #[trigger] st[k].0 as int, st[k].1 as int)
}

/// Every occupied cardinal neighbor of cell `(c, r)` is marked visited.
pub open spec fn cell_closed(s: Seq<Option<char>>, v: Seq<bool>, c: int, r: int) -> bool {
    &&& occupied(s, c + 1, r) ==> visited_at(v, c + 1, r)
    &&& occupied(s, c - 1, r) ==> visited_at(v, c - 1, r)
    &&& occupied(s, c, r + 1) ==> visited_at(v, c, r + 1)
    &&& occupied(s, c, r - 1) ==> visited_at(v, c, r - 1)
}

/// Every visited cell that is no longer on the work list already has all of
/// its occupied neighbors visited.
pub open spec fn frontier_closed(s: Seq<Option<char>>, v: Seq<bool>, st: Seq<GridIndex>) -> bool {
    forall|c: int, r: int| #[trigger]
        visited_at(v, c, r) && !in_stack(st, c, r) ==> cell_closed(s, v, c, r)
}

/// The number of set marks among the first `n` cells of a visited board.
pub open spec fn num_visited(v: Seq<bool>, n: int) -> int
    decreases n,
{
    if n <= 0 {
        0
    } else {
        num_visited(v, n - 1) + if v[n - 1] {
            1int
        } else {
            0int
        }
    }
}

/// The storage address of the neighbor that lies `delta = (dx, dy)` away in
/// coordinate space: one column right for `dx = 1`, one row up for `dy = 1`.
pub open spec fn neighbor_of(from: Coordinate, dx: int, dy: int) -> (int, int) {
    (index_of(from).0 + dx, index_of(from).1 - dy)
}

proof fn lemma_num_visited_bounds(v: Seq<bool>, n: int)
    requires
        n >= 0,
    ensures
        0 <= num_visited(v, n) <= n,
    decreases n,
{
    if n > 0 {
        lemma_num_visited_bounds(v, n - 1);
    }
}

proof fn lemma_num_visited_congruent(v1: Seq<bool>, v2: Seq<bool>, n: int)
    requires
        forall|k: int| 0 <= k < n ==> v1[k] == v2[k],
    ensures
        num_visited(v1, n) == num_visited(v2, n),
    decreases n,
{
    if n > 0 {
        lemma_num_visited_congruent(v1, v2, n - 1);
    }
}

proof fn lemma_num_visited_update(v: Seq<bool>, j: int, n: int)
    requires
        0 <= j < n <= v.len(),
        !v[j],
    ensures
        num_visited(v.update(j, true), n) == num_visited(v, n) + 1,
    decreases n,
{
    if j == n - 1 {
        lemma_num_visited_congruent(v.update(j, true), v, n - 1);
    } else {
        lemma_num_visited_update(v, j, n - 1);
    }
}

/// Distinct storage addresses have distinct flat positions.
proof fn lemma_flat_injective(c1: int, r1: int, c2: int, r2: int)
    requires
        0 <= c1 < 256,
        0 <= c2 < 256,
        r1 * 256 + c1 == r2 * 256 + c2,
    ensures
        c1 == c2 && r1 == r2,
{
    assert(c1 == c2 && r1 == r2) by (nonlinear_arith)
        requires
            0 <= c1 < 256,
            0 <= c2 < 256,
            r1 * 256 + c1 == r2 * 256 + c2,
    ;
}

/// A cell reaches itself by the one-cell path.
proof fn lemma_reaches_self(s: Seq<Option<char>>, a: (int, int))
    requires
        occupied(s, a.0, a.1),
    ensures
        reaches(s, a, a),
{
    let path: Seq<(int, int)> = seq![a];
    assert(is_path(s, path));
    assert(path.first() == a && path.last() == a);
}

/// Reachability extends across one step to an occupied neighbor.
proof fn lemma_reaches_extend(s: Seq<Option<char>>, a: (int, int), b: (int, int), c: (int, int))
    requires
        reaches(s, a, b),
        occupied(s, c.0, c.1),
        adjacent_cells(b, c),
    ensures
        reaches(s, a, c),
{
    let path: Seq<(int, int)> = choose|path: Seq<(int, int)>|
        is_path(s, path) && path.first() == a && path.last() == b;
    let path2 = path.push(c);
    assert forall|k: int| 0 <= k < path2.len() implies occupied(
        s,
        #[trigger] path2[k].0,
        path2[k].1,
    ) by {
        if k < path.len() {
            assert(path2[k] == path[k]);
        }
    }
    assert forall|k: int| 0 <= k < path2.len() - 1 implies adjacent_cells(
        #[trigger] path2[k],
        path2[k + 1],
    ) by {
        if k < path.len() - 1 {
            assert(path2[k] == path[k] && path2[k + 1] == path[k + 1]);
        } else {
            assert(path2[k] == path.last() && path2[k + 1] == c);
        }
    }
    assert(is_path(s, path2) && path2.first() == a && path2.last() == c);
}

/// Reachability is symmetric: the reversed walk is also a walk.
proof fn lemma_reaches_sym(s: Seq<Option<char>>, a: (int, int), b: (int, int))
    requires
        reaches(s, a, b),
    ensures
        reaches(s, b, a),
{
    let path: Seq<(int, int)> = choose|path: Seq<(int, int)>|
        is_path(s, path) && path.first() == a && path.last() == b;
    let n: int = path.len() as int;
    let rev = Seq::new(path.len(), |i: int| path[n - 1 - i]);
    assert forall|k: int| 0 <= k < rev.len() implies occupied(
        s,
        #[trigger] rev[k].0,
        rev[k].1,
    ) by {
        assert(rev[k] == path[n - 1 - k]);
    }
    assert forall|k: int| 0 <= k < rev.len() - 1 implies adjacent_cells(
        #[trigger] rev[k],
        rev[k + 1],
    ) by {
        assert(rev[k] == path[n - 1 - k] && rev[k + 1] == path[n - 2 - k]);
        assert(adjacent_cells(path[n - 2 - k], path[n - 1 - k]));
    }
    assert(is_path(s, rev) && rev.first() == b && rev.last() == a);
}

/// Reachability is transitive: the two walks concatenate.
proof fn lemma_reaches_trans(s: Seq<Option<char>>, a: (int, int), b: (int, int), c: (int, int))
    requires
        reaches(s, a, b),
        reaches(s, b, c),
    ensures
        reaches(s, a, c),
{
    let p1: Seq<(int, int)> = choose|p: Seq<(int, int)>|
        is_path(s, p) && p.first() == a && p.last() == b;
    let p2: Seq<(int, int)> = choose|p: Seq<(int, int)>|
        is_path(s, p) && p.first() == b && p.last() == c;
    if p2.len() == 1 {
        assert(b == c);
        assert(is_path(s, p1) && p1.first() == a && p1.last() == c);
    } else {
        let w = p1 + p2.subrange(1, p2.len() as int);
        assert forall|k: int| 0 <= k < w.len() implies occupied(
            s,
            #[trigger] w[k].0,
            w[k].1,
        ) by {
            if k < p1.len() {
                assert(w[k] == p1[k]);
            } else {
                assert(w[k] == p2[k - p1.len() + 1]);
            }
        }
        assert forall|k: int| 0 <= k < w.len() - 1 implies adjacent_cells(
            #[trigger] w[k],
            w[k + 1],
        ) by {
            if k < p1.len() - 1 {
                assert(w[k] == p1[k] && w[k + 1] == p1[k + 1]);
            } else if k == p1.len() - 1 {
                assert(w[k] == p1.last() && w[k + 1] == p2[1]);
                assert(adjacent_cells(p2[0], p2[1]));
            } else {
                assert(w[k] == p2[k - p1.len() + 1] && w[k + 1] == p2[k - p1.len() + 2]);
                assert(adjacent_cells(p2[k - p1.len() + 1], p2[k - p1.len() + 2]));
            }
        }
        assert(w.last() == p2.last());
        assert(is_path(s, w) && w.first() == a && w.last() == c);
    }
}

/// Once the visited set is closed under adjacency, a walk that starts on a
/// visited cell can never leave the visited set.
proof fn lemma_path_stays_visited(s: Seq<Option<char>>, v: Seq<bool>, path: Seq<(int, int)>)
    requires
        is_path(s, path),
        visited_at(v, path.first().0, path.first().1),
        forall|c: int, r: int| #[trigger] visited_at(v, c, r) ==> cell_closed(s, v, c, r),
    ensures
        visited_at(v, path.last().0, path.last().1),
    decreases path.len(),
{
    if path.len() > 1 {
        assert(adjacent_cells(path[0], path[1]));
        assert(occupied(s, path[1].0, path[1].1));
        assert(cell_closed(s, v, path[0].0, path[0].1));
        assert(visited_at(v, path[1].0, path[1].1));
        let rest = path.subrange(1, path.len() as int);
        assert forall|k: int| 0 <= k < rest.len() implies occupied(
            s,
            #[trigger] rest[k].0,
            rest[k].1,
        ) by {
            assert(rest[k] == path[k + 1]);
        }
        assert forall|k: int| 0 <= k < rest.len() - 1 implies adjacent_cells(
            #[trigger] rest[k],
            rest[k + 1],
        ) by {
            assert(rest[k] == path[k + 1] && rest[k + 1] == path[k + 2]);
            assert(adjacent_cells(path[k + 1], path[k + 2]));
        }
        assert(is_path(s, rest));
        lemma_path_stays_visited(s, v, rest);
        assert(rest.last() == path.last());
    }
}

/// An entry other than the popped last one is still on the work list.
proof fn lemma_in_stack_after_pop(st: Seq<GridIndex>, c: int, r: int)
    requires
        st.len() > 0,
        in_stack(st, c, r),
        !(st.last().0 == c && st.last().1 == r),
    ensures
        in_stack(st.drop_last(), c, r),
{
    let k = choose|k: int| 0 <= k < st.len() && #[trigger] st[k].0 == c && st[k].1 == r;
    assert(k < st.len() - 1);
    assert(st.drop_last()[k] == st[k]);
}

impl Grid<Option<char>> {
    /// The first occupied cell in column-major order, if any.
    fn find_occupied(&self) -> (r: Option<GridIndex>)
        requires
            self.wf(),
        ensures
            match r {
                Some(gi) => occupied(self@, gi.0 as int, gi.1 as int),
                None => forall|c: int, rr: int| !occupied(self@, c, rr),
            },
    {
        let mut x: usize = 0;
        while x < 256
            invariant
                self.wf(),
                x <= 256,
                forall|c: int, rr: int| 0 <= c < x ==> !occupied(self@, c, rr),
            decreases 256 - x,
        {
            let mut y: usize = 0;
            while y < 256
                invariant
                    self.wf(),
                    x < 256,
                    y <= 256,
                    forall|rr: int| 0 <= rr < y ==> !occupied(self@, x as int, rr),
                decreases 256 - y,
            {
                if self.get(GridIndex(x as u8, y as u8)).is_some() {
                    return Some(GridIndex(x as u8, y as u8));
                }
                y = y + 1;
            }
            x = x + 1;
        }
        None
    }

    /// The first occupied cell that the flood fill never marked, if any.
    fn find_unvisited_occupied(&self, visited: &Grid<bool>) -> (r: Option<GridIndex>)
        requires
            self.wf(),
            visited.wf(),
        ensures
            match r {
                Some(gi) => occupied(self@, gi.0 as int, gi.1 as int) && !visited_at(
                    visited@,
                    gi.0 as int,
                    gi.1 as int,
                ),
                None => forall|c: int, rr: int|
                    occupied(self@, c, rr) ==> visited_at(visited@, c, rr),
            },
    {
        let mut y: usize = 0;
        while y < 256
            invariant
                self.wf(),
                visited.wf(),
                y <= 256,
                forall|c: int, rr: int|
                    0 <= rr < y && occupied(self@, c, rr) ==> visited_at(visited@, c, rr),
            decreases 256 - y,
        {
            let mut x: usize = 0;
            while x < 256
                invariant
                    self.wf(),
                    visited.wf(),
                    y < 256,
                    x <= 256,
                    forall|c: int, rr: int|
                        0 <= rr < y && occupied(self@, c, rr) ==> visited_at(visited@, c, rr),
                    forall|c: int|
                        0 <= c < x && occupied(self@, c, y as int) ==> visited_at(
                            visited@,
                            c,
                            y as int,
                        ),
                decreases 256 - x,
            {
                let gi: GridIndex = GridIndex(x as u8, y as u8);
                if self.get(gi).is_some() && !*visited.get(gi) {
                    return Some(gi);
                }
                x = x + 1;
            }
            y = y + 1;
        }
        None
    }

    /// Probes the neighbor of `from` that lies `(dx, dy)` away in coordinate
    /// space; a fresh occupied neighbor is marked visited and put on the
    /// work list. A neighbor past the coordinate seam is skipped.
    fn probe(
        &self,
        visited: &mut Grid<bool>,
        stack: &mut Vec<GridIndex>,
        from: Coordinate,
        dx: i8,
        dy: i8,
        Ghost(seed): Ghost<(int, int)>,
    )
        requires
            self.wf(),
            old(visited).wf(),
            (dx == 0 && (dy == 1 || dy == -1)) || (dy == 0 && (dx == 1 || dx == -1)),
            reaches(self@, seed, (index_of(from).0 as int, index_of(from).1 as int)),
            visited_sound(self@, old(visited)@, seed),
            stack_marked(old(visited)@, old(stack)@),
        ensures
            final(visited).wf(),
            visited_sound(self@, final(visited)@, seed),
            stack_marked(final(visited)@, final(stack)@),
            forall|c: int, r: int|
                visited_at(old(visited)@, c, r) ==> #[trigger] visited_at(final(visited)@, c, r),
            forall|c: int, r: int| #[trigger]
                visited_at(final(visited)@, c, r) ==> visited_at(old(visited)@, c, r) || (c, r)
                    == neighbor_of(from, dx as int, dy as int),
            forall|c: int, r: int| #[trigger]
                visited_at(final(visited)@, c, r) && !visited_at(old(visited)@, c, r) ==> in_stack(
                    final(stack)@,
                    c,
                    r,
                ),
            occupied(
                self@,
                neighbor_of(from, dx as int, dy as int).0,
                neighbor_of(from, dx as int, dy as int).1,
            ) ==> visited_at(
                final(visited)@,
                neighbor_of(from, dx as int, dy as int).0,
                neighbor_of(from, dx as int, dy as int).1,
            ),
            forall|c: int, r: int|
                in_stack(old(stack)@, c, r) ==> #[trigger] in_stack(final(stack)@, c, r),
            forall|c: int, r: int| #[trigger]
                in_stack(final(stack)@, c, r) ==> in_stack(old(stack)@, c, r) || (c, r)
                    == neighbor_of(from, dx as int, dy as int),
            (final(stack)@ == old(stack)@ && final(visited)@ == old(visited)@) || (
            final(stack)@.len() == old(stack)@.len() + 1 && num_visited(final(visited)@, 65536)
                == num_visited(old(visited)@, 65536) + 1),
    {
        let (n, over): (Coordinate, bool) = from.overflowing_add(Coordinate(dx, dy));
        let ghost nb: (int, int) = neighbor_of(from, dx as int, dy as int);
        if over {
            proof {
                assert(!(0 <= nb.0 < 256) || !(0 <= nb.1 < 256));
                assert(!occupied(self@, nb.0, nb.1));
            }
            return ;
        }
        let gi: GridIndex = GridIndex::from(n);
        proof {
            assert(gi.0 as int == nb.0 && gi.1 as int == nb.1);
        }
        if self.get(gi).is_some() {
            if !*visited.get(gi) {
                let ghost v0: Seq<bool> = visited@;
                let ghost st0: Seq<GridIndex> = stack@;
                visited.set(gi, true);
                stack.push(gi);
                proof {
                    assert(occupied(self@, nb.0, nb.1));
                    lemma_num_visited_update(v0, flat(nb.0, nb.1), 65536);
                    assert(adjacent_cells(
                        (index_of(from).0 as int, index_of(from).1 as int),
                        nb,
                    ));
                    lemma_reaches_extend(
                        self@,
                        seed,
                        (index_of(from).0 as int, index_of(from).1 as int),
                        nb,
                    );
                    assert(visited_at(visited@, nb.0, nb.1));
                    assert forall|c: int, r: int| #[trigger]
                        visited_at(visited@, c, r) implies visited_at(v0, c, r) || (c, r)
                        == nb by {
                        if (c, r) != nb {
                            if flat(c, r) == flat(nb.0, nb.1) {
                                lemma_flat_injective(c, r, nb.0, nb.1);
                            }
                        }
                    }
                    assert forall|c: int, r: int|
                        visited_at(v0, c, r) implies #[trigger] visited_at(visited@, c, r) by {
                        if flat(c, r) == flat(nb.0, nb.1) {
                            lemma_flat_injective(c, r, nb.0, nb.1);
                        }
                    }
                    assert(stack@ == st0.push(gi));
                    assert forall|c: int, r: int|
                        in_stack(st0, c, r) implies #[trigger] in_stack(stack@, c, r) by {
                        let k = choose|k: int|
                            0 <= k < st0.len() && #[trigger] st0[k].0 == c && st0[k].1 == r;
                        assert(stack@[k] == st0[k]);
                    }
                    assert(in_stack(stack@, nb.0, nb.1)) by {
                        assert(stack@[st0.len() as int] == gi);
                    }
                    assert forall|c: int, r: int| #[trigger]
                        in_stack(stack@, c, r) implies in_stack(st0, c, r) || (c, r) == nb by {
                        let k = choose|k: int|
                            0 <= k < stack@.len() && #[trigger] stack@[k].0 == c && stack@[k].1
                                == r;
                        if k < st0.len() {
                            assert(st0[k] == stack@[k]);
                        }
                    }
                }
            }
        } else {
            proof {
                assert(!occupied(self@, nb.0, nb.1));
            }
        }
    }

    /// Checks that the placed tiles form one connected region under
    /// 4-connectivity: a flood fill from the first occupied cell must mark
    /// every occupied cell. An empty grid passes trivially.
    pub fn validate_connectivity(&self) -> (r: Result<(), Error>)
        requires
            self.wf(),
        ensures
            r is Ok <==> connected(self@),
            r is Err ==> r->Err_0 == Error::WordsNotConnected,
    {
        let start: Option<GridIndex> = self.find_occupied();
        let seed: GridIndex = match start {
            None => {
                return Ok(());
            },
            Some(gi) => gi,
        };
        let ghost seedp: (int, int) = (seed.0 as int, seed.1 as int);
        let mut visited: Grid<bool> = Grid::new(false);
        let mut stack: Vec<GridIndex> = Vec::new();
        proof {
            assert(!visited_at(visited@, seedp.0, seedp.1) || visited@[flat(seedp.0, seedp.1)]
                == false);
        }
        proof {
            lemma_num_visited_bounds(visited@, 65536);
        }
        visited.set(seed, true);
        stack.push(seed);
        proof {
            lemma_reaches_self(self@, seedp);
            assert(visited_at(visited@, seedp.0, seedp.1));
            assert forall|c: int, r: int| #[trigger]
                visited_at(visited@, c, r) implies occupied(self@, c, r) && reaches(
                self@,
                seedp,
                (c, r),
            ) by {
                lemma_flat_injective(c, r, seedp.0, seedp.1);
                assert((c, r) == seedp);
            }
            assert(in_stack(stack@, seedp.0, seedp.1)) by {
                assert(stack@[0] == seed);
            }
        }
        while stack.len() > 0
            invariant
                self.wf(),
                visited.wf(),
                occupied(self@, seedp.0, seedp.1),
                visited_at(visited@, seedp.0, seedp.1),
                visited_sound(self@, visited@, seedp),
                stack_marked(visited@, stack@),
                frontier_closed(self@, visited@, stack@),
            decreases (65536 - num_visited(visited@, 65536)) * 5 + stack@.len(),
    {
            proof {
                lemma_num_visited_bounds(visited@, 65536);
            }
            let ghost st_before: Seq<GridIndex> = stack@;
            let ghost v_before: Seq<bool> = visited@;
            let w: GridIndex = stack.pop().unwrap();
            let ghost wp: (int, int) = (w.0 as int, w.1 as int);
            let ghost st_popped: Seq<GridIndex> = stack@;
            let from: Coordinate = Coordinate::from(w);
            proof {
                crate::grid::index::lemma_conversion_round_trip(
                    crate::grid::index::coordinate_of(w),
                    w,
                );
                assert(index_of(from) == w);
                assert(visited_at(visited@, wp.0, wp.1));
                assert(reaches(self@, seedp, wp));
            }
            let ghost v0: Seq<bool> = visited@;
            let ghost st0: Seq<GridIndex> = stack@;
            self.probe(&mut visited, &mut stack, from, 1, 0, Ghost(seedp));
            let ghost v1: Seq<bool> = visited@;
            let ghost st1: Seq<GridIndex> = stack@;
            self.probe(&mut visited, &mut stack, from, -1, 0, Ghost(seedp));
            let ghost v2: Seq<bool> = visited@;
            let ghost st2: Seq<GridIndex> = stack@;
            self.probe(&mut visited, &mut stack, from, 0, 1, Ghost(seedp));
            let ghost v3: Seq<bool> = visited@;
            let ghost st3: Seq<GridIndex> = stack@;
            self.probe(&mut visited, &mut stack, from, 0, -1, Ghost(seedp));
            proof {
                assert(neighbor_of(from, 1, 0) == (wp.0 + 1, wp.1));
                assert(neighbor_of(from, -1, 0) == (wp.0 - 1, wp.1));
                assert(neighbor_of(from, 0, 1) == (wp.0, wp.1 - 1));
                assert(neighbor_of(from, 0, -1) == (wp.0, wp.1 + 1));
                assert(cell_closed(self@, visited@, wp.0, wp.1));
                assert forall|c: int, r: int| #[trigger]
                    visited_at(visited@, c, r) && !in_stack(stack@, c, r) implies cell_closed(
                    self@,
                    visited@,
                    c,
                    r,
                ) by {
                    if (c, r) == wp {
                        assert(cell_closed(self@, visited@, c, r));
                    } else if visited_at(v_before, c, r) {
                        if in_stack(st_before, c, r) {
                            lemma_in_stack_after_pop(st_before, c, r);
                            assert(in_stack(st_popped, c, r));
                            assert(in_stack(st1, c, r));
                            assert(in_stack(st2, c, r));
                            assert(in_stack(st3, c, r));
                            assert(in_stack(stack@, c, r));
                            assert(false);
                        } else {
                            assert(cell_closed(self@, v_before, c, r));
                            assert(cell_closed(self@, visited@, c, r));
                        }
                    } else {
                        // the cell was first visited by one of the probes,
                        // which also pushed it onto the work list
                        if !visited_at(v1, c, r) {
                            if !visited_at(v2, c, r) {
                                if !visited_at(v3, c, r) {
                                    assert(in_stack(stack@, c, r));
                                } else {
                                    assert(in_stack(st3, c, r));
                                }
                            } else {
                                assert(in_stack(st2, c, r));
                            }
                        } else {
                            assert(in_stack(st1, c, r));
                        }
                        assert(false);
                    }
                }
                lemma_num_visited_bounds(visited@, 65536);
                assert(num_visited(v0, 65536) == num_visited(v_before, 65536));
                assert(st0.len() == st_before.len() - 1);
            }
        }
        match self.find_unvisited_occupied(&visited) {
            Some(bad) => {
                proof {
                    let badp: (int, int) = (bad.0 as int, bad.1 as int);
                    assert(!connected(self@)) by {
                        if connected(self@) {
                            assert(occupied(self@, seedp.0, seedp.1) && occupied(
                                self@,
                                badp.0,
                                badp.1,
                            ));
                            assert(reaches(self@, seedp, badp));
                            let path: Seq<(int, int)> = choose|path: Seq<(int, int)>|
                                is_path(self@, path) && path.first() == seedp && path.last()
                                    == badp;
                            assert forall|c: int, r: int| #[trigger]
                                visited_at(visited@, c, r) implies cell_closed(
                                self@,
                                visited@,
                                c,
                                r,
                            ) by {
                                assert(!in_stack(stack@, c, r));
                            }
                            lemma_path_stays_visited(self@, visited@, path);
                            assert(false);
                        }
                    }
                }
                Err(Error::WordsNotConnected)
            },
            None => {
                proof {
                    assert forall|a: (int, int), b: (int, int)|
                        occupied(self@, #[trigger] a.0, a.1) && occupied(
                            self@,
                            #[trigger] b.0,
                            b.1,
                        ) implies reaches(self@, a, b) by {
                        assert(visited_at(visited@, a.0, a.1));
                        assert(visited_at(visited@, b.0, b.1));
                        assert(reaches(self@, seedp, (a.0, a.1)));
                        assert(reaches(self@, seedp, (b.0, b.1)));
                        lemma_reaches_sym(self@, seedp, (a.0, a.1));
                        lemma_reaches_trans(self@, (a.0, a.1), seedp, (b.0, b.1));
                    }
                    assert(connected(self@));
                }
                Ok(())
            },
        }
    }
}

} // verus!
