//! Running away: paths that lead further from a set of cells.

use crate::map::{Board, GameMap, MAX_SIDE};
use crate::mask::circle_offsets;
use vstd::prelude::*;

verus! {

impl Board {
    /// No two cells of the board are further apart.
    pub open spec fn span(self) -> int {
        2 * (if self.width > self.height {
            self.width
        } else {
            self.height
        }) - 2
    }

    /// The offsets at which a flight of at most `max_distance` steps looks for
    /// a place to go, in its order.
    pub open spec fn flight_offsets(self, max_distance: int) -> Seq<(int, int)> {
        crate::mask::circle(
            1,
            if max_distance < self.span() {
                max_distance
            } else {
                self.span()
            },
        )
    }

    /// Whether a cell is worth fleeing to: free, and further from the bad
    /// cells than the start.
    pub open spec fn better(self, start: int, bad: Seq<usize>, cell: Option<usize>) -> bool {
        cell matches Some(c) && self.free(c as int) && self.distance2_to(c as int, bad)
            > self.distance2_to(start, bad)
    }

    /// Whether a walk of at most `max` steps leads from `start` to `c`.
    pub open spec fn within(self, start: int, c: usize, max: int) -> bool {
        exists|q: Seq<usize>| #[trigger]
            self.arrives(start, seq![c], Seq::empty(), q) && q.len() - 1 <= max
    }

    /// Whether the `i`-th offset of a flight leads to a better cell within
    /// reach.
    pub open spec fn refuge(
        self,
        start: int,
        bad: Seq<usize>,
        max: int,
        offsets: Seq<(int, int)>,
        i: int,
    ) -> bool {
        let cell = self.step(start, offsets[i].0, offsets[i].1);
        self.better(start, bad, cell) && self.within(start, cell.unwrap(), max)
    }

    /// How far from the bad cells the `i`-th offset of a flight leads.
    pub open spec fn remoteness(
        self,
        start: int,
        bad: Seq<usize>,
        offsets: Seq<(int, int)>,
        i: int,
    ) -> int {
        self.distance2_to(self.step(start, offsets[i].0, offsets[i].1).unwrap() as int, bad)
    }

    /// What a flight may answer, having looked at the first `n` offsets: a
    /// path to the remotest refuge among them, the first of equally remote
    /// ones; nothing where there is no refuge.
    pub open spec fn flight_answer(
        self,
        start: int,
        bad: Seq<usize>,
        max: int,
        offsets: Seq<(int, int)>,
        n: int,
        path: Option<Vec<usize>>,
    ) -> bool {
        match path {
            None => forall|i: int| 0 <= i < n ==> !#[trigger] self.refuge(start, bad, max, offsets, i),
            Some(steps) => exists|i: int|
                0 <= i < n && #[trigger] self.refuge(start, bad, max, offsets, i)
                    && self.path_answer(
                    start,
                    seq![self.step(start, offsets[i].0, offsets[i].1).unwrap()],
                    Seq::empty(),
                    path,
                ) && steps@.len() <= max && forall|j: int|
                    0 <= j < n && #[trigger] self.refuge(start, bad, max, offsets, j)
                        ==> self.remoteness(start, bad, offsets, j) < self.remoteness(
                        start,
                        bad,
                        offsets,
                        i,
                    ) || (self.remoteness(start, bad, offsets, j) == self.remoteness(
                        start,
                        bad,
                        offsets,
                        i,
                    ) && i <= j),
        }
    }

    /// A free cell is within reach exactly where the search for a path to it
    /// answers with no more cells than that.
    pub proof fn lemma_path_within(self, start: int, c: usize, max: int, path: Option<Vec<usize>>)
        requires
            self.wf(),
            self.has(c as int),
            self.free(c as int),
            start != c,
            self.has(start),
            self.path_answer(start, seq![c], Seq::empty(), path),
        ensures
            self.within(start, c, max) <==> path is Some && path.unwrap()@.len() <= max,
    {
        let ends = seq![c];
        crate::map::lemma_cell_count_limit(self);
        assert(ends.len() == 1 && ends[0] == c);
        assert(!ends.contains(start as usize)) by {
            if ends.contains(start as usize) {
                let i = choose|i: int| 0 <= i < ends.len() && ends[i] == start as usize;
            }
        }
        if path is Some {
            let p = choose|p: Seq<usize>| #[trigger]
                self.is_shortest(start, ends, Seq::empty(), p) && path.unwrap()@ == self.steps(
                    Seq::empty(),
                    p,
                );
            assert(self.arrives(start, ends, Seq::empty(), p));
            let i = choose|i: int| 0 <= i < ends.len() && ends[i] == p.last();
            assert(p.last() == c);
            assert(!self.is_occupied(c as int));
            assert(path.unwrap()@.len() == p.len() - 1);
        }
    }

    /// A cell within reach is one that a flight looks at.
    proof fn lemma_within_is_offset(self, start: int, c: usize, max: int) -> (i: int)
        requires
            self.wf(),
            self.has(start),
            self.has(c as int),
            start != c,
            self.within(start, c, max),
        ensures
            0 <= i < self.flight_offsets(max).len(),
            self.step(start, self.flight_offsets(max)[i].0, self.flight_offsets(max)[i].1) == Some(
                c,
            ),
    {
        let ends = seq![c];
        let q = choose|q: Seq<usize>| #[trigger]
            self.arrives(start, ends, Seq::empty(), q) && q.len() - 1 <= max;
        assert(ends.contains(c)) by {
            assert(ends[0] == c);
        }
        assert(q.last() == c) by {
            let k = choose|k: int| 0 <= k < ends.len() && ends[k] == q.last();
        }
        self.lemma_estimate_walk(start, ends, Seq::empty(), q, 0);
        self.lemma_estimate_end(c as int, ends);
        assert(self.distance_to(start, ends) == self.distance(start, c as int)) by {
            assert(ends.drop_last() =~= Seq::<usize>::empty());
            assert(self.distance_to(start, ends.drop_last()) == -1);
        }
        self.lemma_distance_metric(start, c as int, start);
        self.lemma_coords(start);
        self.lemma_coords(c as int);
        let o = (self.x(c as int) - self.x(start), self.y(c as int) - self.y(start));
        assert(crate::mask::norm(o) == self.distance(start, c as int));
        let radius = if max < self.span() {
            max
        } else {
            self.span()
        };
        assert(1 <= crate::mask::norm(o) <= radius);
        crate::mask::lemma_circle_exact(1, radius, o);
        let offsets = self.flight_offsets(max);
        let i = choose|i: int| 0 <= i < offsets.len() && offsets[i] == o;
        assert(offsets[i] == o);
        i
    }

    proof fn lemma_step_is_not_start(self, start: int, o: (int, int))
        requires
            self.wf(),
            self.has(start),
            crate::mask::norm(o) >= 1,
            self.step(start, o.0, o.1) is Some,
        ensures
            self.step(start, o.0, o.1).unwrap() != start,
            self.has(self.step(start, o.0, o.1).unwrap() as int),
    {
        self.lemma_at(self.x(start) + o.0, self.y(start) + o.1);
    }
}

/// A flight leads further from the bad cells than the start, in no more steps
/// than it may take, and no free cell within reach is further from them. There
/// is none exactly where no free cell within reach is further than the start.
pub proof fn lemma_flight_goes_furthest(
    b: Board,
    start: int,
    bad: Seq<usize>,
    max: int,
    path: Option<Vec<usize>>,
)
    requires
        b.wf(),
        b.has(start),
        b.flight_answer(
            start,
            bad,
            max,
            b.flight_offsets(max),
            b.flight_offsets(max).len() as int,
            path,
        ),
    ensures
        path matches Some(p) ==> {
            &&& 1 <= p@.len() <= max
            &&& b.has(p@.last() as int)
            &&& b.distance2_to(p@.last() as int, bad) > b.distance2_to(start, bad)
            &&& forall|c: usize|
                b.has(c as int) && b.free(c as int) && #[trigger] b.within(start, c, max)
                    ==> b.distance2_to(c as int, bad) <= b.distance2_to(p@.last() as int, bad)
        },
        path is None <==> forall|c: usize|
            b.has(c as int) && b.free(c as int) && #[trigger] b.within(start, c, max)
                ==> b.distance2_to(c as int, bad) <= b.distance2_to(start, bad),
{
    let offsets = b.flight_offsets(max);
    let n = offsets.len() as int;
    assert forall|c: usize|
        b.has(c as int) && b.free(c as int) && #[trigger] b.within(start, c, max)
            && b.distance2_to(c as int, bad) > b.distance2_to(start, bad) implies exists|i: int|
        0 <= i < n && #[trigger] b.refuge(start, bad, max, offsets, i) && b.remoteness(
            start,
            bad,
            offsets,
            i,
        ) == b.distance2_to(c as int, bad) by {
        let i = b.lemma_within_is_offset(start, c, max);
        assert(b.refuge(start, bad, max, offsets, i));
    }
    if let Some(steps) = path {
        let i = choose|i: int|
            0 <= i < n && #[trigger] b.refuge(start, bad, max, offsets, i) && b.path_answer(
                start,
                seq![b.step(start, offsets[i].0, offsets[i].1).unwrap()],
                Seq::empty(),
                path,
            ) && steps@.len() <= max && forall|j: int|
                0 <= j < n && #[trigger] b.refuge(start, bad, max, offsets, j) ==> b.remoteness(
                    start,
                    bad,
                    offsets,
                    j,
                ) < b.remoteness(start, bad, offsets, i) || (b.remoteness(start, bad, offsets, j)
                    == b.remoteness(start, bad, offsets, i) && i <= j);
        let c = b.step(start, offsets[i].0, offsets[i].1).unwrap();
        let ends = seq![c];
        let p = choose|p: Seq<usize>| #[trigger]
            b.is_shortest(start, ends, Seq::empty(), p) && steps@ == b.steps(Seq::empty(), p);
        b.lemma_at(b.x(start) + offsets[i].0, b.y(start) + offsets[i].1);
        assert(b.arrives(start, ends, Seq::empty(), p));
        assert(p.last() == c) by {
            let k = choose|k: int| 0 <= k < ends.len() && ends[k] == p.last();
        }
        assert(!b.is_occupied(c as int));
        assert(start != c) by {
            assert(b.distance2_to(c as int, bad) > b.distance2_to(start, bad));
        }
        assert(p.len() > 1);
        assert(steps@ == p.drop_first());
        assert(steps@.last() == c);
        assert(b.remoteness(start, bad, offsets, i) == b.distance2_to(c as int, bad));
        assert forall|d: usize|
            b.has(d as int) && b.free(d as int) && #[trigger] b.within(start, d, max) implies
            b.distance2_to(d as int, bad) <= b.distance2_to(c as int, bad) by {
            if b.distance2_to(d as int, bad) > b.distance2_to(start, bad) {
                let j = choose|j: int|
                    0 <= j < n && #[trigger] b.refuge(start, bad, max, offsets, j)
                        && b.remoteness(start, bad, offsets, j) == b.distance2_to(d as int, bad);
                assert(b.refuge(start, bad, max, offsets, j));
            }
        }
        assert(b.within(start, c, max));
    } else {
        assert forall|c: usize|
            b.has(c as int) && b.free(c as int) && #[trigger] b.within(start, c, max) implies
            b.distance2_to(c as int, bad) <= b.distance2_to(start, bad) by {
            if b.distance2_to(c as int, bad) > b.distance2_to(start, bad) {
                let i = choose|i: int|
                    0 <= i < n && #[trigger] b.refuge(start, bad, max, offsets, i)
                        && b.remoteness(start, bad, offsets, i) == b.distance2_to(c as int, bad);
                assert(!b.refuge(start, bad, max, offsets, i));
            }
        }
    }
}

impl GameMap {
    /// A path of at most `max_distance` steps to the free cell that lies
    /// furthest from the bad cells, further than the start; none where no
    /// such cell can be reached.
    #[must_use]
    pub fn get_path_away(&self, start: usize, bad_cells: &[usize], max_distance: i32) -> (path:
        Option<Vec<usize>>)
        requires
            self.wf(),
            self@.has(start as int),
            forall|i: int| 0 <= i < bad_cells@.len() ==> self@.has(#[trigger] bad_cells@[i] as int),
        ensures
            ({
                let offsets = self@.flight_offsets(max_distance as int);
                self@.flight_answer(
                    start as int,
                    bad_cells@,
                    max_distance as int,
                    offsets,
                    offsets.len() as int,
                    path,
                )
            }),
    {
        let ghost b = self@;
        let ghost bad = bad_cells@;
        let side: i32 = if self.width > self.height {
            self.width
        } else {
            self.height
        };
        let span: i32 = 2 * side - 2;
        let radius: i32 = if max_distance < span {
            max_distance
        } else {
            span
        };
        let ghost offs = b.flight_offsets(max_distance as int);
        if radius < 1 {
            assert(offs =~= Seq::empty());
            return None;
        }
        let mask: Vec<[i32; 2]> = circle_offsets(1, radius);
        let current: i32 = self.get_distance2_to_set(start, bad_cells);
        let x: i32 = self.cells[start].x;
        let y: i32 = self.cells[start].y;
        proof {
            b.lemma_coords(start as int);
        }
        let mut best: Option<Vec<usize>> = None;
        let mut best_distance: i32 = current;
        let ghost mut chosen: int = -1;
        let no_cell: Vec<usize> = Vec::new();
        let mut k: usize = 0;
        while k < mask.len()
            invariant
                self.wf(),
                b == self@,
                bad == bad_cells@,
                b.has(start as int),
                forall|i: int| 0 <= i < bad.len() ==> b.has(#[trigger] bad[i] as int),
                offs == b.flight_offsets(max_distance as int),
                offs == crate::mask::circle(1, radius as int),
                1 <= radius <= 2 * MAX_SIDE,
                crate::mask::offsets(mask@) == offs,
                current == b.distance2_to(start as int, bad),
                x == b.x(start as int),
                y == b.y(start as int),
                0 <= x <= 2 * MAX_SIDE,
                -MAX_SIDE <= y <= MAX_SIDE,
                k <= mask@.len(),
                no_cell@ == Seq::<usize>::empty(),
                best is None ==> best_distance == current && forall|i: int|
                    0 <= i < k ==> !#[trigger] b.refuge(
                        start as int,
                        bad,
                        max_distance as int,
                        offs,
                        i,
                    ),
                best matches Some(steps) ==> {
                    &&& 0 <= chosen < k
                    &&& b.refuge(start as int, bad, max_distance as int, offs, chosen)
                    &&& b.path_answer(
                        start as int,
                        seq![b.step(start as int, offs[chosen].0, offs[chosen].1).unwrap()],
                        Seq::empty(),
                        best,
                    )
                    &&& steps@.len() <= max_distance
                    &&& best_distance == b.remoteness(start as int, bad, offs, chosen)
                    &&& best_distance > current
                    &&& forall|j: int|
                        0 <= j < k && #[trigger] b.refuge(
                            start as int,
                            bad,
                            max_distance as int,
                            offs,
                            j,
                        ) ==> b.remoteness(start as int, bad, offs, j) < best_distance || (
                        b.remoteness(start as int, bad, offs, j) == best_distance && chosen <= j)
                },
            decreases mask.len() - k,
        {
            assert(offs[k as int] == (mask@[k as int][0] as int, mask@[k as int][1] as int));
            proof {
                crate::mask::lemma_circle_exact(1, radius as int, offs[k as int]);
                assert(offs.contains(offs[k as int]));
            }
            let mx: i32 = mask[k][0];
            let my: i32 = mask[k][1];
            match self.get_cell_xy(x + mx, y + my) {
                None => {},
                Some(c) => {
                    proof {
                        b.lemma_step_is_not_start(start as int, offs[k as int]);
                    }
                    if self.cell_available(c) {
                        let distance: i32 = self.get_distance2_to_set(c, bad_cells);
                        if distance > best_distance {
                            let path: Option<Vec<usize>> = self.get_path_between(
                                start,
                                c,
                                &no_cell,
                            );
                            proof {
                                b.lemma_path_within(start as int, c, max_distance as int, path);
                            }
                            match path {
                                None => {},
                                Some(steps) => {
                                    if steps.len() <= max_distance as usize {
                                        best = Some(steps);
                                        best_distance = distance;
                                        proof {
                                            chosen = k as int;
                                        }
                                    }
                                },
                            }
                        }
                    }
                },
            }
            k += 1;
        }
        best
    }
}

} // verus!
