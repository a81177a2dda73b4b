//! Which of several shortest paths is taken: the order in which a search sees
//! the cells of a board.

use crate::map::Board;
use vstd::prelude::*;

verus! {

/// A list with two entries in each other's place.
pub open spec fn exchanged(s: Seq<(usize, i32)>, i: int, j: int) -> Seq<(usize, i32)> {
    s.update(i, s[j]).update(j, s[i])
}

/// A heap in which the entry at `k` rises past every heavier parent.
#[verifier::opaque]
pub open spec fn risen(s: Seq<(usize, i32)>, k: int) -> Seq<(usize, i32)>
    decreases k,
{
    if 0 < k < s.len() && s[k].1 < s[(k - 1) / 2].1 {
        risen(exchanged(s, k, (k - 1) / 2), (k - 1) / 2)
    } else {
        s
    }
}

/// The lighter child of the entry at `k`, the left one of two equal ones.
pub open spec fn lighter_child(s: Seq<(usize, i32)>, k: int) -> int {
    if 2 * k + 2 < s.len() && s[2 * k + 2].1 < s[2 * k + 1].1 {
        2 * k + 2
    } else {
        2 * k + 1
    }
}

/// A heap in which the entry at `k` sinks below every lighter child.
#[verifier::opaque]
pub open spec fn sunk(s: Seq<(usize, i32)>, k: int) -> Seq<(usize, i32)>
    decreases s.len() - k,
{
    if 0 <= k && 2 * k + 1 < s.len() && s[lighter_child(s, k)].1 < s[k].1 {
        sunk(exchanged(s, k, lighter_child(s, k)), lighter_child(s, k))
    } else {
        s
    }
}

pub(crate) proof fn lemma_risen(s: Seq<(usize, i32)>, k: int)
    requires
        0 <= k < s.len(),
    ensures
        risen(s, k) == (if 0 < k && s[k].1 < s[(k - 1) / 2].1 {
            risen(exchanged(s, k, (k - 1) / 2), (k - 1) / 2)
        } else {
            s
        }),
{
    reveal(risen);
}

pub(crate) proof fn lemma_sunk(s: Seq<(usize, i32)>, k: int)
    requires
        0 <= k < s.len(),
    ensures
        sunk(s, k) == (if 2 * k + 1 < s.len() && s[lighter_child(s, k)].1 < s[k].1 {
            sunk(exchanged(s, k, lighter_child(s, k)), lighter_child(s, k))
        } else {
            s
        }),
{
    reveal(sunk);
}

/// A heap with one more entry.
pub open spec fn added(s: Seq<(usize, i32)>, id: usize, weight: i32) -> Seq<(usize, i32)> {
    risen(s.push((id, weight)), s.len() as int)
}

/// A heap without its first entry: the last one takes its place and sinks.
pub open spec fn taken(s: Seq<(usize, i32)>) -> Seq<(usize, i32)> {
    if s.len() <= 1 {
        Seq::empty()
    } else {
        sunk(s.drop_last().update(0, s.last()), 0)
    }
}

/// How far a search has come: for each cell whether it was seen, whether it is
/// done, the steps to it and the cell before it, and the heap of cells to go
/// on from.
#[verifier::ext_equal]
pub struct Quest {
    pub visited: Seq<bool>,
    pub closed: Seq<bool>,
    pub cost: Seq<i32>,
    pub parent: Seq<usize>,
    pub open: Seq<(usize, i32)>,
}

impl Quest {
    /// A search among `n` cells that has only seen its start.
    pub open spec fn begun(n: nat, start: int) -> Quest {
        Quest {
            visited: Seq::new(n, |i: int| i == start),
            closed: Seq::new(n, |i: int| false),
            cost: Seq::new(n, |i: int| 0),
            parent: Seq::new(n, |i: int| 0),
            open: seq![(start as usize, 0)],
        }
    }

    /// Seeing `c` from `u`: the way over `u` is kept where it is the first or
    /// a shorter one.
    pub open spec fn seen(self, b: Board, ends: Seq<usize>, u: int, c: int) -> Quest {
        let steps = (self.cost[u] + 1) as i32;
        if !self.visited[c] || steps < self.cost[c] {
            Quest {
                visited: self.visited.update(c, true),
                cost: self.cost.update(c, steps),
                parent: self.parent.update(c, u as usize),
                open: added(self.open, c as usize, (steps + b.distance_to(c, ends)) as i32),
                ..self
            }
        } else {
            self
        }
    }

    /// The cells around `u`: to the south, the west, the north and the east.
    pub open spec fn around(b: Board, u: int) -> Seq<Option<usize>> {
        seq![
            b.neighbour(u, crate::map::DIR_SOUTH),
            b.neighbour(u, crate::map::DIR_WEST),
            b.neighbour(u, crate::map::DIR_NORTH),
            b.neighbour(u, crate::map::DIR_EAST),
        ]
    }

    /// Seeing the first `k` of the cells around `u`, as far as they may be
    /// entered and are not done.
    #[verifier::opaque]
    pub open spec fn spread(
        self,
        b: Board,
        ends: Seq<usize>,
        ignored: Seq<usize>,
        u: int,
        k: nat,
    ) -> Quest
        decreases k,
    {
        if k == 0 {
            self
        } else {
            let q = self.spread(b, ends, ignored, u, (k - 1) as nat);
            match Self::around(b, u)[k - 1] {
                Some(c) if b.enterable(c as int, ends, ignored) && !q.closed[c as int] => q.seen(
                    b,
                    ends,
                    u,
                    c as int,
                ),
                _ => q,
            }
        }
    }

    pub(crate) proof fn lemma_spread(
        self,
        b: Board,
        ends: Seq<usize>,
        ignored: Seq<usize>,
        u: int,
        k: nat,
    )
        ensures
            self.spread(b, ends, ignored, u, 0) == self,
            self.spread(b, ends, ignored, u, k + 1) == {
                let q = self.spread(b, ends, ignored, u, k);
                match Self::around(b, u)[k as int] {
                    Some(c) if b.enterable(c as int, ends, ignored) && !q.closed[c as int] => {
                        q.seen(b, ends, u, c as int)
                    },
                    _ => q,
                }
            },
    {
        reveal(Quest::spread);
    }

    /// The way on which a cell was reached.
    pub open spec fn trail(self, c: int) -> Seq<usize>
        decreases self.cost[c],
    {
        if self.cost[c] <= 0 || self.cost[self.parent[c] as int] != self.cost[c] - 1 {
            seq![c as usize]
        } else {
            self.trail(self.parent[c] as int).push(c as usize)
        }
    }

    /// The way to the first end that leaves the heap, within `n` cells that
    /// leave it.
    #[verifier::opaque]
    pub open spec fn found(
        self,
        b: Board,
        ends: Seq<usize>,
        ignored: Seq<usize>,
        n: nat,
    ) -> Option<Seq<usize>>
        decreases n,
    {
        if n == 0 || self.open.len() == 0 {
            None
        } else {
            let u = self.open[0].0;
            if self.closed[u as int] {
                self.after_first().found(b, ends, ignored, (n - 1) as nat)
            } else if ends.contains(u) {
                Some(self.trail(u as int))
            } else {
                self.after_done(b, ends, ignored).found(b, ends, ignored, (n - 1) as nat)
            }
        }
    }

    /// The search after the first cell has left the heap.
    pub open spec fn after_first(self) -> Quest {
        Quest { open: taken(self.open), ..self }
    }

    /// The search after the first cell of the heap is done.
    pub open spec fn after_done(
        self,
        b: Board,
        ends: Seq<usize>,
        ignored: Seq<usize>,
    ) -> Quest {
        let u = self.open[0].0 as int;
        Quest { closed: self.closed.update(u, true), ..self.after_first() }.spread(
            b,
            ends,
            ignored,
            u,
            4,
        )
    }

    pub(crate) proof fn lemma_found(
        self,
        b: Board,
        ends: Seq<usize>,
        ignored: Seq<usize>,
        n: nat,
    )
        ensures
            self.open.len() == 0 ==> self.found(b, ends, ignored, n) is None,
            self.open.len() > 0 && n > 0 ==> self.found(b, ends, ignored, n) == ({
                let u = self.open[0].0;
                if self.closed[u as int] {
                    self.after_first().found(b, ends, ignored, (n - 1) as nat)
                } else if ends.contains(u) {
                    Some(self.trail(u as int))
                } else {
                    self.after_done(b, ends, ignored).found(b, ends, ignored, (n - 1) as nat)
                }
            }),
    {
        reveal(Quest::found);
    }
}

impl Board {
    /// The path that a search takes from `start` to one of the ends. A cell is
    /// done once and adds at most four entries to the heap, which bounds the
    /// search.
    pub open spec fn chosen_path(
        self,
        start: int,
        ends: Seq<usize>,
        ignored: Seq<usize>,
    ) -> Option<Seq<usize>> {
        if ends.len() == 0 || ends.contains(start as usize) {
            None
        } else {
            match Quest::begun(self.cells.len(), start).found(
                self,
                ends,
                ignored,
                (5 * self.cells.len() + 1) as nat,
            ) {
                Some(p) => Some(self.steps(ignored, p)),
                None => None,
            }
        }
    }
}

} // verus!
