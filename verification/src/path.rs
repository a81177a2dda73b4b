//! Shortest paths over the board.

use crate::map::{has_cell, Board, GameMap};
use crate::quest::Quest;
use vstd::prelude::*;

verus! {

impl Board {
    /// Whether a walk towards `ends` may enter a cell: no obstacle, and nobody
    /// there but on the ends and on the ignored cells.
    pub open spec fn enterable(self, c: int, ends: Seq<usize>, ignored: Seq<usize>) -> bool {
        &&& self.walkable(c)
        &&& self.is_occupied(c) ==> ignored.contains(c as usize) || ends.contains(c as usize)
    }

    /// Whether `p` is a walk from `start`: each cell shares a side with the
    /// one before and may be entered.
    pub open spec fn is_walk(
        self,
        start: int,
        ends: Seq<usize>,
        ignored: Seq<usize>,
        p: Seq<usize>,
    ) -> bool {
        &&& p.len() >= 1
        &&& p[0] == start
        &&& forall|i: int| 1 <= i < p.len() ==> #[trigger] self.walk_step(ends, ignored, p, i)
    }

    /// Whether the `i`-th cell of a walk shares a side with the one before and
    /// may be entered.
    pub open spec fn walk_step(
        self,
        ends: Seq<usize>,
        ignored: Seq<usize>,
        p: Seq<usize>,
        i: int,
    ) -> bool {
        self.adjacent(p[i - 1] as int, p[i] as int) && self.enterable(p[i] as int, ends, ignored)
    }

    /// Whether `p` is a walk from `start` to one of the ends.
    pub open spec fn arrives(
        self,
        start: int,
        ends: Seq<usize>,
        ignored: Seq<usize>,
        p: Seq<usize>,
    ) -> bool {
        self.is_walk(start, ends, ignored, p) && ends.contains(p.last())
    }

    /// Whether `p` is a walk from `start` to one of the ends, and none is
    /// shorter.
    pub open spec fn is_shortest(
        self,
        start: int,
        ends: Seq<usize>,
        ignored: Seq<usize>,
        p: Seq<usize>,
    ) -> bool {
        &&& self.arrives(start, ends, ignored, p)
        &&& forall|q: Seq<usize>| #[trigger]
            self.arrives(start, ends, ignored, q) ==> p.len() <= q.len()
    }

    /// The steps of a walk: its cells without the first, and without the last
    /// where somebody stands on it who is not ignored.
    pub open spec fn steps(self, ignored: Seq<usize>, p: Seq<usize>) -> Seq<usize> {
        if self.is_occupied(p.last() as int) && !ignored.contains(p.last()) {
            p.drop_first().drop_last()
        } else {
            p.drop_first()
        }
    }

    /// What a search for a path from `start` to one of the ends answers: the
    /// steps of a shortest walk, or nothing where there is no end, the start
    /// is one, or no walk arrives. Among several shortest walks it is the one
    /// that [`Board::chosen_path`] takes.
    pub open spec fn path_answer(
        self,
        start: int,
        ends: Seq<usize>,
        ignored: Seq<usize>,
        path: Option<Vec<usize>>,
    ) -> bool {
        &&& self.chosen_path(start, ends, ignored) == match path {
            None => None,
            Some(steps) => Some(steps@),
        }
        &&& match path {
            None => {
                ||| ends.len() == 0
                ||| ends.contains(start as usize)
                ||| forall|q: Seq<usize>| !#[trigger] self.arrives(start, ends, ignored, q)
            },
            Some(steps) => {
                &&& !ends.contains(start as usize)
                &&& exists|p: Seq<usize>| #[trigger]
                    self.is_shortest(start, ends, ignored, p) && steps@ == self.steps(ignored, p)
            },
        }
    }

    /// The steps of a path are cells of the board.
    pub(crate) proof fn lemma_path_on_board(
        self,
        start: int,
        ends: Seq<usize>,
        ignored: Seq<usize>,
        path: Option<Vec<usize>>,
    )
        requires
            self.path_answer(start, ends, ignored, path),
        ensures
            path matches Some(p) ==> forall|i: int|
                0 <= i < p@.len() ==> self.has(#[trigger] p@[i] as int),
    {
        if let Some(steps) = path {
            let p = choose|p: Seq<usize>| #[trigger]
                self.is_shortest(start, ends, ignored, p) && steps@ == self.steps(ignored, p);
            assert forall|i: int| 0 <= i < steps@.len() implies self.has(
                #[trigger] steps@[i] as int,
            ) by {
                assert(steps@[i] == p[i + 1]);
                assert(self.walk_step(ends, ignored, p, i + 1));
            }
        }
    }

    /// The distance to the nearest end changes by at most one along a step.
    proof fn lemma_estimate_step(self, a: int, c: int, ends: Seq<usize>)
        requires
            self.wf(),
            self.adjacent(a, c),
            ends.len() > 0,
            forall|i: int| 0 <= i < ends.len() ==> self.has(#[trigger] ends[i] as int),
        ensures
            self.distance_to(a, ends) <= 1 + self.distance_to(c, ends),
    {
        self.lemma_distance_to(a, ends);
        self.lemma_distance_to(c, ends);
        let i = choose|i: int|
            0 <= i < ends.len() && self.distance_to(c, ends) == self.distance(
                c,
                #[trigger] ends[i] as int,
            );
        self.lemma_distance_metric(a, c, ends[i] as int);
        assert(self.distance_to(a, ends) <= self.distance(a, ends[i] as int));
    }

    /// The distance to the nearest end falls by at most the number of steps
    /// of a walk.
    pub(crate) proof fn lemma_estimate_walk(
        self,
        start: int,
        ends: Seq<usize>,
        ignored: Seq<usize>,
        p: Seq<usize>,
        j: int,
    )
        requires
            self.wf(),
            ends.len() > 0,
            forall|i: int| 0 <= i < ends.len() ==> self.has(#[trigger] ends[i] as int),
            self.is_walk(start, ends, ignored, p),
            0 <= j < p.len(),
        ensures
            self.distance_to(p[j] as int, ends) <= p.len() - 1 - j + self.distance_to(
                p.last() as int,
                ends,
            ),
        decreases p.len() - j,
    {
        if j < p.len() - 1 {
            self.lemma_estimate_walk(start, ends, ignored, p, j + 1);
            assert(self.walk_step(ends, ignored, p, j + 1));
            self.lemma_estimate_step(p[j] as int, p[j + 1] as int, ends);
        }
    }

    /// An end has distance 0 to the ends.
    pub(crate) proof fn lemma_estimate_end(self, c: int, ends: Seq<usize>)
        requires
            self.wf(),
            self.has(c),
            ends.contains(c as usize),
            forall|i: int| 0 <= i < ends.len() ==> self.has(#[trigger] ends[i] as int),
        ensures
            self.distance_to(c, ends) == 0,
    {
        self.lemma_distance_to(c, ends);
        let i = choose|i: int| 0 <= i < ends.len() && ends[i] == c as usize;
        assert(self.distance_to(c, ends) <= self.distance(c, ends[i] as int));
    }

    /// The beginning of a walk is a walk.
    proof fn lemma_walk_take(
        self,
        start: int,
        ends: Seq<usize>,
        ignored: Seq<usize>,
        p: Seq<usize>,
        n: int,
    )
        requires
            self.is_walk(start, ends, ignored, p),
            1 <= n <= p.len(),
        ensures
            self.is_walk(start, ends, ignored, p.take(n)),
    {
        let q = p.take(n);
        assert forall|i: int| 1 <= i < q.len() implies #[trigger] self.walk_step(
            ends,
            ignored,
            q,
            i,
        ) by {
            assert(self.walk_step(ends, ignored, p, i));
        }
    }

    /// A walk goes on with any neighbour that may be entered.
    proof fn lemma_walk_push(
        self,
        start: int,
        ends: Seq<usize>,
        ignored: Seq<usize>,
        p: Seq<usize>,
        c: usize,
    )
        requires
            self.is_walk(start, ends, ignored, p),
            self.adjacent(p.last() as int, c as int),
            self.enterable(c as int, ends, ignored),
        ensures
            self.is_walk(start, ends, ignored, p.push(c)),
    {
        let q = p.push(c);
        assert forall|i: int| 1 <= i < q.len() implies #[trigger] self.walk_step(
            ends,
            ignored,
            q,
            i,
        ) by {
            if i < p.len() {
                assert(self.walk_step(ends, ignored, p, i));
            } else {
                assert(q[i - 1] == p.last());
            }
        }
    }
}

/// The place of an entry's parent in a heap.
spec fn parent_of(i: int) -> int {
    (i - 1) / 2
}

/// A heap of cells, the lightest first. An entry keeps the weight that it was
/// pushed with. Among equal weights the order is that of the array: an entry
/// rises only past a heavier one and sinks only below a lighter one, the left
/// one of two equal children first.
struct MinHeap {
    data: Vec<(usize, i32)>,
}

impl MinHeap {
    /// No entry is lighter than its parent.
    spec fn wf(self) -> bool {
        forall|i: int|
            #![trigger self.data@[i]]
            0 < i < self.data@.len() ==> self.data@[parent_of(i)].1 <= self.data@[i].1
    }

    fn new() -> (heap: Self)
        ensures
            heap.wf(),
            heap.data@ == Seq::<(usize, i32)>::empty(),
    {
        MinHeap { data: Vec::new() }
    }

    /// The first entry of a heap is the lightest.
    proof fn lemma_first(self, i: int)
        requires
            self.wf(),
            0 <= i < self.data@.len(),
        ensures
            self.data@[0].1 <= self.data@[i].1,
        decreases i,
    {
        if i > 0 {
            self.lemma_first(parent_of(i));
        }
    }

    fn swap(&mut self, i: usize, j: usize)
        requires
            i < old(self).data@.len(),
            j < old(self).data@.len(),
        ensures
            final(self).data@ == old(self).data@.update(i as int, old(self).data@[j as int]).update(
                j as int,
                old(self).data@[i as int],
            ),
            forall|e: (usize, i32)|
                #[trigger] final(self).data@.contains(e) <==> old(self).data@.contains(e),
    {
        let a: (usize, i32) = self.data[i];
        let b: (usize, i32) = self.data[j];
        self.data.set(i, b);
        self.data.set(j, a);
        proof {
            let s = old(self).data@;
            let t = self.data@;
            assert forall|e: (usize, i32)| #[trigger] t.contains(e) <==> s.contains(e) by {
                if s.contains(e) {
                    let k = choose|k: int| 0 <= k < s.len() && s[k] == e;
                    if k == i {
                        assert(t[j as int] == e);
                    } else if k == j {
                        assert(t[i as int] == e);
                    } else {
                        assert(t[k] == e);
                    }
                }
                if t.contains(e) {
                    let k = choose|k: int| 0 <= k < t.len() && t[k] == e;
                    if k == j {
                        assert(s[i as int] == e);
                    } else if k == i {
                        assert(s[j as int] == e);
                    } else {
                        assert(s[k] == e);
                    }
                }
            }
        }
    }

    /// Adds an entry.
    fn push(&mut self, id: usize, weight: i32)
        requires
            old(self).wf(),
        ensures
            final(self).wf(),
            final(self).data@ == crate::quest::added(old(self).data@, id, weight),
            final(self).data@.len() == old(self).data@.len() + 1,
            forall|e: (usize, i32)|
                #[trigger] final(self).data@.contains(e) <==> old(self).data@.contains(e) || e == (
                    id,
                    weight,
                ),
    {
        self.data.push((id, weight));
        proof {
            let s = old(self).data@;
            let t = self.data@;
            assert forall|e: (usize, i32)| #[trigger]
                t.contains(e) <==> s.contains(e) || e == (id, weight) by {
                if s.contains(e) {
                    let k = choose|k: int| 0 <= k < s.len() && s[k] == e;
                    assert(t[k] == e);
                }
                if t.contains(e) && e != (id, weight) {
                    let k = choose|k: int| 0 <= k < t.len() && t[k] == e;
                    assert(s[k] == e);
                }
                assert(t[s.len() as int] == (id, weight));
            }
        }
        let last: usize = self.data.len() - 1;
        self.sift_up(last);
    }

    /// Takes the lightest entry off.
    fn pop(&mut self) -> (top: Option<(usize, i32)>)
        requires
            old(self).wf(),
        ensures
            final(self).wf(),
            match top {
                None => old(self).data@.len() == 0 && *final(self) == *old(self),
                Some(t) => {
                    &&& old(self).data@.len() > 0
                    &&& t == old(self).data@[0]
                    &&& final(self).data@ == crate::quest::taken(old(self).data@)
                    &&& old(self).data@.contains(t)
                    &&& final(self).data@.len() == old(self).data@.len() - 1
                    &&& forall|e: (usize, i32)| #[trigger]
                        final(self).data@.contains(e) ==> old(self).data@.contains(e)
                    &&& forall|e: (usize, i32)| #[trigger]
                        old(self).data@.contains(e) ==> t.1 <= e.1 && (e == t
                            || final(self).data@.contains(e))
                },
            },
    {
        if self.data.is_empty() {
            return None;
        }
        let ghost s = self.data@;
        let top: (usize, i32) = self.data[0];
        proof {
            assert forall|e: (usize, i32)| #[trigger] s.contains(e) implies top.1 <= e.1 by {
                let k = choose|k: int| 0 <= k < s.len() && s[k] == e;
                self.lemma_first(k);
            }
        }
        let last: (usize, i32) = self.data.pop().unwrap();
        if !self.data.is_empty() {
            self.data.set(0, last);
            proof {
                let t = self.data@;
                assert forall|e: (usize, i32)| #[trigger] t.contains(e) implies s.contains(e) by {
                    let k = choose|k: int| 0 <= k < t.len() && t[k] == e;
                    if k == 0 {
                        assert(s[s.len() - 1] == e);
                    } else {
                        assert(s[k] == e);
                    }
                }
                assert forall|e: (usize, i32)| #[trigger] s.contains(e) implies e == top
                    || t.contains(e) by {
                    let k = choose|k: int| 0 <= k < s.len() && s[k] == e;
                    if k == s.len() - 1 {
                        assert(t[0] == e);
                    } else if k > 0 {
                        assert(t[k] == e);
                    }
                }
                assert forall|i: int|
                    #![trigger t[i]]
                    0 < i < t.len() && parent_of(i) != 0 implies t[parent_of(i)].1 <= t[i].1 by {
                    assert(t[i] == s[i]);
                    assert(t[parent_of(i)] == s[parent_of(i)]);
                }
            }
            self.sift_down();
        } else {
            proof {
                assert forall|e: (usize, i32)| #[trigger] s.contains(e) implies e == top by {
                    let k = choose|k: int| 0 <= k < s.len() && s[k] == e;
                    assert(k == 0);
                }
            }
        }
        Some(top)
    }

    /// Lets the entry at `k` rise to its place.
    fn sift_up(&mut self, start: usize)
        requires
            start < old(self).data@.len(),
            forall|i: int|
                #![trigger old(self).data@[i]]
                0 < i < old(self).data@.len() && i != start ==> old(self).data@[parent_of(i)].1
                    <= old(self).data@[i].1,
            forall|i: int|
                #![trigger old(self).data@[i]]
                0 < i < old(self).data@.len() && parent_of(i) == start && start > 0 ==> old(
                    self,
                ).data@[parent_of(start as int)].1 <= old(self).data@[i].1,
        ensures
            final(self).wf(),
            final(self).data@ == crate::quest::risen(old(self).data@, start as int),
            final(self).data@.len() == old(self).data@.len(),
            forall|e: (usize, i32)|
                #[trigger] final(self).data@.contains(e) <==> old(self).data@.contains(e),
    {
        let mut k: usize = start;
        while k > 0
            invariant_except_break
                forall|i: int|
                    #![trigger self.data@[i]]
                    0 < i < self.data@.len() && i != k ==> self.data@[parent_of(i)].1
                        <= self.data@[i].1,
                forall|i: int|
                    #![trigger self.data@[i]]
                    0 < i < self.data@.len() && parent_of(i) == k && k > 0 ==> self.data@[parent_of(
                        k as int,
                    )].1 <= self.data@[i].1,
            invariant
                k < self.data@.len(),
                self.data@.len() == old(self).data@.len(),
                crate::quest::risen(self.data@, k as int) == crate::quest::risen(
                    old(self).data@,
                    start as int,
                ),
                forall|e: (usize, i32)|
                    #[trigger] self.data@.contains(e) <==> old(self).data@.contains(e),
            ensures
                self.wf(),
                k > 0 ==> self.data@[parent_of(k as int)].1 <= self.data@[k as int].1,
            decreases k,
        {
            let parent: usize = (k - 1) / 2;
            assert(parent == parent_of(k as int));
            let ghost s = self.data@;
            proof {
                crate::quest::lemma_risen(s, k as int);
            }
            if self.data[k].1 < self.data[parent].1 {
                self.swap(k, parent);
                proof {
                    let t = self.data@;
                    assert forall|i: int|
                        #![trigger t[i]]
                        0 < i < t.len() && i != parent implies t[parent_of(i)].1 <= t[i].1 by {
                        let q = parent_of(i);
                        assert(s[i].1 == s[i].1);
                        if i == k {
                        } else if q == k {
                            assert(t[i] == s[i]);
                            assert(s[parent_of(k as int)].1 <= s[i].1);
                        } else if q == parent {
                            assert(t[i] == s[i]);
                            assert(s[parent_of(i)].1 <= s[i].1);
                        } else {
                            assert(t[i] == s[i]);
                            assert(t[q] == s[q]);
                        }
                    }
                    assert forall|i: int|
                        #![trigger t[i]]
                        0 < i < t.len() && parent_of(i) == parent && parent > 0 implies t[parent_of(
                        parent as int,
                    )].1 <= t[i].1 by {
                        let g = parent_of(parent as int);
                        assert(t[g] == s[g]);
                        assert(s[parent_of(parent as int)].1 <= s[parent as int].1);
                        if i == k {
                        } else {
                            assert(t[i] == s[i]);
                            assert(s[parent_of(i)].1 <= s[i].1);
                        }
                    }
                }
                k = parent;
            } else {
                break;
            }
        }
        proof {
            crate::quest::lemma_risen(self.data@, k as int);
        }
    }

    /// Lets the first entry sink to its place.
    #[verifier::rlimit(40)]
    #[verifier::spinoff_prover]
    fn sift_down(&mut self)
        requires
            old(self).data@.len() > 0,
            forall|i: int|
                #![trigger old(self).data@[i]]
                0 < i < old(self).data@.len() && parent_of(i) != 0 ==> old(self).data@[parent_of(
                    i,
                )].1 <= old(self).data@[i].1,
        ensures
            final(self).wf(),
            final(self).data@ == crate::quest::sunk(old(self).data@, 0),
            final(self).data@.len() == old(self).data@.len(),
            forall|e: (usize, i32)|
                #[trigger] final(self).data@.contains(e) <==> old(self).data@.contains(e),
    {
        let len: usize = self.data.len();
        let mut k: usize = 0;
        while k < len / 2
            invariant_except_break
                forall|i: int|
                    #![trigger self.data@[i]]
                    0 < i < self.data@.len() && parent_of(i) != k ==> self.data@[parent_of(i)].1
                        <= self.data@[i].1,
                forall|i: int|
                    #![trigger self.data@[i]]
                    0 < i < self.data@.len() && parent_of(i) == k && k > 0 ==> self.data@[parent_of(
                        k as int,
                    )].1 <= self.data@[i].1,
            invariant
                k < len,
                len == self.data@.len(),
                len == old(self).data@.len(),
                crate::quest::sunk(self.data@, k as int) == crate::quest::sunk(old(self).data@, 0),
                forall|e: (usize, i32)|
                    #[trigger] self.data@.contains(e) <==> old(self).data@.contains(e),
            ensures
                self.wf(),
                2 * k + 1 < len ==> self.data@[k as int].1
                    <= self.data@[crate::quest::lighter_child(self.data@, k as int)].1,
            decreases len - k,
        {
            let left: usize = 2 * k + 1;
            let right: usize = left + 1;
            let smaller: usize = if right < len && self.data[right].1 < self.data[left].1 {
                right
            } else {
                left
            };
            let ghost s = self.data@;
            assert forall|i: int| 0 < i < s.len() && parent_of(i) == k implies i == left || i
                == right by {}
            assert(smaller == crate::quest::lighter_child(s, k as int));
            proof {
                crate::quest::lemma_sunk(s, k as int);
            }
            if self.data[smaller].1 < self.data[k].1 {
                self.swap(k, smaller);
                assert(self.data@ == crate::quest::exchanged(s, k as int, smaller as int));
                proof {
                    let t = self.data@;
                    assert forall|i: int|
                        #![trigger t[i]]
                        0 < i < t.len() && parent_of(i) != smaller implies t[parent_of(i)].1
                        <= t[i].1 by {
                        let q = parent_of(i);
                        if q == k {
                            assert(i == left || i == right);
                            assert(t[k as int] == s[smaller as int]);
                            if i != smaller {
                                assert(t[i] == s[i]);
                            }
                        } else if i == k {
                            assert(t[q] == s[q]);
                            assert(s[smaller as int].1 == s[smaller as int].1);
                            assert(parent_of(smaller as int) == k);
                            assert(s[parent_of(k as int)].1 <= s[smaller as int].1);
                        } else {
                            assert(t[i] == s[i]);
                            assert(t[q] == s[q]);
                        }
                    }
                    assert forall|i: int|
                        #![trigger t[i]]
                        0 < i < t.len() && parent_of(i) == smaller && smaller > 0 implies t[parent_of(
                        smaller as int,
                    )].1 <= t[i].1 by {
                        assert(parent_of(smaller as int) == k);
                        assert(t[k as int] == s[smaller as int]);
                        assert(t[i] == s[i]);
                        assert(s[parent_of(i)].1 <= s[i].1);
                    }
                }
                k = smaller;
            } else {
                proof {
                    assert forall|i: int|
                        #![trigger s[i]]
                        0 < i < s.len() implies s[parent_of(i)].1 <= s[i].1 by {
                        if parent_of(i) == k {
                            assert(i == left || i == right);
                        }
                    }
                }
                break;
            }
        }
        proof {
            crate::quest::lemma_sunk(self.data@, k as int);
        }
    }
}

/// The number of flags that are set.
spec fn count_set(s: Seq<bool>) -> int
    decreases s.len(),
{
    if s.len() == 0 {
        0
    } else {
        count_set(s.drop_last()) + (if s.last() {
            1int
        } else {
            0int
        })
    }
}

proof fn lemma_count_bounds(s: Seq<bool>)
    ensures
        0 <= count_set(s) <= s.len(),
    decreases s.len(),
{
    if s.len() > 0 {
        lemma_count_bounds(s.drop_last());
    }
}

proof fn lemma_count_update(s: Seq<bool>, i: int)
    requires
        0 <= i < s.len(),
        !s[i],
    ensures
        count_set(s.update(i, true)) == count_set(s) + 1,
    decreases s.len(),
{
    let t = s.update(i, true);
    if i == s.len() - 1 {
        assert(t.drop_last() =~= s.drop_last());
    } else {
        assert(t.drop_last() =~= s.drop_last().update(i, true));
        lemma_count_update(s.drop_last(), i);
    }
}

/// The state of a search from one cell: for each cell the cheapest way to it
/// that was seen so far, and whether it is known to be the best.
struct Search {
    visited: Vec<bool>,
    closed: Vec<bool>,
    cost: Vec<i32>,
    parent: Vec<usize>,
    open: MinHeap,
}

impl View for Search {
    type V = Quest;

    closed spec fn view(&self) -> Quest {
        Quest {
            visited: self.visited@,
            closed: self.closed@,
            cost: self.cost@,
            parent: self.parent@,
            open: self.open.data@,
        }
    }
}

impl Search {
    /// No walk to `c` is shorter than `d` steps.
    spec fn best(
        b: Board,
        start: int,
        ends: Seq<usize>,
        ignored: Seq<usize>,
        c: int,
        d: int,
    ) -> bool {
        forall|q: Seq<usize>| #[trigger]
            b.is_walk(start, ends, ignored, q) && q.last() == c ==> d <= q.len() - 1
    }

    /// The cell that a visited cell was reached from is closed, next to it,
    /// and one step cheaper.
    spec fn linked(self, b: Board, ends: Seq<usize>, ignored: Seq<usize>, c: int) -> bool {
        let p = self.parent@[c] as int;
        &&& b.has(p)
        &&& self.closed@[p]
        &&& self.cost@[c] == self.cost@[p] + 1
        &&& b.adjacent(p, c)
        &&& b.enterable(c, ends, ignored)
    }

    /// Everything that can be entered from `u` was visited at no more than
    /// one step above it.
    spec fn expanded(self, b: Board, ends: Seq<usize>, ignored: Seq<usize>, u: int) -> bool {
        forall|c: int| #[trigger]
            b.adjacent(u, c) && b.enterable(c, ends, ignored) ==> self.visited@[c] && self.cost@[c]
                <= self.cost@[u] + 1
    }

    spec fn wf(self, b: Board, start: int, ends: Seq<usize>, ignored: Seq<usize>) -> bool {
        let n = b.cells.len();
        &&& self.visited@.len() == n
        &&& self.closed@.len() == n
        &&& self.cost@.len() == n
        &&& self.parent@.len() == n
        &&& self.open.wf()
        &&& self.visited@[start]
        &&& self.cost@[start] == 0
        &&& forall|c: int|
            #![trigger self.visited@[c]]
            0 <= c < n && self.visited@[c] ==> {
                &&& 0 <= self.cost@[c] <= count_set(self.closed@)
                &&& c != start ==> self.linked(b, ends, ignored, c)
            }
        &&& forall|c: int|
            #![trigger self.closed@[c]]
            0 <= c < n && self.closed@[c] ==> {
                &&& self.visited@[c]
                &&& !ends.contains(c as usize)
                &&& Self::best(b, start, ends, ignored, c, self.cost@[c] as int)
            }
        &&& forall|e: (usize, i32)| #[trigger]
            self.open.data@.contains(e) ==> {
                &&& e.0 < n
                &&& self.visited@[e.0 as int]
                &&& e.0 == start || e.1 >= self.cost@[e.0 as int] + b.distance_to(e.0 as int, ends)
            }
        &&& forall|c: int|
            #![trigger self.visited@[c]]
            0 <= c < n && self.visited@[c] && !self.closed@[c] ==> exists|e: (usize, i32)| #[trigger]
                self.open.data@.contains(e) && e.0 == c && e.1 <= self.cost@[c] + b.distance_to(
                    c,
                    ends,
                )
    }

    /// Every closed cell but `u` has been expanded.
    spec fn expanded_but(
        self,
        b: Board,
        ends: Seq<usize>,
        ignored: Seq<usize>,
        u: int,
    ) -> bool {
        forall|c: int|
            #![trigger self.closed@[c]]
            0 <= c < self.closed@.len() && self.closed@[c] && c != u ==> self.expanded(
                b,
                ends,
                ignored,
                c,
            )
    }

    /// The search has gone on from `before` without closing a cell.
    spec fn continues(self, before: Search) -> bool {
        &&& self.closed@ == before.closed@
        &&& self.visited@.len() == before.visited@.len()
        &&& self.cost@.len() == before.cost@.len()
        &&& forall|c: int|
            #![trigger self.visited@[c]]
            #![trigger self.cost@[c]]
            0 <= c < before.visited@.len() && before.visited@[c] ==> self.visited@[c]
                && self.cost@[c] <= before.cost@[c]
        &&& forall|c: int|
            #![trigger self.cost@[c]]
            0 <= c < before.closed@.len() && before.closed@[c] ==> self.cost@[c] == before.cost@[c]
    }

    /// The walk on which a visited cell was reached.
    spec fn trail(self, c: int) -> Seq<usize> {
        self@.trail(c)
    }

    /// The trail of a visited cell is a walk to it of as many steps as it
    /// costs.
    proof fn lemma_trail(
        self,
        b: Board,
        start: int,
        ends: Seq<usize>,
        ignored: Seq<usize>,
        c: int,
    )
        requires
            self.wf(b, start, ends, ignored),
            b.has(start),
            b.has(c),
            b.cells.len() <= usize::MAX,
            self.visited@[c],
        ensures
            b.is_walk(start, ends, ignored, self.trail(c)),
            self.trail(c).last() == c,
            self.trail(c).len() == self.cost@[c] + 1,
        decreases self.cost@[c],
    {
        if c != start {
            assert(self.linked(b, ends, ignored, c));
            let p = self.parent@[c] as int;
            assert(self.closed@[p] && self.visited@[p]);
            assert(0 <= self.cost@[p]);
            self.lemma_trail(b, start, ends, ignored, p);
            b.lemma_walk_push(start, ends, ignored, self.trail(p), c as usize);
        }
    }

    /// The lightest entry weighs no more than any walk to a cell that is not
    /// closed, counted with the distance that is left from there.
    proof fn lemma_lightest(
        self,
        b: Board,
        start: int,
        ends: Seq<usize>,
        ignored: Seq<usize>,
        weight: int,
        q: Seq<usize>,
    )
        requires
            b.wf(),
            b.has(start),
            ends.len() > 0,
            forall|i: int| 0 <= i < ends.len() ==> b.has(#[trigger] ends[i] as int),
            self.wf(b, start, ends, ignored),
            self.expanded_but(b, ends, ignored, -1),
            forall|e: (usize, i32)| #[trigger] self.open.data@.contains(e) ==> weight <= e.1,
            b.is_walk(start, ends, ignored, q),
            b.has(q.last() as int),
            !self.closed@[q.last() as int],
        ensures
            weight <= q.len() - 1 + b.distance_to(q.last() as int, ends),
            self.open.data@.len() > 0,
    {
        let j = self.lemma_first_open(b, start, ends, ignored, q, 0);
        let c = q[j] as int;
        if j > 0 {
            let u = q[j - 1] as int;
            assert(b.walk_step(ends, ignored, q, j));
            b.lemma_walk_take(start, ends, ignored, q, j);
            assert(q.take(j).last() == u);
            assert(Self::best(b, start, ends, ignored, u, self.cost@[u] as int));
            assert(self.expanded(b, ends, ignored, u));
        }
        assert(self.visited@[c] && self.cost@[c] <= j);
        let e = choose|e: (usize, i32)| #[trigger]
            self.open.data@.contains(e) && e.0 == c && e.1 <= self.cost@[c] + b.distance_to(
                c,
                ends,
            );
        assert(self.open.data@.contains(e));
        b.lemma_estimate_walk(start, ends, ignored, q, j);
    }

    /// The first cell of a walk, from the `k`-th on, that is not closed.
    proof fn lemma_first_open(
        self,
        b: Board,
        start: int,
        ends: Seq<usize>,
        ignored: Seq<usize>,
        q: Seq<usize>,
        k: int,
    ) -> (j: int)
        requires
            b.is_walk(start, ends, ignored, q),
            b.has(start),
            0 <= k < q.len(),
            self.closed@.len() == b.cells.len(),
            !self.closed@[q.last() as int],
            forall|i: int| 0 <= i < k ==> self.closed@[#[trigger] q[i] as int],
        ensures
            0 <= j < q.len(),
            b.has(q[j] as int),
            !self.closed@[q[j] as int],
            forall|i: int| 0 <= i < j ==> self.closed@[#[trigger] q[i] as int],
        decreases q.len() - k,
    {
        assert(b.has(q[k] as int)) by {
            if k > 0 {
                assert(b.walk_step(ends, ignored, q, k));
            }
        }
        if self.closed@[q[k] as int] {
            assert(k < q.len() - 1);
            self.lemma_first_open(b, start, ends, ignored, q, k + 1)
        } else {
            k
        }
    }

    /// A search that has only seen its start.
    fn new(map: &GameMap, start: usize, Ghost(ends): Ghost<Seq<usize>>, Ghost(ignored): Ghost<
        Seq<usize>,
    >) -> (search: Self)
        requires
            map.wf(),
            map@.has(start as int),
            ends.len() > 0,
            forall|i: int| 0 <= i < ends.len() ==> map@.has(#[trigger] ends[i] as int),
        ensures
            search.wf(map@, start as int, ends, ignored),
            search.expanded_but(map@, ends, ignored, -1),
            count_set(search.closed@) == 0,
            search@ == Quest::begun(map@.cells.len(), start as int),
    {
        let n: usize = map.nb_cells;
        let mut visited: Vec<bool> = Vec::new();
        let mut closed: Vec<bool> = Vec::new();
        let mut cost: Vec<i32> = Vec::new();
        let mut parent: Vec<usize> = Vec::new();
        let mut i: usize = 0;
        while i < n
            invariant
                i <= n,
                visited@.len() == i,
                closed@.len() == i,
                cost@.len() == i,
                parent@.len() == i,
                forall|c: int| 0 <= c < i ==> !#[trigger] visited@[c],
                forall|c: int| 0 <= c < i ==> !#[trigger] closed@[c],
                forall|c: int| 0 <= c < i ==> #[trigger] cost@[c] == 0,
                forall|c: int| 0 <= c < i ==> #[trigger] parent@[c] == 0,
                count_set(closed@) == 0,
            decreases n - i,
        {
            let ghost prev = closed@;
            visited.push(false);
            closed.push(false);
            cost.push(0);
            parent.push(0);
            assert(closed@.drop_last() =~= prev);
            i += 1;
        }
        visited.set(start, true);
        let mut open = MinHeap::new();
        open.push(start, 0);
        let search = Search { visited, closed, cost, parent, open };
        proof {
            let none = Seq::<(usize, i32)>::empty();
            assert(none.push((start, 0i32)) =~= seq![(start, 0i32)]);
            crate::quest::lemma_risen(none.push((start, 0i32)), 0);
            let begun = Quest::begun(map@.cells.len(), start as int);
            assert(search@.visited =~= begun.visited);
            assert(search@.closed =~= begun.closed);
            assert(search@.cost =~= begun.cost);
            assert(search@.parent =~= begun.parent);
            assert(search@.open =~= begun.open);
            map@.lemma_distance_to(start as int, ends);
            assert(search.open.data@.contains((start, 0i32)));
            assert forall|c: int|
                #![trigger search.visited@[c]]
                0 <= c < n && search.visited@[c] && !search.closed@[c] implies exists|
                e: (usize, i32),
            | #[trigger]
                search.open.data@.contains(e) && e.0 == c && e.1 <= search.cost@[c]
                    + map@.distance_to(c, ends) by {
                assert(c == start);
                assert(search.open.data@.contains((start, 0i32)));
            }
        }
        search
    }

    /// Sees `c` from `u`: keeps the way over `u` where it is the first or a
    /// cheaper one.
    #[verifier::rlimit(60)]
    #[verifier::spinoff_prover]
    fn relax(&mut self, map: &GameMap, Ghost(start): Ghost<int>, ends: &[usize], Ghost(
        ignored,
    ): Ghost<Seq<usize>>, u: usize, c: usize)
        requires
            map.wf(),
            map@.has(start),
            ends@.len() > 0,
            forall|i: int| 0 <= i < ends@.len() ==> map@.has(#[trigger] ends@[i] as int),
            old(self).wf(map@, start, ends@, ignored),
            map@.has(u as int),
            old(self).closed@[u as int],
            map@.adjacent(u as int, c as int),
            map@.enterable(c as int, ends@, ignored),
            !old(self).closed@[c as int],
            old(self).cost@[u as int] < count_set(old(self).closed@),
        ensures
            final(self).wf(map@, start, ends@, ignored),
            final(self).continues(*old(self)),
            final(self).visited@[c as int],
            final(self).cost@[c as int] <= final(self).cost@[u as int] + 1,
            final(self).open.data@.len() <= old(self).open.data@.len() + 1,
            final(self)@ == old(self)@.seen(map@, ends@, u as int, c as int),
    {
        let ghost b = map@;
        proof {
            lemma_count_bounds(self.closed@);
            assert(self.visited@[u as int]);
            crate::map::lemma_cell_count_limit(b);
        }
        let new_cost: i32 = self.cost[u] + 1;
        if !self.visited[c] || new_cost < self.cost[c] {
            let h: i32 = map.get_cell_distance_to_set(c, ends);
            self.cost.set(c, new_cost);
            self.parent.set(c, u);
            self.visited.set(c, true);
            self.open.push(c, new_cost + h);
            proof {
                let weight: i32 = (new_cost + h) as i32;
                let before = *old(self);
                assert forall|x: int|
                    #![trigger self.visited@[x]]
                    0 <= x < b.cells.len() && self.visited@[x] implies {
                    &&& 0 <= self.cost@[x] <= count_set(self.closed@)
                    &&& x != start ==> self.linked(b, ends@, ignored, x)
                } by {
                    if x != c {
                        assert(before.visited@[x]);
                        if x != start {
                            assert(before.linked(b, ends@, ignored, x));
                            assert(before.closed@[self.parent@[x] as int]);
                        }
                    }
                }
                assert(c != start) by {
                    if c == start {
                        assert(before.cost@[start] == 0);
                    }
                }
                assert forall|x: int|
                    #![trigger self.closed@[x]]
                    0 <= x < b.cells.len() && self.closed@[x] implies {
                    &&& self.visited@[x]
                    &&& !ends@.contains(x as usize)
                    &&& Self::best(b, start, ends@, ignored, x, self.cost@[x] as int)
                } by {
                    assert(before.closed@[x]);
                }
                assert forall|e: (usize, i32)| #[trigger]
                    self.open.data@.contains(e) implies {
                    &&& e.0 < b.cells.len()
                    &&& self.visited@[e.0 as int]
                    &&& e.0 == start || e.1 >= self.cost@[e.0 as int] + b.distance_to(
                        e.0 as int,
                        ends@,
                    )
                } by {
                    if e != (c, weight) {
                        assert(before.open.data@.contains(e));
                        assert(before.visited@[e.0 as int]);
                    }
                }
                assert forall|x: int|
                    #![trigger self.visited@[x]]
                    0 <= x < b.cells.len() && self.visited@[x] && !self.closed@[x] implies exists|
                    e: (usize, i32),
                | #[trigger]
                    self.open.data@.contains(e) && e.0 == x && e.1 <= self.cost@[x]
                        + b.distance_to(x, ends@) by {
                    if x == c {
                        assert(self.open.data@.contains((c, weight)));
                    } else {
                        assert(before.visited@[x]);
                        let e = choose|e: (usize, i32)| #[trigger]
                            before.open.data@.contains(e) && e.0 == x && e.1 <= before.cost@[x]
                                + b.distance_to(x, ends@);
                        assert(self.open.data@.contains(e));
                    }
                }
            }
        }
    }

    /// Closes the cell that was taken off the heap, which no walk reaches in
    /// fewer steps.
    #[verifier::rlimit(40)]
    #[verifier::spinoff_prover]
    fn close(&mut self, map: &GameMap, Ghost(start): Ghost<int>, Ghost(ends): Ghost<
        Seq<usize>,
    >, Ghost(ignored): Ghost<Seq<usize>>, u: usize, Ghost(before): Ghost<Search>)
        requires
            map.wf(),
            map@.has(u as int),
            before.wf(map@, start, ends, ignored),
            before.expanded_but(map@, ends, ignored, -1),
            old(self).visited@ == before.visited@,
            old(self).closed@ == before.closed@,
            old(self).cost@ == before.cost@,
            old(self).parent@ == before.parent@,
            old(self).open.wf(),
            before.visited@[u as int],
            !before.closed@[u as int],
            !ends.contains(u),
            Search::best(map@, start, ends, ignored, u as int, before.cost@[u as int] as int),
            forall|e: (usize, i32)| #[trigger]
                old(self).open.data@.contains(e) ==> before.open.data@.contains(e),
            forall|e: (usize, i32)| #[trigger]
                before.open.data@.contains(e) && e.0 != u ==> old(self).open.data@.contains(e),
        ensures
            final(self).wf(map@, start, ends, ignored),
            final(self).expanded_but(map@, ends, ignored, u as int),
            final(self).closed@ == before.closed@.update(u as int, true),
            final(self).cost@ == before.cost@,
            final(self).visited@ == before.visited@,
            final(self).open.data@ == old(self).open.data@,
            final(self).parent@ == before.parent@,
            count_set(final(self).closed@) == count_set(before.closed@) + 1,
    {
        self.closed.set(u, true);
        proof {
            let b = map@;
            lemma_count_update(before.closed@, u as int);
            assert forall|c: int|
                #![trigger self.visited@[c]]
                0 <= c < b.cells.len() && self.visited@[c] implies {
                &&& 0 <= self.cost@[c] <= count_set(self.closed@)
                &&& c != start ==> self.linked(b, ends, ignored, c)
            } by {
                assert(before.visited@[c]);
                if c != start {
                    assert(before.linked(b, ends, ignored, c));
                }
            }
            assert forall|c: int|
                #![trigger self.closed@[c]]
                0 <= c < b.cells.len() && self.closed@[c] implies {
                &&& self.visited@[c]
                &&& !ends.contains(c as usize)
                &&& Self::best(b, start, ends, ignored, c, self.cost@[c] as int)
            } by {
                if c != u {
                    assert(before.closed@[c]);
                }
            }
            assert forall|c: int|
                #![trigger self.visited@[c]]
                0 <= c < b.cells.len() && self.visited@[c] && !self.closed@[c] implies exists|
                e: (usize, i32),
            | #[trigger]
                self.open.data@.contains(e) && e.0 == c && e.1 <= self.cost@[c] + b.distance_to(
                    c,
                    ends,
                ) by {
                assert(before.visited@[c]);
                let e = choose|e: (usize, i32)| #[trigger]
                    before.open.data@.contains(e) && e.0 == c && e.1 <= before.cost@[c]
                        + b.distance_to(c, ends);
                assert(self.open.data@.contains(e));
            }
            assert forall|c: int|
                #![trigger self.closed@[c]]
                0 <= c < self.closed@.len() && self.closed@[c] && c != u implies self.expanded(
                b,
                ends,
                ignored,
                c,
            ) by {
                assert(before.closed@[c]);
                assert(before.expanded(b, ends, ignored, c));
            }
        }
    }

    /// The steps of the way on which a cell was reached.
    fn retrace(&self, Ghost(before): Ghost<Search>, Ghost(b): Ghost<Board>, Ghost(start): Ghost<
        int,
    >, Ghost(ends): Ghost<Seq<usize>>, Ghost(ignored): Ghost<Seq<usize>>, u: usize) -> (steps: Vec<
        usize,
    >)
        requires
            before.wf(b, start, ends, ignored),
            self.cost@ == before.cost@,
            self.parent@ == before.parent@,
            b.has(start),
            b.has(u as int),
            before.visited@[u as int],
        ensures
            steps@ == before.trail(u as int).drop_first(),
            steps@.len() <= i32::MAX,
    {
        proof {
            assert(before.visited@.len() == before.visited.len());
            before.lemma_trail(b, start, ends, ignored, u as int);
        }
        let mut back: Vec<usize> = Vec::new();
        let mut cur: usize = u;
        let mut s: i32 = self.cost[u];
        let ghost whole = before.trail(u as int);
        assert(back@.reverse() =~= Seq::<usize>::empty());
        assert(whole =~= before.trail(cur as int) + back@.reverse());
        while s >= 1
            invariant
                before.wf(b, start, ends, ignored),
                self.cost@ == before.cost@,
                self.parent@ == before.parent@,
                b.has(start),
                b.has(cur as int),
                before.visited@[cur as int],
                s == before.cost@[cur as int],
                whole == before.trail(cur as int) + back@.reverse(),
            decreases s,
        {
            assert(cur != start);
            assert(before.linked(b, ends, ignored, cur as int));
            assert(before.closed@[before.parent@[cur as int] as int]);
            let ghost old_back = back@;
            back.push(cur);
            proof {
                let p = before.parent@[cur as int] as int;
                assert(before.trail(cur as int) == before.trail(p).push(cur));
                assert(back@.reverse() =~= seq![cur] + old_back.reverse());
                assert(before.trail(p).push(cur) + old_back.reverse() =~= before.trail(p) + (
                seq![cur] + old_back.reverse()));
            }
            cur = self.parent[cur];
            s -= 1;
        }
        proof {
            assert(before.trail(cur as int) =~= seq![cur]);
            assert(whole.drop_first() =~= back@.reverse());
        }
        reversed(&back)
    }
}

/// The list in the opposite order.
fn reversed(list: &Vec<usize>) -> (r: Vec<usize>)
    ensures
        r@ == list@.reverse(),
{
    let mut r: Vec<usize> = Vec::new();
    let mut i: usize = list.len();
    while i > 0
        invariant
            i <= list@.len(),
            r@ == list@.reverse().take(list@.len() - i),
        decreases i,
    {
        i -= 1;
        r.push(list[i]);
        assert(r@ =~= list@.reverse().take(list@.len() - i));
    }
    assert(r@ =~= list@.reverse());
    r
}

/// The board, the ends and the state of a search from `start` belong
/// together.
spec fn searching(b: Board, start: int, ends: Seq<usize>, ignored: Seq<usize>, s: Search) -> bool {
    &&& b.wf()
    &&& b.has(start)
    &&& ends.len() > 0
    &&& !ends.contains(start as usize)
    &&& forall|i: int| 0 <= i < ends.len() ==> b.has(#[trigger] ends[i] as int)
    &&& s.wf(b, start, ends, ignored)
    &&& s.expanded_but(b, ends, ignored, -1)
}

/// Where nothing is left to visit, no walk arrives.
proof fn lemma_exhausted(b: Board, start: int, ends: Seq<usize>, ignored: Seq<usize>, s: Search)
    requires
        searching(b, start, ends, ignored, s),
        s.open.data@.len() == 0,
    ensures
        forall|q: Seq<usize>| !#[trigger] b.arrives(start, ends, ignored, q),
{
    assert forall|q: Seq<usize>| !#[trigger] b.arrives(start, ends, ignored, q) by {
        if b.arrives(start, ends, ignored, q) {
            let i = choose|i: int| 0 <= i < ends.len() && ends[i] == q.last();
            assert(b.has(ends[i] as int));
            assert(!s.closed@[q.last() as int]);
            s.lemma_lightest(b, start, ends, ignored, 0, q);
        }
    }
}

/// The cell of the lightest entry is reached on a shortest walk.
proof fn lemma_lightest_best(
    b: Board,
    start: int,
    ends: Seq<usize>,
    ignored: Seq<usize>,
    s: Search,
    top: (usize, i32),
)
    requires
        searching(b, start, ends, ignored, s),
        s.open.data@.contains(top),
        forall|e: (usize, i32)| #[trigger] s.open.data@.contains(e) ==> top.1 <= e.1,
        !s.closed@[top.0 as int],
    ensures
        Search::best(b, start, ends, ignored, top.0 as int, s.cost@[top.0 as int] as int),
{
    let u = top.0;
    assert forall|q: Seq<usize>| #[trigger]
        b.is_walk(start, ends, ignored, q) && q.last() == u implies s.cost@[u as int] <= q.len()
        - 1 by {
        s.lemma_lightest(b, start, ends, ignored, top.1 as int, q);
    }
}

/// Where the lightest entry is an end, its trail is a shortest walk to the
/// ends.
proof fn lemma_lightest_end(
    b: Board,
    start: int,
    ends: Seq<usize>,
    ignored: Seq<usize>,
    s: Search,
    top: (usize, i32),
)
    requires
        searching(b, start, ends, ignored, s),
        s.open.data@.contains(top),
        forall|e: (usize, i32)| #[trigger] s.open.data@.contains(e) ==> top.1 <= e.1,
        !s.closed@[top.0 as int],
        ends.contains(top.0),
    ensures
        b.is_shortest(start, ends, ignored, s.trail(top.0 as int)),
        s.trail(top.0 as int).len() >= 2,
        s.trail(top.0 as int).last() == top.0,
{
    let u = top.0;
    crate::map::lemma_cell_count_limit(b);
    s.lemma_trail(b, start, ends, ignored, u as int);
    let p = s.trail(u as int);
    b.lemma_estimate_end(u as int, ends);
    assert forall|q: Seq<usize>| #[trigger] b.arrives(start, ends, ignored, q) implies p.len()
        <= q.len() by {
        let i = choose|i: int| 0 <= i < ends.len() && ends[i] == q.last();
        assert(b.has(ends[i] as int));
        assert(!s.closed@[q.last() as int]);
        s.lemma_lightest(b, start, ends, ignored, top.1 as int, q);
        b.lemma_estimate_end(q.last() as int, ends);
    }
    assert(p[0] == start);
    assert(p.len() >= 2);
}

/// A search goes on as it was when an entry of a closed cell is dropped.
proof fn lemma_stale(
    search: Search,
    before: Search,
    b: Board,
    start: int,
    ends: Seq<usize>,
    ignored: Seq<usize>,
    top: (usize, i32),
)
    requires
        before.wf(b, start, ends, ignored),
        before.expanded_but(b, ends, ignored, -1),
        search.visited@ == before.visited@,
        search.closed@ == before.closed@,
        search.cost@ == before.cost@,
        search.parent@ == before.parent@,
        search.open.wf(),
        top.0 < b.cells.len(),
        before.closed@[top.0 as int],
        forall|e: (usize, i32)| #[trigger]
            search.open.data@.contains(e) ==> before.open.data@.contains(e),
        forall|e: (usize, i32)| #[trigger]
            before.open.data@.contains(e) ==> e == top || search.open.data@.contains(e),
    ensures
        search.wf(b, start, ends, ignored),
        search.expanded_but(b, ends, ignored, -1),
{
    assert forall|c: int|
        #![trigger search.visited@[c]]
        0 <= c < b.cells.len() && search.visited@[c] implies {
        &&& 0 <= search.cost@[c] <= count_set(search.closed@)
        &&& c != start ==> search.linked(b, ends, ignored, c)
    } by {
        assert(before.visited@[c]);
        if c != start {
            assert(before.linked(b, ends, ignored, c));
        }
    }
    assert forall|c: int|
        #![trigger search.visited@[c]]
        0 <= c < b.cells.len() && search.visited@[c] && !search.closed@[c] implies exists|
        e: (usize, i32),
    | #[trigger]
        search.open.data@.contains(e) && e.0 == c && e.1 <= search.cost@[c] + b.distance_to(
            c,
            ends,
        ) by {
        assert(before.visited@[c]);
        let e = choose|e: (usize, i32)| #[trigger]
            before.open.data@.contains(e) && e.0 == c && e.1 <= before.cost@[c] + b.distance_to(
                c,
                ends,
            );
        assert(search.open.data@.contains(e));
    }
    assert forall|c: int|
        #![trigger search.closed@[c]]
        0 <= c < search.closed@.len() && search.closed@[c] && c != -1 implies search.expanded(
        b,
        ends,
        ignored,
        c,
    ) by {
        assert(before.closed@[c]);
        assert(before.expanded(b, ends, ignored, c));
    }
}

impl GameMap {
    /// Sees every neighbour of `u` that may be entered.
    fn expand(&self, search: &mut Search, Ghost(start): Ghost<int>, end_cells: &[usize],
        cells_to_ignore: &[usize], u: usize)
        requires
            self.wf(),
            self@.has(start),
            end_cells@.len() > 0,
            forall|i: int| 0 <= i < end_cells@.len() ==> self@.has(#[trigger] end_cells@[i] as int),
            old(search).wf(self@, start, end_cells@, cells_to_ignore@),
            old(search).expanded_but(self@, end_cells@, cells_to_ignore@, u as int),
            self@.has(u as int),
            old(search).closed@[u as int],
            old(search).cost@[u as int] < count_set(old(search).closed@),
        ensures
            final(search).wf(self@, start, end_cells@, cells_to_ignore@),
            final(search).expanded_but(self@, end_cells@, cells_to_ignore@, -1),
            final(search).closed@ == old(search).closed@,
            final(search).open.data@.len() <= old(search).open.data@.len() + 4,
            final(search)@ == old(search)@.spread(
                self@,
                end_cells@,
                cells_to_ignore@,
                u as int,
                4,
            ),
    {
        let ghost b = self@;
        let ghost ends = end_cells@;
        let ghost ign = cells_to_ignore@;
        let ghost first = *search;
        let neighbours: [Option<usize>; 4] = self.cells_around(u);
        let ghost around = neighbours@;
        let mut k: usize = 0;
        proof {
            first@.lemma_spread(b, ends, ign, u as int, 0);
        }
        while k < 4
            invariant
                self.wf(),
                b == self@,
                ends == end_cells@,
                ign == cells_to_ignore@,
                b.has(start),
                b.has(u as int),
                ends.len() > 0,
                forall|i: int| 0 <= i < ends.len() ==> b.has(#[trigger] ends[i] as int),
                first.wf(b, start, ends, ign),
                first.closed@[u as int],
                first.cost@[u as int] < count_set(first.closed@),
                search.wf(b, start, ends, ign),
                search.continues(first),
                k <= 4,
                neighbours@ == around,
                around == seq![
                    b.neighbour(u as int, crate::map::DIR_SOUTH),
                    b.neighbour(u as int, crate::map::DIR_WEST),
                    b.neighbour(u as int, crate::map::DIR_NORTH),
                    b.neighbour(u as int, crate::map::DIR_EAST),
                ],
                search.open.data@.len() <= first.open.data@.len() + k,
                search@ == first@.spread(b, ends, ign, u as int, k as nat),
                around == Quest::around(b, u as int),
                forall|i: int|
                    0 <= i < k ==> (#[trigger] around[i] matches Some(c) ==> b.enterable(
                        c as int,
                        ends,
                        ign,
                    ) ==> search.visited@[c as int] && search.cost@[c as int] <= search.cost@[u as int]
                        + 1),
            decreases 4 - k,
        {
            let ghost before = *search;
            assert(search.cost@[u as int] == first.cost@[u as int]);
            proof {
                first@.lemma_spread(b, ends, ign, u as int, k as nat);
            }
            match neighbours[k] {
                None => {},
                Some(c) => {
                    proof {
                        b.lemma_neighbour(u as int, crate::map::DIR_SOUTH);
                        b.lemma_neighbour(u as int, crate::map::DIR_WEST);
                        b.lemma_neighbour(u as int, crate::map::DIR_NORTH);
                        b.lemma_neighbour(u as int, crate::map::DIR_EAST);
                        assert(around[k as int] == Some(c));
                        assert(b.adjacent(u as int, c as int));
                    }
                    let enterable: bool = self.cells[c].walkable && (!has_cell(
                        &self.entity_cells,
                        c,
                    ) || has_cell(cells_to_ignore, c) || has_cell(end_cells, c));
                    assert(enterable == b.enterable(c as int, ends, ign));
                    if enterable {
                        if !search.closed[c] {
                            search.relax(self, Ghost(start), end_cells, Ghost(ign), u, c);
                        } else {
                            proof {
                                assert(search.closed@[u as int] && search.visited@[u as int]);
                                search.lemma_trail(b, start, ends, ign, u as int);
                                b.lemma_walk_push(
                                    start,
                                    ends,
                                    ign,
                                    search.trail(u as int),
                                    c,
                                );
                                assert(search.closed@[c as int]);
                                let q = search.trail(u as int).push(c);
                                assert(b.is_walk(start, ends, ign, q) && q.last() == c);
                            }
                        }
                    }
                },
            }
            proof {
                assert(search.continues(before));
                assert(search.continues(first)) by {
                    assert forall|c: int|
                        #![trigger search.visited@[c]]
                        #![trigger search.cost@[c]]
                        0 <= c < first.visited@.len() && first.visited@[c] implies
                        search.visited@[c] && search.cost@[c] <= first.cost@[c] by {
                        assert(before.visited@[c]);
                        assert(before.cost@[c] <= first.cost@[c]);
                    }
                    assert forall|c: int|
                        #![trigger search.cost@[c]]
                        0 <= c < first.closed@.len() && first.closed@[c] implies search.cost@[c]
                        == first.cost@[c] by {
                        assert(before.closed@[c]);
                        assert(before.cost@[c] == first.cost@[c]);
                    }
                }
                assert(search.cost@[u as int] == first.cost@[u as int]);
                assert forall|i: int| 0 <= i < k + 1 implies (#[trigger] around[i] matches Some(c)
                    ==> b.enterable(c as int, ends, ign) ==> search.visited@[c as int]
                    && search.cost@[c as int] <= search.cost@[u as int] + 1) by {
                    if i < k && around[i] is Some {
                        let c = around[i].unwrap();
                        if b.enterable(c as int, ends, ign) {
                            assert(before.visited@[c as int]);
                            b.lemma_neighbour(u as int, crate::map::DIR_SOUTH);
                            b.lemma_neighbour(u as int, crate::map::DIR_WEST);
                            b.lemma_neighbour(u as int, crate::map::DIR_NORTH);
                            b.lemma_neighbour(u as int, crate::map::DIR_EAST);
                            assert(search.cost@[c as int] <= before.cost@[c as int]);
                        }
                    }
                }
            }
            k += 1;
        }
        proof {
            assert(search.expanded(b, ends, ign, u as int)) by {
                assert forall|c: int| #[trigger]
                    b.adjacent(u as int, c) && b.enterable(c, ends, ign) implies search.visited@[c]
                    && search.cost@[c] <= search.cost@[u as int] + 1 by {
                    b.lemma_adjacent_is_neighbour(u as int, c);
                    crate::map::lemma_cell_count_limit(b);
                    let dir = choose|dir: u8|
                        dir < 4 && #[trigger] b.neighbour(u as int, dir) == Some(c as usize);
                    let i: int = if dir == crate::map::DIR_SOUTH {
                        0
                    } else if dir == crate::map::DIR_WEST {
                        1
                    } else if dir == crate::map::DIR_NORTH {
                        2
                    } else {
                        3
                    };
                    assert(around[i] == Some(c as usize));
                }
            }
            assert forall|c: int|
                #![trigger search.closed@[c]]
                0 <= c < search.closed@.len() && search.closed@[c] && c != -1 implies
                search.expanded(b, ends, ign, c) by {
                if c != u {
                    assert(first.closed@[c]);
                    assert(first.expanded(b, ends, ign, c));
                    assert forall|x: int| #[trigger]
                        b.adjacent(c, x) && b.enterable(x, ends, ign) implies search.visited@[x]
                        && search.cost@[x] <= search.cost@[c] + 1 by {
                        assert(first.visited@[x]);
                        assert(search.cost@[x] <= first.cost@[x]);
                        assert(search.cost@[c] == first.cost@[c]);
                    }
                }
            }
        }
    }

    /// A shortest path from `start` to one of the ends, without the start. It
    /// stops before an end on which somebody stands who is not ignored. None
    /// where there is no end, the start is one, or none can be reached.
    ///
    /// Among several shortest paths the search order decides: neighbours are
    /// seen to the south, west, north and east, the lightest first, and equal
    /// weights as the heap keeps them.
    #[must_use]
    #[verifier::rlimit(60)]
    #[verifier::spinoff_prover]
    pub fn get_astar_path(&self, start: usize, end_cells: &[usize], cells_to_ignore: &[usize]) -> (
    path: Option<Vec<usize>>)
        requires
            self.wf(),
            self@.has(start as int),
            forall|i: int| 0 <= i < end_cells@.len() ==> self@.has(#[trigger] end_cells@[i] as int),
        ensures
            self@.path_answer(start as int, end_cells@, cells_to_ignore@, path),
            path matches Some(p) ==> p@.len() <= i32::MAX,
    {
        if end_cells.len() == 0 || has_cell(end_cells, start) {
            return None;
        }
        let ghost b = self@;
        let ghost ends = end_cells@;
        let ghost ign = cells_to_ignore@;
        let mut search = Search::new(self, start, Ghost(ends), Ghost(ign));
        let ghost goal = search@.found(b, ends, ign, (5 * b.cells.len() + 1) as nat);
        let ghost mut left: nat = (5 * b.cells.len() + 1) as nat;
        loop
            invariant
                goal == Quest::begun(b.cells.len(), start as int).found(
                    b,
                    ends,
                    ign,
                    (5 * b.cells.len() + 1) as nat,
                ),
                ends.len() > 0,
                !ends.contains(start),
                search@.found(b, ends, ign, left) == goal,
                left >= 5 * (b.cells.len() - count_set(search.closed@)) + search.open.data@.len(),
                self.wf(),
                b == self@,
                ends == end_cells@,
                ign == cells_to_ignore@,
                searching(b, start as int, ends, ign, search),
            decreases
                5 * (b.cells.len() - count_set(search.closed@)) + search.open.data@.len(),
        {
            let ghost before = search;
            proof {
                lemma_count_bounds(search.closed@);
                search@.lemma_found(b, ends, ign, left);
            }
            match search.open.pop() {
                None => {
                    proof {
                        lemma_exhausted(b, start as int, ends, ign, before);
                    }
                    return None;
                },
                Some(top) => {
                    let u: usize = top.0;
                    assert(before.open.data@.contains(top));
                    assert(before.visited@[u as int]);
                    if search.closed[u] {
                        proof {
                            lemma_stale(search, before, b, start as int, ends, ign, top);
                            assert(search@ =~= before@.after_first());
                            left = (left - 1) as nat;
                        }
                        continue;
                    }
                    proof {
                        lemma_lightest_best(b, start as int, ends, ign, before, top);
                    }
                    if has_cell(end_cells, u) {
                        proof {
                            lemma_lightest_end(b, start as int, ends, ign, before, top);
                        }
                        let ghost p = before.trail(u as int);
                        let mut steps: Vec<usize> = search.retrace(
                            Ghost(before),
                            Ghost(b),
                            Ghost(start as int),
                            Ghost(ends),
                            Ghost(ign),
                            u,
                        );
                        if has_cell(&self.entity_cells, u) && !has_cell(cells_to_ignore, u) {
                            let _ = steps.pop();
                            assert(steps@ =~= p.drop_first().drop_last());
                        }
                        assert(steps@ == b.steps(ign, p));
                        return Some(steps);
                    }
                    search.close(
                        self,
                        Ghost(start as int),
                        Ghost(ends),
                        Ghost(ign),
                        u,
                        Ghost(before),
                    );
                    proof {
                        assert(search@ =~= (Quest {
                            closed: before@.closed.update(u as int, true),
                            ..before@.after_first()
                        }));
                    }
                    self.expand(&mut search, Ghost(start as int), end_cells, cells_to_ignore, u);
                    proof {
                        left = (left - 1) as nat;
                        lemma_count_bounds(search.closed@);
                    }
                },
            }
        }
    }

    /// A shortest path between two cells: [`GameMap::get_astar_path`] to a
    /// single end.
    #[must_use]
    pub fn get_path_between(&self, start: usize, end: usize, cells_to_ignore: &[usize]) -> (path:
        Option<Vec<usize>>)
        requires
            self.wf(),
            self@.has(start as int),
            self@.has(end as int),
        ensures
            self@.path_answer(start as int, seq![end], cells_to_ignore@, path),
            path matches Some(p) ==> p@.len() <= i32::MAX,
    {
        let mut ends: Vec<usize> = Vec::new();
        ends.push(end);
        assert(ends@ =~= seq![end]);
        self.get_astar_path(start, &ends, cells_to_ignore)
    }

    /// A shortest path to one of several cells, with nobody ignored.
    #[must_use]
    pub fn get_astar_path_multi(&self, start: usize, end_cells: &[usize]) -> (path: Option<
        Vec<usize>,
    >)
        requires
            self.wf(),
            self@.has(start as int),
            forall|i: int| 0 <= i < end_cells@.len() ==> self@.has(#[trigger] end_cells@[i] as int),
        ensures
            self@.path_answer(start as int, end_cells@, Seq::empty(), path),
            path matches Some(p) ==> p@.len() <= i32::MAX,
    {
        let none: Vec<usize> = Vec::new();
        assert(none@ =~= Seq::<usize>::empty());
        self.get_astar_path(start, end_cells, &none)
    }
}

} // verus!
