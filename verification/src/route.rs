//! Shortest paths on a plain grid, by a search in breadth.

use crate::fight::{Fight, FightView};
use std::collections::HashMap;
use vstd::prelude::*;

verus! {

broadcast use vstd::std_specs::hash::group_hash_axioms;

/// The column of the `k`-th neighbour, from a cell: right, left, below and
/// above.
pub open spec fn column_of(k: int) -> int {
    if k == 0 {
        1
    } else if k == 1 {
        -1
    } else {
        0
    }
}

/// The row of the `k`-th neighbour.
pub open spec fn row_of(k: int) -> int {
    if k == 2 {
        1
    } else if k == 3 {
        -1
    } else {
        0
    }
}

impl FightView {
    /// The `k`-th neighbour of a cell.
    pub open spec fn neighbour(self, cell: i64, k: int) -> Option<i64> {
        let x = self.x(cell as int) + column_of(k);
        let y = self.y(cell as int) + row_of(k);
        if self.on_grid(cell as int) && self.in_bounds(x, y) {
            Some(self.cell_at(x, y) as i64)
        } else {
            None
        }
    }

    /// A cell beside another is one of its four neighbours.
    proof fn lemma_neighbour(self, a: i64, b: i64) -> (k: int)
        requires
            self.wf(),
            self.beside(a, b),
        ensures
            0 <= k < 4,
            self.neighbour(a, k) == Some(b),
    {
        crate::fight::lemma_coords(self, a as int);
        crate::fight::lemma_coords(self, b as int);
        let dx = self.x(b as int) - self.x(a as int);
        let dy = self.y(b as int) - self.y(a as int);
        if dx == 1 {
            0
        } else if dx == -1 {
            1
        } else if dy == 1 {
            2
        } else {
            3
        }
    }

    /// How many cells the grid has.
    pub open spec fn cell_count(self) -> nat {
        if self.width * self.height > 0 {
            (self.width * self.height) as nat
        } else {
            0
        }
    }

    /// The path that a search in breadth takes from one cell to another,
    /// without the first cell. It reaches a cell once, so that as many steps
    /// as the grid has cells, and one, bring it to its end.
    pub open spec fn first_route(self, start: i64, end: i64) -> Option<Seq<i64>> {
        let wave = Wave::spread(self, start, self.cell_count() + 1, 0);
        if wave.dist.contains_key(end) {
            Some(wave.trail(end).drop_first())
        } else {
            None
        }
    }

    /// A neighbour stands beside the cell.
    proof fn lemma_beside(self, a: i64, k: int)
        requires
            self.wf(),
            0 <= k < 4,
            self.neighbour(a, k) is Some,
        ensures
            self.beside(a, self.neighbour(a, k).unwrap()),
    {
        assert(self.width > 0);
        crate::fight::lemma_coords(self, a as int);
        crate::fight::lemma_cell_at(
            self,
            self.x(a as int) + column_of(k),
            self.y(a as int) + row_of(k),
        );
    }
}

/// What a search in breadth knows: from where each cell was reached, after
/// how many steps, and in which order.
pub ghost struct Wave {
    pub prev: Map<i64, i64>,
    pub dist: Map<i64, nat>,
    pub queue: Seq<i64>,
}

impl Wave {
    /// A search that has only reached its start.
    pub open spec fn begun(start: i64) -> Wave {
        Wave {
            prev: Map::<i64, i64>::empty().insert(start, start),
            dist: Map::<i64, nat>::empty().insert(start, 0),
            queue: seq![start],
        }
    }

    /// Trying the `k`-th neighbour of the cell that was reached as the
    /// `head`-th: it is reached from there, where it can be entered and was
    /// not reached before.
    pub open spec fn tried(self, f: FightView, head: nat, k: nat) -> Wave {
        if head < self.queue.len() {
            match f.neighbour(self.queue[head as int], k as int) {
                Some(n) if f.open_cell(n) && !self.dist.contains_key(n) => self.with(
                    n,
                    self.queue[head as int],
                ),
                _ => self,
            }
        } else {
            self
        }
    }

    /// A search after all neighbours of the first `head` cells, and `k`
    /// neighbours of the next.
    pub open spec fn spread(f: FightView, start: i64, head: nat, k: nat) -> Wave
        decreases head, k,
    {
        if k > 0 {
            Wave::spread(f, start, head, (k - 1) as nat).tried(f, head, (k - 1) as nat)
        } else if head > 0 {
            Wave::spread(f, start, (head - 1) as nat, 4)
        } else {
            Wave::begun(start)
        }
    }

    /// Whether every cell that was reached before still is, in the same way.
    spec fn keeps(self, before: Wave) -> bool {
        forall|c: i64| #[trigger]
            before.dist.contains_key(c) ==> self.dist.contains_key(c) && self.dist[c]
                == before.dist[c] && self.prev[c] == before.prev[c]
    }

    /// Going on with a search keeps what was reached.
    proof fn lemma_keeps(f: FightView, start: i64, head: nat, k: nat, to: nat)
        requires
            head < to,
            k <= 4,
        ensures
            Wave::spread(f, start, to, 0).keeps(Wave::spread(f, start, head, k)),
        decreases to - head, 4 - k,
    {
        if k < 4 {
            Wave::lemma_keeps(f, start, head, k + 1, to);
            let w = Wave::spread(f, start, head, k);
            assert(Wave::spread(f, start, head, k + 1) == w.tried(f, head, k));
            assert(w.tried(f, head, k).keeps(w));
            assert(Wave::spread(f, start, to, 0).keeps(w));
        } else {
            assert(Wave::spread(f, start, head + 1, 0) == Wave::spread(f, start, head, 4));
            if head + 1 < to {
                Wave::lemma_keeps(f, start, head + 1, 0, to);
            }
        }
    }

    /// A search that has tried all neighbours of every cell has come to its
    /// end.
    proof fn lemma_rest(f: FightView, start: i64, head: nat, to: nat)
        requires
            head <= to,
            head >= Wave::spread(f, start, head, 0).queue.len(),
        ensures
            Wave::spread(f, start, to, 0) == Wave::spread(f, start, head, 0),
        decreases to - head,
    {
        if head < to {
            let w = Wave::spread(f, start, head, 0);
            assert(Wave::spread(f, start, head, 1) == w);
            assert(Wave::spread(f, start, head, 2) == w);
            assert(Wave::spread(f, start, head, 3) == w);
            assert(Wave::spread(f, start, head, 4) == w);
            assert(Wave::spread(f, start, head + 1, 0) == w);
            Wave::lemma_rest(f, start, head + 1, to);
        }
    }

    /// What keeps the cells that were reached keeps the ways to them.
    proof fn lemma_same_trail(self, before: Wave, f: FightView, start: i64, c: i64)
        requires
            self.keeps(before),
            before.sound(f, start),
            before.dist.contains_key(c),
        ensures
            self.trail(c) == before.trail(c),
        decreases before.dist[c],
    {
        if c != start {
            self.lemma_same_trail(before, f, start, before.prev[c]);
        }
    }

    /// Every cell was reached from one that is a step nearer to the start.
    spec fn sound(self, f: FightView, start: i64) -> bool {
        &&& self.prev.dom() == self.dist.dom()
        &&& self.dist.contains_key(start)
        &&& self.dist[start] == 0
        &&& forall|c: i64|
            #![trigger self.dist.contains_key(c)]
            #![trigger self.prev[c]]
            self.dist.contains_key(c) && c != start ==> {
                &&& f.open_cell(c)
                &&& self.dist.contains_key(self.prev[c])
                &&& self.dist[c] == self.dist[self.prev[c]] + 1
                &&& f.beside(self.prev[c], c)
            }
        &&& self.queue.no_duplicates()
        &&& forall|c: i64| #[trigger] self.queue.contains(c) <==> self.dist.contains_key(c)
    }

    /// The cells wait in the order of their steps, and from the `from`-th on
    /// they differ by at most one.
    spec fn ordered(self, from: int) -> bool {
        &&& forall|i: int, j: int|
            0 <= i <= j < self.queue.len() ==> self.dist[#[trigger] self.queue[i]]
                <= self.dist[#[trigger] self.queue[j]]
        &&& from < self.queue.len() ==> self.dist[self.queue.last()] <= self.dist[self.queue[from]]
            + 1
    }

    /// Whether the `k`-th neighbour of a cell was reached, if it can be
    /// entered, in at most one more step.
    spec fn reached(self, f: FightView, c: i64, k: int) -> bool {
        f.neighbour(c, k) matches Some(n) ==> f.open_cell(n) ==> self.dist.contains_key(n)
            && self.dist[n] <= self.dist[c] + 1
    }

    /// Whether all neighbours of the first `n` cells were reached.
    spec fn done(self, f: FightView, n: int) -> bool {
        forall|i: int, k: int|
            0 <= i < n && 0 <= k < 4 ==> #[trigger] self.reached(f, self.queue[i], k)
    }

    /// The way by which a cell was reached.
    pub open spec fn trail(self, c: i64) -> Seq<i64>
        decreases self.dist[c],
    {
        if self.dist[c] == 0 || self.dist[self.prev[c]] + 1 != self.dist[c] {
            seq![c]
        } else {
            self.trail(self.prev[c]).push(c)
        }
    }

    /// The way by which a cell was reached is a walk of as many steps.
    proof fn lemma_trail(self, f: FightView, start: i64, c: i64)
        requires
            self.sound(f, start),
            self.dist.contains_key(c),
        ensures
            f.leads(start, c, self.trail(c)),
            self.trail(c).len() == self.dist[c] + 1,
        decreases self.dist[c],
    {
        if c != start {
            let p = self.prev[c];
            self.lemma_trail(f, start, p);
            let t = self.trail(p);
            let whole = self.trail(c);
            assert(whole == t.push(c));
            assert forall|i: int| 1 <= i < whole.len() implies f.beside(
                whole[i - 1],
                #[trigger] whole[i],
            ) && f.open_cell(whole[i]) by {
                if i < t.len() {
                    assert(whole[i] == t[i]);
                    assert(whole[i - 1] == t[i - 1]);
                }
            }
        }
    }

    /// Every walk of few enough steps ends on a cell that was reached, in at
    /// most as many steps.
    proof fn lemma_walks_reached(self, f: FightView, start: i64, head: int, q: Seq<i64>)
        requires
            f.wf(),
            self.sound(f, start),
            self.ordered(head),
            self.done(f, head),
            0 <= head <= self.queue.len(),
            f.is_stroll(start, q),
            head < self.queue.len() ==> q.len() - 1 <= self.dist[self.queue[head]],
        ensures
            self.dist.contains_key(q.last()),
            self.dist[q.last()] <= q.len() - 1,
        decreases q.len(),
    {
        if q.len() > 1 {
            let short = q.drop_last();
            assert forall|i: int| 1 <= i < short.len() implies f.beside(
                short[i - 1],
                #[trigger] short[i],
            ) && f.open_cell(short[i]) by {
                assert(short[i] == q[i]);
                assert(short[i - 1] == q[i - 1]);
            }
            self.lemma_walks_reached(f, start, head, short);
            let p = short.last();
            let n = q.len() - 1;
            assert(q[n - 1] == p);
            assert(f.beside(p, q[n]) && f.open_cell(q[n]));
            assert(self.queue.contains(p));
            let i = choose|i: int| 0 <= i < self.queue.len() && self.queue[i] == p;
            if i >= head {
                assert(self.dist[self.queue[head]] <= self.dist[self.queue[i]]);
            }
            let k = f.lemma_neighbour(p, q[n]);
            assert(self.reached(f, self.queue[i], k));
        }
    }

    /// There are no more cells than the grid has, and the start.
    proof fn lemma_size(self, f: FightView, start: i64)
        requires
            f.wf(),
            self.sound(f, start),
        ensures
            self.queue.len() <= f.cell_count() + 1,
    {
        let n = f.cell_count() as int;
        let ints = self.queue.map_values(|c: i64| c as int);
        assert(ints.no_duplicates());
        ints.unique_seq_to_set();
        let cells = vstd::set_lib::set_int_range(0, n).insert(start as int);
        vstd::set_lib::lemma_int_range(0, n);
        assert forall|c: int| ints.to_set().contains(c) implies #[trigger] cells.contains(c) by {
            let i = choose|i: int| 0 <= i < ints.len() && ints[i] == c;
            assert(self.queue.contains(self.queue[i]));
        }
        vstd::set_lib::lemma_len_subset(ints.to_set(), cells);
    }

    /// One more cell, reached from another.
    pub open spec fn with(self, n: i64, from: i64) -> Wave {
        Wave {
            prev: self.prev.insert(n, from),
            dist: self.dist.insert(n, self.dist[from] + 1),
            queue: self.queue.push(n),
        }
    }

    /// One more cell keeps the search sound, in order, and what is done.
    proof fn lemma_with(self, f: FightView, start: i64, head: int, n: i64)
        requires
            f.wf(),
            self.sound(f, start),
            0 <= head < self.queue.len(),
            self.ordered(head),
            self.done(f, head),
            !self.dist.contains_key(n),
            f.open_cell(n),
            f.beside(self.queue[head], n),
        ensures
            self.with(n, self.queue[head]).sound(f, start),
            self.with(n, self.queue[head]).ordered(head),
            self.with(n, self.queue[head]).done(f, head),
            forall|k: int|
                0 <= k < 4 && #[trigger] self.reached(f, self.queue[head], k) ==> self.with(
                    n,
                    self.queue[head],
                ).reached(f, self.queue[head], k),
            forall|i: int|
                0 <= i < self.queue.len() ==> #[trigger] self.with(n, self.queue[head]).queue[i]
                    == self.queue[i],
    {
        let u = self.queue[head];
        let w = self.with(n, u);
        assert(self.queue.contains(u));
        assert(self.dist.contains_key(u));
        assert(w.prev.dom() =~= w.dist.dom());
        assert(!self.queue.contains(n));
        assert forall|c: i64| #[trigger] w.queue.contains(c) <==> w.dist.contains_key(c) by {
            if w.queue.contains(c) && c != n {
                let i = choose|i: int| 0 <= i < w.queue.len() && w.queue[i] == c;
                assert(self.queue[i] == c);
                assert(self.queue.contains(c));
            }
            if self.queue.contains(c) {
                let i = choose|i: int| 0 <= i < self.queue.len() && self.queue[i] == c;
                assert(w.queue[i] == c);
            }
            assert(w.queue[self.queue.len() as int] == n);
        }
        assert forall|i: int, j: int| 0 <= i <= j < w.queue.len() implies w.dist[
            #[trigger] w.queue[i]
        ] <= w.dist[#[trigger] w.queue[j]] by {
            if i < self.queue.len() {
                assert(self.queue.contains(self.queue[i]));
                if j < self.queue.len() {
                    assert(self.queue.contains(self.queue[j]));
                } else {
                    assert(self.dist[self.queue[i]] <= self.dist[self.queue[
                    self.queue.len() - 1]]);
                }
            }
        }
        assert forall|i: int, k: int| 0 <= i < head && 0 <= k < 4 implies #[trigger] w.reached(
            f,
            w.queue[i],
            k,
        ) by {
            assert(self.reached(f, self.queue[i], k));
            assert(self.queue.contains(self.queue[i]));
        }
    }
}

/// A search that has only reached its start is sound.
proof fn lemma_begun(f: FightView, start: i64)
    ensures
        Wave::begun(start).sound(f, start),
        Wave::begun(start).ordered(0),
{
    let wave = Wave::begun(start);
    assert(wave.prev.dom() =~= wave.dist.dom());
    assert forall|c: i64| #[trigger] wave.queue.contains(c) <==> wave.dist.contains_key(c) by {
        assert(wave.queue[0] == start);
    }
}

/// The way by which a cell was reached is the one that the whole search takes.
proof fn lemma_first_route(f: FightView, start: i64, end: i64, head: nat, k: nat)
    requires
        f.wf(),
        k <= 4,
        head < Wave::spread(f, start, head, k).queue.len(),
        Wave::spread(f, start, head, k).sound(f, start),
        Wave::spread(f, start, head, k).dist.contains_key(end),
    ensures
        f.first_route(start, end) == Some(
            Wave::spread(f, start, head, k).trail(end).drop_first(),
        ),
{
    let w = Wave::spread(f, start, head, k);
    let to = f.cell_count() + 1;
    w.lemma_size(f, start);
    Wave::lemma_keeps(f, start, head, k, to);
    Wave::spread(f, start, to, 0).lemma_same_trail(w, f, start, end);
}

impl Fight {
    /// A shortest path from one cell to another, around obstacles and
    /// everyone; without the first cell. Among several it is the one that is
    /// found first: the neighbours to the right, to the left, below and above
    /// are tried in this order.
    #[must_use]
    pub fn bfs_path(&self, start: i64, end: i64) -> (path: Option<Vec<i64>>)
        requires
            self.wf(),
        ensures
            self@.route(start, end, path),
    {
        let ghost f = self@;
        if start == end {
            let none: Vec<i64> = Vec::new();
            proof {
                let p = seq![start];
                assert(f.leads(start, end, p));
                assert(none@ =~= p.drop_first());
                lemma_begun(f, start);
                lemma_first_route(f, start, end, 0, 0);
            }
            return Some(none);
        }
        let mut prev: HashMap<i64, i64> = HashMap::new();
        let _ = prev.insert(start, start);
        let mut queue: Vec<i64> = Vec::new();
        queue.push(start);
        let ghost mut wave = Wave::begun(start);
        let mut head: usize = 0;
        proof {
            assert(wave.prev =~= prev@);
            assert(wave.queue =~= queue@);
            assert(wave == Wave::spread(f, start, 0, 0));
            lemma_begun(f, start);
        }
        while head < queue.len()
            invariant
                self.wf(),
                f == self@,
                start != end,
                wave.prev == prev@,
                wave.queue == queue@,
                wave == Wave::spread(f, start, head as nat, 0),
                wave.sound(f, start),
                head <= queue@.len(),
                wave.ordered(head as int),
                wave.done(f, head as int),
                !wave.dist.contains_key(end),
            decreases f.cell_count() + 1 - head,
        {
            let u: i64 = queue[head];
            proof {
                wave.lemma_size(f, start);
                assert(wave.queue.contains(u));
            }
            let mut k: usize = 0;
            while k < 4
                invariant
                    self.wf(),
                    f == self@,
                    start != end,
                    wave.prev == prev@,
                    wave.queue == queue@,
                    wave == Wave::spread(f, start, head as nat, k as nat),
                    wave.sound(f, start),
                    head < queue@.len(),
                    u == queue@[head as int],
                    wave.ordered(head as int),
                    wave.done(f, head as int),
                    !wave.dist.contains_key(end),
                    k <= 4,
                    forall|j: int| 0 <= j < k ==> #[trigger] wave.reached(f, u, j),
                decreases 4 - k,
            {
                let ghost next = Wave::spread(f, start, head as nat, (k + 1) as nat);
                assert(next == wave.tried(f, head as nat, k as nat));
                match self.neighbour_of(u, k) {
                    Some(n) => {
                        proof {
                            f.lemma_beside(u, k as int);
                        }
                        let fresh: bool = !prev.contains_key(&n);
                        if !fresh || self.is_obstacle(n) || self.entity_at(n).is_some() {
                            proof {
                                if !fresh {
                                    assert(wave.queue.contains(n));
                                    let i = choose|i: int|
                                        0 <= i < wave.queue.len() && wave.queue[i] == n;
                                    assert(wave.dist[wave.queue[i]] <= wave.dist[wave.queue[
                                    wave.queue.len() - 1]]);
                                }
                                assert(wave.reached(f, u, k as int));
                            }
                        } else {
                            let ghost before = wave;
                            assert(f.open_cell(n));
                            let _ = prev.insert(n, u);
                            queue.push(n);
                            proof {
                                wave = before.with(n, u);
                                before.lemma_with(f, start, head as int, n);
                                assert forall|j: int| 0 <= j < k implies #[trigger] wave.reached(
                                    f,
                                    u,
                                    j,
                                ) by {
                                    assert(before.reached(f, before.queue[head as int], j));
                                }
                                assert(wave.reached(f, u, k as int)) by {
                                    assert(wave.dist.contains_key(n));
                                    assert(wave.dist[u] == before.dist[u]);
                                }
                                assert(wave.prev =~= prev@);
                                assert(wave.queue =~= queue@);
                            }
                            if n == end {
                                proof {
                                    assert(before.queue.contains(u));
                                    assert(wave.dist[end] == before.dist[u] + 1);
                                    wave.lemma_trail(f, start, end);
                                    lemma_first_route(f, start, end, head as nat, (k + 1) as nat);
                                    assert forall|q: Seq<i64>| #[trigger]
                                        f.leads(start, end, q) implies wave.trail(end).len()
                                        <= q.len() by {
                                        if q.len() - 1 <= before.dist[u] {
                                            before.lemma_walks_reached(f, start, head as int, q);
                                        }
                                    }
                                }
                                let path: Vec<i64> = retrace(
                                    &prev,
                                    Ghost(f),
                                    Ghost(wave),
                                    start,
                                    end,
                                );
                                assert(f.leads(start, end, wave.trail(end)));
                                return Some(path);
                            }
                        }
                    },
                    None => {
                        assert(wave.reached(f, u, k as int));
                    },
                }
                k += 1;
            }
            proof {
                let next = head + 1;
                assert(wave.done(f, next)) by {
                    assert forall|i: int, k: int| 0 <= i < next && 0 <= k < 4 implies
                        #[trigger] wave.reached(f, wave.queue[i], k) by {}
                }
                if next < wave.queue.len() {
                    assert(wave.dist[wave.queue[head as int]] <= wave.dist[wave.queue[next]]);
                }
            }
            head += 1;
        }
        proof {
            wave.lemma_size(f, start);
            Wave::lemma_rest(f, start, head as nat, f.cell_count() + 1);
            assert forall|q: Seq<i64>| !#[trigger] f.leads(start, end, q) by {
                if f.leads(start, end, q) {
                    wave.lemma_walks_reached(f, start, head as int, q);
                }
            }
        }
        None
    }

    /// The `k`-th neighbour of a cell.
    fn neighbour_of(&self, cell: i64, k: usize) -> (n: Option<i64>)
        requires
            self.wf(),
            k < 4,
        ensures
            n == self@.neighbour(cell, k as int),
    {
        match (self.cell_x(cell), self.cell_y(cell)) {
            (Some(x), Some(y)) => {
                if k == 0 {
                    self.cell_from_xy(x + 1, y)
                } else if k == 1 {
                    self.cell_from_xy(x - 1, y)
                } else if k == 2 {
                    self.cell_from_xy(x, y + 1)
                } else {
                    self.cell_from_xy(x, y - 1)
                }
            },
            _ => None,
        }
    }
}

/// The way by which a cell was reached, without the start.
fn retrace(
    prev: &HashMap<i64, i64>,
    Ghost(f): Ghost<FightView>,
    Ghost(wave): Ghost<Wave>,
    start: i64,
    end: i64,
) -> (path: Vec<i64>)
    requires
        wave.sound(f, start),
        wave.prev == prev@,
        wave.dist.contains_key(end),
        end != start,
    ensures
        path@ == wave.trail(end).drop_first(),
{
    let ghost whole = wave.trail(end);
    let mut back: Vec<i64> = Vec::new();
    let mut c: i64 = end;
    assert(back@.reverse() =~= Seq::<i64>::empty());
    assert(whole =~= wave.trail(c) + back@.reverse());
    while c != start
        invariant
            wave.sound(f, start),
            wave.prev == prev@,
            wave.dist.contains_key(c),
            whole == wave.trail(c) + back@.reverse(),
        decreases wave.dist[c],
    {
        let ghost old_back = back@;
        let ghost old_c = c;
        back.push(c);
        match prev.get(&c) {
            Some(p) => {
                c = *p;
            },
            None => {
                assert(wave.dist.dom().contains(c));
                assert(wave.prev.dom().contains(c));
                assert(false);
            },
        }
        proof {
            assert(c == wave.prev[old_c]);
            assert(wave.trail(old_c) == wave.trail(c).push(old_c));
            assert(back@.reverse() =~= seq![old_c] + old_back.reverse());
            assert(wave.trail(c).push(old_c) + old_back.reverse() =~= wave.trail(c) + (seq![old_c]
                + old_back.reverse()));
        }
    }
    assert(wave.trail(c) =~= seq![start]);
    let mut path: Vec<i64> = Vec::new();
    let mut i: usize = back.len();
    while i > 0
        invariant
            i <= back@.len(),
            path@ == back@.reverse().take(back@.len() - i),
        decreases i,
    {
        i -= 1;
        path.push(back[i]);
        assert(path@ =~= back@.reverse().take(back@.len() - i));
    }
    assert(path@ =~= back@.reverse());
    assert(whole.drop_first() =~= back@.reverse());
    path
}

} // verus!
