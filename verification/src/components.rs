//! Connected components of the board.

use crate::map::{Board, Cell, GameMap};
use vstd::prelude::*;

verus! {

impl Board {
    /// Whether a step leads from one cell to a neighbour of the same nature:
    /// both walkable, or both obstacles.
    pub open spec fn joins(self, a: int, c: int) -> bool {
        self.adjacent(a, c) && self.walkable(a) == self.walkable(c)
    }

    /// Whether every step of `p` stays within one nature.
    pub open spec fn is_chain(self, p: Seq<int>) -> bool {
        &&& p.len() >= 1
        &&& forall|i: int| 0 <= i < p.len() ==> self.has(#[trigger] p[i])
        &&& forall|i: int| 1 <= i < p.len() ==> #[trigger] self.chain_step(p, i)
    }

    pub open spec fn chain_step(self, p: Seq<int>, i: int) -> bool {
        self.joins(p[i - 1], p[i])
    }

    /// Whether one can go from `a` to `c` over cells of one nature.
    pub open spec fn connected(self, a: int, c: int) -> bool {
        exists|p: Seq<int>| #[trigger] self.is_chain(p) && p[0] == a && p.last() == c
    }

    /// Whether `labels` numbers the components: two cells have one number
    /// exactly when they are connected, and the numbers count up from 1 in the
    /// order in which the cells' ids first meet them.
    pub open spec fn numbers_components(self, labels: Seq<i32>) -> bool {
        &&& labels.len() == self.cells.len()
        &&& forall|a: int, c: int|
            #![trigger labels[a], labels[c]]
            self.has(a) && self.has(c) ==> (labels[a] == labels[c] <==> self.connected(a, c))
        &&& counts_up(labels)
    }

    proof fn lemma_connected_refl(self, a: int)
        requires
            self.has(a),
        ensures
            self.connected(a, a),
    {
        assert(self.is_chain(seq![a]));
    }

    proof fn lemma_connected_step(self, a: int, u: int, c: int)
        requires
            self.connected(a, u),
            self.joins(u, c),
        ensures
            self.connected(a, c),
    {
        let p = choose|p: Seq<int>| #[trigger] self.is_chain(p) && p[0] == a && p.last() == u;
        let q = p.push(c);
        assert forall|i: int| 1 <= i < q.len() implies #[trigger] self.chain_step(q, i) by {
            if i < p.len() {
                assert(self.chain_step(p, i));
            }
        }
        assert forall|i: int| 0 <= i < q.len() implies self.has(#[trigger] q[i]) by {
            if i < p.len() {
                assert(self.has(p[i]));
            }
        }
        assert(self.is_chain(q));
    }

    proof fn lemma_joins_symmetric(self, a: int, c: int)
        requires
            self.joins(a, c),
        ensures
            self.joins(c, a),
    {
    }

    proof fn lemma_connected_symmetric(self, a: int, c: int)
        requires
            self.connected(a, c),
        ensures
            self.connected(c, a),
    {
        let p = choose|p: Seq<int>| #[trigger] self.is_chain(p) && p[0] == a && p.last() == c;
        let q = p.reverse();
        assert forall|i: int| 1 <= i < q.len() implies #[trigger] self.chain_step(q, i) by {
            assert(self.chain_step(p, p.len() - i));
            self.lemma_joins_symmetric(p[p.len() - i - 1], p[p.len() - i]);
        }
        assert forall|i: int| 0 <= i < q.len() implies self.has(#[trigger] q[i]) by {
            assert(self.has(p[p.len() - 1 - i]));
        }
        assert(self.is_chain(q));
    }

    proof fn lemma_connected_chain(self, a: int, p: Seq<int>)
        requires
            self.is_chain(p),
            self.connected(a, p[0]),
        ensures
            self.connected(a, p.last()),
        decreases p.len(),
    {
        if p.len() > 1 {
            let q = p.drop_last();
            assert forall|i: int| 1 <= i < q.len() implies #[trigger] self.chain_step(q, i) by {
                assert(self.chain_step(p, i));
            }
            assert forall|i: int| 0 <= i < q.len() implies self.has(#[trigger] q[i]) by {
                assert(self.has(p[i]));
            }
            self.lemma_connected_chain(a, q);
            assert(self.chain_step(p, p.len() - 1));
            self.lemma_connected_step(a, q.last(), p.last());
        }
    }

    /// Being connected is an equivalence.
    pub proof fn lemma_connected_equivalence(self, a: int, c: int, e: int)
        requires
            self.has(a),
        ensures
            self.connected(a, a),
            self.connected(a, c) ==> self.connected(c, a),
            self.connected(a, c) && self.connected(c, e) ==> self.connected(a, e),
    {
        self.lemma_connected_refl(a);
        if self.connected(a, c) {
            self.lemma_connected_symmetric(a, c);
            if self.connected(c, e) {
                let p = choose|p: Seq<int>| #[trigger]
                    self.is_chain(p) && p[0] == c && p.last() == e;
                self.lemma_connected_chain(a, p);
            }
        }
    }

    /// Connected cells are of one nature: no number is shared by an obstacle
    /// and a walkable cell.
    pub proof fn lemma_connected_nature(self, a: int, c: int)
        requires
            self.connected(a, c),
        ensures
            self.walkable(a) == self.walkable(c),
    {
        let p = choose|p: Seq<int>| #[trigger] self.is_chain(p) && p[0] == a && p.last() == c;
        self.lemma_chain_nature(p, p.len() - 1);
    }

    proof fn lemma_chain_nature(self, p: Seq<int>, k: int)
        requires
            self.is_chain(p),
            0 <= k < p.len(),
        ensures
            self.walkable(p[0]) == self.walkable(p[k]),
        decreases k,
    {
        if k > 0 {
            self.lemma_chain_nature(p, k - 1);
            assert(self.chain_step(p, k));
        }
    }
}

/// The largest of the first `n` numbers, 0 without any.
pub open spec fn largest(labels: Seq<i32>, n: int) -> int
    decreases n,
{
    if n <= 0 {
        0
    } else if labels[n - 1] > largest(labels, n - 1) {
        labels[n - 1] as int
    } else {
        largest(labels, n - 1)
    }
}

/// Whether every number is at least 1 and at most one more than the largest
/// before it.
pub open spec fn counts_up(labels: Seq<i32>) -> bool {
    forall|i: int|
        0 <= i < labels.len() ==> 1 <= #[trigger] labels[i] <= largest(labels, i) + 1
}

/// Every number up to the largest occurs.
proof fn lemma_counts_up_onto(labels: Seq<i32>, n: int, v: int) -> (j: int)
    requires
        counts_up(labels),
        0 <= n <= labels.len(),
        1 <= v <= largest(labels, n),
    ensures
        0 <= j < n,
        labels[j] == v,
    decreases n,
{
    if labels[n - 1] == v {
        n - 1
    } else {
        assert(1 <= labels[n - 1] <= largest(labels, n - 1) + 1);
        lemma_counts_up_onto(labels, n - 1, v)
    }
}

proof fn lemma_largest_bounds(labels: Seq<i32>, n: int, j: int)
    requires
        0 <= j < n <= labels.len(),
    ensures
        labels[j] <= largest(labels, n),
    decreases n,
{
    if j < n - 1 {
        lemma_largest_bounds(labels, n - 1, j);
    }
}

proof fn lemma_largest_same(l1: Seq<i32>, l2: Seq<i32>, n: int)
    requires
        0 <= n <= l1.len(),
        l1.len() == l2.len(),
        forall|j: int| 0 <= j < n ==> l1[j] == l2[j],
    ensures
        largest(l1, n) == largest(l2, n),
    decreases n,
{
    if n > 0 {
        lemma_largest_same(l1, l2, n - 1);
    }
}

/// The number of a cell is that of any earlier cell it is connected to, or
/// else the next new one.
proof fn lemma_label_value(b: Board, labels: Seq<i32>, i: int, j: int)
    requires
        b.numbers_components(labels),
        0 <= i < labels.len(),
    ensures
        0 <= j < i && b.connected(j, i) ==> labels[i] == labels[j],
        (forall|k: int| 0 <= k < i ==> !#[trigger] b.connected(k, i)) ==> labels[i] == largest(
            labels,
            i,
        ) + 1,
{
    let l = labels[i];
    if 0 <= j < i {
        assert(labels[i] == labels[j] || labels[i] != labels[j]);
    }
    if forall|k: int| 0 <= k < i ==> !#[trigger] b.connected(k, i) {
        assert(1 <= labels[i] <= largest(labels, i) + 1);
        if l <= largest(labels, i) {
            let k = lemma_counts_up_onto(labels, i, l as int);
            assert(labels[k] == labels[i]);
            assert(b.connected(k, i));
        }
    }
}

proof fn lemma_numbering_agrees(b: Board, l1: Seq<i32>, l2: Seq<i32>, n: int)
    requires
        b.numbers_components(l1),
        b.numbers_components(l2),
        0 <= n <= b.cells.len(),
    ensures
        l1.take(n) == l2.take(n),
    decreases n,
{
    if n > 0 {
        let i = n - 1;
        lemma_numbering_agrees(b, l1, l2, i);
        assert forall|k: int| 0 <= k < i implies l1[k] == l2[k] by {
            assert(l1.take(i)[k] == l2.take(i)[k]);
        }
        if exists|j: int| 0 <= j < i && #[trigger] b.connected(j, i) {
            let j = choose|j: int| 0 <= j < i && #[trigger] b.connected(j, i);
            lemma_label_value(b, l1, i, j);
            lemma_label_value(b, l2, i, j);
            assert(l1[i] == l2[i]);
        } else {
            lemma_largest_same(l1, l2, i);
            lemma_label_value(b, l1, i, 0);
            lemma_label_value(b, l2, i, 0);
            assert(l1[i] == l2[i]);
        }
        assert(l1.take(n) =~= l1.take(i).push(l1[i]));
        assert(l2.take(n) =~= l2.take(i).push(l2[i]));
    } else {
        assert(l1.take(n) =~= l2.take(n));
    }
}

/// A board has one numbering of its components.
pub proof fn lemma_numbering_unique(b: Board, l1: Seq<i32>, l2: Seq<i32>)
    requires
        b.numbers_components(l1),
        b.numbers_components(l2),
    ensures
        l1 == l2,
{
    lemma_numbering_agrees(b, l1, l2, b.cells.len() as int);
    assert(l1.take(l1.len() as int) =~= l1);
    assert(l2.take(l2.len() as int) =~= l2);
}

/// The number of zeros.
spec fn zeros(labels: Seq<i32>) -> nat
    decreases labels.len(),
{
    if labels.len() == 0 {
        0
    } else {
        zeros(labels.drop_last()) + (if labels.last() == 0 {
            1nat
        } else {
            0nat
        })
    }
}

proof fn lemma_zeros_update(labels: Seq<i32>, c: int, v: i32)
    requires
        0 <= c < labels.len(),
        labels[c] == 0,
        v != 0,
    ensures
        zeros(labels.update(c, v)) == zeros(labels) - 1,
    decreases labels.len(),
{
    let t = labels.update(c, v);
    if c == labels.len() - 1 {
        assert(t.drop_last() =~= labels.drop_last());
    } else {
        assert(t.drop_last() =~= labels.drop_last().update(c, v));
        lemma_zeros_update(labels.drop_last(), c, v);
    }
}

/// The state of a flood fill: the numbers so far (0 where there is none), the
/// first cell of each number, the cells whose neighbours are still to be seen,
/// and the cell whose neighbours are being seen.
spec fn filling(
    b: Board,
    labels: Seq<i32>,
    roots: Seq<int>,
    stack: Seq<usize>,
    current: int,
) -> bool {
    &&& labels.len() == b.cells.len()
    &&& forall|c: int|
        #![trigger labels[c]]
        b.has(c) && labels[c] != 0 ==> {
            &&& 1 <= labels[c] <= roots.len()
            &&& b.connected(roots[labels[c] - 1], c)
            &&& roots[labels[c] - 1] <= c
        }
    &&& forall|k: int|
        0 <= k < roots.len() ==> b.has(#[trigger] roots[k]) && labels[roots[k]] == k + 1
    &&& forall|j: int, k: int|
        #![trigger roots[j], roots[k]]
        0 <= j < k < roots.len() ==> roots[j] < roots[k]
    &&& forall|i: int|
        0 <= i < stack.len() ==> b.has(#[trigger] stack[i] as int) && labels[stack[i] as int]
            == roots.len()
    &&& forall|u: int, c: int|
        #![trigger b.joins(u, c)]
        b.joins(u, c) && labels[u] != 0 && u != current && !stack.contains(u as usize)
            ==> labels[c] == labels[u]
}

/// A finished fill numbers the components.
proof fn lemma_filled(b: Board, labels: Seq<i32>, roots: Seq<int>)
    requires
        b.wf(),
        filling(b, labels, roots, Seq::empty(), -1),
        forall|c: int| b.has(c) ==> #[trigger] labels[c] != 0,
    ensures
        b.numbers_components(labels),
{
    assert forall|a: int, c: int|
        #![trigger labels[a], labels[c]]
        b.has(a) && b.has(c) implies (labels[a] == labels[c] <==> b.connected(a, c)) by {
        if labels[a] == labels[c] {
            let r = roots[labels[a] - 1];
            b.lemma_connected_equivalence(r, a, a);
            b.lemma_connected_equivalence(a, r, c);
        }
        if b.connected(a, c) {
            let p = choose|p: Seq<int>| #[trigger] b.is_chain(p) && p[0] == a && p.last() == c;
            lemma_chain_labels(b, labels, roots, p, p.len() - 1);
        }
    }
    assert forall|i: int| 0 <= i < labels.len() implies 1 <= #[trigger] labels[i] <= largest(
        labels,
        i,
    ) + 1 by {
        let k = labels[i] - 1;
        assert(b.has(i));
        if k > 0 {
            let r = roots[k - 1];
            assert(roots[k - 1] < roots[k]);
            assert(labels[roots[k - 1]] == k);
            lemma_largest_bounds(labels, i, r);
        } else {
            lemma_largest_nonneg(labels, i);
        }
    }
}

proof fn lemma_largest_nonneg(labels: Seq<i32>, n: int)
    ensures
        largest(labels, n) >= 0,
    decreases n,
{
    if n > 0 {
        lemma_largest_nonneg(labels, n - 1);
    }
}

proof fn lemma_chain_labels(b: Board, labels: Seq<i32>, roots: Seq<int>, p: Seq<int>, k: int)
    requires
        filling(b, labels, roots, Seq::empty(), -1),
        forall|c: int| b.has(c) ==> #[trigger] labels[c] != 0,
        b.is_chain(p),
        0 <= k < p.len(),
    ensures
        labels[p[k]] == labels[p[0]],
    decreases k,
{
    if k > 0 {
        lemma_chain_labels(b, labels, roots, p, k - 1);
        assert(b.chain_step(p, k));
        assert(b.has(p[k - 1]));
        assert(labels[p[k - 1]] != 0);
        assert(b.joins(p[k - 1], p[k]));
    }
}

/// A cell that joins the one whose neighbours are being seen takes its number.
proof fn lemma_fill_spreads(
    b: Board,
    labels: Seq<i32>,
    roots: Seq<int>,
    stack: Seq<usize>,
    u: int,
    c: usize,
)
    requires
        b.wf(),
        filling(b, labels, roots, stack, u),
        b.has(u),
        labels[u] == roots.len(),
        roots.len() > 0,
        roots.len() <= i32::MAX,
        b.joins(u, c as int),
        labels[c as int] == 0,
        roots.last() <= c,
    ensures
        filling(b, labels.update(c as int, roots.len() as i32), roots, stack.push(c), u),
{
    let l2 = labels.update(c as int, roots.len() as i32);
    let s2 = stack.push(c);
    b.lemma_connected_step(roots[labels[u] - 1], u, c as int);
    assert forall|x: int, y: int|
        #![trigger b.joins(x, y)]
        b.joins(x, y) && l2[x] != 0 && x != u && !s2.contains(x as usize) implies l2[y] == l2[x] by {
        crate::map::lemma_cell_count_limit(b);
        if x == c {
            assert(s2[stack.len() as int] == c);
        } else {
            assert(!stack.contains(x as usize)) by {
                if stack.contains(x as usize) {
                    let i = choose|i: int| 0 <= i < stack.len() && stack[i] == x as usize;
                    assert(s2[i] == x as usize);
                }
            }
            assert(labels[y] == labels[x]);
        }
    }
    assert forall|i: int| 0 <= i < s2.len() implies b.has(#[trigger] s2[i] as int) && l2[s2[i] as int]
        == roots.len() by {
        if i < stack.len() {
            assert(s2[i] == stack[i]);
        }
    }
}

/// Every neighbour of the current cell that joins it has its number, once all
/// four have been seen.
proof fn lemma_fill_done(
    b: Board,
    labels: Seq<i32>,
    roots: Seq<int>,
    stack: Seq<usize>,
    u: int,
)
    requires
        b.wf(),
        filling(b, labels, roots, stack, u),
        b.has(u),
        labels[u] == roots.len(),
        forall|c: int| #[trigger] b.joins(u, c) ==> labels[c] != 0,
    ensures
        filling(b, labels, roots, stack, -1),
{
    assert forall|x: int, y: int|
        #![trigger b.joins(x, y)]
        b.joins(x, y) && labels[x] != 0 && x != -1 && !stack.contains(x as usize) implies labels[y]
        == labels[x] by {
        if x == u && labels[y] != labels[u] {
            b.lemma_joins_symmetric(u, y);
            assert(labels[y] != 0);
            if stack.contains(y as usize) {
                let i = choose|i: int| 0 <= i < stack.len() && stack[i] == y as usize;
                crate::map::lemma_cell_count_limit(b);
                assert(labels[stack[i] as int] == roots.len());
            }
            if y != u {
                assert(labels[u] == labels[y]);
            }
        }
    }
}

impl Board {
    /// The component numbers that the cells carry.
    pub open spec fn labels(self) -> Seq<i32> {
        Seq::new(self.cells.len(), |c: int| self.cells[c].composante)
    }

    /// The board with its cells carrying the given component numbers.
    pub open spec fn with_labels(self, labels: Seq<i32>) -> Board {
        Board {
            cells: Seq::new(
                self.cells.len(),
                |c: int| Cell { composante: labels[c], ..self.cells[c] },
            ),
            ..self
        }
    }
}

impl GameMap {
    /// Numbers the connected components: two cells carry one number exactly
    /// when one can go from one to the other over cells of one nature. To be
    /// called again after every change to the obstacles.
    pub fn compute_composantes(&mut self)
        requires
            old(self).wf(),
        ensures
            final(self).wf(),
            final(self)@ == old(self)@.with_labels(final(self)@.labels()),
            old(self)@.numbers_components(final(self)@.labels()),
    {
        let ghost b = self@;
        let n: usize = self.cells.len();
        let mut labels: Vec<i32> = Vec::new();
        let mut i: usize = 0;
        while i < n
            invariant
                i <= n,
                labels@.len() == i,
                forall|c: int| 0 <= c < i ==> #[trigger] labels@[c] == 0,
            decreases n - i,
        {
            labels.push(0);
            i += 1;
        }
        let ghost mut roots: Seq<int> = Seq::empty();
        let mut stack: Vec<usize> = Vec::new();
        let mut count: i32 = 0;
        let mut start: usize = 0;
        proof {
            assert(stack@ =~= Seq::<usize>::empty());
            crate::map::lemma_cell_count_limit(b);
        }
        while start < n
            invariant
                self.wf(),
                b == self@,
                n == b.cells.len(),
                n <= 0x4001_0000,
                start <= n,
                stack@ == Seq::<usize>::empty(),
                filling(b, labels@, roots, stack@, -1),
                count == roots.len(),
                count <= start,
                roots.len() > 0 ==> roots.last() < start,
                forall|c: int| 0 <= c < start ==> #[trigger] labels@[c] != 0,
            decreases n - start,
        {
            if labels[start] == 0 {
                let ghost before = labels@;
                count += 1;
                labels.set(start, count);
                stack.push(start);
                proof {
                    let r2 = roots.push(start as int);
                    b.lemma_connected_refl(start as int);
                    assert forall|x: int, y: int|
                        #![trigger b.joins(x, y)]
                        b.joins(x, y) && labels@[x] != 0 && x != -1 && !stack@.contains(
                            x as usize,
                        ) implies labels@[y] == labels@[x] by {
                        if x == start {
                            assert(stack@[0] == start);
                        } else {
                            assert(before[y] == before[x]);
                        }
                    }
                    assert forall|j: int, k: int|
                        #![trigger r2[j], r2[k]]
                        0 <= j < k < r2.len() implies r2[j] < r2[k] by {
                        if k == r2.len() - 1 {
                            assert(roots[j] <= roots.last());
                        }
                    }
                    assert forall|k: int| 0 <= k < r2.len() implies b.has(#[trigger] r2[k])
                        && labels@[r2[k]] == k + 1 by {
                        if k < roots.len() {
                            assert(r2[k] == roots[k]);
                            assert(labels@[roots[k]] == k + 1);
                        }
                    }
                    assert forall|c: int|
                        #![trigger labels@[c]]
                        b.has(c) && labels@[c] != 0 implies {
                        &&& 1 <= labels@[c] <= r2.len()
                        &&& b.connected(r2[labels@[c] - 1], c)
                        &&& r2[labels@[c] - 1] <= c
                    } by {
                        if c != start {
                            assert(before[c] != 0);
                            assert(r2[labels@[c] - 1] == roots[before[c] - 1]);
                        }
                    }
                    roots = r2;
                }
                self.fill(&mut labels, &mut stack, Ghost(roots), count, Ghost(start as int));
            }
            start += 1;
        }
        proof {
            lemma_filled(b, labels@, roots);
        }
        let mut k: usize = 0;
        while k < n
            invariant
                n == b.cells.len(),
                labels@.len() == n,
                self.nb_cells == n,
                k <= n,
                self.width == b.width,
                self.height == b.height,
                self.map_type == b.map_type,
                self.entity_cells@ == b.occupied,
                self.cells@.len() == n,
                forall|c: int|
                    0 <= c < n ==> #[trigger] self.cells@[c] == (Cell {
                        composante: if c < k {
                            labels@[c]
                        } else {
                            b.cells[c].composante
                        },
                        ..b.cells[c]
                    }),
            decreases n - k,
        {
            let mut cell: Cell = self.cells[k];
            cell.composante = labels[k];
            self.cells.set(k, cell);
            k += 1;
        }
        proof {
            assert(self@.labels() =~= labels@);
            assert(self@.cells =~= b.with_labels(labels@).cells);
            assert forall|c: int|
                #![trigger self@.cells[c]]
                0 <= c < self@.cells.len() implies {
                &&& self@.cells[c].id == c
                &&& self@.cells[c].x == crate::map::cell_x(c, self@.width)
                &&& self@.cells[c].y == crate::map::cell_y(c, self@.width)
            } by {
                assert(b.cells[c].id == c);
            }
        }
    }

    /// Spreads the number `count` from the stacked cells to everything that
    /// they are connected to.
    fn fill(&self, labels: &mut Vec<i32>, stack: &mut Vec<usize>, Ghost(roots): Ghost<
        Seq<int>,
    >, count: i32, Ghost(start): Ghost<int>)
        requires
            self.wf(),
            filling(self@, old(labels)@, roots, old(stack)@, -1),
            count == roots.len(),
            roots.len() > 0,
            roots.last() == start,
            forall|c: int| 0 <= c < start ==> #[trigger] old(labels)@[c] != 0,
        ensures
            filling(self@, final(labels)@, roots, final(stack)@, -1),
            final(stack)@ == Seq::<usize>::empty(),
            forall|c: int|
                0 <= c < old(labels)@.len() && old(labels)@[c] != 0 ==> #[trigger] final(labels)@[c]
                    == old(labels)@[c],
    {
        let ghost b = self@;
        while stack.len() > 0
            invariant
                self.wf(),
                b == self@,
                filling(b, labels@, roots, stack@, -1),
                count == roots.len(),
                roots.len() > 0,
                roots.last() == start,
                forall|c: int| 0 <= c < start ==> #[trigger] labels@[c] != 0,
                labels@.len() == old(labels)@.len(),
                forall|c: int|
                    0 <= c < old(labels)@.len() && old(labels)@[c] != 0 ==> #[trigger] labels@[c]
                        == old(labels)@[c],
            decreases 2 * zeros(labels@) + stack@.len(),
        {
            let ghost whole = stack@;
            let u: usize = stack.pop().unwrap();
            proof {
                assert(u == whole[whole.len() - 1]);
                assert(b.has(whole[whole.len() - 1] as int));
                assert forall|x: int, y: int|
                    #![trigger b.joins(x, y)]
                    b.joins(x, y) && labels@[x] != 0 && x != u && !stack@.contains(
                        x as usize,
                    ) implies labels@[y] == labels@[x] by {
                    crate::map::lemma_cell_count_limit(b);
                    if whole.contains(x as usize) {
                        let i = choose|i: int| 0 <= i < whole.len() && whole[i] == x as usize;
                        if i < whole.len() - 1 {
                            assert(stack@[i] == x as usize);
                        }
                    }
                }
                assert forall|i: int| 0 <= i < stack@.len() implies b.has(
                    #[trigger] stack@[i] as int,
                ) && labels@[stack@[i] as int] == roots.len() by {
                    assert(stack@[i] == whole[i]);
                }
            }
            let mut k: usize = 0;
            let ghost zeros_before = zeros(labels@);
            let ghost len_before = stack@.len();
            while k < 4
                invariant
                    self.wf(),
                    b == self@,
                    filling(b, labels@, roots, stack@, u as int),
                    b.has(u as int),
                    labels@[u as int] == roots.len(),
                    count == roots.len(),
                    roots.len() > 0,
                    roots.last() == start,
                    k <= 4,
                    forall|c: int| 0 <= c < start ==> #[trigger] labels@[c] != 0,
                    labels@.len() == old(labels)@.len(),
                    forall|c: int|
                        0 <= c < old(labels)@.len() && old(labels)@[c] != 0
                            ==> #[trigger] labels@[c] == old(labels)@[c],
                    2 * zeros(labels@) + stack@.len() <= 2 * zeros_before + len_before,
                    forall|d: int|
                        0 <= d < k ==> (#[trigger] fill_neighbour(b, u as int, d) matches Some(c)
                            ==> b.joins(u as int, c as int) ==> labels@[c as int] != 0),
                decreases 4 - k,
            {
                proof {
                    b.lemma_coords(u as int);
                }
                let next: Option<usize> = if k == 0 {
                    self.get_next_cell(u, 1, 0)
                } else if k == 1 {
                    self.get_next_cell(u, -1, 0)
                } else if k == 2 {
                    self.get_next_cell(u, 0, 1)
                } else {
                    self.get_next_cell(u, 0, -1)
                };
                assert(next == fill_neighbour(b, u as int, k as int));
                match next {
                    None => {},
                    Some(c) => {
                        if self.cells[c].walkable == self.cells[u].walkable && labels[c] == 0 {
                            proof {
                                assert(b.joins(u as int, c as int));
                                lemma_fill_spreads(b, labels@, roots, stack@, u as int, c);
                                lemma_zeros_update(labels@, c as int, count);
                            }
                            labels.set(c, count);
                            stack.push(c);
                        }
                    },
                }
                k += 1;
            }
            proof {
                assert forall|c: int| #[trigger] b.joins(u as int, c) implies labels@[c] != 0 by {
                    crate::map::lemma_cell_count_limit(b);
                    b.lemma_coords(c);
                    let d: int = if b.x(c) == b.x(u as int) + 1 {
                        0
                    } else if b.x(c) == b.x(u as int) - 1 {
                        1
                    } else if b.y(c) == b.y(u as int) + 1 {
                        2
                    } else {
                        3
                    };
                    assert(fill_neighbour(b, u as int, d) == Some(c as usize));
                }
                lemma_fill_done(b, labels@, roots, stack@, u as int);
            }
        }
        assert(stack@ =~= Seq::<usize>::empty());
    }
}

/// The neighbours in the order in which a fill sees them.
spec fn fill_neighbour(b: Board, u: int, k: int) -> Option<usize> {
    if k == 0 {
        b.step(u, 1, 0)
    } else if k == 1 {
        b.step(u, -1, 0)
    } else if k == 2 {
        b.step(u, 0, 1)
    } else {
        b.step(u, 0, -1)
    }
}

} // verus!
