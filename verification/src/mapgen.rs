//! Random boards.
//!
//! Everything is drawn from one random stream in a fixed order: for each
//! obstacle a cell, then, where that cell is free, a size and a kind; a place
//! for each side, as two draws a try; at the end the theme. A board on which
//! the sides cannot reach each other is drawn again, up to 63 times.

use crate::map::{Board, GameMap, DIR_EAST, DIR_SOUTH};
use crate::rng::OfficialRng;
use vstd::prelude::*;

verus! {

/// One drawn board: the places of the two sides, and the state of the random
/// stream behind it.
pub struct Draft {
    pub board: Board,
    pub first: Option<usize>,
    pub second: Option<usize>,
    pub stream: int,
}

impl Draft {
    /// Whether the sides can reach each other, as far as both have a place.
    pub open spec fn playable(self) -> bool {
        self.first is Some && self.second is Some ==> self.board.connected(
            self.first.unwrap() as int,
            self.second.unwrap() as int,
        )
    }
}

impl Board {
    /// The board with an obstacle on a cell.
    pub open spec fn with_obstacle(self, c: int, kind: int, size: int) -> Board {
        Board {
            cells: self.cells.update(c, self.cells[c].with_obstacle(kind as i32, size as i32)),
            ..self
        }
    }

    /// Whether the board has the cell, without an obstacle.
    pub open spec fn open_cell(self, c: Option<usize>) -> bool {
        c is Some && self.walkable(c.unwrap() as int)
    }

    /// A random cell without an obstacle within a number of tries, and the
    /// state of the stream behind it.
    pub open spec fn random_cell(self, n: int, tries: nat) -> (Option<usize>, int)
        decreases tries,
    {
        if tries == 0 {
            (None, n)
        } else {
            let id = crate::rng::int_value(n, 0, self.cells.len() as int);
            let next = crate::rng::int_state(n, 0, self.cells.len() as int);
            if self.has(id) && self.walkable(id) {
                (Some(id as usize), next)
            } else {
                self.random_cell(next, (tries - 1) as nat)
            }
        }
    }

    /// The cell that two draws name within a vertical band of the board.
    pub open spec fn band_cell(self, part: int, row: int, column: int) -> int {
        row * (self.width * 2 - 1) + crate::rng::trunc_div((part - 1) * self.width, 4) + column
    }

    /// A random cell without an obstacle in a vertical band of the board
    /// within a number of tries, and the state of the stream behind it.
    pub open spec fn random_cell_in_part(self, n: int, part: int, tries: nat) -> (
        Option<usize>,
        int,
    )
        decreases tries,
    {
        if tries == 0 {
            (None, n)
        } else {
            let row = crate::rng::int_value(n, 0, self.height - 1);
            let n1 = crate::rng::int_state(n, 0, self.height - 1);
            let column = crate::rng::int_value(n1, 0, self.width / 4);
            let n2 = crate::rng::int_state(n1, 0, self.width / 4);
            let id = self.band_cell(part, row, column);
            if self.has(id) && self.walkable(id) {
                (Some(id as usize), n2)
            } else {
                self.random_cell_in_part(n2, part, (tries - 1) as nat)
            }
        }
    }

    /// The board and the stream after one obstacle is drawn. It covers a block
    /// of four cells where size 2 is drawn and the block has no obstacle yet.
    pub open spec fn draw_obstacle(self, n: int) -> (Board, int) {
        let id = crate::rng::int_value(n, 0, self.cells.len() as int);
        let n1 = crate::rng::int_state(n, 0, self.cells.len() as int);
        if !(self.has(id) && self.walkable(id)) {
            (self, n1)
        } else {
            let size = crate::rng::int_value(n1, 1, 2);
            let n2 = crate::rng::int_state(n1, 1, 2);
            let kind = crate::rng::int_value(n2, 0, 2);
            let n3 = crate::rng::int_state(n2, 0, 2);
            let east = self.neighbour(id, DIR_EAST);
            let south = self.neighbour(id, DIR_SOUTH);
            let corner = match south {
                Some(c) => self.neighbour(c as int, DIR_EAST),
                None => None,
            };
            if size == 2 && self.open_cell(east) && self.open_cell(south) && self.open_cell(corner) {
                (
                    self.with_obstacle(east.unwrap() as int, 0, -1).with_obstacle(
                        south.unwrap() as int,
                        0,
                        -2,
                    ).with_obstacle(corner.unwrap() as int, 0, -3).with_obstacle(id, kind, 2),
                    n3,
                )
            } else {
                (self.with_obstacle(id, kind, 1), n3)
            }
        }
    }

    /// The board and the stream after a number of obstacles are drawn.
    pub open spec fn draw_obstacles(self, count: int, n: int) -> (Board, int)
        decreases count,
    {
        if count <= 0 {
            (self, n)
        } else {
            let before = self.draw_obstacles(count - 1, n);
            before.0.draw_obstacle(before.1)
        }
    }

    /// The numbering of the board's components.
    pub open spec fn numbering(self) -> Seq<i32> {
        choose|labels: Seq<i32>| self.numbers_components(labels)
    }
}

/// One drawn board with a number of obstacle draws, from the state `n`.
pub open spec fn draft(count: int, n: int) -> Draft {
    let scattered = Board::bare(18, 18).draw_obstacles(count, n);
    let first = scattered.0.random_cell_in_part(scattered.1, 1, 65);
    let second = scattered.0.random_cell_in_part(first.1, 4, 65);
    Draft {
        board: scattered.0.with_labels(scattered.0.numbering()),
        first: first.0,
        second: second.0,
        stream: second.1,
    }
}

/// The first playable board among a number of drafts, or the last.
pub open spec fn drafts(count: int, n: int, left: nat) -> Draft
    decreases left,
{
    let d = draft(count, n);
    if d.playable() || left <= 1 {
        d
    } else {
        drafts(count, d.stream, (left - 1) as nat)
    }
}

/// The cells that the given places are on.
pub open spec fn placed(first: Option<usize>, second: Option<usize>) -> Seq<usize> {
    (match first {
        Some(c) => seq![c],
        None => Seq::empty(),
    }) + (match second {
        Some(c) => seq![c],
        None => Seq::empty(),
    })
}

/// A generated board: the accepted draft with its theme and its two entities,
/// and the state of the stream behind it.
pub open spec fn generated(count: int, n: int) -> Draft {
    let d = drafts(count, n, 63);
    Draft {
        board: Board {
            map_type: crate::rng::int_value(d.stream, 0, 4),
            occupied: placed(d.first, d.second),
            ..d.board
        },
        first: d.first,
        second: d.second,
        stream: crate::rng::int_state(d.stream, 0, 4),
    }
}

/// A random place is a cell without an obstacle in its band.
pub proof fn lemma_place_in_band(b: Board, n: int, part: int, tries: nat)
    requires
        b.wf(),
        b.width == 18,
        b.height == 18,
    ensures
        b.random_cell_in_part(n, part, tries).0 matches Some(c) ==> {
            &&& b.has(c as int)
            &&& b.walkable(c as int)
            &&& exists|row: int, column: int|
                0 <= row <= 17 && 0 <= column <= 4 && c == #[trigger] b.band_cell(part, row, column)
        },
    decreases tries,
{
    if tries > 0 {
        let row = crate::rng::int_value(n, 0, 17);
        let n1 = crate::rng::int_state(n, 0, 17);
        let column = crate::rng::int_value(n1, 0, 4);
        crate::rng::lemma_int_draw_in_range(n, 0, 17);
        crate::rng::lemma_int_draw_in_range(n1, 0, 4);
        crate::map::lemma_cell_count_limit(b);
        let id = b.band_cell(part, row, column);
        if b.has(id) && b.walkable(id) {
            assert(id as usize == id);
        } else {
            lemma_place_in_band(b, crate::rng::int_state(n1, 0, 4), part, (tries - 1) as nat);
        }
    }
}

/// The two sides of a generated board never share a cell.
pub proof fn lemma_sides_apart(b: Board, n1: int, n2: int, tries: nat)
    requires
        b.wf(),
        b.width == 18,
        b.height == 18,
        b.random_cell_in_part(n1, 1, tries).0 is Some,
        b.random_cell_in_part(n2, 4, tries).0 is Some,
    ensures
        b.random_cell_in_part(n1, 1, tries).0 != b.random_cell_in_part(n2, 4, tries).0,
{
    lemma_place_in_band(b, n1, 1, tries);
    lemma_place_in_band(b, n2, 4, tries);
    let (r1, c1) = choose|row: int, column: int|
        0 <= row <= 17 && 0 <= column <= 4 && b.random_cell_in_part(n1, 1, tries).0.unwrap()
            == #[trigger] b.band_cell(1, row, column);
    let (r2, c2) = choose|row: int, column: int|
        0 <= row <= 17 && 0 <= column <= 4 && b.random_cell_in_part(n2, 4, tries).0.unwrap()
            == #[trigger] b.band_cell(4, row, column);
    assert(b.band_cell(1, r1, c1) == r1 * 35 + c1);
    assert(b.band_cell(4, r2, c2) == r2 * 35 + 13 + c2);
}

/// The board keeps its shape under an obstacle.
proof fn lemma_with_obstacle_wf(b: Board, c: int, kind: int, size: int)
    requires
        b.wf(),
        b.has(c),
    ensures
        b.with_obstacle(c, kind, size).wf(),
{
    let o = b.with_obstacle(c, kind, size);
    assert forall|k: int|
        #![trigger o.cells[k]]
        0 <= k < o.cells.len() implies {
        &&& o.cells[k].id == k
        &&& o.cells[k].x == crate::map::cell_x(k, o.width)
        &&& o.cells[k].y == crate::map::cell_y(k, o.width)
    } by {
        assert(b.cells[k].id == k);
    }
}

impl GameMap {
    /// Puts an obstacle on a cell.
    fn put_obstacle(&mut self, c: usize, kind: i32, size: i32)
        requires
            old(self).wf(),
            old(self)@.has(c as int),
        ensures
            final(self).wf(),
            final(self)@ == old(self)@.with_obstacle(c as int, kind as int, size as int),
    {
        let mut cell = self.cells[c];
        cell.set_obstacle(kind, size);
        self.cells.set(c, cell);
        proof {
            lemma_with_obstacle_wf(old(self)@, c as int, kind as int, size as int);
            assert(self@.cells =~= old(self)@.with_obstacle(
                c as int,
                kind as int,
                size as int,
            ).cells);
        }
    }

    /// Whether the board has the cell, without an obstacle.
    fn is_open(&self, c: Option<usize>) -> (b: bool)
        requires
            self.wf(),
            c matches Some(id) ==> self@.has(id as int),
        ensures
            b == self@.open_cell(c),
    {
        match c {
            Some(id) => self.cells[id].available(),
            None => false,
        }
    }

    /// A random cell without an obstacle, within 64 draws.
    #[must_use]
    pub fn get_random_cell(&self, rng: &mut OfficialRng) -> (cell: Option<usize>)
        requires
            self.wf(),
        ensures
            (cell, final(rng)@) == self@.random_cell(old(rng)@, 64),
            cell matches Some(c) ==> self@.has(c as int) && self@.walkable(c as int),
    {
        let mut left: u32 = 64;
        proof {
            crate::map::lemma_cell_count_limit(self@);
        }
        while left > 0
            invariant
                self.wf(),
                self@.cells.len() <= 0x4001_0000,
                left <= 64,
                self@.random_cell(rng@, left as nat) == self@.random_cell(old(rng)@, 64),
            decreases left,
        {
            let id: i32 = rng.get_int(0, self.nb_cells as i32);
            if let Some(c) = self.get_cell(id) {
                if self.cells[c].available() {
                    return Some(c);
                }
            }
            left -= 1;
        }
        None
    }

    /// A random cell without an obstacle in a vertical band of the board,
    /// within 65 tries. Band 1 is on the left and band 4 on the right.
    #[must_use]
    pub fn get_random_cell_in_part(&self, rng: &mut OfficialRng, part: i32) -> (cell: Option<usize>)
        requires
            self.wf(),
        ensures
            (cell, final(rng)@) == self@.random_cell_in_part(old(rng)@, part as int, 65),
            cell matches Some(c) ==> self@.has(c as int) && self@.walkable(c as int),
    {
        let mut left: u32 = 65;
        proof {
            crate::map::lemma_cell_count_limit(self@);
        }
        while left > 0
            invariant
                self.wf(),
                self@.cells.len() <= 0x4001_0000,
                left <= 65,
                self@.random_cell_in_part(rng@, part as int, left as nat)
                    == self@.random_cell_in_part(old(rng)@, part as int, 65),
            decreases left,
        {
            let ghost n = rng@;
            let y: i32 = rng.get_int(0, self.height - 1);
            let ghost n1 = rng@;
            let x: i32 = rng.get_int(0, self.width / 4);
            let row_len: i64 = self.width as i64 * 2 - 1;
            proof {
                crate::rng::lemma_int_draw_in_range(n, 0, self.height - 1);
                crate::rng::lemma_int_draw_in_range(n1, 0, self@.width / 4);
                assert(0 <= y * row_len <= 32768 * 65536) by (nonlinear_arith)
                    requires
                        0 <= y <= 32768,
                        0 <= row_len <= 65536,
                ;
                assert(-0x8000_0001 * 32768 <= (part - 1) * self.width <= 0x8000_0000 * 32768)
                    by (nonlinear_arith)
                    requires
                        -0x8000_0001 <= part - 1 <= 0x8000_0000,
                        1 <= self.width <= 32768,
                ;
            }
            let id: i64 = y as i64 * row_len + (part as i64 - 1) * self.width as i64 / 4 + x as i64;
            assert(id == self@.band_cell(part as int, y as int, x as int));
            if id >= 0 && id < self.nb_cells as i64 && self.cells[id as usize].available() {
                return Some(id as usize);
            }
            left -= 1;
        }
        None
    }

    /// Draws one obstacle.
    fn scatter_one(&mut self, rng: &mut OfficialRng)
        requires
            old(self).wf(),
        ensures
            final(self).wf(),
            (final(self)@, final(rng)@) == old(self)@.draw_obstacle(old(rng)@),
    {
        let ghost b = self@;
        proof {
            crate::map::lemma_cell_count_limit(b);
        }
        let id: i32 = rng.get_int(0, self.nb_cells as i32);
        let cell: usize = match self.get_cell(id) {
            Some(c) => c,
            None => {
                return ;
            },
        };
        if !self.cells[cell].available() {
            return ;
        }
        let ghost n1 = rng@;
        let size: i32 = rng.get_int(1, 2);
        let kind: i32 = rng.get_int(0, 2);
        proof {
            crate::rng::lemma_int_draw_in_range(n1, 1, 2);
        }
        let east: Option<usize> = self.get_cell_by_dir(cell, DIR_EAST);
        let south: Option<usize> = self.get_cell_by_dir(cell, DIR_SOUTH);
        let corner: Option<usize> = match south {
            Some(c) => self.get_cell_by_dir(c, DIR_EAST),
            None => None,
        };
        if size == 2 && self.is_open(east) && self.is_open(south) && self.is_open(corner) {
            self.put_obstacle(east.unwrap(), 0, -1);
            self.put_obstacle(south.unwrap(), 0, -2);
            self.put_obstacle(corner.unwrap(), 0, -3);
            self.put_obstacle(cell, kind, 2);
        } else {
            self.put_obstacle(cell, kind, 1);
        }
    }

    /// Draws one board with the places of the two sides.
    fn draw_draft(rng: &mut OfficialRng, obstacle_count: i32) -> (drawn: (
        Self,
        Option<usize>,
        Option<usize>,
        bool,
    ))
        ensures
            ({
                let d = draft(obstacle_count as int, old(rng)@);
                &&& drawn.0.wf()
                &&& drawn.0@ == d.board
                &&& drawn.1 == d.first
                &&& drawn.2 == d.second
                &&& drawn.3 == d.playable()
                &&& final(rng)@ == d.stream
                &&& drawn.0@.width == 18
                &&& drawn.0@.height == 18
                &&& d.first matches Some(c) ==> drawn.0@.has(c as int)
                &&& d.second matches Some(c) ==> drawn.0@.has(c as int)
            }),
    {
        let mut map = GameMap::new(18, 18);
        let mut i: i32 = 0;
        while i < obstacle_count
            invariant
                map.wf(),
                map@.width == 18,
                map@.height == 18,
                0 <= i,
                i <= obstacle_count || i == 0,
                (map@, rng@) == Board::bare(18, 18).draw_obstacles(i as int, old(rng)@),
            decreases obstacle_count - i,
        {
            map.scatter_one(rng);
            i += 1;
        }
        let ghost scattered = map@;
        assert((scattered, rng@) == Board::bare(18, 18).draw_obstacles(
            obstacle_count as int,
            old(rng)@,
        ));
        let first: Option<usize> = map.get_random_cell_in_part(rng, 1);
        let second: Option<usize> = map.get_random_cell_in_part(rng, 4);
        map.compute_composantes();
        proof {
            let labels = map@.labels();
            assert(scattered.numbers_components(labels));
            assert(scattered.numbers_components(scattered.numbering()));
            crate::components::lemma_numbering_unique(scattered, labels, scattered.numbering());
        }
        let playable: bool = match (first, second) {
            (Some(a), Some(c)) => {
                proof {
                    let labels = map@.labels();
                    assert(labels[a as int] == labels[c as int] <==> scattered.connected(
                        a as int,
                        c as int,
                    ));
                    lemma_connected_ignores_labels(
                        scattered,
                        scattered.numbering(),
                        a as int,
                        c as int,
                    );
                }
                map.cells[a].composante == map.cells[c].composante
            },
            _ => true,
        };
        (map, first, second, playable)
    }

    /// A random board of the standard size with the places of the two sides,
    /// redrawn up to 63 times until they can reach each other.
    #[must_use]
    pub fn generate_map(rng: &mut OfficialRng, obstacle_count: i32) -> (result: (
        Self,
        Option<usize>,
        Option<usize>,
    ))
        ensures
            ({
                let g = generated(obstacle_count as int, old(rng)@);
                &&& result.0.wf()
                &&& result.0@ == g.board
                &&& result.1 == g.first
                &&& result.2 == g.second
                &&& final(rng)@ == g.stream
            }),
            result.0@.width == 18,
            result.0@.height == 18,
            result.1 matches Some(c) ==> result.0@.has(c as int),
            result.2 matches Some(c) ==> result.0@.has(c as int),
    {
        let ghost n = rng@;
        let ghost count = obstacle_count as int;
        let mut drawn = Self::draw_draft(rng, obstacle_count);
        let mut left: u32 = 63;
        let ghost mut from: int = n;
        while !drawn.3 && left > 1
            invariant
                1 <= left <= 63,
                drawn.0.wf(),
                drawn.0@.width == 18,
                drawn.0@.height == 18,
                drawn.0@ == draft(count, from).board,
                drawn.1 == draft(count, from).first,
                drawn.2 == draft(count, from).second,
                drawn.3 == draft(count, from).playable(),
                rng@ == draft(count, from).stream,
                drawn.1 matches Some(c) ==> drawn.0@.has(c as int),
                drawn.2 matches Some(c) ==> drawn.0@.has(c as int),
                count == obstacle_count,
                drafts(count, from, left as nat) == drafts(count, n, 63),
            decreases left,
        {
            proof {
                from = rng@;
            }
            drawn = Self::draw_draft(rng, obstacle_count);
            left -= 1;
        }
        assert(drafts(count, from, left as nat) == draft(count, from));
        let (mut map, first, second, _playable) = drawn;
        map.map_type = rng.get_int(0, 4);
        let mut entity_cells: Vec<usize> = Vec::new();
        if let Some(c) = first {
            entity_cells.push(c);
        }
        if let Some(c) = second {
            entity_cells.push(c);
        }
        map.entity_cells = entity_cells;
        assert(map@.occupied =~= placed(first, second));
        (map, first, second)
    }
}

proof fn lemma_chain_ignores_labels(b: Board, labels: Seq<i32>, p: Seq<int>)
    ensures
        b.with_labels(labels).is_chain(p) == b.is_chain(p),
{
    let l = b.with_labels(labels);
    if b.is_chain(p) {
        assert forall|i: int| 1 <= i < p.len() implies #[trigger] l.chain_step(p, i) by {
            assert(b.chain_step(p, i));
        }
        assert forall|i: int| 0 <= i < p.len() implies l.has(#[trigger] p[i]) by {
            assert(b.has(p[i]));
        }
    }
    if l.is_chain(p) {
        assert forall|i: int| 1 <= i < p.len() implies #[trigger] b.chain_step(p, i) by {
            assert(l.chain_step(p, i));
        }
        assert forall|i: int| 0 <= i < p.len() implies b.has(#[trigger] p[i]) by {
            assert(l.has(p[i]));
        }
    }
}

/// Which cells are connected does not depend on the numbers that they carry.
proof fn lemma_connected_ignores_labels(b: Board, labels: Seq<i32>, a: int, c: int)
    ensures
        b.with_labels(labels).connected(a, c) == b.connected(a, c),
{
    let l = b.with_labels(labels);
    if b.connected(a, c) {
        let p = choose|p: Seq<int>| #[trigger] b.is_chain(p) && p[0] == a && p.last() == c;
        lemma_chain_ignores_labels(b, labels, p);
        assert(l.is_chain(p));
    }
    if l.connected(a, c) {
        let p = choose|p: Seq<int>| #[trigger] l.is_chain(p) && p[0] == a && p.last() == c;
        lemma_chain_ignores_labels(b, labels, p);
        assert(b.is_chain(p));
    }
}

/// A random board with the standard number of obstacle draws, itself drawn
/// between 30 and 80.
#[must_use]
pub fn generate_standard_map(rng: &mut OfficialRng) -> (result: (
    GameMap,
    Option<usize>,
    Option<usize>,
))
    ensures
        ({
            let g = generated(
                crate::rng::int_value(old(rng)@, 30, 80),
                crate::rng::int_state(old(rng)@, 30, 80),
            );
            &&& result.0.wf()
            &&& result.0@ == g.board
            &&& result.1 == g.first
            &&& result.2 == g.second
            &&& final(rng)@ == g.stream
        }),
        result.0@.width == 18,
        result.0@.height == 18,
        result.1 matches Some(c) ==> result.0@.has(c as int),
        result.2 matches Some(c) ==> result.0@.has(c as int),
{
    let obstacle_count: i32 = rng.get_int(30, 80);
    GameMap::generate_map(rng, obstacle_count)
}

} // verus!
