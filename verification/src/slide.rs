//! Straight walks over the board: slides, and the first entity on a line.

use crate::map::{sign32, Board, GameMap, MAX_SIDE};
use vstd::prelude::*;

verus! {

impl Board {
    /// The direction from `from` to `to`, one of the eight or none.
    pub open spec fn heading(self, from: int, to: int) -> (int, int) {
        (
            crate::map::sign(self.x(to) - self.x(from)),
            crate::map::sign(self.y(to) - self.y(from)),
        )
    }

    /// Whether a walk of at most `limit` steps from `c` along `(dx, dy)` that
    /// only enters free cells ends after `k` steps.
    pub open spec fn walk_stops(self, c: int, dx: int, dy: int, limit: int, k: int) -> bool {
        &&& 0 <= k
        &&& k == 0 || k <= limit
        &&& self.ray_free(c, dx, dy, k)
        &&& {
            ||| k >= limit
            ||| self.ray(c, dx, dy, k + 1) is None
            ||| !self.free(self.ray(c, dx, dy, k + 1).unwrap() as int)
        }
    }

    /// Whether the first entity on the way from `from` to `target`, within
    /// the range, is met after `k` steps: everything up to it is walkable.
    pub open spec fn meets(
        self,
        from: int,
        dx: int,
        dy: int,
        min_range: int,
        max_range: int,
        k: int,
    ) -> bool {
        &&& 1 <= k
        &&& min_range <= k <= max_range
        &&& self.ray_walkable(from, dx, dy, k)
        &&& self.is_occupied(self.ray(from, dx, dy, k).unwrap() as int)
    }

    /// The ray starts on its own cell, and each of its cells is one step of
    /// the direction behind the one before.
    proof fn lemma_ray_step(self, c: int, dx: int, dy: int, k: int, cell: int)
        requires
            self.wf(),
            self.has(c),
            self.has(cell),
            self.x(cell) == self.x(c) + k * dx,
            self.y(cell) == self.y(c) + k * dy,
        ensures
            self.ray(c, dx, dy, k) == Some(cell as usize),
            self.ray(c, dx, dy, k + 1) == self.step(cell, dx, dy),
            self.x(c) + (k + 1) * dx == self.x(cell) + dx,
            self.y(c) + (k + 1) * dy == self.y(cell) + dy,
    {
        self.lemma_coords(cell);
        assert((k + 1) * dx == k * dx + dx) by (nonlinear_arith);
        assert((k + 1) * dy == k * dy + dy) by (nonlinear_arith);
    }

    /// A ray leaves the board after as many steps as the board is long.
    proof fn lemma_ray_leaves(self, c: int, dx: int, dy: int, k: int, cell: int)
        requires
            self.wf(),
            self.has(c),
            self.has(cell),
            -1 <= dx <= 1,
            -1 <= dy <= 1,
            dx != 0 || dy != 0,
            0 <= k,
            self.x(cell) == self.x(c) + k * dx,
            self.y(cell) == self.y(c) + k * dy,
        ensures
            k <= 2 * MAX_SIDE,
    {
        self.lemma_coords(c);
        self.lemma_coords(cell);
        assert(k * 1 == k);
        assert(k * -1 == -k);
        assert(k * 0 == 0);
    }

    /// A slide stops at one place.
    pub proof fn lemma_slide_unique(self, c: int, target: int, dx: int, dy: int, k1: int, k2: int)
        requires
            self.slide_stops(c, target, dx, dy, k1),
            self.slide_stops(c, target, dx, dy, k2),
        ensures
            k1 == k2,
    {
        if k1 < k2 {
            assert(self.ray(c, dx, dy, k1) != Some(target as usize));
            assert(self.free(self.ray(c, dx, dy, k1 + 1).unwrap() as int));
        } else if k2 < k1 {
            assert(self.ray(c, dx, dy, k2) != Some(target as usize));
            assert(self.free(self.ray(c, dx, dy, k2 + 1).unwrap() as int));
        }
    }

    /// A slide moves the entity only over free cells: wherever it ends beyond
    /// its start, the cell is free.
    pub proof fn lemma_slide_lands_free(self, c: int, target: int, dx: int, dy: int, k: int)
        requires
            self.slide_stops(c, target, dx, dy, k),
            k >= 1,
        ensures
            self.ray(c, dx, dy, k) is Some,
            self.free(self.ray(c, dx, dy, k).unwrap() as int),
    {
    }
}

impl GameMap {
    /// The cell on which a slide from `start` towards `target` stops, or none
    /// where it would run off the board first.
    pub(crate) fn slide_end(&self, start: usize, target: usize, dx: i32, dy: i32) -> (end: Option<
        usize,
    >)
        requires
            self.wf(),
            self@.has(start as int),
            self@.has(target as int),
            -1 <= dx <= 1,
            -1 <= dy <= 1,
            dx != 0 || dy != 0 || start == target,
        ensures
            match end {
                Some(c) => self@.has(c as int) && exists|k: int| #[trigger]
                    self@.slide_stops(start as int, target as int, dx as int, dy as int, k)
                        && self@.ray(start as int, dx as int, dy as int, k) == Some(c),
                None => forall|k: int| !#[trigger]
                    self@.slide_stops(start as int, target as int, dx as int, dy as int, k),
            },
    {
        let mut current: usize = start;
        let ghost mut k: int = 0;
        let ghost b = self@;
        proof {
            assert(0 * dx == 0);
            assert(0 * dy == 0);
        }
        while current != target
            invariant
                self.wf(),
                b == self@,
                b.has(start as int),
                b.has(target as int),
                b.has(current as int),
                -1 <= dx <= 1,
                -1 <= dy <= 1,
                dx != 0 || dy != 0 || start == target,
                start == target ==> current == start,
                0 <= k,
                b.x(current as int) == b.x(start as int) + k * dx,
                b.y(current as int) == b.y(start as int) + k * dy,
                b.ray_free(start as int, dx as int, dy as int, k),
                forall|j: int|
                    #![trigger b.ray(start as int, dx as int, dy as int, j)]
                    0 <= j < k ==> b.ray(start as int, dx as int, dy as int, j) != Some(target),
            decreases 2 * MAX_SIDE + 1 - k,
        {
            proof {
                b.lemma_coords(current as int);
                b.lemma_ray_step(start as int, dx as int, dy as int, k, current as int);
                b.lemma_ray_leaves(start as int, dx as int, dy as int, k, current as int);
            }
            match self.get_next_cell(current, dx, dy) {
                None => {
                    proof {
                        assert forall|j: int| !#[trigger]
                            b.slide_stops(start as int, target as int, dx as int, dy as int, j) by {
                            if b.slide_stops(start as int, target as int, dx as int, dy as int, j) {
                                if j < k {
                                    assert(b.free(
                                        b.ray(
                                            start as int,
                                            dx as int,
                                            dy as int,
                                            j + 1,
                                        ).unwrap() as int,
                                    ));
                                } else if j > k {
                                    assert(b.ray(start as int, dx as int, dy as int, k + 1) is Some);
                                }
                            }
                        }
                    }
                    return None;
                },
                Some(next) => {
                    if !self.cell_available(next) {
                        assert(b.slide_stops(
                            start as int,
                            target as int,
                            dx as int,
                            dy as int,
                            k,
                        ));
                        return Some(current);
                    }
                    current = next;
                    proof {
                        k = k + 1;
                    }
                },
            }
        }
        proof {
            b.lemma_ray_step(start as int, dx as int, dy as int, k, current as int);
            assert(b.slide_stops(start as int, target as int, dx as int, dy as int, k));
        }
        Some(current)
    }

    /// Where an entity that is pushed towards `target` comes to rest. It
    /// moves only where that leads away from the caster, over free cells, and
    /// never past the target.
    #[must_use]
    pub fn push_last_available_cell(&self, entity: usize, target: usize, caster: usize) -> (end:
        usize)
        requires
            self.wf(),
            self@.has(entity as int),
            self@.has(target as int),
            self@.has(caster as int),
            self@.heading(caster as int, entity as int) == self@.heading(
                entity as int,
                target as int,
            ) ==> exists|k: int| #[trigger]
                self@.slide_stops(
                    entity as int,
                    target as int,
                    self@.heading(entity as int, target as int).0,
                    self@.heading(entity as int, target as int).1,
                    k,
                ),
        ensures
            self@.has(end as int),
            ({
                let dx = self@.heading(entity as int, target as int).0;
                let dy = self@.heading(entity as int, target as int).1;
                if self@.heading(caster as int, entity as int) == (dx, dy) {
                    exists|k: int| #[trigger]
                        self@.slide_stops(entity as int, target as int, dx, dy, k) && self@.ray(
                            entity as int,
                            dx,
                            dy,
                            k,
                        ) == Some(end)
                } else {
                    end == entity
                }
            }),
    {
        match self.push_end(entity, target, caster) {
            Some(end) => end,
            None => entity,
        }
    }

    /// [`GameMap::push_last_available_cell`], or none where the slide would
    /// run off the board.
    pub(crate) fn push_end(&self, entity: usize, target: usize, caster: usize) -> (end: Option<
        usize,
    >)
        requires
            self.wf(),
            self@.has(entity as int),
            self@.has(target as int),
            self@.has(caster as int),
        ensures
            end matches Some(c) ==> self@.has(c as int),
            ({
                let dx = self@.heading(entity as int, target as int).0;
                let dy = self@.heading(entity as int, target as int).1;
                if self@.heading(caster as int, entity as int) == (dx, dy) {
                    match end {
                        Some(c) => exists|k: int| #[trigger]
                            self@.slide_stops(entity as int, target as int, dx, dy, k) && self@.ray(
                                entity as int,
                                dx,
                                dy,
                                k,
                            ) == Some(c),
                        None => forall|k: int| !#[trigger]
                            self@.slide_stops(entity as int, target as int, dx, dy, k),
                    }
                } else {
                    end == Some(entity)
                }
            }),
    {
        proof {
            self@.lemma_coords(entity as int);
            self@.lemma_coords(target as int);
            self@.lemma_coords(caster as int);
        }
        let cdx: i32 = sign32(self.cells[entity].x - self.cells[caster].x);
        let cdy: i32 = sign32(self.cells[entity].y - self.cells[caster].y);
        let dx: i32 = sign32(self.cells[target].x - self.cells[entity].x);
        let dy: i32 = sign32(self.cells[target].y - self.cells[entity].y);
        if cdx != dx || cdy != dy {
            return Some(entity);
        }
        proof {
            if dx == 0 && dy == 0 {
                self@.lemma_coords_unique(entity as int, target as int);
            }
        }
        self.slide_end(entity, target, dx, dy)
    }

    /// Where an entity that is pulled towards `target` comes to rest. It
    /// moves only where that leads towards the caster, over free cells, and
    /// never past the target.
    #[must_use]
    pub fn attract_last_available_cell(&self, entity: usize, target: usize, caster: usize) -> (end:
        usize)
        requires
            self.wf(),
            self@.has(entity as int),
            self@.has(target as int),
            self@.has(caster as int),
            self@.heading(entity as int, caster as int) == self@.heading(
                entity as int,
                target as int,
            ) ==> exists|k: int| #[trigger]
                self@.slide_stops(
                    entity as int,
                    target as int,
                    self@.heading(entity as int, target as int).0,
                    self@.heading(entity as int, target as int).1,
                    k,
                ),
        ensures
            self@.has(end as int),
            ({
                let dx = self@.heading(entity as int, target as int).0;
                let dy = self@.heading(entity as int, target as int).1;
                if self@.heading(entity as int, caster as int) == (dx, dy) {
                    exists|k: int| #[trigger]
                        self@.slide_stops(entity as int, target as int, dx, dy, k) && self@.ray(
                            entity as int,
                            dx,
                            dy,
                            k,
                        ) == Some(end)
                } else {
                    end == entity
                }
            }),
    {
        match self.attract_end(entity, target, caster) {
            Some(end) => end,
            None => entity,
        }
    }

    /// [`GameMap::attract_last_available_cell`], or none where the slide
    /// would run off the board.
    pub(crate) fn attract_end(&self, entity: usize, target: usize, caster: usize) -> (end: Option<
        usize,
    >)
        requires
            self.wf(),
            self@.has(entity as int),
            self@.has(target as int),
            self@.has(caster as int),
        ensures
            end matches Some(c) ==> self@.has(c as int),
            ({
                let dx = self@.heading(entity as int, target as int).0;
                let dy = self@.heading(entity as int, target as int).1;
                if self@.heading(entity as int, caster as int) == (dx, dy) {
                    match end {
                        Some(c) => exists|k: int| #[trigger]
                            self@.slide_stops(entity as int, target as int, dx, dy, k) && self@.ray(
                                entity as int,
                                dx,
                                dy,
                                k,
                            ) == Some(c),
                        None => forall|k: int| !#[trigger]
                            self@.slide_stops(entity as int, target as int, dx, dy, k),
                    }
                } else {
                    end == Some(entity)
                }
            }),
    {
        proof {
            self@.lemma_coords(entity as int);
            self@.lemma_coords(target as int);
            self@.lemma_coords(caster as int);
        }
        let cdx: i32 = sign32(self.cells[entity].x - self.cells[caster].x);
        let cdy: i32 = sign32(self.cells[entity].y - self.cells[caster].y);
        let dx: i32 = sign32(self.cells[target].x - self.cells[entity].x);
        let dy: i32 = sign32(self.cells[target].y - self.cells[entity].y);
        if cdx != -dx || cdy != -dy {
            return Some(entity);
        }
        proof {
            if dx == 0 && dy == 0 {
                self@.lemma_coords_unique(entity as int, target as int);
            }
        }
        self.slide_end(entity, target, dx, dy)
    }

    /// Where an entity that is repelled from the caster by `distance` cells
    /// comes to rest: before the first cell that is missing or not free. On
    /// the caster's own cell there is no direction, and it stays.
    #[must_use]
    pub fn repel_last_available_cell(&self, entity: usize, caster: usize, distance: i32) -> (end:
        usize)
        requires
            self.wf(),
            self@.has(entity as int),
            self@.has(caster as int),
        ensures
            self@.has(end as int),
            ({
                let dx = self@.heading(caster as int, entity as int).0;
                let dy = self@.heading(caster as int, entity as int).1;
                if dx == 0 && dy == 0 {
                    end == entity
                } else {
                    exists|k: int| #[trigger]
                        self@.walk_stops(entity as int, dx, dy, distance as int, k) && self@.ray(
                            entity as int,
                            dx,
                            dy,
                            k,
                        ) == Some(end)
                }
            }),
    {
        let ghost b = self@;
        proof {
            b.lemma_coords(entity as int);
            b.lemma_coords(caster as int);
        }
        let dx: i32 = sign32(self.cells[entity].x - self.cells[caster].x);
        let dy: i32 = sign32(self.cells[entity].y - self.cells[caster].y);
        if dx == 0 && dy == 0 {
            return entity;
        }
        let mut current: usize = entity;
        let mut k: i32 = 0;
        proof {
            assert(0 * dx == 0);
            assert(0 * dy == 0);
        }
        while k < distance
            invariant_except_break
                b.x(current as int) == b.x(entity as int) + k * dx,
                b.y(current as int) == b.y(entity as int) + k * dy,
                b.ray_free(entity as int, dx as int, dy as int, k as int),
            invariant
                self.wf(),
                b == self@,
                b.has(entity as int),
                b.has(current as int),
                -1 <= dx <= 1,
                -1 <= dy <= 1,
                dx != 0 || dy != 0,
                0 <= k,
                k == 0 || k <= distance,
                b.ray(entity as int, dx as int, dy as int, k as int) == Some(current),
            ensures
                b.walk_stops(entity as int, dx as int, dy as int, distance as int, k as int),
            decreases distance - k,
        {
            proof {
                b.lemma_coords(current as int);
                b.lemma_ray_step(entity as int, dx as int, dy as int, k as int, current as int);
            }
            match self.get_next_cell(current, dx, dy) {
                None => {
                    break;
                },
                Some(next) => {
                    if !self.cell_available(next) {
                        break;
                    }
                    current = next;
                    k += 1;
                    proof {
                        b.lemma_ray_step(
                            entity as int,
                            dx as int,
                            dy as int,
                            k as int,
                            current as int,
                        );
                    }
                },
            }
        }
        assert(b.walk_stops(
            entity as int,
            b.heading(caster as int, entity as int).0,
            b.heading(caster as int, entity as int).1,
            distance as int,
            k as int,
        ));
        current
    }

    /// The first occupied cell on the straight line from `from` towards
    /// `target`, within the range. An obstacle or the edge ends the line.
    #[must_use]
    pub fn get_first_entity(&self, from: usize, target: usize, min_range: i32, max_range: i32) -> (
    found: Option<usize>)
        requires
            self.wf(),
            self@.has(from as int),
            self@.has(target as int),
        ensures
            ({
                let dx = self@.heading(from as int, target as int).0;
                let dy = self@.heading(from as int, target as int).1;
                match found {
                    Some(c) => exists|k: int| #[trigger]
                        self@.meets(from as int, dx, dy, min_range as int, max_range as int, k)
                            && self@.ray(from as int, dx, dy, k) == Some(c) && forall|j: int|
                            j < k ==> !#[trigger] self@.meets(
                                from as int,
                                dx,
                                dy,
                                min_range as int,
                                max_range as int,
                                j,
                            ),
                    None => forall|k: int| !#[trigger]
                        self@.meets(from as int, dx, dy, min_range as int, max_range as int, k),
                }
            }),
            found matches Some(c) ==> self@.has(c as int),
    {
        let ghost b = self@;
        proof {
            b.lemma_coords(from as int);
            b.lemma_coords(target as int);
            b.lemma_ray_step(
                from as int,
                b.heading(from as int, target as int).0,
                b.heading(from as int, target as int).1,
                0,
                from as int,
            );
        }
        let dx: i32 = sign32(self.cells[target].x - self.cells[from].x);
        let dy: i32 = sign32(self.cells[target].y - self.cells[from].y);
        let mut current: Option<usize> = self.get_next_cell(from, dx, dy);
        let mut range: i64 = 1;
        let ghost gdx = dx as int;
        let ghost gdy = dy as int;
        while current.is_some()
            invariant
                self.wf(),
                b == self@,
                b.has(from as int),
                -1 <= dx <= 1,
                -1 <= dy <= 1,
                gdx == dx,
                gdy == dy,
                (gdx, gdy) == b.heading(from as int, target as int),
                1 <= range <= max_range + 1 || range == 1,
                current == b.ray(from as int, gdx, gdy, range as int),
                current matches Some(c) ==> {
                    &&& b.has(c as int)
                    &&& b.x(c as int) == b.x(from as int) + range * dx
                    &&& b.y(c as int) == b.y(from as int) + range * dy
                },
                b.ray_walkable(from as int, gdx, gdy, range - 1),
                forall|j: int|
                    j < range ==> !#[trigger] b.meets(
                        from as int,
                        gdx,
                        gdy,
                        min_range as int,
                        max_range as int,
                        j,
                    ),
            decreases max_range + 2 - range,
        {
            let cell: usize = current.unwrap();
            proof {
                b.lemma_coords(cell as int);
                b.lemma_ray_step(from as int, gdx, gdy, range as int, cell as int);
            }
            if !self.cells[cell].walkable || range > max_range as i64 {
                proof {
                    assert forall|k: int| !#[trigger]
                        b.meets(from as int, gdx, gdy, min_range as int, max_range as int, k) by {
                        if k >= range && b.meets(
                            from as int,
                            gdx,
                            gdy,
                            min_range as int,
                            max_range as int,
                            k,
                        ) {
                            assert(b.ray(from as int, gdx, gdy, range as int) == Some(cell));
                            assert(b.walkable(cell as int));
                        }
                    }
                }
                return None;
            }
            if range >= min_range as i64 && crate::map::has_cell(&self.entity_cells, cell) {
                assert(b.meets(
                    from as int,
                    b.heading(from as int, target as int).0,
                    b.heading(from as int, target as int).1,
                    min_range as int,
                    max_range as int,
                    range as int,
                ));
                return Some(cell);
            }
            assert(!b.meets(
                from as int,
                gdx,
                gdy,
                min_range as int,
                max_range as int,
                range as int,
            ));
            current = self.get_next_cell(cell, dx, dy);
            range += 1;
        }
        proof {
            assert forall|k: int| !#[trigger]
                b.meets(from as int, gdx, gdy, min_range as int, max_range as int, k) by {
                if k >= range && b.meets(
                    from as int,
                    gdx,
                    gdy,
                    min_range as int,
                    max_range as int,
                    k,
                ) {
                    assert(b.ray(from as int, gdx, gdy, range as int) is Some);
                }
            }
        }
        None
    }

    /// The first occupied cell on a line over a map that keeps no entities:
    /// there is none.
    #[must_use]
    pub fn get_first_entity_cell(
        &self,
        _from: usize,
        _target: usize,
        _min_range: i32,
        _max_range: i32,
    ) -> (found: Option<usize>)
        ensures
            found is None,
    {
        None
    }
}

} // verus!
