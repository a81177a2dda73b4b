//! Lines of sight, and the cells that an attack can be cast from.

use crate::map::{abs32, has_cell, sign32, Board, GameMap, MAX_SIDE};
use crate::mask::{does_launch_admit, reach_of_launch};
use vstd::prelude::*;

verus! {

/// The first row that a line rising `rise` over `run` columns crosses in its
/// `i`-th column.
pub open spec fn line_low(rise: int, run: int, i: int) -> int {
    if i == 0 {
        0
    } else {
        (run + (2 * i - 1) * rise) / (2 * run)
    }
}

/// The row behind the last one that the line crosses in its `i`-th column.
pub open spec fn line_high(rise: int, run: int, i: int) -> int {
    if i == run {
        rise + 1
    } else {
        (run + (2 * i + 1) * rise + 2 * run - 1) / (2 * run)
    }
}

/// A scan for the free cells around an obstacle: what it found, the obstacle
/// cells it followed, and whether its ring added any.
pub struct Scan {
    pub found: Seq<usize>,
    pub close: Seq<usize>,
    pub grew: bool,
}

/// The `m`-th offset of the scan's ring of the given radius.
pub open spec fn scan_offset(radius: int, m: int) -> (int, int) {
    let j = m / 4;
    if m % 4 == 0 {
        (j, radius - j)
    } else if m % 4 == 1 {
        (-j, -(radius - j))
    } else if m % 4 == 2 {
        (radius - j, -j)
    } else {
        (-(radius - j), j)
    }
}

impl Board {
    /// The cell that a line of sight from `start` to `end` crosses in its
    /// `i`-th column and `r`-th row.
    pub open spec fn line_cell(self, start: int, end: int, i: int, r: int) -> Option<usize> {
        self.at(
            self.x(start) + (if self.x(start) > self.x(end) {
                -i
            } else {
                i
            }),
            self.y(start) + (if self.y(start) < self.y(end) {
                r
            } else {
                -r
            }),
        )
    }

    /// Whether a line of sight passes a cell: it exists, is no obstacle, and
    /// nobody stands there but at the two ends or where it is to be ignored.
    pub open spec fn sees_through(
        self,
        start: int,
        end: int,
        ignored: Seq<usize>,
        cell: Option<usize>,
    ) -> bool {
        match cell {
            Some(c) => self.walkable(c as int) && (self.is_occupied(c as int) ==> c == start || c
                == end || ignored.contains(c)),
            None => false,
        }
    }

    /// Whether a line of sight passes every cell that it crosses.
    pub open spec fn sees(self, start: int, end: int, ignored: Seq<usize>) -> bool {
        let rise = crate::map::abs(self.y(start) - self.y(end));
        let run = crate::map::abs(self.x(start) - self.x(end));
        forall|i: int, r: int|
            #![trigger self.line_cell(start, end, i, r)]
            0 <= i <= run && line_low(rise, run, i) <= r < line_high(rise, run, i)
                ==> self.sees_through(start, end, ignored, self.line_cell(start, end, i, r))
    }

    /// Whether a cell is free, or taken for free.
    pub open spec fn usable(self, c: int, ignored: Seq<usize>) -> bool {
        self.free(c) || ignored.contains(c as usize)
    }

    /// The cell `i` steps from `target` along one of the four axes.
    pub open spec fn axis_cell(self, target: int, dir: int, i: int) -> Option<usize> {
        if dir == 0 {
            self.at(self.x(target) + i, self.y(target))
        } else if dir == 1 {
            self.at(self.x(target) - i, self.y(target))
        } else if dir == 2 {
            self.at(self.x(target), self.y(target) + i)
        } else {
            self.at(self.x(target), self.y(target) - i)
        }
    }

    /// Whether the search along an axis ends at its `i`-th cell.
    pub open spec fn axis_blocked(
        self,
        target: int,
        needs_los: bool,
        ignored: Seq<usize>,
        dir: int,
        i: int,
    ) -> bool {
        match self.axis_cell(target, dir, i) {
            None => true,
            Some(c) => needs_los && ((i > 0 && !self.usable(c as int, ignored)) || !self.walkable(
                c as int,
            )),
        }
    }

    /// Whether the search along an axis gets past its first `i` cells.
    pub open spec fn axis_open(
        self,
        target: int,
        needs_los: bool,
        ignored: Seq<usize>,
        dir: int,
        i: int,
    ) -> bool {
        forall|j: int|
            #![trigger self.axis_blocked(target, needs_los, ignored, dir, j)]
            0 <= j < i ==> !self.axis_blocked(target, needs_los, ignored, dir, j)
    }

    /// The cells to cast from among the first `n` that the search along the
    /// four axes visits, one step in each direction at a time.
    pub open spec fn axis_casts(
        self,
        min_range: int,
        needs_los: bool,
        target: int,
        ignored: Seq<usize>,
        n: int,
    ) -> Seq<usize>
        decreases n,
    {
        if n <= 0 {
            Seq::empty()
        } else {
            let before = self.axis_casts(min_range, needs_los, target, ignored, n - 1);
            let i = (n - 1) / 4;
            let dir = (n - 1) % 4;
            if self.axis_open(target, needs_los, ignored, dir, i + 1) && min_range <= i
                && self.usable(self.axis_cell(target, dir, i).unwrap() as int, ignored) {
                before.push(self.axis_cell(target, dir, i).unwrap())
            } else {
                before
            }
        }
    }

    /// The cells to cast from among those that the offsets name.
    pub open spec fn mask_casts(
        self,
        offsets: Seq<(int, int)>,
        needs_los: bool,
        target: int,
        ignored: Seq<usize>,
    ) -> Seq<usize>
        decreases offsets.len(),
    {
        if offsets.len() == 0 {
            Seq::empty()
        } else {
            let before = self.mask_casts(offsets.drop_last(), needs_los, target, ignored);
            let cell = self.step(target, offsets.last().0, offsets.last().1);
            if cell is Some && self.usable(cell.unwrap() as int, ignored) && (!needs_los
                || self.sees(cell.unwrap() as int, target, ignored)) {
                before.push(cell.unwrap())
            } else {
                before
            }
        }
    }

    /// The cells from which an attack can be cast on `target`. A launch type
    /// of exactly 1 searches along the axes; any other one goes through its
    /// mask.
    pub open spec fn cast_cells(
        self,
        min_range: int,
        max_range: int,
        launch_type: i32,
        needs_los: bool,
        target: int,
        ignored: Seq<usize>,
    ) -> Seq<usize> {
        if !self.walkable(target) {
            Seq::empty()
        } else if launch_type == 1 {
            self.axis_casts(min_range, needs_los, target, ignored, 4 * (max_range + 1))
        } else {
            self.mask_casts(
                crate::mask::launch_mask(launch_type, min_range, max_range),
                needs_los,
                target,
                ignored,
            )
        }
    }

    /// Whether `c` touches, on the side of the centre, an obstacle cell that
    /// the scan has followed.
    pub open spec fn touches(self, close: Seq<usize>, center: int, c: int) -> bool {
        let h = self.step(c, crate::map::sign(self.x(center) - self.x(c)), 0);
        let v = self.step(c, 0, crate::map::sign(self.y(center) - self.y(c)));
        ||| h is Some && !self.walkable(h.unwrap() as int) && close.contains(h.unwrap())
        ||| v is Some && !self.walkable(v.unwrap() as int) && close.contains(v.unwrap())
    }

    /// The scan after one more cell.
    pub open spec fn scan_cell(self, scan: Scan, center: int, cell: Option<usize>) -> Scan {
        if cell is None || !self.touches(scan.close, center, cell.unwrap() as int) {
            scan
        } else if self.walkable(cell.unwrap() as int) {
            Scan { found: scan.found.push(cell.unwrap()), ..scan }
        } else {
            Scan { close: scan.close.push(cell.unwrap()), grew: true, ..scan }
        }
    }

    /// The scan after the first `n` cells of a ring.
    pub open spec fn scan_ring(self, scan: Scan, center: int, radius: int, n: int) -> Scan
        decreases n,
    {
        if n <= 0 {
            scan
        } else {
            let o = scan_offset(radius, n - 1);
            self.scan_cell(
                self.scan_ring(scan, center, radius, n - 1),
                center,
                self.step(center, o.0, o.1),
            )
        }
    }

    /// What the scan finds from a ring on. A ring that adds obstacle cells
    /// lets the scan go one ring further, up to five.
    pub open spec fn scan_from(self, scan: Scan, center: int, radius: int, last: int) -> Seq<usize>
        decreases 6 - radius,
    {
        if radius > last || radius > 5 {
            scan.found
        } else {
            let next = self.scan_ring(Scan { grew: false, ..scan }, center, radius, 4 * radius);
            self.scan_from(
                next,
                center,
                radius + 1,
                if next.grew && last < 5 {
                    last + 1
                } else {
                    last
                },
            )
        }
    }

    /// The free cells around the obstacle that `center` belongs to.
    pub open spec fn around_obstacle(self, center: int) -> Seq<usize> {
        self.scan_from(
            Scan { found: Seq::empty(), close: seq![center as usize], grew: false },
            center,
            1,
            1,
        )
    }

    /// A cell always sees its neighbours, and is seen by them, unless one of
    /// the two is an obstacle.
    pub proof fn lemma_neighbours_see(self, start: int, end: int, ignored: Seq<usize>)
        requires
            self.wf(),
            self.adjacent(start, end),
            self.walkable(start),
            self.walkable(end),
        ensures
            self.sees(start, end, ignored),
    {
        let rise = crate::map::abs(self.y(start) - self.y(end));
        let run = crate::map::abs(self.x(start) - self.x(end));
        self.lemma_coords(start);
        self.lemma_coords(end);
        assert forall|i: int, r: int|
            #![trigger self.line_cell(start, end, i, r)]
            0 <= i <= run && line_low(rise, run, i) <= r < line_high(rise, run, i) implies
            self.sees_through(start, end, ignored, self.line_cell(start, end, i, r)) by {
            if run == 0 {
                assert(i == 0);
                assert(r == 0 || r == 1);
            } else {
                assert(rise == 0 && run == 1);
                assert(r == 0);
            }
        }
    }
}

impl GameMap {
    /// Whether a line of sight from `start` to `end` passes a cell.
    fn sees_cell(&self, start: usize, end: usize, ignored: &[usize], cell: Option<usize>) -> (b:
        bool)
        requires
            self.wf(),
            cell matches Some(c) ==> self@.has(c as int),
        ensures
            b == self@.sees_through(start as int, end as int, ignored@, cell),
    {
        match cell {
            None => false,
            Some(c) => self.cells[c].walkable && (!has_cell(&self.entity_cells, c) || c == start
                || c == end || has_cell(ignored, c)),
        }
    }

    /// Whether `end` can be seen from `start`: no obstacle and nobody on the
    /// line but at its ends and on the ignored cells. An attack that needs no
    /// sight always can.
    #[must_use]
    pub fn verify_los(&self, start: usize, end: usize, attack_needs_los: bool, ignored: &[usize])
        -> (clear: bool)
        requires
            self.wf(),
            self@.has(start as int),
            self@.has(end as int),
        ensures
            clear == (!attack_needs_los || self@.sees(start as int, end as int, ignored@)),
    {
        if !attack_needs_los {
            return true;
        }
        let ghost b = self@;
        proof {
            b.lemma_coords(start as int);
            b.lemma_coords(end as int);
        }
        let cs = self.cells[start];
        let ce = self.cells[end];
        let rise: i64 = abs32(cs.y - ce.y) as i64;
        let run: i64 = abs32(cs.x - ce.x) as i64;
        let mut i: i64 = 0;
        while i <= run
            invariant
                self.wf(),
                b == self@,
                attack_needs_los,
                b.has(start as int),
                b.has(end as int),
                cs == b.cells[start as int],
                ce == b.cells[end as int],
                rise == crate::map::abs(b.y(start as int) - b.y(end as int)),
                run == crate::map::abs(b.x(start as int) - b.x(end as int)),
                0 <= rise <= 2 * MAX_SIDE,
                0 <= run <= 2 * MAX_SIDE,
                0 <= cs.x <= 2 * MAX_SIDE,
                -MAX_SIDE <= cs.y <= MAX_SIDE,
                0 <= i <= run + 1,
                forall|c: int, r: int|
                    #![trigger b.line_cell(start as int, end as int, c, r)]
                    0 <= c < i && line_low(rise as int, run as int, c) <= r < line_high(
                        rise as int,
                        run as int,
                        c,
                    ) ==> b.sees_through(
                        start as int,
                        end as int,
                        ignored@,
                        b.line_cell(start as int, end as int, c, r),
                    ),
            decreases run + 1 - i,
        {
            proof {
                lemma_line_rows(rise as int, run as int, i as int);
            }
            let low: i64 = if i == 0 {
                0
            } else {
                (run + (2 * i - 1) * rise) / (2 * run)
            };
            let high: i64 = if i == run {
                rise + 1
            } else {
                (run + (2 * i + 1) * rise + 2 * run - 1) / (2 * run)
            };
            let mut r: i64 = low;
            while r < high
                invariant
                    self.wf(),
                    b == self@,
                    attack_needs_los,
                    b.has(start as int),
                    b.has(end as int),
                    cs == b.cells[start as int],
                    ce == b.cells[end as int],
                    rise == crate::map::abs(b.y(start as int) - b.y(end as int)),
                    run == crate::map::abs(b.x(start as int) - b.x(end as int)),
                    0 <= rise <= 2 * MAX_SIDE,
                    0 <= run <= 2 * MAX_SIDE,
                    0 <= cs.x <= 2 * MAX_SIDE,
                    -MAX_SIDE <= cs.y <= MAX_SIDE,
                    0 <= i <= run,
                    low == line_low(rise as int, run as int, i as int),
                    high == line_high(rise as int, run as int, i as int),
                    0 <= low <= r,
                    high <= rise + 1,
                    forall|k: int|
                        #![trigger b.line_cell(start as int, end as int, i as int, k)]
                        low <= k < r ==> b.sees_through(
                            start as int,
                            end as int,
                            ignored@,
                            b.line_cell(start as int, end as int, i as int, k),
                        ),
                decreases high - r,
            {
                let x: i32 = if cs.x > ce.x {
                    cs.x - i as i32
                } else {
                    cs.x + i as i32
                };
                let y: i32 = if cs.y < ce.y {
                    cs.y + r as i32
                } else {
                    cs.y - r as i32
                };
                let cell: Option<usize> = self.get_cell_xy(x, y);
                assert(cell == b.line_cell(start as int, end as int, i as int, r as int));
                if !self.sees_cell(start, end, ignored, cell) {
                    return false;
                }
                r += 1;
            }
            i += 1;
        }
        true
    }

    /// The cells from which an attack can be cast on `target`.
    #[must_use]
    pub fn get_possible_cast_cells_for_target(
        &self,
        min_range: i32,
        max_range: i32,
        launch_type: i32,
        needs_los: bool,
        target: usize,
        cells_to_ignore: &[usize],
    ) -> (possible: Vec<usize>)
        requires
            self.wf(),
            self@.has(target as int),
        ensures
            possible@ == self@.cast_cells(
                min_range as int,
                max_range as int,
                launch_type,
                needs_los,
                target as int,
                cells_to_ignore@,
            ),
            forall|i: int| 0 <= i < possible@.len() ==> self@.has(#[trigger] possible@[i] as int),
    {
        if !self.cells[target].walkable {
            return Vec::new();
        }
        if launch_type == 1 {
            self.axis_cast_cells(min_range, max_range, needs_los, target, cells_to_ignore)
        } else {
            self.mask_cast_cells(
                min_range,
                max_range,
                launch_type,
                needs_los,
                target,
                cells_to_ignore,
            )
        }
    }

    fn axis_cast_cells(
        &self,
        min_range: i32,
        max_range: i32,
        needs_los: bool,
        target: usize,
        cells_to_ignore: &[usize],
    ) -> (possible: Vec<usize>)
        requires
            self.wf(),
            self@.has(target as int),
        ensures
            possible@ == self@.axis_casts(
                min_range as int,
                needs_los,
                target as int,
                cells_to_ignore@,
                4 * (max_range + 1),
            ),
            forall|i: int| 0 <= i < possible@.len() ==> self@.has(#[trigger] possible@[i] as int),
    {
        let ghost b = self@;
        let ghost ign = cells_to_ignore@;
        let mut possible: Vec<usize> = Vec::new();
        let mut line: Vec<bool> = Vec::new();
        line.push(true);
        line.push(true);
        line.push(true);
        line.push(true);
        let mut n: i64 = 0;
        let x: i32 = self.cells[target].x;
        let y: i32 = self.cells[target].y;
        proof {
            b.lemma_coords(target as int);
            assert(possible@ =~= Seq::<usize>::empty());
        }
        while n < 4 * (max_range as i64 + 1)
            invariant
                self.wf(),
                b == self@,
                ign == cells_to_ignore@,
                b.has(target as int),
                x == b.x(target as int),
                y == b.y(target as int),
                0 <= x <= 2 * MAX_SIDE,
                -MAX_SIDE <= y <= MAX_SIDE,
                0 <= n,
                n <= 4 * (max_range + 1) || n == 0,
                line@.len() == 4,
                forall|d: int|
                    0 <= d < 4 ==> #[trigger] line@[d] == b.axis_open(
                        target as int,
                        needs_los,
                        ign,
                        d,
                        if d < n % 4 {
                            n / 4 + 1
                        } else {
                            n / 4
                        } as int,
                    ),
                possible@ == b.axis_casts(
                    min_range as int,
                    needs_los,
                    target as int,
                    ign,
                    n as int,
                ),
                forall|i: int| 0 <= i < possible@.len() ==> b.has(#[trigger] possible@[i] as int),
            decreases 4 * (max_range + 1) - n,
        {
            let i: i32 = (n / 4) as i32;
            let dir: usize = (n % 4) as usize;
            let ghost open = b.axis_open(target as int, needs_los, ign, dir as int, i as int);
            assert(line@[dir as int] == open);
            if line[dir] {
                proof {
                    b.lemma_axis_short(target as int, needs_los, ign, dir as int, i as int);
                }
                let cell: Option<usize> = if dir == 0 {
                    self.get_cell_xy(x + i, y)
                } else if dir == 1 {
                    self.get_cell_xy(x - i, y)
                } else if dir == 2 {
                    self.get_cell_xy(x, y + i)
                } else {
                    self.get_cell_xy(x, y - i)
                };
                assert(cell == b.axis_cell(target as int, dir as int, i as int));
                let ghost blocked = b.axis_blocked(
                    target as int,
                    needs_los,
                    ign,
                    dir as int,
                    i as int,
                );
                match cell {
                    None => {
                        line.set(dir, false);
                    },
                    Some(c) => {
                        let usable: bool = self.available_with_ignore(c, cells_to_ignore);
                        if needs_los && ((i > 0 && !usable) || !self.cells[c].walkable) {
                            line.set(dir, false);
                        } else if min_range <= i && usable {
                            possible.push(c);
                        }
                    },
                }
                assert(line@[dir as int] == !blocked);
            }
            proof {
                b.lemma_axis_extend(target as int, needs_los, ign, dir as int, i as int);
                assert forall|d: int| 0 <= d < 4 implies #[trigger] line@[d] == b.axis_open(
                    target as int,
                    needs_los,
                    ign,
                    d,
                    if d < (n + 1) % 4 {
                        (n + 1) / 4 + 1
                    } else {
                        (n + 1) / 4
                    } as int,
                ) by {
                    if d == dir {
                        assert((n + 1) % 4 == 0 && (n + 1) / 4 == i + 1 || (n + 1) % 4 == dir + 1);
                    }
                }
            }
            n += 1;
        }
        possible
    }

    /// The cells to cast from among those that the mask of a launch type
    /// names. Of the square that the mask fills, only the part that the board
    /// can reach is searched.
    fn mask_cast_cells(
        &self,
        min_range: i32,
        max_range: i32,
        launch_type: i32,
        needs_los: bool,
        target: usize,
        cells_to_ignore: &[usize],
    ) -> (possible: Vec<usize>)
        requires
            self.wf(),
            self@.has(target as int),
        ensures
            possible@ == self@.mask_casts(
                crate::mask::launch_mask(launch_type, min_range as int, max_range as int),
                needs_los,
                target as int,
                cells_to_ignore@,
            ),
            forall|i: int| 0 <= i < possible@.len() ==> self@.has(#[trigger] possible@[i] as int),
    {
        let ghost b = self@;
        let ghost ign = cells_to_ignore@;
        let mut possible: Vec<usize> = Vec::new();
        assert(possible@ =~= Seq::<usize>::empty());
        let len: i64 = reach_of_launch(launch_type, max_range);
        if min_range > max_range || len < 0 {
            return possible;
        }
        let side: i32 = if self.width > self.height {
            self.width
        } else {
            self.height
        };
        let span: i32 = 2 * side - 2;
        let reach: i32 = if len < span as i64 {
            len as i32
        } else {
            span
        };
        let ghost q = CastSearch {
            min: min_range as int,
            max: max_range as int,
            launch_type,
            needs_los,
            target: target as int,
            ignored: ign,
            len: len as int,
        };
        let x: i32 = self.cells[target].x;
        let y: i32 = self.cells[target].y;
        let mut dx: i32 = -reach;
        proof {
            b.lemma_coords(target as int);
            b.lemma_skip_head(q, reach as int);
        }
        while dx <= reach
            invariant
                self.wf(),
                b == self@,
                ign == cells_to_ignore@,
                b.has(target as int),
                x == b.x(target as int),
                y == b.y(target as int),
                0 <= x <= 2 * MAX_SIDE,
                -MAX_SIDE <= y <= MAX_SIDE,
                0 <= reach <= 2 * MAX_SIDE,
                -reach <= dx <= reach + 1,
                q == (CastSearch {
                    min: min_range as int,
                    max: max_range as int,
                    launch_type,
                    needs_los,
                    target: target as int,
                    ignored: ign,
                    len: len as int,
                }),
                b.covers(q, reach as int),
                possible@ == b.quested(q, q.index(dx as int, -reach as int)),
                forall|i: int| 0 <= i < possible@.len() ==> b.has(#[trigger] possible@[i] as int),
            decreases reach + 1 - dx,
        {
            let mut dy: i32 = -reach;
            while dy <= reach
                invariant
                    self.wf(),
                    b == self@,
                    ign == cells_to_ignore@,
                    b.has(target as int),
                    x == b.x(target as int),
                    y == b.y(target as int),
                    0 <= x <= 2 * MAX_SIDE,
                    -MAX_SIDE <= y <= MAX_SIDE,
                    0 <= reach <= 2 * MAX_SIDE,
                    -reach <= dx <= reach,
                    -reach <= dy <= reach + 1,
                    q == (CastSearch {
                        min: min_range as int,
                        max: max_range as int,
                        launch_type,
                        needs_los,
                        target: target as int,
                        ignored: ign,
                        len: len as int,
                    }),
                    b.covers(q, reach as int),
                    possible@ == b.quested(q, q.index(dx as int, dy as int)),
                    forall|i: int|
                        0 <= i < possible@.len() ==> b.has(#[trigger] possible@[i] as int),
                decreases reach + 1 - dy,
            {
                proof {
                    b.lemma_quest_step(q, dx as int, dy as int);
                }
                if does_launch_admit(launch_type, min_range, max_range, dx, dy) {
                    match self.get_cell_xy(x + dx, y + dy) {
                        None => {},
                        Some(cell) => {
                            if self.available_with_ignore(cell, cells_to_ignore) && self.verify_los(
                                cell,
                                target,
                                needs_los,
                                cells_to_ignore,
                            ) {
                                possible.push(cell);
                            }
                        },
                    }
                }
                dy += 1;
            }
            proof {
                b.lemma_skip_rows(q, reach as int, dx as int);
            }
            dx += 1;
        }
        proof {
            b.lemma_skip_tail(q, reach as int);
        }
        possible
    }

    /// The free cells around the obstacle that a cell belongs to, in growing
    /// rings.
    #[must_use]
    pub fn get_valid_cells_around_obstacle(&self, cell: usize) -> (cells: Vec<usize>)
        requires
            self.wf(),
            self@.has(cell as int),
        ensures
            cells@ == self@.around_obstacle(cell as int),
            forall|i: int| 0 <= i < cells@.len() ==> self@.has(#[trigger] cells@[i] as int),
    {
        let ghost b = self@;
        let mut found: Vec<usize> = Vec::new();
        let mut close: Vec<usize> = Vec::new();
        close.push(cell);
        let ghost mut scan = Scan { found: found@, close: close@, grew: false };
        proof {
            assert(found@ =~= Seq::<usize>::empty());
            assert(close@ =~= seq![cell]);
            b.lemma_coords(cell as int);
        }
        let cx: i32 = self.cells[cell].x;
        let cy: i32 = self.cells[cell].y;
        let mut last: i32 = 1;
        let mut radius: i32 = 1;
        while radius <= last
            invariant
                self.wf(),
                b == self@,
                b.has(cell as int),
                cx == b.x(cell as int),
                cy == b.y(cell as int),
                0 <= cx <= 2 * MAX_SIDE,
                -MAX_SIDE <= cy <= MAX_SIDE,
                1 <= last <= 5,
                1 <= radius <= last + 1,
                scan.found == found@,
                scan.close == close@,
                b.scan_from(scan, cell as int, radius as int, last as int) == b.around_obstacle(
                    cell as int,
                ),
                forall|i: int| 0 <= i < found@.len() ==> b.has(#[trigger] found@[i] as int),
            decreases 6 - radius,
        {
            let mut grew: bool = false;
            let ghost first = Scan { found: found@, close: close@, grew: false };
            let mut m: i32 = 0;
            while m < 4 * radius
                invariant
                    self.wf(),
                    b == self@,
                    b.has(cell as int),
                    cx == b.x(cell as int),
                    cy == b.y(cell as int),
                    0 <= cx <= 2 * MAX_SIDE,
                    -MAX_SIDE <= cy <= MAX_SIDE,
                    1 <= radius <= 5,
                    0 <= m <= 4 * radius,
                    b.scan_ring(first, cell as int, radius as int, m as int) == (Scan {
                        found: found@,
                        close: close@,
                        grew,
                    }),
                    forall|i: int| 0 <= i < found@.len() ==> b.has(#[trigger] found@[i] as int),
                decreases 4 * radius - m,
            {
                let j: i32 = m / 4;
                let next: Option<usize> = if m % 4 == 0 {
                    self.get_cell_xy(cx + j, cy + (radius - j))
                } else if m % 4 == 1 {
                    self.get_cell_xy(cx - j, cy - (radius - j))
                } else if m % 4 == 2 {
                    self.get_cell_xy(cx + (radius - j), cy - j)
                } else {
                    self.get_cell_xy(cx - (radius - j), cy + j)
                };
                assert(next == b.step(
                    cell as int,
                    scan_offset(radius as int, m as int).0,
                    scan_offset(radius as int, m as int).1,
                ));
                if self.add_valid_cell(&mut found, &mut close, next, cell) {
                    grew = true;
                }
                m += 1;
            }
            proof {
                scan = Scan { found: found@, close: close@, grew };
            }
            if grew && last < 5 {
                last += 1;
            }
            radius += 1;
        }
        found
    }

    /// Adds one cell of a ring to the scan around an obstacle, and returns
    /// whether it was a further obstacle cell.
    fn add_valid_cell(
        &self,
        found: &mut Vec<usize>,
        close: &mut Vec<usize>,
        cell: Option<usize>,
        center: usize,
    ) -> (grew: bool)
        requires
            self.wf(),
            self@.has(center as int),
            cell matches Some(c) ==> self@.has(c as int),
        ensures
            forall|g: bool|
                #![trigger self@.scan_cell(
                    (Scan { found: old(found)@, close: old(close)@, grew: g }),
                    center as int,
                    cell,
                )]
                self@.scan_cell(
                    (Scan { found: old(found)@, close: old(close)@, grew: g }),
                    center as int,
                    cell,
                ) == (Scan { found: final(found)@, close: final(close)@, grew: g || grew }),
            forall|i: int|
                0 <= i < final(found)@.len() ==> i < old(found)@.len() && #[trigger] final(found)@[i]
                    == old(found)@[i] || self@.has(final(found)@[i] as int),
    {
        match cell {
            None => false,
            Some(c) => {
                proof {
                    self@.lemma_coords(c as int);
                    self@.lemma_coords(center as int);
                }
                let dx: i32 = sign32(self.cells[center].x - self.cells[c].x);
                let dy: i32 = sign32(self.cells[center].y - self.cells[c].y);
                let h: Option<usize> = self.get_next_cell(c, dx, 0);
                let v: Option<usize> = self.get_next_cell(c, 0, dy);
                let touches: bool = self.is_close(close, h) || self.is_close(close, v);
                assert(touches == self@.touches(close@, center as int, c as int));
                if !touches {
                    false
                } else if self.cells[c].walkable {
                    found.push(c);
                    false
                } else {
                    close.push(c);
                    true
                }
            },
        }
    }

    /// Whether a cell is an obstacle cell that the scan has followed.
    fn is_close(&self, close: &[usize], cell: Option<usize>) -> (b: bool)
        requires
            self.wf(),
            cell matches Some(c) ==> self@.has(c as int),
        ensures
            b == (cell is Some && !self@.walkable(cell.unwrap() as int) && close@.contains(
                cell.unwrap(),
            )),
    {
        match cell {
            None => false,
            Some(c) => !self.cells[c].walkable && has_cell(close, c),
        }
    }
}

impl Board {
    /// A search that is still open has stayed on the board.
    proof fn lemma_axis_short(
        self,
        target: int,
        needs_los: bool,
        ignored: Seq<usize>,
        dir: int,
        i: int,
    )
        requires
            self.wf(),
            self.has(target),
            0 <= dir < 4,
            0 <= i,
            self.axis_open(target, needs_los, ignored, dir, i),
        ensures
            i <= 4 * MAX_SIDE,
    {
        self.lemma_coords(target);
        if i > 4 * MAX_SIDE {
            assert(!self.axis_blocked(target, needs_los, ignored, dir, i - 1));
        }
    }

    proof fn lemma_axis_extend(
        self,
        target: int,
        needs_los: bool,
        ignored: Seq<usize>,
        dir: int,
        i: int,
    )
        requires
            0 <= i,
        ensures
            self.axis_open(target, needs_los, ignored, dir, i + 1) == (self.axis_open(
                target,
                needs_los,
                ignored,
                dir,
                i,
            ) && !self.axis_blocked(target, needs_los, ignored, dir, i)),
    {
        if self.axis_open(target, needs_los, ignored, dir, i + 1) {
            assert(!self.axis_blocked(target, needs_los, ignored, dir, i));
        }
    }
}

impl Board {
    /// Whether an attack of the given range and launch type can be cast on
    /// `target` from a cell: the cell is in range and free or taken for free,
    /// and sees the target where that is needed.
    pub open spec fn casts(
        self,
        c: int,
        min_range: int,
        max_range: int,
        launch_type: i32,
        needs_los: bool,
        target: int,
        ignored: Seq<usize>,
    ) -> bool {
        &&& self.has(c)
        &&& self.in_range(c, target, min_range, max_range, launch_type)
        &&& self.usable(c, ignored)
        &&& needs_los ==> self.sees(c, target, ignored)
    }

    /// A cell that the search along an axis passes sees the target.
    proof fn lemma_axis_sees(self, target: int, ignored: Seq<usize>, dir: int, i: int)
        requires
            self.wf(),
            self.has(target),
            0 <= dir < 4,
            0 <= i,
            self.axis_open(target, true, ignored, dir, i + 1),
        ensures
            self.axis_cell(target, dir, i) is Some,
            self.sees(self.axis_cell(target, dir, i).unwrap() as int, target, ignored),
    {
        assert(!self.axis_blocked(target, true, ignored, dir, i));
        let c = self.axis_cell(target, dir, i).unwrap() as int;
        self.lemma_coords(target);
        self.lemma_axis_at(target, dir, i);
        let rise = crate::map::abs(self.y(c) - self.y(target));
        let run = crate::map::abs(self.x(c) - self.x(target));
        assert forall|j: int, r: int|
            #![trigger self.line_cell(c, target, j, r)]
            0 <= j <= run && line_low(rise, run, j) <= r < line_high(rise, run, j) implies
            self.sees_through(c, target, ignored, self.line_cell(c, target, j, r)) by {
            let k = if dir < 2 {
                i - j
            } else {
                i - r
            };
            if dir < 2 {
                assert(rise == 0 && run == i);
                if run > 0 {
                    assert((2 * j - 1) * rise == 0 && (2 * j + 1) * rise == 0) by (nonlinear_arith)
                        requires
                            rise == 0,
                    ;
                    assert(run / (2 * run) == 0 && (3 * run - 1) / (2 * run) == 1)
                        by (nonlinear_arith)
                        requires
                            run > 0,
                    ;
                }
                assert(r == 0);
            } else {
                assert(run == 0 && rise == i);
                assert(j == 0);
            }
            assert(0 <= k <= i);
            assert(self.line_cell(c, target, j, r) == self.axis_cell(target, dir, k));
            assert(!self.axis_blocked(target, true, ignored, dir, k));
            if k == 0 {
                assert(self.axis_cell(target, dir, 0) == Some(target as usize));
            }
        }
    }

    /// The coordinates of a cell on an axis.
    proof fn lemma_axis_at(self, target: int, dir: int, i: int)
        requires
            self.wf(),
            self.has(target),
            0 <= dir < 4,
            0 <= i,
            self.axis_cell(target, dir, i) is Some,
        ensures
            ({
                let c = self.axis_cell(target, dir, i).unwrap() as int;
                &&& self.has(c)
                &&& self.x(c) == self.x(target) + (if dir == 0 {
                    i
                } else if dir == 1 {
                    -i
                } else {
                    0
                })
                &&& self.y(c) == self.y(target) + (if dir == 2 {
                    i
                } else if dir == 3 {
                    -i
                } else {
                    0
                })
                &&& self.distance(c, target) == i
            }),
    {
        let x = self.x(target) + (if dir == 0 {
            i
        } else if dir == 1 {
            -i
        } else {
            0
        });
        let y = self.y(target) + (if dir == 2 {
            i
        } else if dir == 3 {
            -i
        } else {
            0
        });
        self.lemma_at(x, y);
    }

    /// What the search along the axes finds can cast.
    proof fn lemma_axis_casts(
        self,
        min_range: int,
        max_range: int,
        needs_los: bool,
        target: int,
        ignored: Seq<usize>,
        n: int,
    )
        requires
            self.wf(),
            self.has(target),
            n <= 4 * (max_range + 1),
        ensures
            forall|k: int|
                0 <= k < self.axis_casts(min_range, needs_los, target, ignored, n).len()
                    ==> self.casts(
                    #[trigger] self.axis_casts(min_range, needs_los, target, ignored, n)[k] as int,
                    min_range,
                    max_range,
                    1,
                    needs_los,
                    target,
                    ignored,
                ),
        decreases n,
    {
        if n > 0 {
            self.lemma_axis_casts(min_range, max_range, needs_los, target, ignored, n - 1);
            let i = (n - 1) / 4;
            let dir = (n - 1) % 4;
            if self.axis_open(target, needs_los, ignored, dir, i + 1) {
                assert(!self.axis_blocked(target, needs_los, ignored, dir, i));
                let c = self.axis_cell(target, dir, i).unwrap() as int;
                self.lemma_axis_at(target, dir, i);
                if needs_los {
                    self.lemma_axis_sees(target, ignored, dir, i);
                }
                assert(1i32 & 1 != 0) by (bit_vector);
                if i == 0 {
                    self.lemma_coords_unique(c, target);
                }
                if min_range <= i && self.usable(c, ignored) {
                    assert(self.casts(c, min_range, max_range, 1, needs_los, target, ignored));
                }
            }
            let before = self.axis_casts(min_range, needs_los, target, ignored, n - 1);
            let after = self.axis_casts(min_range, needs_los, target, ignored, n);
            assert forall|k: int| 0 <= k < after.len() implies self.casts(
                #[trigger] after[k] as int,
                min_range,
                max_range,
                1,
                needs_los,
                target,
                ignored,
            ) by {
                if k < before.len() {
                    assert(after[k] == before[k]);
                }
            }
        }
    }

    /// What the search through a mask finds can cast.
    proof fn lemma_mask_casts(
        self,
        offsets: Seq<(int, int)>,
        min_range: int,
        max_range: int,
        launch_type: i32,
        needs_los: bool,
        target: int,
        ignored: Seq<usize>,
    )
        requires
            self.wf(),
            self.has(target),
            forall|k: int|
                0 <= k < offsets.len() ==> crate::mask::launch_admits(
                    launch_type,
                    min_range,
                    max_range,
                    #[trigger] offsets[k],
                ),
        ensures
            forall|k: int|
                0 <= k < self.mask_casts(offsets, needs_los, target, ignored).len() ==> self.casts(
                    #[trigger] self.mask_casts(offsets, needs_los, target, ignored)[k] as int,
                    min_range,
                    max_range,
                    launch_type,
                    needs_los,
                    target,
                    ignored,
                ),
        decreases offsets.len(),
    {
        if offsets.len() > 0 {
            let rest = offsets.drop_last();
            assert forall|k: int| 0 <= k < rest.len() implies crate::mask::launch_admits(
                launch_type,
                min_range,
                max_range,
                #[trigger] rest[k],
            ) by {
                assert(rest[k] == offsets[k]);
            }
            self.lemma_mask_casts(
                rest,
                min_range,
                max_range,
                launch_type,
                needs_los,
                target,
                ignored,
            );
            let o = offsets.last();
            assert(o == offsets[offsets.len() - 1]);
            if self.step(target, o.0, o.1) is Some {
                let c = self.step(target, o.0, o.1).unwrap() as int;
                self.lemma_at(self.x(target) + o.0, self.y(target) + o.1);
                if o.0 == 0 && o.1 == 0 {
                    self.lemma_coords_unique(c, target);
                }
                assert(self.distance(c, target) == crate::mask::norm(o));
                assert(self.in_range(c, target, min_range, max_range, launch_type));
            }
            let before = self.mask_casts(rest, needs_los, target, ignored);
            let after = self.mask_casts(offsets, needs_los, target, ignored);
            assert forall|k: int| 0 <= k < after.len() implies self.casts(
                #[trigger] after[k] as int,
                min_range,
                max_range,
                launch_type,
                needs_los,
                target,
                ignored,
            ) by {
                if k < before.len() {
                    assert(after[k] == before[k]);
                }
            }
        }
    }
}

/// Every offset of a scan is one that the launch type admits.
proof fn lemma_scan_admitted(launch_type: i32, min: int, max: int, len: int, n: int)
    ensures
        forall|k: int|
            0 <= k < crate::mask::launch_scan(launch_type, min, max, len, n).len()
                ==> crate::mask::launch_admits(
                launch_type,
                min,
                max,
                #[trigger] crate::mask::launch_scan(launch_type, min, max, len, n)[k],
            ),
    decreases n,
{
    if n > 0 {
        lemma_scan_admitted(launch_type, min, max, len, n - 1);
        let before = crate::mask::launch_scan(launch_type, min, max, len, n - 1);
        let after = crate::mask::launch_scan(launch_type, min, max, len, n);
        assert forall|k: int| 0 <= k < after.len() implies crate::mask::launch_admits(
            launch_type,
            min,
            max,
            #[trigger] after[k],
        ) by {
            if k < before.len() {
                assert(after[k] == before[k]);
            }
        }
    }
}

/// An attack can be cast on a target from every cell that the search for such
/// cells finds, and on an obstacle from none.
pub proof fn lemma_cast_cells_can_cast(
    b: Board,
    min_range: int,
    max_range: int,
    launch_type: i32,
    needs_los: bool,
    target: int,
    ignored: Seq<usize>,
)
    requires
        b.wf(),
        b.has(target),
    ensures
        !b.walkable(target) ==> b.cast_cells(
            min_range,
            max_range,
            launch_type,
            needs_los,
            target,
            ignored,
        ).len() == 0,
        forall|k: int|
            0 <= k < b.cast_cells(
                min_range,
                max_range,
                launch_type,
                needs_los,
                target,
                ignored,
            ).len() ==> b.casts(
                #[trigger] b.cast_cells(
                    min_range,
                    max_range,
                    launch_type,
                    needs_los,
                    target,
                    ignored,
                )[k] as int,
                min_range,
                max_range,
                launch_type,
                needs_los,
                target,
                ignored,
            ),
{
    if b.walkable(target) {
        if launch_type == 1 {
            b.lemma_axis_casts(
                min_range,
                max_range,
                needs_los,
                target,
                ignored,
                4 * (max_range + 1),
            );
        } else {
            let len = crate::mask::launch_reach(launch_type, max_range);
            lemma_scan_admitted(
                launch_type,
                min_range,
                max_range,
                len,
                (2 * len + 1) * (2 * len + 1),
            );
            b.lemma_mask_casts(
                crate::mask::launch_mask(launch_type, min_range, max_range),
                min_range,
                max_range,
                launch_type,
                needs_los,
                target,
                ignored,
            );
        }
    }
}

/// The place of an offset in a square.
proof fn lemma_grid_offset(len: int, dx: int, dy: int)
    requires
        len >= 0,
        -len <= dy <= len,
    ensures
        crate::mask::grid_offset(len, (2 * len + 1) * (dx + len) + (dy + len)) == (dx, dy),
        -len <= dx <= len ==> 0 <= (2 * len + 1) * (dx + len) + (dy + len) < (2 * len + 1) * (2
            * len + 1),
{
    let side = 2 * len + 1;
    let k = side * (dx + len) + (dy + len);
    vstd::arithmetic::div_mod::lemma_fundamental_div_mod_converse(k, side, dx + len, dy + len);
    if -len <= dx <= len {
        assert(0 <= k < side * side) by (nonlinear_arith)
            requires
                k == side * (dx + len) + (dy + len),
                0 <= dx + len <= side - 1,
                0 <= dy + len <= side - 1,
        ;
    }
}

/// A scan lists every admitted offset that it passes.
proof fn lemma_scan_lists(launch_type: i32, min: int, max: int, len: int, n: int, k: int)
    requires
        0 <= k < n,
        crate::mask::launch_admits(launch_type, min, max, crate::mask::grid_offset(len, k)),
    ensures
        crate::mask::launch_scan(launch_type, min, max, len, n).contains(
            crate::mask::grid_offset(len, k),
        ),
    decreases n,
{
    let o = crate::mask::grid_offset(len, k);
    let before = crate::mask::launch_scan(launch_type, min, max, len, n - 1);
    let after = crate::mask::launch_scan(launch_type, min, max, len, n);
    if k == n - 1 {
        assert(after[after.len() - 1] == o);
    } else {
        lemma_scan_lists(launch_type, min, max, len, n - 1, k);
        let i = choose|i: int| 0 <= i < before.len() && before[i] == o;
        assert(after[i] == o);
    }
}

impl Board {
    /// The search through a mask finds every cell to cast from that an offset
    /// of it names.
    proof fn lemma_mask_finds(
        self,
        offsets: Seq<(int, int)>,
        needs_los: bool,
        target: int,
        ignored: Seq<usize>,
        i: int,
        c: usize,
    )
        requires
            0 <= i < offsets.len(),
            self.step(target, offsets[i].0, offsets[i].1) == Some(c),
            self.usable(c as int, ignored),
            needs_los ==> self.sees(c as int, target, ignored),
        ensures
            self.mask_casts(offsets, needs_los, target, ignored).contains(c),
        decreases offsets.len(),
    {
        let rest = offsets.drop_last();
        let before = self.mask_casts(rest, needs_los, target, ignored);
        let after = self.mask_casts(offsets, needs_los, target, ignored);
        if i == offsets.len() - 1 {
            assert(after[after.len() - 1] == c);
        } else {
            assert(rest[i] == offsets[i]);
            self.lemma_mask_finds(rest, needs_los, target, ignored, i, c);
            let j = choose|j: int| 0 <= j < before.len() && before[j] == c;
            assert(after[j] == c);
        }
    }

    /// The search along the axes finds every cell to cast from that it
    /// passes.
    proof fn lemma_axis_finds(
        self,
        min_range: int,
        needs_los: bool,
        target: int,
        ignored: Seq<usize>,
        n: int,
        dir: int,
        i: int,
    )
        requires
            0 <= dir < 4,
            0 <= i,
            4 * i + dir < n,
            self.axis_open(target, needs_los, ignored, dir, i + 1),
            min_range <= i,
            self.usable(self.axis_cell(target, dir, i).unwrap() as int, ignored),
        ensures
            self.axis_casts(min_range, needs_los, target, ignored, n).contains(
                self.axis_cell(target, dir, i).unwrap(),
            ),
        decreases n,
    {
        let c = self.axis_cell(target, dir, i).unwrap();
        let before = self.axis_casts(min_range, needs_los, target, ignored, n - 1);
        let after = self.axis_casts(min_range, needs_los, target, ignored, n);
        if 4 * i + dir == n - 1 {
            assert((n - 1) / 4 == i && (n - 1) % 4 == dir);
            assert(after[after.len() - 1] == c);
        } else {
            self.lemma_axis_finds(min_range, needs_los, target, ignored, n - 1, dir, i);
            let j = choose|j: int| 0 <= j < before.len() && before[j] == c;
            assert(after[j] == c);
        }
    }

    /// The search along an axis gets to every cell on it that sees the target.
    proof fn lemma_axis_reaches(
        self,
        needs_los: bool,
        target: int,
        ignored: Seq<usize>,
        dir: int,
        i: int,
        c: int,
    )
        requires
            self.wf(),
            self.has(target),
            self.walkable(target),
            self.has(c),
            0 <= dir < 4,
            0 <= i,
            self.axis_cell(target, dir, i) == Some(c as usize),
            self.usable(c, ignored),
            needs_los ==> self.sees(c, target, ignored),
        ensures
            self.axis_open(target, needs_los, ignored, dir, i + 1),
    {
        self.lemma_coords(target);
        self.lemma_coords(c);
        self.lemma_axis_at(target, dir, i);
        let rise = crate::map::abs(self.y(c) - self.y(target));
        let run = crate::map::abs(self.x(c) - self.x(target));
        assert forall|k: int|
            #![trigger self.axis_blocked(target, needs_los, ignored, dir, k)]
            0 <= k < i + 1 implies !self.axis_blocked(target, needs_los, ignored, dir, k) by {
            let dx = if dir == 0 {
                k
            } else if dir == 1 {
                -k
            } else {
                0
            };
            let dy = if dir == 2 {
                k
            } else if dir == 3 {
                -k
            } else {
                0
            };
            self.lemma_at(self.x(target) + dx, self.y(target) + dy);
            self.lemma_axis_at(target, dir, k);
            let p = self.axis_cell(target, dir, k).unwrap();
            if k == 0 {
                self.lemma_coords_unique(p as int, target);
            } else if needs_los {
                let j = if dir < 2 {
                    i - k
                } else {
                    0
                };
                let r = if dir < 2 {
                    0
                } else {
                    i - k
                };
                if dir < 2 {
                    assert(rise == 0 && run == i);
                    assert((2 * j - 1) * rise == 0 && (2 * j + 1) * rise == 0) by (nonlinear_arith)
                        requires
                            rise == 0,
                    ;
                    assert(run / (2 * run) == 0 && (3 * run - 1) / (2 * run) == 1)
                        by (nonlinear_arith)
                        requires
                            run > 0,
                    ;
                } else {
                    assert(run == 0 && rise == i);
                }
                assert(self.line_cell(c, target, j, r) == self.axis_cell(target, dir, k));
                assert(self.sees_through(
                    c,
                    target,
                    ignored,
                    self.line_cell(c, target, j, r),
                ));
            }
        }
    }
}

/// The search for the cells that an attack can be cast from misses none. The
/// target itself is among them only where the mask has its own centre.
pub proof fn lemma_cast_cells_miss_none(
    b: Board,
    min_range: int,
    max_range: int,
    launch_type: i32,
    needs_los: bool,
    target: int,
    ignored: Seq<usize>,
    c: int,
)
    requires
        b.wf(),
        b.has(target),
        b.walkable(target),
        b.casts(c, min_range, max_range, launch_type, needs_los, target, ignored),
        c == target ==> crate::mask::launch_admits(launch_type, min_range, max_range, (0, 0))
            && crate::mask::launch_reach(launch_type, max_range) >= 0,
    ensures
        b.cast_cells(
            min_range,
            max_range,
            launch_type,
            needs_los,
            target,
            ignored,
        ).contains(c as usize),
{
    let o = (b.x(c) - b.x(target), b.y(c) - b.y(target));
    b.lemma_coords(c);
    b.lemma_coords(target);
    if o == (0int, 0int) {
        b.lemma_coords_unique(c, target);
    }
    assert(crate::mask::norm(o) == b.distance(c, target));
    if launch_type == 1 {
        assert(1i32 & 1 == 1 && 1i32 & 2 == 0 && 1i32 & 4 == 0) by (bit_vector);
        let dir = if o.0 > 0 {
            0int
        } else if o.0 < 0 {
            1
        } else if o.1 >= 0 {
            2
        } else {
            3
        };
        let i = crate::mask::norm(o);
        assert(b.axis_cell(target, dir, i) == Some(c as usize));
        b.lemma_axis_reaches(needs_los, target, ignored, dir, i, c);
        b.lemma_axis_finds(min_range, needs_los, target, ignored, 4 * (max_range + 1), dir, i);
    } else {
        let len = crate::mask::launch_reach(launch_type, max_range);
        assert(crate::mask::launch_admits(launch_type, min_range, max_range, o));
        assert(-len <= o.0 <= len && -len <= o.1 <= len);
        let k = (2 * len + 1) * (o.0 + len) + (o.1 + len);
        lemma_grid_offset(len, o.0, o.1);
        let n = (2 * len + 1) * (2 * len + 1);
        lemma_scan_lists(launch_type, min_range, max_range, len, n, k);
        let offsets = crate::mask::launch_mask(launch_type, min_range, max_range);
        let i = choose|i: int| 0 <= i < offsets.len() && offsets[i] == o;
        b.lemma_mask_finds(offsets, needs_los, target, ignored, i, c as usize);
    }
}

/// A search for the cells to cast from, through a mask that reaches `len`.
ghost struct CastSearch {
    min: int,
    max: int,
    launch_type: i32,
    needs_los: bool,
    target: int,
    ignored: Seq<usize>,
    len: int,
}

impl CastSearch {
    /// The place of an offset in the square that the mask fills.
    spec fn index(self, dx: int, dy: int) -> int {
        (2 * self.len + 1) * (dx + self.len) + (dy + self.len)
    }
}

impl Board {
    /// What a search has found after the first `n` places.
    spec fn quested(self, q: CastSearch, n: int) -> Seq<usize> {
        self.mask_casts(
            crate::mask::launch_scan(q.launch_type, q.min, q.max, q.len, n),
            q.needs_los,
            q.target,
            q.ignored,
        )
    }

    /// Whether no offset of the mask beyond `reach` leads to a cell.
    spec fn covers(self, q: CastSearch, reach: int) -> bool {
        &&& 0 <= reach <= q.len
        &&& reach == q.len || reach == self.span()
        &&& self.has(q.target)
    }

    /// One place more.
    proof fn lemma_quest_step(self, q: CastSearch, dx: int, dy: int)
        requires
            q.len >= 0,
            -q.len <= dx <= q.len,
            -q.len <= dy <= q.len,
        ensures
            ({
                let n = q.index(dx, dy);
                let cell = self.step(q.target, dx, dy);
                &&& n + 1 == q.index(dx, dy + 1)
                &&& self.quested(q, n + 1) == if crate::mask::launch_admits(
                    q.launch_type,
                    q.min,
                    q.max,
                    (dx, dy),
                ) && cell is Some && self.usable(cell.unwrap() as int, q.ignored) && (!q.needs_los
                    || self.sees(cell.unwrap() as int, q.target, q.ignored)) {
                    self.quested(q, n).push(cell.unwrap())
                } else {
                    self.quested(q, n)
                }
            }),
    {
        let n = q.index(dx, dy);
        lemma_grid_offset(q.len, dx, dy);
        assert(n >= 0) by (nonlinear_arith)
            requires
                n == (2 * q.len + 1) * (dx + q.len) + (dy + q.len),
                0 <= dx + q.len,
                0 <= dy + q.len,
                0 <= q.len,
        ;
        let before = crate::mask::launch_scan(q.launch_type, q.min, q.max, q.len, n);
        assert(before.push((dx, dy)).drop_last() =~= before);
        assert(before.push((dx, dy)).last() == (dx, dy));
    }

    /// Places whose offsets lead off the board add nothing.
    proof fn lemma_skip(self, q: CastSearch, from: int, to: int)
        requires
            0 <= from <= to,
            forall|k: int|
                from <= k < to ==> self.step(
                    q.target,
                    (#[trigger] crate::mask::grid_offset(q.len, k)).0,
                    crate::mask::grid_offset(q.len, k).1,
                ) is None,
        ensures
            self.quested(q, from) == self.quested(q, to),
        decreases to - from,
    {
        if from < to {
            self.lemma_skip(q, from, to - 1);
            let o = crate::mask::grid_offset(q.len, to - 1);
            let before = crate::mask::launch_scan(q.launch_type, q.min, q.max, q.len, to - 1);
            assert(before.push(o).drop_last() =~= before);
            assert(before.push(o).last() == o);
        }
    }

    /// An offset beyond the reach leads off the board.
    proof fn lemma_beyond(self, q: CastSearch, reach: int, dx: int, dy: int)
        requires
            self.wf(),
            self.covers(q, reach),
            -q.len <= dx <= q.len,
            -q.len <= dy <= q.len,
            dx < -reach || dx > reach || dy < -reach || dy > reach,
        ensures
            self.step(q.target, dx, dy) is None,
    {
        self.lemma_coords(q.target);
    }

    /// The places before the first column in reach, and those before the
    /// reach in it, add nothing.
    proof fn lemma_skip_head(self, q: CastSearch, reach: int)
        requires
            self.wf(),
            self.covers(q, reach),
        ensures
            self.quested(q, q.index(-reach, -reach)) == Seq::<usize>::empty(),
    {
        let side = 2 * q.len + 1;
        let to = q.index(-reach, -reach);
        assert(0 <= to) by (nonlinear_arith)
            requires
                to == side * (q.len - reach) + (q.len - reach),
                0 <= q.len - reach,
                0 <= side,
        ;
        assert forall|k: int| 0 <= k < to implies self.step(
            q.target,
            (#[trigger] crate::mask::grid_offset(q.len, k)).0,
            crate::mask::grid_offset(q.len, k).1,
        ) is None by {
            vstd::arithmetic::div_mod::lemma_fundamental_div_mod(k, side);
            let c = k / side;
            assert(0 <= c <= q.len - reach && (c == q.len - reach ==> k % side < q.len - reach))
                by (nonlinear_arith)
                requires
                    0 <= k < side * (q.len - reach) + (q.len - reach),
                    k == side * c + k % side,
                    0 <= k % side < side,
                    0 <= q.len - reach < side,
            ;
            self.lemma_beyond(q, reach, c - q.len, k % side - q.len);
        }
        self.lemma_skip(q, 0, to);
    }

    /// The places between the reach in one column and the reach in the next
    /// add nothing.
    proof fn lemma_skip_rows(self, q: CastSearch, reach: int, dx: int)
        requires
            self.wf(),
            self.covers(q, reach),
            -reach <= dx <= reach,
        ensures
            self.quested(q, q.index(dx, reach + 1)) == self.quested(q, q.index(dx + 1, -reach)),
    {
        let side = 2 * q.len + 1;
        let from = q.index(dx, reach + 1);
        let to = q.index(dx + 1, -reach);
        assert(to == from + 2 * (q.len - reach)) by (nonlinear_arith)
            requires
                side == 2 * q.len + 1,
                from == side * (dx + q.len) + (reach + 1 + q.len),
                to == side * (dx + 1 + q.len) + (q.len - reach),
        ;
        assert(0 <= from) by (nonlinear_arith)
            requires
                from == side * (dx + q.len) + (reach + 1 + q.len),
                0 <= dx + q.len,
                0 <= reach + 1 + q.len,
                0 <= side,
        ;
        if dx < q.len {
            assert forall|k: int| from <= k < to implies self.step(
                q.target,
                (#[trigger] crate::mask::grid_offset(q.len, k)).0,
                crate::mask::grid_offset(q.len, k).1,
            ) is None by {
                let j = k - from;
                if reach + 1 + j <= q.len {
                    lemma_grid_offset(q.len, dx, reach + 1 + j);
                    self.lemma_beyond(q, reach, dx, reach + 1 + j);
                } else {
                    let dy = reach + j - 2 * q.len;
                    assert(k == q.index(dx + 1, dy)) by (nonlinear_arith)
                        requires
                            side == 2 * q.len + 1,
                            k == from + j,
                            from == side * (dx + q.len) + (reach + 1 + q.len),
                            dy == reach + j - 2 * q.len,
                            q.index(dx + 1, dy) == side * (dx + 1 + q.len) + (dy + q.len),
                    ;
                    lemma_grid_offset(q.len, dx + 1, dy);
                    self.lemma_beyond(q, reach, dx + 1, dy);
                }
            }
            self.lemma_skip(q, from, to);
        }
    }

    /// The places after the last column in reach add nothing.
    proof fn lemma_skip_tail(self, q: CastSearch, reach: int)
        requires
            self.wf(),
            self.covers(q, reach),
        ensures
            self.quested(q, q.index(reach + 1, -reach)) == self.quested(
                q,
                (2 * q.len + 1) * (2 * q.len + 1),
            ),
    {
        let side = 2 * q.len + 1;
        let from = q.index(reach + 1, -reach);
        let all = side * side;
        if reach == q.len {
            assert(from == all) by (nonlinear_arith)
                requires
                    from == side * (q.len + 1 + q.len) + 0,
                    all == side * side,
                    side == 2 * q.len + 1,
            ;
        } else {
            assert(0 <= from <= all) by (nonlinear_arith)
                requires
                    side == 2 * q.len + 1,
                    from == side * (reach + 1 + q.len) + (q.len - reach),
                    all == side * side,
                    0 <= reach < q.len,
            ;
            assert forall|k: int| from <= k < all implies self.step(
                q.target,
                (#[trigger] crate::mask::grid_offset(q.len, k)).0,
                crate::mask::grid_offset(q.len, k).1,
            ) is None by {
                vstd::arithmetic::div_mod::lemma_fundamental_div_mod(k, side);
                let c = k / side;
                assert(reach + 1 + q.len <= c < side) by (nonlinear_arith)
                    requires
                        side * (reach + 1 + q.len) <= k < side * side,
                        k == side * c + k % side,
                        0 <= k % side < side,
                ;
                self.lemma_beyond(q, reach, c - q.len, k % side - q.len);
            }
            self.lemma_skip(q, from, all);
        }
    }
}

/// The rows that a line crosses in one column lie between its ends.
proof fn lemma_line_rows(rise: int, run: int, i: int)
    requires
        0 <= rise <= 2 * MAX_SIDE,
        0 <= run <= 2 * MAX_SIDE,
        0 <= i <= run,
    ensures
        0 <= line_low(rise, run, i),
        line_high(rise, run, i) <= rise + 1,
        i > 0 ==> 0 <= (2 * i - 1) * rise <= 4 * MAX_SIDE * 2 * MAX_SIDE,
        0 <= (2 * i + 1) * rise <= (4 * MAX_SIDE + 1) * 2 * MAX_SIDE,
{
    assert(0 <= (2 * i + 1) * rise <= (4 * 32768 + 1) * 65536) by (nonlinear_arith)
        requires
            0 <= rise <= 65536,
            0 <= i <= 65536,
    ;
    if i > 0 {
        assert(0 <= (2 * i - 1) * rise <= 4 * 32768 * 65536) by (nonlinear_arith)
            requires
                0 <= rise <= 65536,
                1 <= i <= 65536,
        ;
        vstd::arithmetic::div_mod::lemma_div_pos_is_pos(run + (2 * i - 1) * rise, 2 * run);
    }
    if i < run {
        assert(run + (2 * i + 1) * rise + 2 * run - 1 < (rise + 2) * (2 * run)) by (nonlinear_arith)
            requires
                0 <= i < run,
                0 <= rise,
        ;
        assert((run + (2 * i + 1) * rise + 2 * run - 1) / (2 * run) < rise + 2) by (nonlinear_arith)
            requires
                run + (2 * i + 1) * rise + 2 * run - 1 < (rise + 2) * (2 * run),
                run + (2 * i + 1) * rise + 2 * run - 1 >= 0,
                run > 0,
        ;
    }
}

/// Whether the straight line between the centres of two squares passes through
/// the inside of the square at `(u, v)`: the square lies between them, and its
/// centre nearer to the line than its own half.
pub open spec fn line_passes(x0: int, y0: int, x1: int, y1: int, u: int, v: int) -> bool {
    &&& x0 <= u <= x1 || x1 <= u <= x0
    &&& y0 <= v <= y1 || y1 <= v <= y0
    &&& 2 * crate::map::abs((u - x0) * (y1 - y0) - (v - y0) * (x1 - x0)) < crate::map::abs(x1 - x0)
        + crate::map::abs(y1 - y0)
}

/// The rows of a column that a line crosses are those whose squares it passes
/// through.
proof fn lemma_rows_are_passed(rise: int, run: int, i: int, r: int)
    requires
        0 <= i <= run,
        0 <= r <= rise,
        run + rise > 0,
    ensures
        (line_low(rise, run, i) <= r < line_high(rise, run, i)) <==> 2 * crate::map::abs(
            i * rise - r * run,
        ) < run + rise,
{
    let a = i * rise;
    let b = r * run;
    if run == 0 {
        assert(a == 0 && b == 0) by (nonlinear_arith)
            requires
                a == i * rise,
                b == r * run,
                i == 0,
                run == 0,
        ;
    } else {
        assert((2 * i - 1) * rise == 2 * a - rise) by (nonlinear_arith)
            requires
                a == i * rise,
        ;
        assert((2 * i + 1) * rise == 2 * a + rise) by (nonlinear_arith)
            requires
                a == i * rise,
        ;
        let m = 2 * run;
        assert(r * m == 2 * b) by (nonlinear_arith)
            requires
                b == r * run,
                m == 2 * run,
        ;
        assert((r + 1) * m == 2 * b + m) by (nonlinear_arith)
            requires
                b == r * run,
                m == 2 * run,
        ;
        assert(b >= 0) by (nonlinear_arith)
            requires
                b == r * run,
                r >= 0,
                run >= 0,
        ;
        if i > 0 {
            let x = run + (2 * i - 1) * rise;
            let q = x / m;
            vstd::arithmetic::div_mod::lemma_fundamental_div_mod(x, m);
            assert(q <= r <==> x < (r + 1) * m) by (nonlinear_arith)
                requires
                    x == m * q + x % m,
                    0 <= x % m < m,
                    m > 0,
            ;
        } else {
            assert(a == 0) by (nonlinear_arith)
                requires
                    a == i * rise,
                    i == 0,
            ;
        }
        if i < run {
            let x = run + (2 * i + 1) * rise + 2 * run - 1;
            let q = x / m;
            vstd::arithmetic::div_mod::lemma_fundamental_div_mod(x, m);
            assert(r < q <==> (r + 1) * m <= x) by (nonlinear_arith)
                requires
                    x == m * q + x % m,
                    0 <= x % m < m,
                    m > 0,
            ;
        } else {
            assert(a - b >= 0) by (nonlinear_arith)
                requires
                    a == run * rise,
                    b == r * run,
                    r <= rise,
                    run >= 0,
            ;
        }
    }
}

/// One cell sees another exactly when every square that the straight line
/// between their centres passes through is a cell without an obstacle, on which
/// nobody stands but at the two ends or where it is to be ignored.
pub proof fn lemma_sight_is_a_straight_line(b: Board, start: int, end: int, ignored: Seq<usize>)
    requires
        b.wf(),
        b.has(start),
        b.has(end),
        start != end,
    ensures
        b.sees(start, end, ignored) <==> forall|u: int, v: int|
            #![trigger b.at(u, v)]
            line_passes(b.x(start), b.y(start), b.x(end), b.y(end), u, v) ==> {
                &&& b.at(u, v) is Some
                &&& b.cells[b.at(u, v).unwrap() as int].walkable
                &&& b.occupied.contains(b.at(u, v).unwrap()) ==> b.at(u, v).unwrap() == start
                    || b.at(u, v).unwrap() == end || ignored.contains(b.at(u, v).unwrap())
            },
{
    let x0 = b.x(start);
    let y0 = b.y(start);
    let x1 = b.x(end);
    let y1 = b.y(end);
    let rise = crate::map::abs(y0 - y1);
    let run = crate::map::abs(x0 - x1);
    b.lemma_coords(start);
    b.lemma_coords(end);
    if x0 == x1 && y0 == y1 {
        b.lemma_coords_unique(start, end);
    }
    assert(run + rise > 0);
    if b.sees(start, end, ignored) {
        assert forall|u: int, v: int|
            #![trigger b.at(u, v)]
            line_passes(x0, y0, x1, y1, u, v) implies {
            &&& b.at(u, v) is Some
            &&& b.cells[b.at(u, v).unwrap() as int].walkable
            &&& b.occupied.contains(b.at(u, v).unwrap()) ==> b.at(u, v).unwrap() == start || b.at(
                u,
                v,
            ).unwrap() == end || ignored.contains(b.at(u, v).unwrap())
        } by {
            let i = crate::map::abs(u - x0);
            let r = crate::map::abs(v - y0);
            lemma_cross_signs(x0, y0, x1, y1, u, v);
            lemma_rows_are_passed(rise, run, i, r);
            assert(b.line_cell(start, end, i, r) == b.at(u, v));
            assert(b.sees_through(start, end, ignored, b.line_cell(start, end, i, r)));
        }
    }
    if forall|u: int, v: int|
        #![trigger b.at(u, v)]
        line_passes(x0, y0, x1, y1, u, v) ==> {
            &&& b.at(u, v) is Some
            &&& b.cells[b.at(u, v).unwrap() as int].walkable
            &&& b.occupied.contains(b.at(u, v).unwrap()) ==> b.at(u, v).unwrap() == start || b.at(
                u,
                v,
            ).unwrap() == end || ignored.contains(b.at(u, v).unwrap())
        } {
        assert forall|i: int, r: int|
            #![trigger b.line_cell(start, end, i, r)]
            0 <= i <= run && line_low(rise, run, i) <= r < line_high(rise, run, i) implies
            b.sees_through(start, end, ignored, b.line_cell(start, end, i, r)) by {
            lemma_line_rows(rise, run, i);
            lemma_rows_are_passed(rise, run, i, r);
            let u = x0 + (if x0 > x1 {
                -i
            } else {
                i
            });
            let v = y0 + (if y0 < y1 {
                r
            } else {
                -r
            });
            lemma_cross_signs(x0, y0, x1, y1, u, v);
            assert(line_passes(x0, y0, x1, y1, u, v));
            assert(b.at(u, v) is Some);
        }
    }
}

proof fn lemma_cross_signs(x0: int, y0: int, x1: int, y1: int, u: int, v: int)
    requires
        x0 <= u <= x1 || x1 <= u <= x0,
        y0 <= v <= y1 || y1 <= v <= y0,
    ensures
        crate::map::abs((u - x0) * (y1 - y0) - (v - y0) * (x1 - x0)) == crate::map::abs(
            crate::map::abs(u - x0) * crate::map::abs(y0 - y1) - crate::map::abs(v - y0)
                * crate::map::abs(x0 - x1),
        ),
{
    let i = crate::map::abs(u - x0);
    let r = crate::map::abs(v - y0);
    let rise = crate::map::abs(y0 - y1);
    let run = crate::map::abs(x0 - x1);
    let p = (u - x0) * (y1 - y0);
    let q = (v - y0) * (x1 - x0);
    let same = (x0 <= x1) == (y0 <= y1);
    assert(same ==> p == i * rise && q == r * run) by (nonlinear_arith)
        requires
            p == (u - x0) * (y1 - y0),
            q == (v - y0) * (x1 - x0),
            i == crate::map::abs(u - x0),
            r == crate::map::abs(v - y0),
            rise == crate::map::abs(y0 - y1),
            run == crate::map::abs(x0 - x1),
            same == ((x0 <= x1) == (y0 <= y1)),
            x0 <= u <= x1 || x1 <= u <= x0,
            y0 <= v <= y1 || y1 <= v <= y0,
    ;
    assert(!same ==> p == -(i * rise) && q == -(r * run)) by (nonlinear_arith)
        requires
            p == (u - x0) * (y1 - y0),
            q == (v - y0) * (x1 - x0),
            i == crate::map::abs(u - x0),
            r == crate::map::abs(v - y0),
            rise == crate::map::abs(y0 - y1),
            run == crate::map::abs(x0 - x1),
            same == ((x0 <= x1) == (y0 <= y1)),
            x0 <= u <= x1 || x1 <= u <= x0,
            y0 <= v <= y1 || y1 <= v <= y0,
    ;
}

/// Nobody is seen through: where somebody, or an obstacle, is on a cell that the
/// line between two others passes through, and it is not to be ignored, neither
/// sees the other.
pub proof fn lemma_nobody_is_seen_through(
    b: Board,
    start: int,
    end: int,
    ignored: Seq<usize>,
    c: usize,
)
    requires
        b.wf(),
        b.has(start),
        b.has(end),
        b.has(c as int),
        c != start,
        c != end,
        line_passes(
            b.x(start),
            b.y(start),
            b.x(end),
            b.y(end),
            b.x(c as int),
            b.y(c as int),
        ),
        !b.cells[c as int].walkable || b.occupied.contains(c) && !ignored.contains(c),
    ensures
        !b.sees(start, end, ignored),
        !b.sees(end, start, ignored),
{
    b.lemma_coords(c as int);
    if start != end {
        lemma_sight_is_a_straight_line(b, start, end, ignored);
        lemma_sight_is_mutual(b, start, end, ignored);
        assert(b.at(b.x(c as int), b.y(c as int)) == Some(c));
    }
}

/// On an exact diagonal the line passes through every cell in between.
pub proof fn lemma_diagonal_passes(x: int, y: int, sx: int, sy: int, n: int, k: int)
    requires
        sx == 1 || sx == -1,
        sy == 1 || sy == -1,
        0 <= k <= n,
        0 < n,
    ensures
        line_passes(x, y, x + n * sx, y + n * sy, x + k * sx, y + k * sy),
{
    assert((k * sx) * (n * sy) == (k * sy) * (n * sx)) by (nonlinear_arith);
    assert(sx == 1 ==> n * sx == n && k * sx == k) by (nonlinear_arith);
    assert(sx == -1 ==> n * sx == -n && k * sx == -k) by (nonlinear_arith);
    assert(sy == 1 ==> n * sy == n && k * sy == k) by (nonlinear_arith);
    assert(sy == -1 ==> n * sy == -n && k * sy == -k) by (nonlinear_arith);
}

/// Whoever sees is seen.
pub proof fn lemma_sight_is_mutual(b: Board, start: int, end: int, ignored: Seq<usize>)
    requires
        b.wf(),
        b.has(start),
        b.has(end),
        start != end,
    ensures
        b.sees(start, end, ignored) == b.sees(end, start, ignored),
{
    lemma_sight_one_way(b, start, end, ignored);
    lemma_sight_one_way(b, end, start, ignored);
}

proof fn lemma_sight_one_way(b: Board, start: int, end: int, ignored: Seq<usize>)
    requires
        b.wf(),
        b.has(start),
        b.has(end),
        start != end,
    ensures
        b.sees(start, end, ignored) ==> b.sees(end, start, ignored),
{
    lemma_sight_is_a_straight_line(b, start, end, ignored);
    lemma_sight_is_a_straight_line(b, end, start, ignored);
    let x0 = b.x(start);
    let y0 = b.y(start);
    let x1 = b.x(end);
    let y1 = b.y(end);
    if b.sees(start, end, ignored) {
        assert forall|u: int, v: int|
            #![trigger b.at(u, v)]
            line_passes(x1, y1, x0, y0, u, v) implies {
            &&& b.at(u, v) is Some
            &&& b.cells[b.at(u, v).unwrap() as int].walkable
            &&& b.occupied.contains(b.at(u, v).unwrap()) ==> b.at(u, v).unwrap() == end || b.at(
                u,
                v,
            ).unwrap() == start || ignored.contains(b.at(u, v).unwrap())
        } by {
            assert((u - x1) * (y0 - y1) - (v - y1) * (x0 - x1) == -((u - x0) * (y1 - y0) - (v - y0)
                * (x1 - x0))) by (nonlinear_arith);
            assert(line_passes(x0, y0, x1, y1, u, v));
        }
    }
}

} // verus!
