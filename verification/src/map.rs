//! The board: a diamond of cells, its coordinates, distances and slides.
//!
//! Cell ids run left to right through rows of `width` cells and, between two
//! of them, a row of `width - 1` cells. The coordinates `x` and `y` are laid
//! so that two cells share a side exactly when they are one step apart along
//! one of the axes.

use vstd::arithmetic::div_mod::*;
use vstd::prelude::*;

verus! {

/// Neighbour with the coordinate `y` one lower; its id is `id - width + 1`.
pub const DIR_NORTH: u8 = 0;

/// Neighbour with the coordinate `x` one higher; its id is `id + width`.
pub const DIR_EAST: u8 = 1;

/// Neighbour with the coordinate `y` one higher; its id is `id + width - 1`.
pub const DIR_SOUTH: u8 = 2;

/// Neighbour with the coordinate `x` one lower; its id is `id - width`.
pub const DIR_WEST: u8 = 3;

/// No side of a board is longer, if its squared distances fit an `i32`.
pub const MAX_SIDE: i32 = 32768;

/// Whether every squared distance on a board fits an `i32`: that between two
/// opposite corners does.
pub open spec fn distances_fit(width: int, height: int) -> bool {
    &&& 1 <= width <= MAX_SIDE
    &&& 1 <= height <= MAX_SIDE
    &&& 2 * ((width - 1) * (width - 1) + (height - 1) * (height - 1)) <= i32::MAX
}

/// The absolute value.
pub open spec fn abs(v: int) -> int {
    if v < 0 {
        -v
    } else {
        v
    }
}

/// The sign: -1, 0 or 1.
pub open spec fn sign(v: int) -> int {
    if v < 0 {
        -1
    } else if v > 0 {
        1
    } else {
        0
    }
}

/// The number of cells of a `width` by `height` board.
pub open spec fn cell_count(width: int, height: int) -> int {
    (width * 2 - 1) * height - (width - 1)
}

/// The coordinate `y` of a cell.
pub open spec fn cell_y(id: int, width: int) -> int {
    id / (width * 2 - 1) - (id % (width * 2 - 1)) % width
}

/// The coordinate `x` of a cell.
pub open spec fn cell_x(id: int, width: int) -> int {
    (id - (width - 1) * cell_y(id, width)) / width
}

/// Whether a `width` by `height` board has a cell at `(x, y)`.
pub open spec fn on_board(x: int, y: int, width: int, height: int) -> bool {
    0 <= x - y <= 2 * (width - 1) && 0 <= x + y <= 2 * (height - 1)
}

/// The id of the cell at `(x, y)`.
pub open spec fn cell_at(x: int, y: int, width: int) -> int {
    x * width + y * (width - 1)
}

/// The coordinates of the `r`-th cell of the `q`-th pair of rows.
proof fn lemma_row_coords(q: int, r: int, width: int)
    requires
        width >= 1,
        0 <= q,
        0 <= r < 2 * width - 1,
    ensures
        ({
            let id = q * (2 * width - 1) + r;
            let k = if r < width { r } else { r - width };
            let odd = if r < width { 0int } else { 1int };
            &&& id / (width * 2 - 1) == q
            &&& id % (width * 2 - 1) == r
            &&& cell_y(id, width) == q - k
            &&& cell_x(id, width) == q + k + odd
            &&& cell_at(q + k + odd, q - k, width) == id
        }),
{
    let n = 2 * width - 1;
    let id = q * n + r;
    lemma_fundamental_div_mod_converse(id, n, q, r);
    let k = if r < width { r } else { r - width };
    let odd = if r < width { 0int } else { 1int };
    if r < width {
        lemma_small_mod(r as nat, width as nat);
    } else {
        lemma_small_mod(k as nat, width as nat);
        lemma_mod_add_multiples_vanish(k, width);
    }
    assert(cell_y(id, width) == q - k);
    assert(id - (width - 1) * (q - k) == width * (q + k + odd)) by (nonlinear_arith)
        requires
            id == q * (2 * width - 1) + r,
            r == k + width * odd,
            odd == 0 || odd == 1,
    ;
    lemma_div_multiples_vanish(q + k + odd, width);
    assert(cell_at(q + k + odd, q - k, width) == id) by (nonlinear_arith)
        requires
            id - (width - 1) * (q - k) == width * (q + k + odd),
            cell_at(q + k + odd, q - k, width) == (q + k + odd) * width + (q - k) * (width - 1),
    ;
}

/// Every cell of a board has coordinates on the board, and its id follows
/// from them.
pub proof fn lemma_cell_coords(id: int, width: int, height: int)
    requires
        width >= 1,
        height >= 1,
        0 <= id < cell_count(width, height),
    ensures
        on_board(cell_x(id, width), cell_y(id, width), width, height),
        cell_at(cell_x(id, width), cell_y(id, width), width) == id,
{
    let n = 2 * width - 1;
    let q = id / n;
    let r = id % n;
    lemma_fundamental_div_mod(id, n);
    assert(id == q * n + r) by (nonlinear_arith)
        requires
            id == n * q + r,
    ;
    assert(q >= 0) by {
        lemma_div_pos_is_pos(id, n);
    }
    lemma_row_coords(q, r, width);
    assert(q < height) by (nonlinear_arith)
        requires
            q * n + r == id,
            r >= 0,
            id < n * height - (width - 1),
            n == 2 * width - 1,
            width >= 1,
    ;
    if r >= width {
        assert(q < height - 1) by (nonlinear_arith)
            requires
                q * n + r == id,
                r >= width,
                id < n * height - (width - 1),
                n == 2 * width - 1,
                width >= 1,
        ;
    }
}

/// Every coordinate pair on the board belongs to one cell, whose coordinates
/// it is.
pub proof fn lemma_coords_cell(x: int, y: int, width: int, height: int)
    requires
        width >= 1,
        height >= 1,
        on_board(x, y, width, height),
    ensures
        0 <= cell_at(x, y, width) < cell_count(width, height),
        cell_x(cell_at(x, y, width), width) == x,
        cell_y(cell_at(x, y, width), width) == y,
{
    let s = x + y;
    let d = x - y;
    let n = 2 * width - 1;
    let odd = s % 2;
    assert(s - d == 2 * y);
    assert(d % 2 == odd);
    let q = (s - odd) / 2;
    let k = (d - odd) / 2;
    let r = if odd == 0 {
        k
    } else {
        k + width
    };
    assert(0 <= r < n);
    lemma_row_coords(q, r, width);
    assert(0 <= q * n + r < n * height - (width - 1)) by (nonlinear_arith)
        requires
            0 <= q,
            0 <= r < n,
            n == 2 * width - 1,
            width >= 1,
            (q < height && r < width) || q < height - 1,
    ;
}

/// One cell of the board.
#[derive(Clone, Copy, Debug, PartialEq, Eq, Structural)]
pub struct Cell {
    /// The cell's index among the board's cells.
    pub id: usize,
    pub x: i32,
    pub y: i32,
    /// False on an obstacle.
    pub walkable: bool,
    /// The obstacle's kind (0 where there is none).
    pub obstacle: i32,
    /// The obstacle's size: 0 where there is none, negative on the further
    /// cells of a large one.
    pub obstacle_size: i32,
    /// The number of the connected component that the cell belongs to.
    pub composante: i32,
}

impl Cell {
    /// A bare cell of a board of the given width.
    pub open spec fn bare(id: int, width: int) -> Cell {
        Cell {
            id: id as usize,
            x: cell_x(id, width) as i32,
            y: cell_y(id, width) as i32,
            walkable: true,
            obstacle: 0,
            obstacle_size: 0,
            composante: 0,
        }
    }

    /// The cell with an obstacle on it.
    pub open spec fn with_obstacle(self, kind: i32, size: i32) -> Cell {
        Cell { walkable: false, obstacle: kind, obstacle_size: size, ..self }
    }

    fn new(id: usize, width: i32, height: i32) -> (cell: Self)
        requires
            distances_fit(width as int, height as int),
            id < cell_count(width as int, height as int),
        ensures
            cell == Cell::bare(id as int, width as int),
            cell.x == cell_x(id as int, width as int),
            cell.y == cell_y(id as int, width as int),
    {
        proof {
            lemma_cell_coords(id as int, width as int, height as int);
            lemma_cell_count_bound(width as int, height as int);
        }
        let row_len: i32 = width * 2 - 1;
        let x_raw: i32 = (id as i32) % row_len;
        let y_raw: i32 = (id as i32) / row_len;
        let y: i32 = y_raw - x_raw % width;
        proof {
            assert(y == cell_y(id as int, width as int));
            assert(id - (width - 1) * y == width * cell_x(id as int, width as int)) by (nonlinear_arith)
                requires
                    cell_x(id as int, width as int) * width + y * (width - 1) == id,
            ;
            let a = width - 1;
            let b = height - 1;
            let cx = cell_x(id as int, width as int);
            assert(-0x4000_0000 <= (width - 1) * y <= 0x4000_0000) by (nonlinear_arith)
                requires
                    0 <= width - 1 <= 32767,
                    -32767 <= y <= 32767,
            ;
            assert(0 <= cx <= a + b);
            assert(2 * (a * b) <= a * a + b * b) by (nonlinear_arith);
            assert(b * b >= 0) by (nonlinear_arith);
            assert(0 <= width * cx <= a * a + a * b + a + b) by (nonlinear_arith)
                requires
                    width == a + 1,
                    0 <= a,
                    0 <= cx <= a + b,
            ;
        }
        let x: i32 = ((id as i32) - (width - 1) * y) / width;
        Cell { id, x, y, walkable: true, obstacle: 0, obstacle_size: 0, composante: 0 }
    }

    /// Puts an obstacle on the cell.
    pub(crate) fn set_obstacle(&mut self, kind: i32, size: i32)
        ensures
            *final(self) == old(self).with_obstacle(kind, size),
    {
        self.walkable = false;
        self.obstacle = kind;
        self.obstacle_size = size;
    }

    /// Whether the cell is free of obstacles.
    #[must_use]
    pub fn available(&self) -> (b: bool)
        ensures
            b == self.walkable,
    {
        self.walkable
    }
}

/// The number of cells stays far below the limits of an `i32`.
proof fn lemma_cell_count_bound(width: int, height: int)
    requires
        distances_fit(width, height),
    ensures
        1 <= cell_count(width, height) <= 0x4001_0000,
        0 <= (width * 2 - 1) * height <= 0x4002_0000,
{
    let a = width - 1;
    let b = height - 1;
    assert((width * 2 - 1) * height == 2 * (a * b) + 2 * a + b + 1) by (nonlinear_arith)
        requires
            width == a + 1,
            height == b + 1,
    ;
    assert(2 * (a * b) <= a * a + b * b) by (nonlinear_arith);
    assert(a * b >= 0) by (nonlinear_arith)
        requires
            a >= 0,
            b >= 0,
    ;
}

/// A board has at most as many cells as its longest sides allow.
pub(crate) proof fn lemma_cell_count_limit(board: Board)
    requires
        board.wf(),
    ensures
        1 <= board.cells.len() <= 0x4001_0000,
{
    lemma_cell_count_bound(board.width, board.height);
}

/// What a board holds.
#[verifier::ext_equal]
pub struct Board {
    pub width: int,
    pub height: int,
    pub map_type: int,
    /// The cells, in the order of their ids.
    pub cells: Seq<Cell>,
    /// The ids of the cells that an entity stands on.
    pub occupied: Seq<usize>,
}

impl Board {
    /// A board without obstacles or entities.
    pub open spec fn bare(width: int, height: int) -> Board {
        Board {
            width,
            height,
            map_type: 0,
            cells: Seq::new(cell_count(width, height) as nat, |c: int| Cell::bare(c, width)),
            occupied: Seq::empty(),
        }
    }

    /// The cells are those of a `width` by `height` board, and every occupied
    /// cell is one of them.
    pub open spec fn wf(self) -> bool {
        &&& distances_fit(self.width, self.height)
        &&& self.cells.len() == cell_count(self.width, self.height)
        &&& forall|c: int|
            #![trigger self.cells[c]]
            0 <= c < self.cells.len() ==> {
                &&& self.cells[c].id == c
                &&& self.cells[c].x == cell_x(c, self.width)
                &&& self.cells[c].y == cell_y(c, self.width)
            }
        &&& forall|i: int| 0 <= i < self.occupied.len() ==> #[trigger] self.occupied[i] < self.cells.len()
    }

    /// Whether `c` is the id of a cell.
    pub open spec fn has(self, c: int) -> bool {
        0 <= c < self.cells.len()
    }

    pub open spec fn x(self, c: int) -> int {
        self.cells[c].x as int
    }

    pub open spec fn y(self, c: int) -> int {
        self.cells[c].y as int
    }

    /// The cell at `(x, y)`.
    pub open spec fn at(self, x: int, y: int) -> Option<usize> {
        if on_board(x, y, self.width, self.height) {
            Some(cell_at(x, y, self.width) as usize)
        } else {
            None
        }
    }

    /// The cell `(dx, dy)` away from `c`.
    pub open spec fn step(self, c: int, dx: int, dy: int) -> Option<usize> {
        self.at(self.x(c) + dx, self.y(c) + dy)
    }

    /// The neighbour of `c` in one of the four directions.
    pub open spec fn neighbour(self, c: int, dir: u8) -> Option<usize> {
        if dir == DIR_NORTH {
            self.step(c, 0, -1)
        } else if dir == DIR_EAST {
            self.step(c, 1, 0)
        } else if dir == DIR_SOUTH {
            self.step(c, 0, 1)
        } else if dir == DIR_WEST {
            self.step(c, -1, 0)
        } else {
            None
        }
    }

    /// The number of steps between two cells of an open board.
    pub open spec fn distance(self, a: int, b: int) -> int {
        abs(self.x(a) - self.x(b)) + abs(self.y(a) - self.y(b))
    }

    /// The square of the straight distance between two cells.
    pub open spec fn distance2(self, a: int, b: int) -> int {
        (self.x(a) - self.x(b)) * (self.x(a) - self.x(b)) + (self.y(a) - self.y(b)) * (self.y(a)
            - self.y(b))
    }

    /// Whether two cells share a side.
    pub open spec fn adjacent(self, a: int, b: int) -> bool {
        self.has(a) && self.has(b) && self.distance(a, b) == 1
    }

    pub open spec fn walkable(self, c: int) -> bool {
        self.cells[c].walkable
    }

    /// Whether an entity stands on `c`.
    pub open spec fn is_occupied(self, c: int) -> bool {
        self.occupied.contains(c as usize)
    }

    /// Whether an entity can stand on `c`: no obstacle and nobody there.
    pub open spec fn free(self, c: int) -> bool {
        self.walkable(c) && !self.is_occupied(c)
    }

    /// The `k`-th cell of the ray that leaves `c` along `(dx, dy)`.
    pub open spec fn ray(self, c: int, dx: int, dy: int, k: int) -> Option<usize> {
        self.at(self.x(c) + k * dx, self.y(c) + k * dy)
    }

    /// Whether the first `k` cells of the ray are on the board and free.
    pub open spec fn ray_free(self, c: int, dx: int, dy: int, k: int) -> bool {
        forall|j: int|
            #![trigger self.ray(c, dx, dy, j)]
            1 <= j <= k ==> self.ray(c, dx, dy, j) is Some && self.free(
                self.ray(c, dx, dy, j).unwrap() as int,
            )
    }

    /// Whether the first `k` cells of the ray are on the board and walkable.
    pub open spec fn ray_walkable(self, c: int, dx: int, dy: int, k: int) -> bool {
        forall|j: int|
            #![trigger self.ray(c, dx, dy, j)]
            1 <= j <= k ==> self.ray(c, dx, dy, j) is Some && self.walkable(
                self.ray(c, dx, dy, j).unwrap() as int,
            )
    }

    /// Whether a slide from `c` along `(dx, dy)` that should end on `target`
    /// stops after `k` steps: on the target, or before the first cell that is
    /// not free.
    pub open spec fn slide_stops(self, c: int, target: int, dx: int, dy: int, k: int) -> bool {
        &&& 0 <= k
        &&& self.ray_free(c, dx, dy, k)
        &&& forall|j: int|
            #![trigger self.ray(c, dx, dy, j)]
            0 <= j < k ==> self.ray(c, dx, dy, j) != Some(target as usize)
        &&& {
            ||| self.ray(c, dx, dy, k) == Some(target as usize)
            ||| self.ray(c, dx, dy, k + 1) is Some && !self.free(
                self.ray(c, dx, dy, k + 1).unwrap() as int,
            )
        }
    }

    /// The smallest distance from `a` to one of the targets, -1 without any.
    pub open spec fn distance_to(self, a: int, targets: Seq<usize>) -> int
        decreases targets.len(),
    {
        if targets.len() == 0 {
            -1
        } else {
            let rest = self.distance_to(a, targets.drop_last());
            let last = self.distance(a, targets.last() as int);
            if rest == -1 || last < rest {
                last
            } else {
                rest
            }
        }
    }

    /// The smallest squared distance from `a` to one of the targets, -1
    /// without any.
    pub open spec fn distance2_to(self, a: int, targets: Seq<usize>) -> int
        decreases targets.len(),
    {
        if targets.len() == 0 {
            -1
        } else {
            let rest = self.distance2_to(a, targets.drop_last());
            let last = self.distance2(a, targets.last() as int);
            if rest == -1 || last < rest {
                last
            } else {
                rest
            }
        }
    }

    /// Whether a launch type lets an attack reach `target` from `caster`: bit 0
    /// along an axis, bit 1 along a diagonal, bit 2 anywhere else.
    pub open spec fn launch_allows(self, caster: int, target: int, launch_type: i32) -> bool {
        let dx = self.x(caster) - self.x(target);
        let dy = self.y(caster) - self.y(target);
        let axis = dx == 0 || dy == 0;
        let diagonal = abs(dx) == abs(dy);
        &&& axis ==> launch_type & 1 != 0
        &&& diagonal ==> launch_type & 2 != 0
        &&& !axis && !diagonal ==> launch_type & 4 != 0
    }

    /// Whether an attack of the given range and launch type reaches `target`
    /// from `caster`. A cell is always reached from itself, if 0 is in range.
    pub open spec fn in_range(
        self,
        caster: int,
        target: int,
        min_range: int,
        max_range: int,
        launch_type: i32,
    ) -> bool {
        &&& min_range <= self.distance(caster, target) <= max_range
        &&& caster == target || self.launch_allows(caster, target, launch_type)
    }

    /// The ids of the cells below `n` that hold an obstacle, in order.
    pub open spec fn obstacles_below(self, n: int) -> Seq<usize>
        decreases n,
    {
        if n <= 0 {
            Seq::empty()
        } else if !self.walkable(n - 1) {
            self.obstacles_below(n - 1).push((n - 1) as usize)
        } else {
            self.obstacles_below(n - 1)
        }
    }

    /// The obstacles are cells of the board.
    pub(crate) proof fn lemma_obstacles_on_board(self, n: int)
        requires
            0 <= n <= self.cells.len(),
            self.cells.len() <= usize::MAX,
        ensures
            forall|i: int|
                0 <= i < self.obstacles_below(n).len() ==> self.has(
                    #[trigger] self.obstacles_below(n)[i] as int,
                ),
        decreases n,
    {
        if n > 0 {
            self.lemma_obstacles_on_board(n - 1);
            let before = self.obstacles_below(n - 1);
            let list = self.obstacles_below(n);
            assert forall|i: int| 0 <= i < list.len() implies self.has(#[trigger] list[i] as int) by {
                if i < before.len() {
                    assert(list[i] == before[i]);
                }
            }
        }
    }

    /// The coordinates of a cell lie on the board and give its id back.
    pub proof fn lemma_coords(self, c: int)
        requires
            self.wf(),
            self.has(c),
        ensures
            on_board(self.x(c), self.y(c), self.width, self.height),
            self.at(self.x(c), self.y(c)) == Some(c as usize),
            0 <= self.x(c) <= 2 * MAX_SIDE,
            -MAX_SIDE <= self.y(c) <= MAX_SIDE,
    {
        lemma_cell_coords(c, self.width, self.height);
    }

    /// The cell found at a coordinate pair has those coordinates.
    pub proof fn lemma_at(self, x: int, y: int)
        requires
            self.wf(),
            on_board(x, y, self.width, self.height),
        ensures
            self.at(x, y) is Some,
            self.has(self.at(x, y).unwrap() as int),
            self.x(self.at(x, y).unwrap() as int) == x,
            self.y(self.at(x, y).unwrap() as int) == y,
    {
        lemma_coords_cell(x, y, self.width, self.height);
        lemma_cell_count_bound(self.width, self.height);
    }

    /// A cell is determined by its coordinates.
    pub proof fn lemma_coords_unique(self, a: int, b: int)
        requires
            self.wf(),
            self.has(a),
            self.has(b),
            self.x(a) == self.x(b),
            self.y(a) == self.y(b),
        ensures
            a == b,
    {
        self.lemma_coords(a);
        self.lemma_coords(b);
        lemma_cell_count_bound(self.width, self.height);
    }

    /// Distances are symmetric, 0 only from a cell to itself, and never
    /// shortened by a detour.
    pub proof fn lemma_distance_metric(self, a: int, b: int, c: int)
        requires
            self.wf(),
            self.has(a),
            self.has(b),
            self.has(c),
        ensures
            self.distance(a, b) == self.distance(b, a),
            self.distance(a, b) == 0 <==> a == b,
            self.distance(a, c) <= self.distance(a, b) + self.distance(b, c),
    {
        if self.distance(a, b) == 0 {
            self.lemma_coords_unique(a, b);
        }
    }

    /// Two cells share a side exactly when each is a neighbour of the other
    /// in one of the four directions.
    pub proof fn lemma_adjacent_is_neighbour(self, a: int, b: int)
        requires
            self.wf(),
            self.has(a),
            self.has(b),
        ensures
            self.adjacent(a, b) <==> exists|dir: u8|
                dir < 4 && #[trigger] self.neighbour(a, dir) == Some(b as usize),
            self.adjacent(a, b) == self.adjacent(b, a),
    {
        self.lemma_coords(b);
        if self.adjacent(a, b) {
            let dir: u8 = if self.x(b) == self.x(a) + 1 {
                DIR_EAST
            } else if self.x(b) == self.x(a) - 1 {
                DIR_WEST
            } else if self.y(b) == self.y(a) + 1 {
                DIR_SOUTH
            } else {
                DIR_NORTH
            };
            assert(self.neighbour(a, dir) == Some(b as usize));
        }
        if exists|dir: u8| dir < 4 && #[trigger] self.neighbour(a, dir) == Some(b as usize) {
            let dir = choose|dir: u8|
                dir < 4 && #[trigger] self.neighbour(a, dir) == Some(b as usize);
            lemma_cell_count_bound(self.width, self.height);
            self.lemma_neighbour(a, dir);
        }
    }

    /// A neighbour is a cell of the board one step away, with the id that its
    /// direction gives.
    pub proof fn lemma_neighbour(self, c: int, dir: u8)
        requires
            self.wf(),
            self.has(c),
        ensures
            self.neighbour(c, dir) matches Some(n) ==> {
                &&& self.adjacent(c, n as int)
                &&& n == c + (if dir == DIR_NORTH {
                    1 - self.width
                } else if dir == DIR_EAST {
                    self.width
                } else if dir == DIR_SOUTH {
                    self.width - 1
                } else {
                    -self.width
                })
            },
    {
        if self.neighbour(c, dir) is Some {
            let (dx, dy) = if dir == DIR_NORTH {
                (0int, -1int)
            } else if dir == DIR_EAST {
                (1int, 0int)
            } else if dir == DIR_SOUTH {
                (0int, 1int)
            } else {
                (-1int, 0int)
            };
            let x = self.x(c);
            let y = self.y(c);
            let w = self.width;
            self.lemma_at(x + dx, y + dy);
            self.lemma_coords(c);
            lemma_cell_count_bound(self.width, self.height);
            lemma_coords_cell(x + dx, y + dy, self.width, self.height);
            lemma_cell_coords(c, self.width, self.height);
            assert((x + dx) * w + (y + dy) * (w - 1) == x * w + y * (w - 1) + dx * w + dy * (w - 1))
                by (nonlinear_arith);
            if dx == 0 {
                assert(0 * w == 0);
                assert(1 * (w - 1) == w - 1);
                assert((-1) * (w - 1) == 1 - w);
            } else {
                assert(0 * (w - 1) == 0);
                assert(1 * w == w);
                assert((-1) * w == -w);
            }
        }
    }

    /// Whatever the targets, the distance to them is that of one of them and
    /// no larger than that of any.
    pub proof fn lemma_distance_to(self, a: int, targets: Seq<usize>)
        ensures
            targets.len() > 0 ==> {
                &&& exists|i: int|
                    0 <= i < targets.len() && self.distance_to(a, targets) == self.distance(
                        a,
                        #[trigger] targets[i] as int,
                    )
                &&& forall|i: int|
                    0 <= i < targets.len() ==> self.distance_to(a, targets) <= self.distance(
                        a,
                        #[trigger] targets[i] as int,
                    )
            },
        decreases targets.len(),
    {
        if targets.len() > 0 {
            let init = targets.drop_last();
            self.lemma_distance_to(a, init);
            assert forall|i: int| 0 <= i < targets.len() implies self.distance_to(a, targets)
                <= self.distance(a, #[trigger] targets[i] as int) by {
                if i < init.len() {
                    assert(init[i] == targets[i]);
                }
            }
            if self.distance_to(a, targets) == self.distance(a, targets.last() as int) {
                assert(targets[targets.len() - 1] == targets.last());
            } else {
                let i = choose|i: int|
                    0 <= i < init.len() && self.distance_to(a, init) == self.distance(
                        a,
                        #[trigger] init[i] as int,
                    );
                assert(targets[i] == init[i]);
            }
        }
    }
}

/// The board of a fight.
#[derive(Debug)]
pub struct GameMap {
    pub width: i32,
    pub height: i32,
    /// The number of cells.
    pub nb_cells: usize,
    /// The theme of the map.
    pub map_type: i32,
    /// The cells, in the order of their ids.
    pub cells: Vec<Cell>,
    /// The ids of the cells that an entity stands on.
    pub entity_cells: Vec<usize>,
}

impl View for GameMap {
    type V = Board;

    open spec fn view(&self) -> Board {
        Board {
            width: self.width as int,
            height: self.height as int,
            map_type: self.map_type as int,
            cells: self.cells@,
            occupied: self.entity_cells@,
        }
    }
}

impl GameMap {
    /// The map is a board, and counts its cells.
    pub open spec fn wf(&self) -> bool {
        self@.wf() && self.nb_cells == self.cells@.len()
    }

    /// A bare board without obstacles or entities.
    #[must_use]
    pub fn new(width: i32, height: i32) -> (map: Self)
        requires
            distances_fit(width as int, height as int),
        ensures
            map.wf(),
            map@ == Board::bare(width as int, height as int),
    {
        proof {
            lemma_cell_count_bound(width as int, height as int);
        }
        let nb_cells: usize = ((width * 2 - 1) * height - (width - 1)) as usize;
        let mut cells: Vec<Cell> = Vec::new();
        let mut i: usize = 0;
        while i < nb_cells
            invariant
                distances_fit(width as int, height as int),
                nb_cells == cell_count(width as int, height as int),
                i <= nb_cells,
                cells@.len() == i,
                forall|c: int|
                    #![trigger cells@[c]]
                    0 <= c < i ==> {
                        &&& cells@[c] == Cell::bare(c, width as int)
                        &&& cells@[c].id == c
                        &&& cells@[c].x == cell_x(c, width as int)
                        &&& cells@[c].y == cell_y(c, width as int)
                    },
            decreases nb_cells - i,
        {
            cells.push(Cell::new(i, width, height));
            i += 1;
        }
        let map = GameMap {
            width,
            height,
            nb_cells,
            map_type: 0,
            cells,
            entity_cells: Vec::new(),
        };
        assert(map@.cells =~= Board::bare(width as int, height as int).cells);
        assert(map@.occupied =~= Seq::<usize>::empty());
        map
    }

    /// The cell with the given id, if the board has one.
    #[must_use]
    pub fn get_cell(&self, id: i32) -> (cell: Option<usize>)
        requires
            self.wf(),
        ensures
            cell == if self@.has(id as int) {
                Some(id as usize)
            } else {
                None
            },
    {
        if id < 0 || id as usize >= self.nb_cells {
            None
        } else {
            Some(id as usize)
        }
    }

    /// The cell at the given coordinates, if the board has one.
    #[must_use]
    pub fn get_cell_xy(&self, x: i32, y: i32) -> (cell: Option<usize>)
        requires
            self.wf(),
        ensures
            cell == self@.at(x as int, y as int),
            cell matches Some(c) ==> {
                &&& self@.has(c as int)
                &&& self@.x(c as int) == x
                &&& self@.y(c as int) == y
            },
    {
        let w: i64 = self.width as i64;
        let h: i64 = self.height as i64;
        let d: i64 = x as i64 - y as i64;
        let s: i64 = x as i64 + y as i64;
        if d < 0 || d > 2 * (w - 1) || s < 0 || s > 2 * (h - 1) {
            return None;
        }
        proof {
            self@.lemma_at(x as int, y as int);
            lemma_coords_cell(x as int, y as int, self@.width, self@.height);
            lemma_cell_count_bound(self@.width, self@.height);
            assert(0 <= x * w <= 0x8000_0000) by (nonlinear_arith)
                requires
                    0 <= x <= 65536,
                    1 <= w <= 32768,
            ;
            assert(-0x8000_0000 <= y * (w - 1) <= 0x8000_0000) by (nonlinear_arith)
                requires
                    -65536 <= y <= 65536,
                    1 <= w <= 32768,
            ;
        }
        Some((x as i64 * w + y as i64 * (w - 1)) as usize)
    }

    /// The cell `(dx, dy)` away from a cell, if the board has one.
    #[must_use]
    pub fn get_next_cell(&self, cell_id: usize, dx: i32, dy: i32) -> (cell: Option<usize>)
        requires
            self.wf(),
            self@.has(cell_id as int),
            i32::MIN <= self@.x(cell_id as int) + dx <= i32::MAX,
            i32::MIN <= self@.y(cell_id as int) + dy <= i32::MAX,
        ensures
            cell == self@.step(cell_id as int, dx as int, dy as int),
            cell matches Some(c) ==> {
                &&& self@.has(c as int)
                &&& self@.x(c as int) == self@.x(cell_id as int) + dx
                &&& self@.y(c as int) == self@.y(cell_id as int) + dy
            },
    {
        let c = &self.cells[cell_id];
        self.get_cell_xy(c.x + dx, c.y + dy)
    }

    /// The neighbour of a cell in one of the four directions, if the board
    /// has one; none for any other direction.
    #[must_use]
    pub fn get_cell_by_dir(&self, cell_id: usize, dir: u8) -> (cell: Option<usize>)
        requires
            self.wf(),
            self@.has(cell_id as int),
        ensures
            cell == self@.neighbour(cell_id as int, dir),
            cell matches Some(c) ==> self@.adjacent(cell_id as int, c as int),
    {
        proof {
            self@.lemma_coords(cell_id as int);
            self@.lemma_neighbour(cell_id as int, dir);
        }
        match dir {
            DIR_NORTH => self.get_next_cell(cell_id, 0, -1),
            DIR_EAST => self.get_next_cell(cell_id, 1, 0),
            DIR_SOUTH => self.get_next_cell(cell_id, 0, 1),
            DIR_WEST => self.get_next_cell(cell_id, -1, 0),
            _ => None,
        }
    }

    /// The neighbours of a cell to the south, west, north and east.
    #[must_use]
    pub fn cells_around(&self, cell_id: usize) -> (around: [Option<usize>; 4])
        requires
            self.wf(),
            self@.has(cell_id as int),
        ensures
            around@ == seq![
                self@.neighbour(cell_id as int, DIR_SOUTH),
                self@.neighbour(cell_id as int, DIR_WEST),
                self@.neighbour(cell_id as int, DIR_NORTH),
                self@.neighbour(cell_id as int, DIR_EAST),
            ],
    {
        [
            self.get_cell_by_dir(cell_id, DIR_SOUTH),
            self.get_cell_by_dir(cell_id, DIR_WEST),
            self.get_cell_by_dir(cell_id, DIR_NORTH),
            self.get_cell_by_dir(cell_id, DIR_EAST),
        ]
    }

    /// The ids of the cells that hold an obstacle, in order.
    #[must_use]
    pub fn obstacles(&self) -> (ids: Vec<usize>)
        requires
            self.wf(),
        ensures
            ids@ == self@.obstacles_below(self@.cells.len() as int),
    {
        let mut ids: Vec<usize> = Vec::new();
        let mut i: usize = 0;
        while i < self.cells.len()
            invariant
                i <= self.cells.len(),
                ids@ == self@.obstacles_below(i as int),
            decreases self.cells.len() - i,
        {
            if !self.cells[i].walkable {
                ids.push(i);
            }
            i += 1;
        }
        ids
    }

    /// Whether an entity can stand on a cell: no obstacle and nobody there.
    #[must_use]
    pub fn cell_available(&self, cell: usize) -> (b: bool)
        requires
            self.wf(),
            self@.has(cell as int),
        ensures
            b == self@.free(cell as int),
    {
        self.cells[cell].walkable && !has_cell(&self.entity_cells, cell)
    }

    /// Whether a cell is free, or one of those that are taken for free.
    #[must_use]
    pub fn available_with_ignore(&self, cell: usize, cells_to_ignore: &[usize]) -> (b: bool)
        requires
            self.wf(),
            self@.has(cell as int),
        ensures
            b == (self@.free(cell as int) || cells_to_ignore@.contains(cell)),
    {
        self.cell_available(cell) || has_cell(cells_to_ignore, cell)
    }

    /// The number of steps between two cells of an open board.
    #[must_use]
    pub fn get_cell_distance(&self, a: usize, b: usize) -> (d: i32)
        requires
            self.wf(),
            self@.has(a as int),
            self@.has(b as int),
        ensures
            d == self@.distance(a as int, b as int),
            0 <= d <= 6 * MAX_SIDE,
    {
        proof {
            self@.lemma_coords(a as int);
            self@.lemma_coords(b as int);
        }
        let ca = &self.cells[a];
        let cb = &self.cells[b];
        abs32(ca.x - cb.x) + abs32(ca.y - cb.y)
    }

    /// The smallest distance from `a` to one of the targets, -1 without any.
    #[must_use]
    pub fn get_cell_distance_to_set(&self, a: usize, targets: &[usize]) -> (d: i32)
        requires
            self.wf(),
            self@.has(a as int),
            forall|i: int| 0 <= i < targets@.len() ==> self@.has(#[trigger] targets@[i] as int),
        ensures
            d == self@.distance_to(a as int, targets@),
            -1 <= d <= 6 * MAX_SIDE,
            targets@.len() > 0 ==> d >= 0,
    {
        let mut dist: i32 = -1;
        let mut i: usize = 0;
        while i < targets.len()
            invariant
                self.wf(),
                self@.has(a as int),
                forall|i: int| 0 <= i < targets@.len() ==> self@.has(#[trigger] targets@[i] as int),
                i <= targets.len(),
                dist == self@.distance_to(a as int, targets@.take(i as int)),
                -1 <= dist <= 6 * MAX_SIDE,
                i > 0 ==> dist >= 0,
            decreases targets.len() - i,
        {
            let d: i32 = self.get_cell_distance(a, targets[i]);
            assert(targets@.take(i + 1).drop_last() =~= targets@.take(i as int));
            if dist == -1 || d < dist {
                dist = d;
            }
            i += 1;
        }
        assert(targets@.take(targets@.len() as int) =~= targets@);
        dist
    }

    /// The square of the straight distance between two cells.
    #[must_use]
    pub fn get_distance_sq(&self, a: usize, b: usize) -> (d: i32)
        requires
            self.wf(),
            self@.has(a as int),
            self@.has(b as int),
        ensures
            d == self@.distance2(a as int, b as int),
            0 <= d,
    {
        let ca = &self.cells[a];
        let cb = &self.cells[b];
        proof {
            self@.lemma_coords(a as int);
            self@.lemma_coords(b as int);
            lemma_square_bound(self@.width, self@.height, ca.x - cb.x, ca.y - cb.y);
        }
        let dx: i32 = ca.x - cb.x;
        let dy: i32 = ca.y - cb.y;
        dx * dx + dy * dy
    }

    /// The smallest squared distance from a cell to one of the others, -1
    /// without any.
    #[must_use]
    pub fn get_distance2_to_set(&self, cell: usize, cells: &[usize]) -> (d: i32)
        requires
            self.wf(),
            self@.has(cell as int),
            forall|i: int| 0 <= i < cells@.len() ==> self@.has(#[trigger] cells@[i] as int),
        ensures
            d == self@.distance2_to(cell as int, cells@),
    {
        let mut dist: i32 = -1;
        let mut i: usize = 0;
        while i < cells.len()
            invariant
                self.wf(),
                self@.has(cell as int),
                forall|i: int| 0 <= i < cells@.len() ==> self@.has(#[trigger] cells@[i] as int),
                i <= cells.len(),
                dist == self@.distance2_to(cell as int, cells@.take(i as int)),
            decreases cells.len() - i,
        {
            let d: i32 = self.get_distance_sq(cell, cells[i]);
            assert(cells@.take(i + 1).drop_last() =~= cells@.take(i as int));
            if dist == -1 || d < dist {
                dist = d;
            }
            i += 1;
        }
        assert(cells@.take(cells@.len() as int) =~= cells@);
        dist
    }

    /// Whether two cells share a coordinate.
    #[must_use]
    pub fn in_line(&self, a: usize, b: usize) -> (r: bool)
        requires
            self.wf(),
            self@.has(a as int),
            self@.has(b as int),
        ensures
            r == (self@.x(a as int) == self@.x(b as int) || self@.y(a as int) == self@.y(b as int)),
    {
        let ca = &self.cells[a];
        let cb = &self.cells[b];
        ca.x == cb.x || ca.y == cb.y
    }

    /// Whether an attack of the given range and launch type reaches `target`
    /// from `caster`.
    #[must_use]
    pub fn verify_range(
        &self,
        caster: usize,
        target: usize,
        min_range: i32,
        max_range: i32,
        launch_type: i32,
    ) -> (r: bool)
        requires
            self.wf(),
            self@.has(caster as int),
            self@.has(target as int),
        ensures
            r == self@.in_range(
                caster as int,
                target as int,
                min_range as int,
                max_range as int,
                launch_type,
            ),
    {
        proof {
            self@.lemma_coords(caster as int);
            self@.lemma_coords(target as int);
        }
        let cc = &self.cells[caster];
        let ct = &self.cells[target];
        let dx: i32 = cc.x - ct.x;
        let dy: i32 = cc.y - ct.y;
        let distance: i32 = abs32(dx) + abs32(dy);
        if distance > max_range || distance < min_range {
            return false;
        }
        if caster == target {
            return true;
        }
        if (launch_type & 1) == 0 && (dx == 0 || dy == 0) {
            return false;
        }
        if (launch_type & 2) == 0 && abs32(dx) == abs32(dy) {
            return false;
        }
        if (launch_type & 4) == 0 && abs32(dx) != abs32(dy) && dx != 0 && dy != 0 {
            return false;
        }
        true
    }
}

/// No squared distance is larger than that between two opposite corners.
proof fn lemma_square_bound(width: int, height: int, dx: int, dy: int)
    requires
        distances_fit(width, height),
        -2 * (width - 1) <= dx - dy <= 2 * (width - 1),
        -2 * (height - 1) <= dx + dy <= 2 * (height - 1),
    ensures
        0 <= dx * dx <= i32::MAX,
        0 <= dy * dy <= i32::MAX,
        0 <= dx * dx + dy * dy <= i32::MAX,
{
    let s = dx + dy;
    let d = dx - dy;
    assert(2 * (dx * dx + dy * dy) == s * s + d * d) by (nonlinear_arith)
        requires
            s == dx + dy,
            d == dx - dy,
    ;
    let a = width - 1;
    let b = height - 1;
    assert(s * s <= 4 * (b * b)) by (nonlinear_arith)
        requires
            -2 * b <= s <= 2 * b,
    ;
    assert(d * d <= 4 * (a * a)) by (nonlinear_arith)
        requires
            -2 * a <= d <= 2 * a,
    ;
    assert(dx * dx >= 0) by (nonlinear_arith);
    assert(dy * dy >= 0) by (nonlinear_arith);
}

/// Whether `c` is in the list.
pub fn has_cell(list: &[usize], c: usize) -> (b: bool)
    ensures
        b == list@.contains(c),
{
    let mut i: usize = 0;
    while i < list.len()
        invariant
            i <= list.len(),
            forall|j: int| 0 <= j < i ==> list@[j] != c,
        decreases list.len() - i,
    {
        if list[i] == c {
            assert(list@[i as int] == c);
            return true;
        }
        i += 1;
    }
    false
}

/// The absolute value.
pub(crate) fn abs32(v: i32) -> (r: i32)
    requires
        v > i32::MIN,
    ensures
        r == abs(v as int),
{
    if v < 0 {
        -v
    } else {
        v
    }
}

/// The sign: -1, 0 or 1.
pub(crate) fn sign32(v: i32) -> (r: i32)
    ensures
        r == sign(v as int),
{
    if v < 0 {
        -1
    } else if v > 0 {
        1
    } else {
        0
    }
}

/// The footprint of an obstacle kind, where it has a fixed one.
#[must_use]
pub fn obstacle_size(id: i32) -> (size: Option<i32>)
    ensures
        size == fixed_size(id as int),
{
    match id {
        5 | 20 | 21 | 22 | 31 | 32 | 38 | 40 | 41 | 42 | 48 | 50 | 53 | 55 | 57 | 59 | 62 | 63
        | 66 => Some(1),
        11 | 17 | 18 | 34 | 43 | 44 | 45 | 46 | 47 | 49 | 52 | 54 | 56 | 58 | 61 | 64 | 65 => {
            Some(2)
        },
        51 => Some(3),
        39 => Some(4),
        60 => Some(5),
        _ => None,
    }
}

/// The obstacle kinds of each footprint.
pub open spec fn fixed_size(id: int) -> Option<i32> {
    if set![5, 20, 21, 22, 31, 32, 38, 40, 41, 42, 48, 50, 53, 55, 57, 59, 62, 63, 66].contains(id) {
        Some(1)
    } else if set![11, 17, 18, 34, 43, 44, 45, 46, 47, 49, 52, 54, 56, 58, 61, 64, 65].contains(id) {
        Some(2)
    } else if id == 51 {
        Some(3)
    } else if id == 39 {
        Some(4)
    } else if id == 60 {
        Some(5)
    } else {
        None
    }
}

} // verus!
