//! Lines of sight and paths on a plain grid.

use crate::fight::{Fight, FightView};
use vstd::prelude::*;

verus! {


/// On a line that goes `dx` columns and `dy` rows, whether the step after `a`
/// columns and `b` rows goes to the next column.
pub open spec fn steps_column(dx: int, dy: int, a: int, b: int) -> bool {
    2 * (dx * (b + 1) - dy * (a + 1)) >= -dy
}

/// On a line that goes `dx` columns and `dy` rows, whether the step after `a`
/// columns and `b` rows goes to the next row.
pub open spec fn steps_row(dx: int, dy: int, a: int, b: int) -> bool {
    2 * (dx * (b + 1) - dy * (a + 1)) <= dx
}

/// A step never leaves the line, and always goes on.
pub proof fn lemma_line_step(dx: int, dy: int, a: int, b: int)
    requires
        0 <= a <= dx,
        0 <= b <= dy,
        !(a == dx && b == dy),
    ensures
        a == dx ==> !steps_column(dx, dy, a, b),
        b == dy ==> !steps_row(dx, dy, a, b),
        steps_column(dx, dy, a, b) || steps_row(dx, dy, a, b),
{
    if a == dx {
        assert(2 * (dx * (b + 1) - dy * (dx + 1)) < -dy) by (nonlinear_arith)
            requires
                0 <= dx,
                0 <= b < dy,
        ;
    }
    if b == dy {
        assert(2 * (dx * (dy + 1) - dy * (a + 1)) > dx) by (nonlinear_arith)
            requires
                0 <= a < dx,
                0 <= dy,
        ;
    }
}

impl FightView {
    /// Whether no obstacle stands on a line from `(x, y)` that goes `dx`
    /// columns and `dy` rows in the directions `sx` and `sy`, beginning after
    /// `a` columns and `b` rows; the two ends do not count.
    pub open spec fn line_clear(
        self,
        x: int,
        y: int,
        sx: int,
        sy: int,
        dx: int,
        dy: int,
        a: int,
        b: int,
    ) -> bool
        decreases (dx - a) + (dy - b),
        when 0 <= a <= dx && 0 <= b <= dy
    {
        if a == dx && b == dy {
            true
        } else if !(a == 0 && b == 0) && self.blocked(x + sx * a, y + sy * b) {
            false
        } else {
            proof {
                lemma_line_step(dx, dy, a, b);
            }
            self.line_clear(
                x,
                y,
                sx,
                sy,
                dx,
                dy,
                if steps_column(dx, dy, a, b) {
                    a + 1
                } else {
                    a
                },
                if steps_row(dx, dy, a, b) {
                    b + 1
                } else {
                    b
                },
            )
        }
    }

    /// Whether one cell is seen from another.
    pub open spec fn sees(self, from: int, to: int) -> bool {
        &&& self.on_grid(from)
        &&& self.on_grid(to)
        &&& self.line_clear(
            self.x(from),
            self.y(from),
            if self.x(from) < self.x(to) {
                1
            } else {
                -1
            },
            if self.y(from) < self.y(to) {
                1
            } else {
                -1
            },
            crate::map::abs(self.x(to) - self.x(from)),
            crate::map::abs(self.y(to) - self.y(from)),
            0,
            0,
        )
    }

    /// How many steps lie between two cells of the grid.
    pub open spec fn gap(self, a: int, b: int) -> int {
        crate::map::abs(self.x(a) - self.x(b)) + crate::map::abs(self.y(a) - self.y(b))
    }

    /// Whether a cell can be entered: it is on the grid, without an obstacle,
    /// and nobody stands there.
    pub open spec fn open_cell(self, cell: i64) -> bool {
        &&& self.on_grid(cell as int)
        &&& !self.obstacles.contains(cell)
        &&& crate::fight::standing_on(self.entities, cell) is None
    }

    /// Whether two cells share a side. None do where the sides of the grid
    /// have no length.
    pub open spec fn beside(self, a: i64, b: i64) -> bool {
        &&& self.width > 0
        &&& self.on_grid(a as int)
        &&& self.on_grid(b as int)
        &&& self.gap(a as int, b as int) == 1
    }

    /// Whether `p` is a walk from a cell: each cell shares a side with the one
    /// before, and can be entered.
    pub open spec fn is_stroll(self, start: i64, p: Seq<i64>) -> bool {
        &&& p.len() >= 1
        &&& p[0] == start
        &&& forall|i: int|
            1 <= i < p.len() ==> self.beside(p[i - 1], #[trigger] p[i]) && self.open_cell(p[i])
    }

    /// Whether `p` is a walk from one cell to another.
    pub open spec fn leads(self, start: i64, end: i64, p: Seq<i64>) -> bool {
        self.is_stroll(start, p) && p.last() == end
    }

    /// What a search for a path answers: the cells of a shortest walk without
    /// the first, or nothing where none leads to the end. Among several
    /// shortest walks it is the one that [`FightView::first_route`] takes.
    pub open spec fn route(self, start: i64, end: i64, path: Option<Vec<i64>>) -> bool {
        &&& self.first_route(start, end) == match path {
            Some(steps) => Some(steps@),
            None => None,
        }
        &&& match path {
            Some(steps) => exists|p: Seq<i64>|
                {
                    &&& #[trigger] self.leads(start, end, p)
                    &&& steps@ == p.drop_first()
                    &&& forall|q: Seq<i64>| #[trigger]
                        self.leads(start, end, q) ==> p.len() <= q.len()
                },
            None => forall|q: Seq<i64>| !#[trigger] self.leads(start, end, q),
        }
    }
}

impl Fight {
    /// Whether one cell is seen from another: no obstacle stands on the line
    /// between them.
    #[must_use]
    pub fn line_of_sight(&self, c1: i64, c2: i64) -> (clear: bool)
        requires
            self.wf(),
        ensures
            clear == self@.sees(c1 as int, c2 as int),
    {
        let ghost f = self@;
        let (x0, y0, x1, y1) = match self.coords(c1, c2) {
            Some(p) => p,
            None => {
                return false;
            },
        };
        let dx: i64 = if x1 < x0 {
            x0 - x1
        } else {
            x1 - x0
        };
        let dy: i64 = if y1 < y0 {
            y0 - y1
        } else {
            y1 - y0
        };
        let sx: i64 = if x0 < x1 {
            1
        } else {
            -1
        };
        let sy: i64 = if y0 < y1 {
            1
        } else {
            -1
        };
        let mut a: i64 = 0;
        let mut b: i64 = 0;
        let mut err: i128 = dx as i128 - dy as i128;
        assert(err == dx * (b + 1) - dy * (a + 1)) by (nonlinear_arith)
            requires
                err == dx - dy,
                a == 0,
                b == 0,
        ;
        while !(a == dx && b == dy)
            invariant
                self.wf(),
                f == self@,
                sx == 1 && x0 + dx == x1 || sx == -1 && x0 - dx == x1,
                sy == 1 && y0 + dy == y1 || sy == -1 && y0 - dy == y1,
                0 <= a <= dx,
                0 <= b <= dy,
                err == dx * (b + 1) - dy * (a + 1),
                f.sees(c1 as int, c2 as int) == f.line_clear(
                    x0 as int,
                    y0 as int,
                    sx as int,
                    sy as int,
                    dx as int,
                    dy as int,
                    a as int,
                    b as int,
                ),
            decreases (dx - a) + (dy - b),
        {
            proof {
                lemma_line_step(dx as int, dy as int, a as int, b as int);
                assert(-0x4000_0000_0000_0000_0000_0000_0000_0000 <= err
                    <= 0x4000_0000_0000_0000_0000_0000_0000_0000 - dx) by (nonlinear_arith)
                    requires
                        err == dx * (b + 1) - dy * (a + 1),
                        0 <= a <= dx < 0x4000_0000_0000_0000_0000,
                        0 <= b <= dy < 0x4000_0000_0000_0000_0000,
                ;
                if sx == 1 {
                    assert(sx * a == a && sx * dx == dx) by (nonlinear_arith)
                        requires
                            sx == 1,
                    ;
                } else {
                    assert(sx * a == -a && sx * dx == -dx) by (nonlinear_arith)
                        requires
                            sx == -1,
                    ;
                }
                if sy == 1 {
                    assert(sy * b == b && sy * dy == dy) by (nonlinear_arith)
                        requires
                            sy == 1,
                    ;
                } else {
                    assert(sy * b == -b && sy * dy == -dy) by (nonlinear_arith)
                        requires
                            sy == -1,
                    ;
                }
            }
            let x: i64 = if sx == 1 {
                x0 + a
            } else {
                x0 - a
            };
            let y: i64 = if sy == 1 {
                y0 + b
            } else {
                y0 - b
            };
            if !(a == 0 && b == 0) {
                if let Some(cell) = self.cell_from_xy(x, y) {
                    if self.is_obstacle(cell) {
                        return false;
                    }
                }
            }
            let e2: i128 = 2 * err;
            let ghost a0 = a;
            let ghost b0 = b;
            if e2 >= -(dy as i128) {
                err = err - dy as i128;
                a = a + 1;
            }
            if e2 <= dx as i128 {
                err = err + dx as i128;
                b = b + 1;
            }
            proof {
                assert(dx * (b0 + 2) - dy * (a0 + 1) == dx * (b0 + 1) - dy * (a0 + 1) + dx)
                    by (nonlinear_arith);
                assert(dx * (b0 + 1) - dy * (a0 + 2) == dx * (b0 + 1) - dy * (a0 + 1) - dy)
                    by (nonlinear_arith);
                assert(dx * (b0 + 2) - dy * (a0 + 2) == dx * (b0 + 1) - dy * (a0 + 1) - dy + dx)
                    by (nonlinear_arith);
            }
        }
        true
    }

    /// The columns and rows of two cells of the grid.
    pub(crate) fn coords(&self, c1: i64, c2: i64) -> (r: Option<(i64, i64, i64, i64)>)
        requires
            self.wf(),
        ensures
            match r {
                Some(p) => {
                    &&& self@.on_grid(c1 as int)
                    &&& self@.on_grid(c2 as int)
                    &&& p.0 == self@.x(c1 as int)
                    &&& p.1 == self@.y(c1 as int)
                    &&& p.2 == self@.x(c2 as int)
                    &&& p.3 == self@.y(c2 as int)
                    &&& 0 <= p.0
                    &&& 0 <= p.2
                    &&& self.height >= 0 ==> 0 <= p.1 && 0 <= p.3
                    &&& self.height < 0 ==> -i64::MAX <= p.1 <= 0 && -i64::MAX <= p.3 <= 0
                },
                None => !(self@.on_grid(c1 as int) && self@.on_grid(c2 as int)),
            },
    {
        match (self.cell_x(c1), self.cell_y(c1), self.cell_x(c2), self.cell_y(c2)) {
            (Some(x1), Some(y1), Some(x2), Some(y2)) => Some((x1, y1, x2, y2)),
            _ => None,
        }
    }

    /// How many steps lie between two cells; the greatest number where one is
    /// off the grid.
    #[must_use]
    pub fn manhattan(&self, c1: i64, c2: i64) -> (d: i64)
        requires
            self.wf(),
        ensures
            d == self@.distance(c1, c2),
    {
        match self.coords(c1, c2) {
            Some((x1, y1, x2, y2)) => {
                proof {
                    crate::fight::lemma_coords_small(self@, c1 as int);
                    crate::fight::lemma_coords_small(self@, c2 as int);
                }
                let dx: i64 = if x1 < x2 {
                    x2 - x1
                } else {
                    x1 - x2
                };
                let dy: i64 = if y1 < y2 {
                    y2 - y1
                } else {
                    y1 - y2
                };
                dx + dy
            },
            None => i64::MAX,
        }
    }
}

impl FightView {
    /// How many steps lie between two cells; the greatest number where one is
    /// off the grid.
    pub open spec fn distance(self, a: i64, b: i64) -> int {
        if self.on_grid(a as int) && self.on_grid(b as int) {
            self.gap(a as int, b as int)
        } else {
            i64::MAX as int
        }
    }
}

/// Whether a cell `a` columns and `b` rows from the start lies on the line that
/// goes `dx` columns and `dy` rows: on the longer side of the line each step
/// has one cell, the one nearest to the straight line.
pub open spec fn on_line(dx: int, dy: int, a: int, b: int) -> bool {
    &&& 0 <= a <= dx
    &&& 0 <= b <= dy
    &&& if dx >= dy {
        -dx < 2 * (dx * b - dy * a) <= dx
    } else {
        -dy <= 2 * (dx * b - dy * a) < dy
    }
}

/// From a cell of a line the next step leads to a cell of it, and none lies
/// between the two.
proof fn lemma_line_goes_on(dx: int, dy: int, a: int, b: int)
    requires
        on_line(dx, dy, a, b),
        !(a == dx && b == dy),
    ensures
        ({
            let c = if steps_column(dx, dy, a, b) {
                a + 1
            } else {
                a
            };
            let r = if steps_row(dx, dy, a, b) {
                b + 1
            } else {
                b
            };
            &&& on_line(dx, dy, c, r)
            &&& forall|p: int, q: int|
                #![trigger on_line(dx, dy, p, q)]
                on_line(dx, dy, p, q) && p >= a && q >= b && !(p == a && q == b) ==> p >= c && q
                    >= r
        }),
{
    lemma_line_step(dx, dy, a, b);
    let d = dx * b - dy * a;
    assert(dx * (b + 1) == dx * b + dx) by (nonlinear_arith);
    assert(dy * (a + 1) == dy * a + dy) by (nonlinear_arith);
    let c = if steps_column(dx, dy, a, b) {
        a + 1
    } else {
        a
    };
    let r = if steps_row(dx, dy, a, b) {
        b + 1
    } else {
        b
    };
    assert forall|p: int, q: int|
        #![trigger on_line(dx, dy, p, q)]
        on_line(dx, dy, p, q) && p >= a && q >= b && !(p == a && q == b) implies p >= c && q
        >= r by {
        let m = p - a;
        let n = q - b;
        assert(dx * q - dy * p == d + dx * n - dy * m) by (nonlinear_arith)
            requires
                d == dx * b - dy * a,
                m == p - a,
                n == q - b,
        ;
        if m == 0 {
            assert(dy * m == 0) by (nonlinear_arith)
                requires
                    m == 0,
            ;
            assert(dx * n >= dx) by (nonlinear_arith)
                requires
                    n >= 1,
                    dx >= 0,
            ;
        } else {
            assert(dy * m >= dy) by (nonlinear_arith)
                requires
                    m >= 1,
                    dy >= 0,
            ;
        }
        if n == 0 {
            assert(dx * n == 0) by (nonlinear_arith)
                requires
                    n == 0,
            ;
        }
    }
}

impl FightView {
    proof fn lemma_clear_rest(
        self,
        x: int,
        y: int,
        sx: int,
        sy: int,
        dx: int,
        dy: int,
        a: int,
        b: int,
    )
        requires
            on_line(dx, dy, a, b),
        ensures
            self.line_clear(x, y, sx, sy, dx, dy, a, b) <==> forall|p: int, q: int|
                #![trigger on_line(dx, dy, p, q)]
                on_line(dx, dy, p, q) && p >= a && q >= b && !(p == 0 && q == 0) && !(p == dx && q
                    == dy) ==> !self.blocked(x + sx * p, y + sy * q),
        decreases (dx - a) + (dy - b),
    {
        if !(a == dx && b == dy) {
            lemma_line_step(dx, dy, a, b);
            lemma_line_goes_on(dx, dy, a, b);
            let c = if steps_column(dx, dy, a, b) {
                a + 1
            } else {
                a
            };
            let r = if steps_row(dx, dy, a, b) {
                b + 1
            } else {
                b
            };
            self.lemma_clear_rest(x, y, sx, sy, dx, dy, c, r);
        }
    }

    /// A cell is seen from another exactly when no obstacle stands on a cell
    /// of the line between the two, whether the line is straight or slanted.
    pub proof fn lemma_grid_sight(self, from: int, to: int)
        requires
            self.on_grid(from),
            self.on_grid(to),
        ensures
            ({
                let x = self.x(from);
                let y = self.y(from);
                let dx = crate::map::abs(self.x(to) - x);
                let dy = crate::map::abs(self.y(to) - y);
                let sx: int = if x < self.x(to) {
                    1
                } else {
                    -1
                };
                let sy: int = if y < self.y(to) {
                    1
                } else {
                    -1
                };
                self.sees(from, to) <==> forall|a: int, b: int|
                    #![trigger on_line(dx, dy, a, b)]
                    on_line(dx, dy, a, b) && !(a == 0 && b == 0) && !(a == dx && b == dy)
                        ==> !self.blocked(x + sx * a, y + sy * b)
            }),
    {
        let dx = crate::map::abs(self.x(to) - self.x(from));
        let dy = crate::map::abs(self.y(to) - self.y(from));
        if dx > 0 || dy > 0 {
            assert(dx * 0 - dy * 0 == 0);
            assert(on_line(dx, dy, 0, 0));
            self.lemma_clear_rest(
                self.x(from),
                self.y(from),
                if self.x(from) < self.x(to) {
                    1
                } else {
                    -1
                },
                if self.y(from) < self.y(to) {
                    1
                } else {
                    -1
                },
                dx,
                dy,
                0,
                0,
            );
        }
    }
}

} // verus!
