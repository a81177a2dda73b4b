//! Area masks: the offsets that an area covers around its centre.
//!
//! The order of the offsets is part of each mask: it is the order in which an
//! attack meets its targets.

use vstd::prelude::*;

verus! {

/// The number of steps to an offset.
pub open spec fn norm(o: (int, int)) -> int {
    crate::map::abs(o.0) + crate::map::abs(o.1)
}

/// The offsets that a mask lists.
pub open spec fn offsets(cells: Seq<[i32; 2]>) -> Seq<(int, int)> {
    cells.map_values(|o: [i32; 2]| (o[0] as int, o[1] as int))
}

/// The `i`-th offset of one side of a ring; the sides follow each other from
/// the east corner.
pub open spec fn ring_offset(size: int, side: int, i: int) -> (int, int) {
    if side == 0 {
        (size - i, -i)
    } else if side == 1 {
        (-i, -(size - i))
    } else if side == 2 {
        (-(size - i), i)
    } else {
        (i, size - i)
    }
}

/// The first `n` offsets of one side of a ring.
pub open spec fn ring_side(size: int, side: int, n: int) -> Seq<(int, int)> {
    Seq::new(n as nat, |i: int| ring_offset(size, side, i))
}

/// The first `n` sides of the ring of offsets at the given distance.
pub open spec fn ring_sides(size: int, n: int) -> Seq<(int, int)>
    decreases n,
{
    if n <= 0 {
        Seq::empty()
    } else {
        ring_sides(size, n - 1) + ring_side(size, n - 1, size)
    }
}

/// The rings from one distance to another, the inner ones first.
pub open spec fn rings(min: int, max: int) -> Seq<(int, int)>
    decreases max - min + 1,
{
    if max < min {
        Seq::empty()
    } else {
        rings(min, max - 1) + ring_sides(max, 4)
    }
}

/// The offsets at a distance between `min` and `max`.
pub open spec fn circle(min: int, max: int) -> Seq<(int, int)> {
    (if min == 0 {
        seq![(0int, 0int)]
    } else {
        Seq::empty()
    }) + rings(
        if min < 1 {
            1
        } else {
            min
        },
        max,
    )
}

/// The offsets along the axes.
pub open spec fn plus(radius: int) -> Seq<(int, int)>
    decreases radius,
{
    if radius <= 0 {
        seq![(0int, 0int)]
    } else {
        plus(radius - 1).push((radius, 0int)).push((0int, -radius)).push((-radius, 0int)).push(
            (0int, radius),
        )
    }
}

/// The offsets along the diagonals.
pub open spec fn cross(radius: int) -> Seq<(int, int)>
    decreases radius,
{
    if radius <= 0 {
        seq![(0int, 0int)]
    } else {
        cross(radius - 1).push((radius, -radius)).push((-radius, -radius)).push(
            (-radius, radius),
        ).push((radius, radius))
    }
}

/// The `i`-th offset, from 0, of one side of the `d`-th layer that makes a
/// circle a square.
pub open spec fn corner_offset(radius: int, d: int, side: int, i: int) -> (int, int) {
    if side == 0 {
        (radius - i, -(d + i + 1))
    } else if side == 1 {
        (-(d + i + 1), -(radius - i))
    } else if side == 2 {
        (-(radius - i), d + i + 1)
    } else {
        (d + i + 1, radius - i)
    }
}

/// The first `n` offsets of one side of a corner layer.
pub open spec fn corner_side(radius: int, d: int, side: int, n: int) -> Seq<(int, int)> {
    Seq::new(n as nat, |i: int| corner_offset(radius, d, side, i))
}

/// The first `n` sides of a corner layer.
pub open spec fn corner_sides(radius: int, d: int, n: int) -> Seq<(int, int)>
    decreases n,
{
    if n <= 0 {
        Seq::empty()
    } else {
        corner_sides(radius, d, n - 1) + corner_side(radius, d, n - 1, radius - d)
    }
}

/// The first `n` corner layers.
pub open spec fn corners(radius: int, n: int) -> Seq<(int, int)>
    decreases n,
{
    if n <= 0 {
        Seq::empty()
    } else {
        corners(radius, n - 1) + corner_sides(radius, n - 1, 4)
    }
}

/// The offsets of a square: the circle in it, then its corners.
pub open spec fn square(radius: int) -> Seq<(int, int)> {
    circle(0, radius) + corners(radius, radius)
}

/// Whether a launch type admits an offset within the range: bit 0 along an
/// axis, bit 1 along a diagonal, bit 2 anywhere else and on the centre.
pub open spec fn launch_admits(launch_type: i32, min: int, max: int, o: (int, int)) -> bool {
    let diagonal = crate::map::abs(o.0) == crate::map::abs(o.1);
    &&& min <= norm(o) <= max
    &&& {
        ||| launch_type & 1 != 0 && (o.0 == 0 || o.1 == 0)
        ||| launch_type & 2 != 0 && diagonal
        ||| launch_type & 4 != 0 && ((o.0 == 0 && o.1 == 0) || (!diagonal && o.0 != 0 && o.1 != 0))
    }
}

/// How far from the centre the offsets of a launch type reach.
pub open spec fn launch_reach(launch_type: i32, max: int) -> int {
    if launch_type == 9 || launch_type == 10 || launch_type & 1 != 0 {
        max
    } else if launch_type & 4 != 0 {
        max - 1
    } else {
        crate::rng::trunc_div(max, 2)
    }
}

/// Whether the offsets of a launch type have coordinates that a machine
/// integer holds. Where the range is empty there are none.
pub open spec fn launch_fits(launch_type: i32, min: int, max: int) -> bool {
    min <= max ==> -0x4000_0000 <= launch_reach(launch_type, max) <= 0x3fff_ffff
}

/// The `k`-th offset of the square that reaches `len` from its centre, column
/// by column.
pub open spec fn grid_offset(len: int, k: int) -> (int, int) {
    (k / (2 * len + 1) - len, k % (2 * len + 1) - len)
}

/// The admitted ones among the first `n` offsets of a square.
pub open spec fn launch_scan(launch_type: i32, min: int, max: int, len: int, n: int) -> Seq<
    (int, int),
>
    decreases n,
{
    if n <= 0 {
        Seq::empty()
    } else if launch_admits(launch_type, min, max, grid_offset(len, n - 1)) {
        launch_scan(launch_type, min, max, len, n - 1).push(grid_offset(len, n - 1))
    } else {
        launch_scan(launch_type, min, max, len, n - 1)
    }
}

/// The offsets from which an attack of a launch type reaches its centre.
pub open spec fn launch_mask(launch_type: i32, min: int, max: int) -> Seq<(int, int)> {
    let len = launch_reach(launch_type, max);
    if min > max || len < 0 {
        Seq::empty()
    } else {
        launch_scan(launch_type, min, max, len, (2 * len + 1) * (2 * len + 1))
    }
}

/// Every offset of a ring lies at its distance, and every offset at that
/// distance is on the ring.
pub proof fn lemma_ring_exact(size: int, o: (int, int))
    requires
        size >= 1,
    ensures
        ring_sides(size, 4).contains(o) <==> norm(o) == size,
        ring_sides(size, 4).len() == 4 * size,
{
    reveal_with_fuel(ring_sides, 5);
    let s0 = ring_side(size, 0, size);
    let s1 = ring_side(size, 1, size);
    let s2 = ring_side(size, 2, size);
    let s3 = ring_side(size, 3, size);
    let all = Seq::<(int, int)>::empty() + s0 + s1 + s2 + s3;
    assert(ring_sides(size, 4) == all);
    assert forall|k: int| 0 <= k < all.len() implies norm(#[trigger] all[k]) == size by {
        if k < size {
            assert(all[k] == s0[k]);
        } else if k < 2 * size {
            assert(all[k] == s1[k - size]);
        } else if k < 3 * size {
            assert(all[k] == s2[k - 2 * size]);
        } else {
            assert(all[k] == s3[k - 3 * size]);
        }
    }
    if norm(o) == size {
        if o.0 > 0 && o.1 <= 0 {
            assert(all[-o.1] == s0[-o.1]);
            assert(all[-o.1] == o);
        } else if o.0 <= 0 && o.1 < 0 {
            assert(all[size - o.0] == s1[-o.0]);
            assert(all[size - o.0] == o);
        } else if o.0 < 0 {
            assert(all[2 * size + o.1] == s2[o.1]);
            assert(all[2 * size + o.1] == o);
        } else {
            assert(all[3 * size + o.0] == s3[o.0]);
            assert(all[3 * size + o.0] == o);
        }
    }
}

proof fn lemma_rings_exact(min: int, max: int, o: (int, int))
    requires
        1 <= min <= max + 1,
    ensures
        rings(min, max).contains(o) <==> min <= norm(o) <= max,
        rings(min, max).len() == 2 * (min + max) * (max - min + 1),
    decreases max - min + 1,
{
    if max >= min {
        lemma_rings_exact(min, max - 1, o);
        lemma_ring_exact(max, o);
        let inner = rings(min, max - 1);
        let ring = ring_sides(max, 4);
        assert(rings(min, max) == inner + ring);
        if inner.contains(o) {
            let i = choose|i: int| 0 <= i < inner.len() && inner[i] == o;
            assert((inner + ring)[i] == o);
        }
        if ring.contains(o) {
            let i = choose|i: int| 0 <= i < ring.len() && ring[i] == o;
            assert((inner + ring)[inner.len() + i] == o);
        }
        if (inner + ring).contains(o) {
            let i = choose|i: int| 0 <= i < (inner + ring).len() && (inner + ring)[i] == o;
            if i < inner.len() {
                assert(inner[i] == o);
            } else {
                assert(ring[i - inner.len()] == o);
            }
        }
        assert(2 * (min + max) * (max - min + 1) == 2 * (min + max - 1) * (max - min) + 4 * max)
            by (nonlinear_arith);
    } else {
        assert(2 * (min + max) * 0 == 0);
    }
}

/// A circle holds exactly the offsets within its range, as many as the
/// formula counts.
pub proof fn lemma_circle_exact(min: int, max: int, o: (int, int))
    requires
        0 <= min <= max,
    ensures
        circle(min, max).contains(o) <==> min <= norm(o) <= max,
        circle(min, max).len() == 2 * (min + max) * (max - min + 1) + (if min == 0 {
            1int
        } else {
            0int
        }),
{
    if min == 0 {
        lemma_rings_exact(1, max, o);
        let head = seq![(0int, 0int)];
        let tail = rings(1, max);
        assert(circle(min, max) == head + tail);
        assert((head + tail)[0] == (0int, 0int));
        if tail.contains(o) {
            let i = choose|i: int| 0 <= i < tail.len() && tail[i] == o;
            assert((head + tail)[i + 1] == o);
        }
        if (head + tail).contains(o) {
            let i = choose|i: int| 0 <= i < (head + tail).len() && (head + tail)[i] == o;
            if i > 0 {
                assert(tail[i - 1] == o);
            }
        }
        assert(2 * (1 + max) * max == 2 * (0 + max) * (max - 0 + 1)) by (nonlinear_arith);
    } else {
        lemma_rings_exact(min, max, o);
        assert(circle(min, max) =~= rings(min, max));
    }
}

/// Two lists without repetition that share nothing make one without
/// repetition.
proof fn lemma_joined_distinct(a: Seq<(int, int)>, b: Seq<(int, int)>)
    requires
        a.no_duplicates(),
        b.no_duplicates(),
        forall|i: int, j: int| 0 <= i < a.len() && 0 <= j < b.len() ==> a[i] != b[j],
    ensures
        (a + b).no_duplicates(),
{
    let c = a + b;
    assert forall|i: int, j: int| 0 <= i < c.len() && 0 <= j < c.len() && i != j implies c[i]
        != c[j] by {
        if i < a.len() {
            assert(c[i] == a[i]);
        } else {
            assert(c[i] == b[i - a.len()]);
        }
        if j < a.len() {
            assert(c[j] == a[j]);
        } else {
            assert(c[j] == b[j - a.len()]);
        }
    }
}

/// What a list that is made of two lists contains.
proof fn lemma_joined_contains(a: Seq<(int, int)>, b: Seq<(int, int)>, o: (int, int))
    ensures
        (a + b).contains(o) <==> a.contains(o) || b.contains(o),
{
    let c = a + b;
    if a.contains(o) {
        let i = choose|i: int| 0 <= i < a.len() && a[i] == o;
        assert(c[i] == o);
    }
    if b.contains(o) {
        let i = choose|i: int| 0 <= i < b.len() && b[i] == o;
        assert(c[a.len() + i] == o);
    }
    if c.contains(o) {
        let i = choose|i: int| 0 <= i < c.len() && c[i] == o;
        if i < a.len() {
            assert(a[i] == o);
        } else {
            assert(b[i - a.len()] == o);
        }
    }
}

/// Whether an offset lies on the given side of the centre; the sides follow
/// each other as those of a ring do.
spec fn on_side(o: (int, int), side: int) -> bool {
    if side == 0 {
        o.0 > 0 && o.1 <= 0
    } else if side == 1 {
        o.0 <= 0 && o.1 < 0
    } else if side == 2 {
        o.0 < 0 && o.1 >= 0
    } else {
        o.0 >= 0 && o.1 > 0
    }
}

/// The first sides of a ring lie on their sides of the centre, and repeat
/// nothing.
proof fn lemma_ring_sides_distinct(size: int, n: int)
    requires
        size >= 1,
        0 <= n <= 4,
    ensures
        ring_sides(size, n).no_duplicates(),
        forall|k: int|
            0 <= k < ring_sides(size, n).len() ==> norm(#[trigger] ring_sides(size, n)[k]) == size
                && exists|side: int| 0 <= side < n && on_side(ring_sides(size, n)[k], side),
    decreases n,
{
    if n > 0 {
        lemma_ring_sides_distinct(size, n - 1);
        let a = ring_sides(size, n - 1);
        let b = ring_side(size, n - 1, size);
        assert(ring_sides(size, n) == a + b);
        assert forall|j: int| 0 <= j < b.len() implies norm(#[trigger] b[j]) == size && on_side(
            b[j],
            n - 1,
        ) by {
            assert(b[j] == ring_offset(size, n - 1, j));
        }
        assert(b.no_duplicates()) by {
            assert forall|i: int, j: int| 0 <= i < b.len() && 0 <= j < b.len() && i != j implies
                b[i] != b[j] by {
                assert(b[i] == ring_offset(size, n - 1, i));
                assert(b[j] == ring_offset(size, n - 1, j));
            }
        }
        assert forall|i: int, j: int| 0 <= i < a.len() && 0 <= j < b.len() implies a[i]
            != b[j] by {
            let side = choose|side: int| 0 <= side < n - 1 && on_side(a[i], side);
            assert(on_side(b[j], n - 1));
        }
        lemma_joined_distinct(a, b);
        assert forall|k: int| 0 <= k < (a + b).len() implies norm(#[trigger] (a + b)[k]) == size
            && exists|side: int| 0 <= side < n && on_side((a + b)[k], side) by {
            if k < a.len() {
                assert((a + b)[k] == a[k]);
                let side = choose|side: int| 0 <= side < n - 1 && on_side(a[k], side);
                assert(on_side((a + b)[k], side));
            } else {
                assert((a + b)[k] == b[k - a.len()]);
                assert(on_side((a + b)[k], n - 1));
            }
        }
    }
}

/// Rings repeat nothing.
proof fn lemma_rings_distinct(min: int, max: int)
    requires
        1 <= min <= max + 1,
    ensures
        rings(min, max).no_duplicates(),
    decreases max - min + 1,
{
    if max >= min {
        lemma_rings_distinct(min, max - 1);
        lemma_ring_sides_distinct(max, 4);
        let a = rings(min, max - 1);
        let b = ring_sides(max, 4);
        assert forall|i: int, j: int| 0 <= i < a.len() && 0 <= j < b.len() implies a[i]
            != b[j] by {
            lemma_rings_exact(min, max - 1, a[i]);
            assert(a.contains(a[i]));
            assert(norm(b[j]) == max);
        }
        lemma_joined_distinct(a, b);
    }
}

/// A circle repeats nothing.
pub proof fn lemma_circle_distinct(min: int, max: int)
    requires
        0 <= min <= max,
    ensures
        circle(min, max).no_duplicates(),
{
    if min == 0 {
        lemma_rings_distinct(1, max);
        let head = seq![(0int, 0int)];
        let tail = rings(1, max);
        assert forall|i: int, j: int| 0 <= i < head.len() && 0 <= j < tail.len() implies head[i]
            != tail[j] by {
            lemma_rings_exact(1, max, tail[j]);
            assert(tail.contains(tail[j]));
        }
        lemma_joined_distinct(head, tail);
    } else {
        lemma_rings_distinct(min, max);
        assert(circle(min, max) =~= rings(min, max));
    }
}

/// Whether an offset lies in a square.
pub open spec fn in_square(o: (int, int), radius: int) -> bool {
    -radius <= o.0 <= radius && -radius <= o.1 <= radius
}

/// The first sides of a corner layer lie in the square, at the distance of
/// the layer and on their sides of the centre, and repeat nothing.
proof fn lemma_corner_sides(radius: int, d: int, n: int)
    requires
        0 <= d < radius,
        0 <= n <= 4,
    ensures
        corner_sides(radius, d, n).no_duplicates(),
        corner_sides(radius, d, n).len() == n * (radius - d),
        forall|o: (int, int)| #[trigger]
            corner_sides(radius, d, n).contains(o) <==> in_square(o, radius) && norm(o) == radius
                + d + 1 && exists|side: int| 0 <= side < n && on_side(o, side),
    decreases n,
{
    if n > 0 {
        lemma_corner_sides(radius, d, n - 1);
        let a = corner_sides(radius, d, n - 1);
        let b = corner_side(radius, d, n - 1, radius - d);
        assert(corner_sides(radius, d, n) == a + b);
        assert forall|o: (int, int)| #[trigger] b.contains(o) <==> in_square(o, radius) && norm(o)
            == radius + d + 1 && on_side(o, n - 1) by {
            if b.contains(o) {
                let i = choose|i: int| 0 <= i < b.len() && b[i] == o;
                assert(b[i] == corner_offset(radius, d, n - 1, i));
            }
            if in_square(o, radius) && norm(o) == radius + d + 1 && on_side(o, n - 1) {
                let i = if n == 1 {
                    radius - o.0
                } else if n == 2 {
                    radius + o.1
                } else if n == 3 {
                    radius + o.0
                } else {
                    radius - o.1
                };
                assert(b[i] == corner_offset(radius, d, n - 1, i));
                assert(b[i] == o);
            }
        }
        assert(b.no_duplicates()) by {
            assert forall|i: int, j: int| 0 <= i < b.len() && 0 <= j < b.len() && i != j implies
                b[i] != b[j] by {
                assert(b[i] == corner_offset(radius, d, n - 1, i));
                assert(b[j] == corner_offset(radius, d, n - 1, j));
            }
        }
        assert forall|i: int, j: int| 0 <= i < a.len() && 0 <= j < b.len() implies a[i]
            != b[j] by {
            assert(a.contains(a[i]));
            assert(b.contains(b[j]));
            let side = choose|side: int| 0 <= side < n - 1 && on_side(a[i], side);
            assert(on_side(b[j], n - 1));
        }
        lemma_joined_distinct(a, b);
        assert forall|o: (int, int)| #[trigger] (a + b).contains(o) <==> in_square(o, radius)
            && norm(o) == radius + d + 1 && exists|side: int| 0 <= side < n && on_side(o, side) by {
            lemma_joined_contains(a, b, o);
            assert(b.contains(o) <==> in_square(o, radius) && norm(o) == radius + d + 1
                && on_side(o, n - 1));
            if exists|side: int| 0 <= side < n && on_side(o, side) {
                let side = choose|side: int| 0 <= side < n && on_side(o, side);
                if side < n - 1 {
                    assert(on_side(o, side));
                }
            }
        }
        assert(n * (radius - d) == (n - 1) * (radius - d) + (radius - d)) by (nonlinear_arith);
    } else {
        assert(0 * (radius - d) == 0) by (nonlinear_arith);
    }
}

/// The first corner layers hold what lies in the square beyond the circle, up
/// to their distance, each offset once.
proof fn lemma_corners(radius: int, n: int)
    requires
        0 <= n <= radius,
    ensures
        corners(radius, n).no_duplicates(),
        corners(radius, n).len() == 4 * n * radius - 2 * n * (n - 1),
        forall|o: (int, int)| #[trigger]
            corners(radius, n).contains(o) <==> in_square(o, radius) && radius < norm(o) <= radius
                + n,
    decreases n,
{
    if n > 0 {
        lemma_corners(radius, n - 1);
        lemma_corner_sides(radius, n - 1, 4);
        let a = corners(radius, n - 1);
        let b = corner_sides(radius, n - 1, 4);
        assert(corners(radius, n) == a + b);
        assert forall|i: int, j: int| 0 <= i < a.len() && 0 <= j < b.len() implies a[i]
            != b[j] by {
            assert(a.contains(a[i]));
            assert(b.contains(b[j]));
        }
        lemma_joined_distinct(a, b);
        assert forall|o: (int, int)| #[trigger] (a + b).contains(o) <==> in_square(o, radius)
            && radius < norm(o) <= radius + n by {
            lemma_joined_contains(a, b, o);
            if norm(o) > 0 {
                assert(on_side(o, 0) || on_side(o, 1) || on_side(o, 2) || on_side(o, 3));
            }
        }
        assert(4 * n * radius - 2 * n * (n - 1) == 4 * (n - 1) * radius - 2 * (n - 1) * (n - 2) + 4
            * (radius - (n - 1))) by (nonlinear_arith);
    } else {
        assert(4 * n * radius - 2 * n * (n - 1) == 0) by (nonlinear_arith)
            requires
                n == 0,
        ;
    }
}

/// A square begins with the circle in it and holds every offset that is no
/// further from the centre than its radius along either axis, each one once.
pub proof fn lemma_square_exact(radius: int)
    requires
        0 <= radius,
    ensures
        circle(0, radius).is_prefix_of(square(radius)),
        square(radius).len() == (2 * radius + 1) * (2 * radius + 1),
        square(radius).no_duplicates(),
        forall|o: (int, int)| #[trigger]
            square(radius).contains(o) <==> -radius <= o.0 <= radius && -radius <= o.1 <= radius,
{
    let a = circle(0, radius);
    let b = corners(radius, radius);
    lemma_circle_distinct(0, radius);
    lemma_corners(radius, radius);
    lemma_circle_exact(0, radius, (0int, 0int));
    assert forall|i: int, j: int| 0 <= i < a.len() && 0 <= j < b.len() implies a[i] != b[j] by {
        lemma_circle_exact(0, radius, a[i]);
        assert(a.contains(a[i]));
        assert(b.contains(b[j]));
    }
    lemma_joined_distinct(a, b);
    assert forall|o: (int, int)| #[trigger] square(radius).contains(o) <==> -radius <= o.0 <= radius
        && -radius <= o.1 <= radius by {
        lemma_joined_contains(a, b, o);
        lemma_circle_exact(0, radius, o);
        assert(b.contains(o) <==> in_square(o, radius) && radius < norm(o) <= radius + radius);
    }
    assert(2 * (0 + radius) * (radius - 0 + 1) + 1 + 4 * radius * radius - 2 * radius * (radius
        - 1) == (2 * radius + 1) * (2 * radius + 1)) by (nonlinear_arith);
}

/// A plus holds exactly the offsets along an axis that are not farther than
/// its radius, each once.
pub proof fn lemma_plus_exact(radius: int, o: (int, int))
    requires
        radius >= 0,
    ensures
        plus(radius).contains(o) <==> (o.0 == 0 || o.1 == 0) && norm(o) <= radius,
        plus(radius).len() == 4 * radius + 1,
    decreases radius,
{
    if radius <= 0 {
        assert(plus(radius)[0] == (0int, 0int));
    } else {
        lemma_plus_exact(radius - 1, o);
        let inner = plus(radius - 1);
        let outer = seq![(radius, 0int), (0int, -radius), (-radius, 0int), (0int, radius)];
        assert(plus(radius) =~= inner + outer);
        lemma_joined_contains(inner, outer, o);
        assert(outer[0] == (radius, 0int));
        assert(outer[1] == (0int, -radius));
        assert(outer[2] == (-radius, 0int));
        assert(outer[3] == (0int, radius));
    }
}

/// A cross holds exactly the offsets along a diagonal whose coordinates are
/// not greater than its radius, each once.
pub proof fn lemma_cross_exact(radius: int, o: (int, int))
    requires
        radius >= 0,
    ensures
        cross(radius).contains(o) <==> crate::map::abs(o.0) == crate::map::abs(o.1)
            && crate::map::abs(o.0) <= radius,
        cross(radius).len() == 4 * radius + 1,
    decreases radius,
{
    if radius <= 0 {
        assert(cross(radius)[0] == (0int, 0int));
    } else {
        lemma_cross_exact(radius - 1, o);
        let inner = cross(radius - 1);
        let outer = seq![(radius, -radius), (-radius, -radius), (-radius, radius), (radius, radius)];
        assert(cross(radius) =~= inner + outer);
        lemma_joined_contains(inner, outer, o);
        assert(outer[0] == (radius, -radius));
        assert(outer[1] == (-radius, -radius));
        assert(outer[2] == (-radius, radius));
        assert(outer[3] == (radius, radius));
    }
}

/// The scan of a square keeps the admitted offsets among those it has met.
proof fn lemma_scan_keeps(launch_type: i32, min: int, max: int, len: int, n: int, o: (int, int))
    ensures
        launch_scan(launch_type, min, max, len, n).contains(o) <==> launch_admits(
            launch_type,
            min,
            max,
            o,
        ) && exists|k: int| 0 <= k < n && #[trigger] grid_offset(len, k) == o,
    decreases n,
{
    let all = launch_scan(launch_type, min, max, len, n);
    if n > 0 {
        lemma_scan_keeps(launch_type, min, max, len, n - 1, o);
        let before = launch_scan(launch_type, min, max, len, n - 1);
        let last = grid_offset(len, n - 1);
        if launch_admits(launch_type, min, max, last) {
            assert(all =~= before + seq![last]);
            lemma_joined_contains(before, seq![last], o);
            assert(seq![last][0] == last);
        } else {
            assert(all == before);
        }
        if exists|k: int| 0 <= k < n - 1 && #[trigger] grid_offset(len, k) == o {
            let k = choose|k: int| 0 <= k < n - 1 && #[trigger] grid_offset(len, k) == o;
            assert(0 <= k < n && grid_offset(len, k) == o);
        }
    }
}

/// Every offset of a square has its place in the scan.
proof fn lemma_grid_place(len: int, o: (int, int))
    requires
        -len <= o.0 <= len,
        -len <= o.1 <= len,
    ensures
        exists|k: int|
            0 <= k < (2 * len + 1) * (2 * len + 1) && #[trigger] grid_offset(len, k) == o,
{
    let w = 2 * len + 1;
    let q = o.0 + len;
    let r = o.1 + len;
    let k = q * w + r;
    vstd::arithmetic::div_mod::lemma_fundamental_div_mod_converse(k, w, q, r);
    assert(0 <= k < w * w) by (nonlinear_arith)
        requires
            k == q * w + r,
            0 <= q < w,
            0 <= r < w,
    ;
    assert(grid_offset(len, k) == o);
}

/// A launch type reaches exactly the offsets within the range that lie along
/// an axis, with its first bit, along a diagonal, with its second, or on
/// neither or on the centre, with its third.
pub proof fn lemma_launch_exact(launch_type: i32, min: int, max: int, o: (int, int))
    requires
        max >= 1,
    ensures
        launch_mask(launch_type, min, max).contains(o) <==> {
            let x = crate::map::abs(o.0);
            let y = crate::map::abs(o.1);
            &&& min <= x + y <= max
            &&& {
                ||| launch_type & 1 != 0 && (x == 0 || y == 0)
                ||| launch_type & 2 != 0 && x == y
                ||| launch_type & 4 != 0 && x + y == 0
                ||| launch_type & 4 != 0 && x != y && x > 0 && y > 0
            }
        },
{
    let len = launch_reach(launch_type, max);
    if min > max {
        assert(!launch_mask(launch_type, min, max).contains(o));
    } else {
        assert(0 <= len);
        lemma_scan_keeps(launch_type, min, max, len, (2 * len + 1) * (2 * len + 1), o);
        if launch_admits(launch_type, min, max, o) {
            assert(2 * crate::rng::trunc_div(max, 2) >= max - 1);
            lemma_grid_place(len, o);
        }
    }
}

/// Appends an offset.
fn put(cells: &mut Vec<[i32; 2]>, x: i32, y: i32)
    ensures
        offsets(final(cells)@) == offsets(old(cells)@).push((x as int, y as int)),
{
    cells.push([x, y]);
    assert(offsets(cells@) =~= offsets(old(cells)@).push((x as int, y as int)));
}

/// The offsets of a circle: the centre where `min` is 0, then each ring from
/// the inside out.
pub(crate) fn circle_offsets(min: i32, max: i32) -> (cells: Vec<[i32; 2]>)
    requires
        min <= max < i32::MAX,
    ensures
        offsets(cells@) == circle(min as int, max as int),
{
    let mut cells: Vec<[i32; 2]> = Vec::new();
    assert(offsets(cells@) =~= Seq::<(int, int)>::empty());
    if min == 0 {
        put(&mut cells, 0, 0);
        assert(offsets(cells@) =~= seq![(0int, 0int)]);
    }
    let first: i32 = if min < 1 {
        1
    } else {
        min
    };
    let ghost head = offsets(cells@);
    proof {
        assert(head + rings(first as int, first - 1) =~= head);
    }
    let mut size: i32 = first;
    while size <= max
        invariant
            1 <= first <= size,
            size <= max + 1 || size == first,
            max < i32::MAX,
            offsets(cells@) == head + rings(first as int, size - 1),
        decreases max + 1 - size,
    {
        let ghost inner = offsets(cells@);
        let mut side: i32 = 0;
        while side < 4
            invariant
                1 <= size < i32::MAX,
                0 <= side <= 4,
                offsets(cells@) == inner + ring_sides(size as int, side as int),
            decreases 4 - side,
        {
            let ghost before = offsets(cells@);
            let mut i: i32 = 0;
            assert(before + ring_side(size as int, side as int, 0) =~= before);
            while i < size
                invariant
                    1 <= size < i32::MAX,
                    0 <= side < 4,
                    0 <= i <= size,
                    offsets(cells@) == before + ring_side(size as int, side as int, i as int),
                decreases size - i,
            {
                if side == 0 {
                    put(&mut cells, size - i, -i);
                } else if side == 1 {
                    put(&mut cells, -i, -(size - i));
                } else if side == 2 {
                    put(&mut cells, -(size - i), i);
                } else {
                    put(&mut cells, i, size - i);
                }
                assert(offsets(cells@) =~= before + ring_side(size as int, side as int, i + 1));
                i += 1;
            }
            side += 1;
            assert(offsets(cells@) =~= inner + ring_sides(size as int, side as int));
        }
        assert(offsets(cells@) =~= head + rings(first as int, size as int));
        size += 1;
    }
    assert(max < first ==> rings(first as int, max as int) =~= rings(first as int, size - 1));
    cells
}

/// The mask of a circle: the centre where `min` is 0, then each ring from the
/// inside out. None where the range is empty.
#[must_use]
pub fn generate_circle_mask(min: i32, max: i32) -> (mask: Option<Vec<[i32; 2]>>)
    requires
        min <= max ==> {
            &&& 0 <= min + max
            &&& max - min < i32::MAX
            &&& 2 * (min + max) * (max - min + 1) < i32::MAX
        },
    ensures
        mask is None <==> min > max,
        mask matches Some(cells) ==> offsets(cells@) == circle(min as int, max as int),
{
    if min > max {
        return None;
    }
    proof {
        assert(max < i32::MAX) by (nonlinear_arith)
            requires
                min <= max,
                0 <= min + max,
                max - min < i32::MAX,
                2 * (min + max) * (max - min + 1) < i32::MAX,
                max <= i32::MAX,
        {
            if max == i32::MAX {
                assert(min + max >= i32::MAX);
                assert(2 * (min + max) * (max - min + 1) >= 2 * (min + max));
            }
        }
    }
    Some(circle_offsets(min, max))
}

/// How far from the centre the offsets of a launch type reach.
pub(crate) fn reach_of_launch(launch_type: i32, max: i32) -> (reach: i64)
    ensures
        reach == launch_reach(launch_type, max as int),
{
    if launch_type == 9 || launch_type == 10 || (launch_type & 1) != 0 {
        max as i64
    } else if (launch_type & 4) != 0 {
        max as i64 - 1
    } else {
        (max / 2) as i64
    }
}

/// Whether a launch type admits an offset within the range.
pub(crate) fn does_launch_admit(launch_type: i32, min: i32, max: i32, x: i32, y: i32) -> (b: bool)
    requires
        -0x3fff_ffff <= x <= 0x3fff_ffff,
        -0x3fff_ffff <= y <= 0x3fff_ffff,
    ensures
        b == launch_admits(launch_type, min as int, max as int, (x as int, y as int)),
{
    let steps: i32 = crate::map::abs32(x) + crate::map::abs32(y);
    let diagonal: bool = crate::map::abs32(x) == crate::map::abs32(y);
    let in_range: bool = steps <= max && steps >= min;
    let admitted: bool = ((launch_type & 1) != 0 && (x == 0 || y == 0)) || ((launch_type & 2) != 0
        && diagonal) || ((launch_type & 4) != 0 && ((x == 0 && y == 0) || (!diagonal && x != 0 && y
        != 0)));
    in_range && admitted
}

/// The offsets from which an attack of a launch type reaches its centre; none
/// where the range is empty.
#[must_use]
pub fn generate_mask(launch_type: i32, min: i32, max: i32) -> (mask: Vec<[i32; 2]>)
    requires
        launch_fits(launch_type, min as int, max as int),
    ensures
        offsets(mask@) == launch_mask(launch_type, min as int, max as int),
{
    let mut cells: Vec<[i32; 2]> = Vec::new();
    assert(offsets(cells@) =~= Seq::<(int, int)>::empty());
    if min > max {
        return cells;
    }
    let len: i32 = reach_of_launch(launch_type, max) as i32;
    if len < 0 {
        return cells;
    }
    let side: i64 = 2 * len as i64 + 1;
    proof {
        assert(1 <= side * side <= 0x4000_0000_0000_0000) by (nonlinear_arith)
            requires
                1 <= side <= 0x7fff_ffff,
        ;
    }
    let mut k: i64 = 0;
    while k < side * side
        invariant
            0 <= len <= 0x3fff_ffff,
            side == 2 * len + 1,
            0 <= k <= side * side <= 0x4000_0000_0000_0000,
            offsets(cells@) == launch_scan(
                launch_type,
                min as int,
                max as int,
                len as int,
                k as int,
            ),
        decreases side * side - k,
    {
        proof {
            assert(0 <= k / side < side) by (nonlinear_arith)
                requires
                    0 <= k < side * side,
                    side >= 1,
            ;
        }
        let x: i32 = (k / side) as i32 - len;
        let y: i32 = (k % side) as i32 - len;
        assert(grid_offset(len as int, k as int) == (x as int, y as int));
        if does_launch_admit(launch_type, min, max, x, y) {
            put(&mut cells, x, y);
        }
        k += 1;
    }
    cells
}

/// The mask of a plus.
#[must_use]
pub fn generate_plus_mask(radius: i32) -> (mask: Vec<[i32; 2]>)
    requires
        0 <= radius,
        1 + radius * 4 <= i32::MAX,
    ensures
        offsets(mask@) == plus(radius as int),
{
    let mut cells: Vec<[i32; 2]> = Vec::new();
    put(&mut cells, 0, 0);
    assert(offsets(cells@) =~= seq![(0int, 0int)]);
    let mut size: i32 = 0;
    while size < radius
        invariant
            0 <= size <= radius < i32::MAX,
            offsets(cells@) == plus(size as int),
        decreases radius - size,
    {
        size += 1;
        put(&mut cells, size, 0);
        put(&mut cells, 0, -size);
        put(&mut cells, -size, 0);
        put(&mut cells, 0, size);
    }
    cells
}

/// The mask of a diagonal cross.
#[must_use]
pub fn generate_x_mask(radius: i32) -> (mask: Vec<[i32; 2]>)
    requires
        0 <= radius,
        1 + radius * 4 <= i32::MAX,
    ensures
        offsets(mask@) == cross(radius as int),
{
    let mut cells: Vec<[i32; 2]> = Vec::new();
    put(&mut cells, 0, 0);
    assert(offsets(cells@) =~= seq![(0int, 0int)]);
    let mut size: i32 = 0;
    while size < radius
        invariant
            0 <= size <= radius < i32::MAX,
            offsets(cells@) == cross(size as int),
        decreases radius - size,
    {
        size += 1;
        put(&mut cells, size, -size);
        put(&mut cells, -size, -size);
        put(&mut cells, -size, size);
        put(&mut cells, size, size);
    }
    cells
}

/// The mask of a square: the circle in it, then its corners.
#[must_use]
pub fn generate_square_mask(radius: i32) -> (mask: Vec<[i32; 2]>)
    requires
        0 <= radius,
        (1 + 2 * radius) * (1 + 2 * radius) <= i32::MAX,
    ensures
        offsets(mask@) == square(radius as int),
{
    proof {
        assert(2 * radius * (radius + 1) < i32::MAX) by (nonlinear_arith)
            requires
                0 <= radius,
                (1 + 2 * radius) * (1 + 2 * radius) <= i32::MAX,
        ;
        assert(2 * (0 + radius) * (radius - 0 + 1) == 2 * radius * (radius + 1));
        assert(radius < 0x10000) by (nonlinear_arith)
            requires
                0 <= radius,
                (1 + 2 * radius) * (1 + 2 * radius) <= i32::MAX,
        ;
    }
    let mut cells: Vec<[i32; 2]> = match generate_circle_mask(0, radius) {
        Some(circle) => circle,
        None => Vec::new(),
    };
    let ghost head = offsets(cells@);
    assert(head + corners(radius as int, 0) =~= head);
    let mut d: i32 = 0;
    while d < radius
        invariant
            0 <= d <= radius < 0x10000,
            offsets(cells@) == head + corners(radius as int, d as int),
        decreases radius - d,
    {
        let ghost inner = offsets(cells@);
        let mut side: i32 = 0;
        while side < 4
            invariant
                0 <= d < radius < 0x10000,
                0 <= side <= 4,
                offsets(cells@) == inner + corner_sides(radius as int, d as int, side as int),
            decreases 4 - side,
        {
            let ghost before = offsets(cells@);
            assert(before + corner_side(radius as int, d as int, side as int, 0) =~= before);
            let mut i: i32 = 0;
            while i < radius - d
                invariant
                    0 <= d < radius < 0x10000,
                    0 <= side < 4,
                    0 <= i <= radius - d,
                    offsets(cells@) == before + corner_side(
                        radius as int,
                        d as int,
                        side as int,
                        i as int,
                    ),
                decreases radius - d - i,
            {
                if side == 0 {
                    put(&mut cells, radius - i, -(d + i + 1));
                } else if side == 1 {
                    put(&mut cells, -(d + i + 1), -(radius - i));
                } else if side == 2 {
                    put(&mut cells, -(radius - i), d + i + 1);
                } else {
                    put(&mut cells, d + i + 1, radius - i);
                }
                assert(offsets(cells@) =~= before + corner_side(
                    radius as int,
                    d as int,
                    side as int,
                    i + 1,
                ));
                i += 1;
            }
            side += 1;
            assert(offsets(cells@) =~= inner + corner_sides(radius as int, d as int, side as int));
        }
        d += 1;
        assert(offsets(cells@) =~= head + corners(radius as int, d as int));
    }
    cells
}

} // verus!
