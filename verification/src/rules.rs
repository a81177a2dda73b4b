//! The rules of use: when a weapon or a chip may be used, whom its lines may
//! hit, which cells an area covers, and where pushes and pulls lead.

use crate::assault::UseSpec;
use crate::attack::{Area, EffectParams, EffectType};
use crate::fight::FightView;
use crate::fighter::FighterView;
use crate::map::Board;
use crate::world::{ChipSpec, EffectView, WeaponSpec, World};
use vstd::prelude::*;

verus! {

/// Whether an attack of a range and a launch type reaches so many columns and
/// rows away: along an axis with the first bit, along a diagonal with the
/// second, elsewhere with the third; its own cell in any case.
pub open spec fn reaches(columns: int, rows: int, min: int, max: int, launch_type: i32) -> bool {
    let dx = crate::map::abs(columns);
    let dy = crate::map::abs(rows);
    &&& min <= dx + dy <= max
    &&& {
        ||| dx == 0 && dy == 0
        ||| dx == 0 && dy > 0 && launch_type & 1 != 0
        ||| dy == 0 && dx > 0 && launch_type & 1 != 0
        ||| dx == dy && dx > 0 && launch_type & 2 != 0
        ||| dx != dy && dx > 0 && dy > 0 && launch_type & 4 != 0
    }
}

/// The reach of an attack goes by columns and rows alone.
pub proof fn lemma_reach(b: Board, from: int, to: int, min: int, max: int, launch_type: i32)
    requires
        b.wf(),
        b.has(from),
        b.has(to),
    ensures
        b.in_range(from, to, min, max, launch_type) <==> reaches(
            b.x(to) - b.x(from),
            b.y(to) - b.y(from),
            min,
            max,
            launch_type,
        ),
{
    if b.x(from) == b.x(to) && b.y(from) == b.y(to) {
        b.lemma_coords_unique(from, to);
    }
}

/// A weapon may be used exactly by the fighter whose turn it is, with as many
/// turn points as it costs, not more often in a turn than it allows, on a cell
/// that it reaches and, where it needs that, sees.
pub proof fn lemma_weapon_may_be_used(
    w: World,
    fid: int,
    from: usize,
    target: int,
    weapon: i32,
    spec: WeaponSpec,
)
    requires
        w.board.wf(),
        w.board.has(from as int),
        w.board.has(target),
        w.fighters[fid].cell == Some(from),
        w.fighters[fid].weapon == Some(weapon),
        w.weapon_specs.contains_key(weapon),
        w.weapon_specs[weapon] == spec,
        !(spec.area is FirstInLine),
    ensures
        w.weapon_refusal(fid, target) is None <==> {
            let f = w.fighters[fid];
            &&& w.order.current() == Some(fid as usize)
            &&& spec.cost <= f.tp()
            &&& spec.max_uses == -1 || f.uses(spec.id) < spec.max_uses
            &&& reaches(
                w.board.x(target) - w.board.x(from as int),
                w.board.y(target) - w.board.y(from as int),
                spec.min_range as int,
                spec.max_range as int,
                spec.launch_type,
            )
            &&& spec.needs_los ==> w.board.sees(from as int, target, seq![from])
        },
{
    lemma_reach(
        w.board,
        from as int,
        target,
        spec.min_range as int,
        spec.max_range as int,
        spec.launch_type,
    );
}

/// A chip may be used exactly by the fighter whose turn it is, with as many
/// turn points as it costs, when it does not cool down, not more often in a
/// turn than it allows, on a cell without an obstacle that it reaches and,
/// where it needs that, sees; one that teleports only onto a free cell.
pub proof fn lemma_chip_may_be_used(
    w: World,
    fid: int,
    from: usize,
    target: usize,
    chip: i32,
    spec: ChipSpec,
)
    requires
        w.board.wf(),
        w.board.has(from as int),
        w.board.has(target as int),
        w.fighters[fid].cell == Some(from),
        w.fighters[fid].tp() >= 0,
        w.chip_specs.contains_key(chip),
        w.chip_specs[chip] == spec,
        !(spec.area is FirstInLine),
    ensures
        w.chip_refusal(fid, target, chip) is None <==> {
            let f = w.fighters[fid];
            &&& w.order.current() == Some(fid as usize)
            &&& spec.cost <= f.tp()
            &&& !(if spec.team_cooldown {
                w.teams[f.team as int].cooldowns.contains_key(spec.id)
            } else {
                f.cooldowns.contains_key(spec.id)
            })
            &&& spec.max_uses == -1 || f.uses(spec.id) < spec.max_uses
            &&& w.board.walkable(target as int)
            &&& reaches(
                w.board.x(target as int) - w.board.x(from as int),
                w.board.y(target as int) - w.board.y(from as int),
                spec.min_range as int,
                spec.max_range as int,
                spec.launch_type,
            )
            &&& spec.needs_los ==> w.board.sees(from as int, target as int, seq![from])
            &&& crate::cast::first_line(spec.effects@, EffectType::Teleport) is Some
                ==> w.entity_on(target) is None
        },
{
    lemma_reach(
        w.board,
        from as int,
        target as int,
        spec.min_range as int,
        spec.max_range as int,
        spec.launch_type,
    );
}

/// A use takes its turn points and counts as one use of the item.
pub proof fn lemma_use_is_paid(f: FighterView, cost: i32, item: i32, other: i32)
    requires
        i32::MIN <= f.used_tp + cost <= i32::MAX,
        i32::MIN <= f.stat(crate::fighter::STAT_TP as int) - f.used_tp <= i32::MAX,
        i32::MIN <= f.stat(crate::fighter::STAT_TP as int) - f.used_tp - cost <= i32::MAX,
        f.uses(item) < i32::MAX,
        other != item,
    ensures
        ({
            let after = f.tp_used(cost).item_used(item);
            &&& after.tp() == f.tp() - cost
            &&& after.mp() == f.mp()
            &&& after.life == f.life
            &&& after.uses(item) == f.uses(item) + 1
            &&& after.uses(other) == f.uses(other)
        }),
{
}

/// Whom a line may hit: enemies with the first bit of its targets, allies with
/// the second, the caster itself with the second and the third, and nobody
/// without the fourth.
pub proof fn lemma_line_hits(targets: i32, caster: FighterView, target: FighterView)
    requires
        caster.fid == target.fid ==> caster.team == target.team,
    ensures
        crate::strike::may_hit(targets, caster, target) <==> targets & 8 == 8 && if caster.fid
            == target.fid {
            targets & 2 == 2 && targets & 4 == 4
        } else if caster.team == target.team {
            targets & 2 == 2
        } else {
            targets & 1 == 1
        },
{
}

/// A shape around a centre covers exactly the cells without an obstacle that
/// lie by one of its offsets from the centre.
pub proof fn lemma_shape_covers(b: Board, center: int, shape: Seq<(int, int)>, c: usize)
    requires
        b.wf(),
        b.has(center),
        b.has(c as int),
    ensures
        b.shaped(center, shape).contains(c) <==> b.walkable(c as int) && shape.contains(
            (b.x(c as int) - b.x(center), b.y(c as int) - b.y(center)),
        ),
    decreases shape.len(),
{
    let offset = (b.x(c as int) - b.x(center), b.y(c as int) - b.y(center));
    if shape.len() > 0 {
        let rest = shape.drop_last();
        let last = shape.last();
        lemma_shape_covers(b, center, rest, c);
        assert(shape =~= rest.push(last));
        lemma_pushed(rest, last, offset);
        b.lemma_coords(c as int);
        let before = b.shaped(center, rest);
        match b.step(center, last.0, last.1) {
            Some(d) => {
                b.lemma_at(b.x(center) + last.0, b.y(center) + last.1);
                if d == c {
                    assert(last == offset);
                } else if last == offset {
                    assert(b.at(b.x(c as int), b.y(c as int)) == Some(c));
                }
                if b.walkable(d as int) {
                    lemma_pushed(before, d, c);
                }
            },
            None => {},
        }
    }
}

/// What a longer list contains.
proof fn lemma_pushed<T>(list: Seq<T>, last: T, x: T)
    ensures
        list.push(last).contains(x) <==> list.contains(x) || last == x,
{
    let longer = list.push(last);
    if list.contains(x) {
        let i = choose|i: int| 0 <= i < list.len() && list[i] == x;
        assert(longer[i] == x);
    }
    assert(longer[list.len() as int] == last);
    if longer.contains(x) {
        let i = choose|i: int| 0 <= i < longer.len() && longer[i] == x;
        if i < list.len() {
            assert(list[i] == x);
        }
    }
}

/// An area of a fixed shape around a target covers the cells without an
/// obstacle: those within so many steps, along the axes, along the diagonals,
/// or within so many columns and rows.
pub proof fn lemma_area_covers(
    w: World,
    area: Area,
    caster: int,
    launch: int,
    target: int,
    min: int,
    max: int,
    los: bool,
    c: usize,
)
    requires
        w.board.wf(),
        w.board.has(target),
        w.board.has(c as int),
    ensures
        ({
            let cells = w.area_cells(area, caster, launch, target, min, max, los);
            let dx = crate::map::abs(w.board.x(c as int) - w.board.x(target));
            let dy = crate::map::abs(w.board.y(c as int) - w.board.y(target));
            let open = w.board.walkable(c as int);
            &&& area is SingleCell ==> (cells.contains(c) <==> c == target)
            &&& area is Circle1 ==> (cells.contains(c) <==> open && dx + dy <= 1)
            &&& area is Circle2 ==> (cells.contains(c) <==> open && dx + dy <= 2)
            &&& area is Circle3 ==> (cells.contains(c) <==> open && dx + dy <= 3)
            &&& area is Plus2 ==> (cells.contains(c) <==> open && (dx == 0 || dy == 0) && dx + dy
                <= 2)
            &&& area is Plus3 ==> (cells.contains(c) <==> open && (dx == 0 || dy == 0) && dx + dy
                <= 3)
            &&& area is X1 ==> (cells.contains(c) <==> open && dx == dy && dx <= 1)
            &&& area is X2 ==> (cells.contains(c) <==> open && dx == dy && dx <= 2)
            &&& area is X3 ==> (cells.contains(c) <==> open && dx == dy && dx <= 3)
            &&& area is Square1 ==> (cells.contains(c) <==> open && dx <= 1 && dy <= 1)
            &&& area is Square2 ==> (cells.contains(c) <==> open && dx <= 2 && dy <= 2)
        }),
{
    let x = w.board.x(c as int) - w.board.x(target);
    let y = w.board.y(c as int) - w.board.y(target);
    crate::attack::lemma_area_cells(area, x, y);
    match area.shape() {
        Some(shape) => {
            lemma_shape_covers(w.board, target, shape, c);
        },
        None => {
            crate::map::lemma_cell_count_limit(w.board);
            assert(seq![target as usize][0] == target as usize);
        },
    }
}

/// The areas of all enemies and of all allies are where those stand.
pub proof fn lemma_team_stands(fighters: Seq<FighterView>, team: usize, own: bool, c: usize)
    ensures
        crate::strike::team_cells(fighters, team, own).contains(c) <==> exists|i: int|
            {
                &&& 0 <= i < fighters.len()
                &&& (#[trigger] fighters[i]).cell == Some(c)
                &&& own <==> fighters[i].team == team
            },
    decreases fighters.len(),
{
    if fighters.len() > 0 {
        let rest = fighters.drop_last();
        let f = fighters.last();
        lemma_team_stands(rest, team, own, c);
        let before = crate::strike::team_cells(rest, team, own);
        if f.cell is Some && (f.team == team) == own {
            lemma_pushed(before, f.cell.unwrap(), c);
        }
        if before.contains(c) {
            let i = choose|i: int|
                {
                    &&& 0 <= i < rest.len()
                    &&& (#[trigger] rest[i]).cell == Some(c)
                    &&& own <==> rest[i].team == team
                };
            assert(fighters[i] == rest[i]);
        }
        if exists|i: int|
            {
                &&& 0 <= i < fighters.len()
                &&& (#[trigger] fighters[i]).cell == Some(c)
                &&& own <==> fighters[i].team == team
            } {
            let i = choose|i: int|
                {
                    &&& 0 <= i < fighters.len()
                    &&& (#[trigger] fighters[i]).cell == Some(c)
                    &&& own <==> fighters[i].team == team
                };
            if i < rest.len() {
                assert(rest[i] == fighters[i]);
            }
        }
    }
}

/// A beam covers a cell exactly when the cell lies on its line at a distance
/// within the range, and all cells of the beam up to it are on the board and,
/// where the beam needs sight, without an obstacle.
pub proof fn lemma_beam_covers(
    b: Board,
    from: int,
    dx: int,
    dy: int,
    first: int,
    last: int,
    los: bool,
    c: usize,
)
    ensures
        b.beam(from, dx, dy, first, last, los).contains(c) <==> exists|k: int|
            {
                &&& first <= k <= last
                &&& #[trigger] b.ray(from, dx, dy, k) == Some(c)
                &&& forall|j: int|
                    first <= j <= k ==> (#[trigger] b.ray(from, dx, dy, j)) is Some && (los
                        ==> b.walkable(b.ray(from, dx, dy, j).unwrap() as int))
            },
    decreases last - first + 1,
{
    let all = b.beam(from, dx, dy, first, last, los);
    if first <= last {
        match b.ray(from, dx, dy, first) {
            Some(d) => if los && !b.walkable(d as int) {
                assert(b.ray(from, dx, dy, first) is Some);
            } else {
                lemma_beam_covers(b, from, dx, dy, first + 1, last, los, c);
                let rest = b.beam(from, dx, dy, first + 1, last, los);
                assert(all == seq![d] + rest);
                assert(all[0] == d);
                if all.contains(c) {
                    let i = choose|i: int| 0 <= i < all.len() && all[i] == c;
                    if i == 0 {
                        assert(b.ray(from, dx, dy, first) == Some(c));
                    } else {
                        assert(rest[i - 1] == c);
                        let k = choose|k: int|
                            {
                                &&& first + 1 <= k <= last
                                &&& #[trigger] b.ray(from, dx, dy, k) == Some(c)
                                &&& forall|j: int|
                                    first + 1 <= j <= k ==> (#[trigger] b.ray(from, dx, dy, j))
                                        is Some && (los ==> b.walkable(
                                        b.ray(from, dx, dy, j).unwrap() as int,
                                    ))
                            };
                        assert(b.ray(from, dx, dy, k) == Some(c));
                    }
                }
                if rest.contains(c) {
                    let i = choose|i: int| 0 <= i < rest.len() && rest[i] == c;
                    assert(all[i + 1] == c);
                }
            },
            None => {
                assert(b.ray(from, dx, dy, first) is None);
            },
        }
    }
}

/// A push moves an entity only straight away from the caster, over free cells:
/// so many steps further, in columns, rows or both.
pub proof fn lemma_push_leads_away(b: Board, entity: int, target: int, caster: int)
    requires
        b.wf(),
        b.has(entity),
        b.has(target),
        b.has(caster),
    ensures
        b.push_goal(entity, target, caster) matches Some(end) ==> b.has(end as int) && b.distance(
            caster,
            end as int,
        ) >= b.distance(caster, entity) && (end != entity ==> b.free(end as int) && b.distance(
            caster,
            end as int,
        ) > b.distance(caster, entity)),
{
    let d = b.heading(entity, target);
    if b.heading(caster, entity) == d {
        lemma_slide_ends(b, entity, target, d.0, d.1);
        if exists|k: int| #[trigger] b.slide_stops(entity, target, d.0, d.1, k) {
            let k = choose|k: int| #[trigger] b.slide_stops(entity, target, d.0, d.1, k);
            assert(k * 1 == k);
            assert(k * -1 == -k);
            assert(k * 0 == 0);
            let end = b.slide_goal(entity, target, d.0, d.1).unwrap() as int;
            if d.0 == 0 && d.1 == 0 {
                b.lemma_coords_unique(end, entity);
            }
            if k == 0 {
                assert(end == entity);
            } else {
                assert(k * d.0 == if d.0 == 0 {
                    0
                } else if d.0 == 1 {
                    k
                } else {
                    -k
                });
                assert(k * d.1 == if d.1 == 0 {
                    0
                } else if d.1 == 1 {
                    k
                } else {
                    -k
                });
            }
        }
    } else {
        crate::map::lemma_cell_count_limit(b);
    }
}

/// Where a slide that ends, ends: so many steps along its direction.
proof fn lemma_slide_ends(b: Board, c: int, target: int, dx: int, dy: int)
    requires
        b.wf(),
        b.has(c),
    ensures
        (exists|k: int| #[trigger] b.slide_stops(c, target, dx, dy, k)) ==> {
            let k = choose|k: int| #[trigger] b.slide_stops(c, target, dx, dy, k);
            &&& k >= 0
            &&& b.slide_goal(c, target, dx, dy) matches Some(end)
            &&& b.has(end as int)
            &&& b.x(end as int) == b.x(c) + k * dx
            &&& b.y(end as int) == b.y(c) + k * dy
            &&& k == 0 ==> end == c
            &&& k >= 1 ==> b.free(end as int)
        },
{
    if exists|k: int| #[trigger] b.slide_stops(c, target, dx, dy, k) {
        let k = choose|k: int| #[trigger] b.slide_stops(c, target, dx, dy, k);
        if k == 0 {
            assert(0 * dx == 0 && 0 * dy == 0);
            b.lemma_coords(c);
            crate::map::lemma_cell_count_limit(b);
        } else {
            b.lemma_slide_lands_free(c, target, dx, dy, k);
            b.lemma_at(b.x(c) + k * dx, b.y(c) + k * dy);
        }
    }
}

/// A pull moves an entity only in the direction of the caster, over free
/// cells.
pub proof fn lemma_pull_leads_near(b: Board, entity: int, target: int, caster: int)
    requires
        b.wf(),
        b.has(entity),
        b.has(target),
        b.has(caster),
    ensures
        b.attract_goal(entity, target, caster) matches Some(end) ==> b.has(end as int) && (end
            != entity ==> {
            &&& b.free(end as int)
            &&& b.x(caster) > b.x(entity) ==> b.x(end as int) > b.x(entity)
            &&& b.x(caster) < b.x(entity) ==> b.x(end as int) < b.x(entity)
            &&& b.x(caster) == b.x(entity) ==> b.x(end as int) == b.x(entity)
            &&& b.y(caster) > b.y(entity) ==> b.y(end as int) > b.y(entity)
            &&& b.y(caster) < b.y(entity) ==> b.y(end as int) < b.y(entity)
            &&& b.y(caster) == b.y(entity) ==> b.y(end as int) == b.y(entity)
        }),
{
    let d = b.heading(entity, target);
    if b.heading(entity, caster) == d {
        lemma_slide_ends(b, entity, target, d.0, d.1);
        if exists|k: int| #[trigger] b.slide_stops(entity, target, d.0, d.1, k) {
            let k = choose|k: int| #[trigger] b.slide_stops(entity, target, d.0, d.1, k);
            assert(k * 1 == k);
            assert(k * -1 == -k);
            assert(k * 0 == 0);
        }
    } else {
        crate::map::lemma_cell_count_limit(b);
    }
}

/// On a plain grid an item may be used exactly on an entity within its range,
/// in sight where it needs that, when it does not wait and was not used too
/// often, with as many turn points as it costs.
pub proof fn lemma_item_may_be_used(
    f: FightView,
    spec: UseSpec,
    caster: i64,
    target: i64,
    from: i64,
    to: i64,
)
    requires
        f.cell_of(caster) == Some(from),
        f.cell_of(target) == Some(to),
        f.on_grid(from as int),
        f.on_grid(to as int),
    ensures
        f.refusal(spec, caster, target) is None <==> {
            let steps = crate::map::abs(f.x(to as int) - f.x(from as int)) + crate::map::abs(
                f.y(to as int) - f.y(from as int),
            );
            let e = f.entity(caster).unwrap();
            &&& spec.min_range <= steps <= spec.max_range
            &&& spec.los ==> f.sees(from as int, to as int)
            &&& !(e.item_cooldowns.contains_key(spec.item) && e.item_cooldowns[spec.item] > 0)
            &&& spec.max_uses > 0 && e.item_uses.contains_key(spec.item)
                ==> e.item_uses[spec.item] < spec.max_uses
            &&& spec.cost <= e.tp
        },
{
}

/// A use on a plain grid takes its turn points, counts as one use, and makes
/// the item wait as many turns as it has to.
pub proof fn lemma_item_is_paid(f: FightView, spec: UseSpec, caster: i64)
    requires
        f.entity(caster) matches Some(e) && spec.cost <= e.tp && 0 <= spec.cost && e.tp >= 0,
        spec.cooldown > 0,
    ensures
        ({
            let before = f.entity(caster).unwrap();
            &&& f.paid(spec, caster).entity(caster) matches Some(after)
            &&& after.tp == before.tp - spec.cost
            &&& after.life == before.life
            &&& after.item_cooldowns.contains_key(spec.item)
            &&& after.item_cooldowns[spec.item] == spec.cooldown
            &&& after.item_uses.contains_key(spec.item)
        }),
{
    crate::fight::lemma_first(f.entities, caster);
    let e = f.entity(caster).unwrap();
    f.lemma_changed(
        caster,
        crate::entity::EntityView { tp: e.tp.wrapping_sub(spec.cost), ..e }.used(
            spec.item,
            crate::assault::wait_after(spec.cooldown),
        ),
    );
}

/// Whom an effect reaches on a plain grid: enemies with the first bit of its
/// targets, allies with the second, the caster with the second and the third,
/// and nobody without the fourth.
pub proof fn lemma_effect_reaches(f: FightView, targets: u8, caster: i64, target: i64)
    ensures
        f.is_target(targets, caster, target) <==> targets & 8 != 0 && if caster == target {
            targets & 2 != 0 && targets & 4 != 0
        } else if f.team_of(caster) == f.team_of(target) {
            targets & 2 != 0
        } else {
            targets & 1 != 0
        },
{
}

/// Those around a cell are the ones of a list, but for one, that are not
/// farther from it than the radius.
pub proof fn lemma_around(f: FightView, ids: Seq<i64>, but: i64, cell: i64, radius: i64, id: i64)
    ensures
        f.around(ids, but, cell, radius).contains(id) <==> ids.contains(id) && id != but && f.apart(
            id,
            cell,
        ) <= radius,
    decreases ids.len(),
{
    if ids.len() > 0 {
        let rest = ids.drop_last();
        lemma_around(f, rest, but, cell, radius, id);
        assert(ids =~= rest.push(ids.last()));
        lemma_pushed(rest, ids.last(), id);
        lemma_pushed(f.around(rest, but, cell, radius), ids.last(), id);
    }
}

/// When a turn is over all turn points and movement points are back, and no
/// item counts as used.
pub proof fn lemma_points_are_back(f: FighterView, item: i32)
    ensures
        f.turn_ended().tp() == f.base_stats[crate::fighter::STAT_TP as int].wrapping_add(
            f.buff_stats[crate::fighter::STAT_TP as int],
        ),
        f.turn_ended().mp() == f.base_stats[crate::fighter::STAT_MP as int].wrapping_add(
            f.buff_stats[crate::fighter::STAT_MP as int],
        ),
        f.turn_ended().uses(item) == 0,
        f.turn_ended().life == f.life,
        f.turn_ended().cell == f.cell,
        f.turn_ended().cooldowns == f.cooldowns,
{
}

/// A chip may summon exactly for the fighter whose turn it is, with as many
/// turn points as it costs, when it does not cool down, onto a free cell that
/// it reaches and, where it needs that, sees, and in a team with less than
/// eight living summons.
pub proof fn lemma_may_summon(
    w: World,
    fid: int,
    from: usize,
    target: usize,
    chip: i32,
    spec: ChipSpec,
)
    requires
        w.board.wf(),
        w.board.has(from as int),
        w.board.has(target as int),
        w.fighters[fid].cell == Some(from),
        w.summon_line(chip) is Some,
        w.chip_specs[chip] == spec,
        !(spec.area is FirstInLine),
    ensures
        w.summon_refusal(fid, target, chip) is None <==> {
            let f = w.fighters[fid];
            &&& w.order.current() == Some(fid as usize)
            &&& spec.cost <= f.tp()
            &&& !(if spec.team_cooldown {
                w.teams[f.team as int].cooldowns.contains_key(spec.id)
            } else {
                f.cooldowns.contains_key(spec.id)
            })
            &&& w.board.walkable(target as int)
            &&& w.entity_on(target) is None
            &&& reaches(
                w.board.x(target as int) - w.board.x(from as int),
                w.board.y(target as int) - w.board.y(from as int),
                spec.min_range as int,
                spec.max_range as int,
                spec.launch_type,
            )
            &&& spec.needs_los ==> w.board.sees(from as int, target as int, seq![from])
            &&& w.teams[f.team as int].summon_count(w.fighters) < 8
        },
{
    lemma_reach(
        w.board,
        from as int,
        target as int,
        spec.min_range as int,
        spec.max_range as int,
        spec.launch_type,
    );
}

/// A chip may bring somebody back exactly for the fighter whose turn it is,
/// with as many turn points as it costs, when it does not cool down, onto a
/// free cell that it reaches and, where it needs that, sees; the one who comes
/// back is dead, and a summon only comes back into a team with less than eight
/// living ones.
pub proof fn lemma_may_revive(
    w: World,
    fid: int,
    from: usize,
    target: usize,
    chip: i32,
    spec: ChipSpec,
    entity: int,
)
    requires
        w.board.wf(),
        w.board.has(from as int),
        w.board.has(target as int),
        w.fighters[fid].cell == Some(from),
        w.chip_specs.contains_key(chip),
        w.chip_specs[chip] == spec,
        crate::cast::first_line(spec.effects@, EffectType::Resurrect) is Some,
        !(spec.area is FirstInLine),
    ensures
        w.revival_refusal(fid, target, chip, entity) is None <==> {
            let f = w.fighters[fid];
            let e = w.fighters[entity];
            &&& w.order.current() == Some(fid as usize)
            &&& spec.cost <= f.tp()
            &&& !(if spec.team_cooldown {
                w.teams[f.team as int].cooldowns.contains_key(spec.id)
            } else {
                f.cooldowns.contains_key(spec.id)
            })
            &&& w.board.walkable(target as int)
            &&& w.entity_on(target) is None
            &&& reaches(
                w.board.x(target as int) - w.board.x(from as int),
                w.board.y(target as int) - w.board.y(from as int),
                spec.min_range as int,
                spec.max_range as int,
                spec.launch_type,
            )
            &&& spec.needs_los ==> w.board.sees(from as int, target as int, seq![from])
            &&& e.life <= 0
            &&& e.summoner is Some ==> w.teams[e.team as int].summon_count(w.fighters) < 8
        },
{
    lemma_reach(
        w.board,
        from as int,
        target as int,
        spec.min_range as int,
        spec.max_range as int,
        spec.launch_type,
    );
}

/// An attack strikes exactly the living who stand on its cells, each with the
/// part of the power that arrives on the cell.
pub proof fn lemma_the_living_are_covered(
    w: World,
    cells: Seq<usize>,
    area: Area,
    target: int,
    c: usize,
    fid: usize,
)
    requires
        w.entity_on(c) == Some(fid),
        cells.contains(c),
    ensures
        w.fighters[fid as int].life > 0 ==> w.covered(cells, area, target).contains(
            (fid, w.power_on(area, target, c as int)),
        ),
    decreases cells.len(),
{
    let rest = cells.drop_last();
    let hit = (fid, w.power_on(area, target, c as int));
    let before = w.covered(rest, area, target);
    let all = w.covered(cells, area, target);
    if cells.last() == c {
        if w.fighters[fid as int].life > 0 {
            lemma_pushed(before, hit, hit);
        }
    } else {
        assert(cells =~= rest.push(cells.last()));
        lemma_pushed(rest, cells.last(), c);
        lemma_the_living_are_covered(w, rest, area, target, c, fid);
        if w.fighters[fid as int].life > 0 && all != before {
            lemma_pushed(before, all.last(), hit);
            assert(all =~= before.push(all.last()));
        }
    }
}

/// Nobody but the living on the cells of an attack is struck.
pub proof fn lemma_only_the_living_are_covered(
    w: World,
    cells: Seq<usize>,
    area: Area,
    target: int,
    i: int,
)
    requires
        0 <= i < w.covered(cells, area, target).len(),
    ensures
        ({
            let hit = w.covered(cells, area, target)[i];
            &&& w.fighters[hit.0 as int].life > 0
            &&& exists|c: usize| #[trigger] cells.contains(c) && w.entity_on(c) == Some(hit.0)
        }),
    decreases cells.len(),
{
    let all = w.covered(cells, area, target);
    if cells.len() > 0 {
        let rest = cells.drop_last();
        let before = w.covered(rest, area, target);
        if i < before.len() {
            assert(all[i] == before[i]);
            lemma_only_the_living_are_covered(w, rest, area, target, i);
            let c = choose|c: usize| #[trigger]
                rest.contains(c) && w.entity_on(c) == Some(before[i].0);
            let k = choose|k: int| 0 <= k < rest.len() && rest[k] == c;
            assert(cells[k] == c);
            assert(cells.contains(c));
        } else {
            assert(cells[cells.len() - 1] == cells.last());
            assert(cells.contains(cells.last()));
        }
    }
}

/// An effect spreads from a fighter to another exactly when both are alive and
/// stand no further apart than it spreads; one that is not replaced only to
/// those on whom no effect of its item is.
pub proof fn lemma_effects_spread_nearby(
    w: World,
    fid: int,
    other: int,
    e: EffectView,
    first: EffectParams,
    a: usize,
    b: usize,
)
    requires
        w.fighters[fid].cell == Some(a),
        w.fighters[other].cell == Some(b),
        e.propagate < 999,
        first.modifiers@ & 8 != 8,
    ensures
        w.reaches(fid, other, e, first) <==> {
            &&& other != fid
            &&& w.fighters[fid].life > 0
            &&& w.fighters[other].life > 0
            &&& crate::map::abs(w.board.x(a as int) - w.board.x(b as int)) + crate::map::abs(
                w.board.y(a as int) - w.board.y(b as int),
            ) <= e.propagate
        },
{
}

/// Every step of a path leads to a neighbouring cell without an obstacle and
/// without anybody whom the path does not ignore.
pub proof fn lemma_path_is_passable(
    b: Board,
    start: int,
    ends: Seq<usize>,
    ignored: Seq<usize>,
    path: Vec<usize>,
    i: int,
)
    requires
        b.path_answer(start, ends, ignored, Some(path)),
        0 <= i < path@.len(),
    ensures
        ({
            let c = path@[i] as int;
            let from = if i == 0 {
                start
            } else {
                path@[i - 1] as int
            };
            &&& b.has(c)
            &&& b.walkable(c)
            &&& crate::map::abs(b.x(c) - b.x(from)) + crate::map::abs(b.y(c) - b.y(from)) == 1
            &&& b.is_occupied(c) && !ignored.contains(path@[i]) ==> ends.contains(path@[i])
        }),
{
    let p = choose|p: Seq<usize>| #[trigger]
        b.is_shortest(start, ends, ignored, p) && path@ == b.steps(ignored, p);
    assert(b.walk_step(ends, ignored, p, i + 1));
}

} // verus!
