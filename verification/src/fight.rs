//! A fight on a plain grid of `width` by `height` cells, numbered row by row.

use crate::effects::{ActiveEffect, EffectKind, Stat};
use crate::entity::{known_value, max_of, min_of, Entity, EntityView};
use crate::number::Real;
use std::collections::BTreeSet;
use vstd::prelude::*;
use vstd::std_specs::iter::IteratorSpec;
use vstd::string::*;

verus! {

broadcast use {
    vstd::std_specs::hash::group_hash_axioms,
    vstd::std_specs::btree::group_btree_axioms,
};

/// The fight.
pub struct Fight {
    pub entities: Vec<Entity>,
    /// Whose program runs.
    pub current: i64,
    pub width: i64,
    pub height: i64,
    /// The turn; 0 before the fight.
    pub turn: i64,
    /// The cells that nobody can enter or see through.
    pub obstacles: BTreeSet<i64>,
    /// What was said, and by whom.
    pub log: Vec<(i64, String)>,
    /// The effects of items of which the log has warned.
    pub warned: Vec<(i64, u8)>,
    /// The state of the random numbers.
    pub rng: u64,
    /// What the random numbers began with.
    pub seed: u64,
}

/// What a fight is.
#[verifier::ext_equal]
pub struct FightView {
    pub entities: Seq<EntityView>,
    pub current: i64,
    pub width: int,
    pub height: int,
    pub turn: i64,
    pub obstacles: Set<i64>,
    pub log: Seq<(i64, Seq<char>)>,
    pub warned: Seq<(i64, u8)>,
    pub rng: u64,
    pub seed: u64,
}

/// What entities are.
pub open spec fn entity_views(list: Seq<Entity>) -> Seq<EntityView> {
    list.map_values(|e: Entity| e@)
}

/// What a log says.
pub open spec fn log_views(list: Seq<(i64, String)>) -> Seq<(i64, Seq<char>)> {
    list.map_values(|l: (i64, String)| (l.0, l.1@))
}

impl View for Fight {
    type V = FightView;

    open spec fn view(&self) -> FightView {
        FightView {
            entities: entity_views(self.entities@),
            current: self.current,
            width: self.width as int,
            height: self.height as int,
            turn: self.turn,
            obstacles: self.obstacles@,
            log: log_views(self.log@),
            warned: self.warned@,
            rng: self.rng,
            seed: self.seed,
        }
    }
}

/// The next random number after another.
pub open spec fn stirred(x: u64) -> u64 {
    let a = x ^ (x << 13u64);
    let b = a ^ (a >> 7u64);
    b ^ (b << 17u64)
}

/// Where the entity with a number stands first in a list.
pub open spec fn first_of(entities: Seq<EntityView>, id: i64) -> Option<int>
    decreases entities.len(),
{
    if entities.len() == 0 {
        None
    } else {
        match first_of(entities.drop_last(), id) {
            Some(i) => Some(i),
            None => if entities.last().id == id {
                Some(entities.len() - 1)
            } else {
                None
            },
        }
    }
}

/// Who stands on a cell: the first living entity there.
pub open spec fn standing_on(entities: Seq<EntityView>, cell: i64) -> Option<i64>
    decreases entities.len(),
{
    if entities.len() == 0 {
        None
    } else {
        match standing_on(entities.drop_last(), cell) {
            Some(id) => Some(id),
            None => if entities.last().life > 0 && entities.last().cell == cell {
                Some(entities.last().id)
            } else {
                None
            },
        }
    }
}

/// The numbers of entities, of all or of the living.
pub open spec fn numbers_of(entities: Seq<EntityView>, alive_only: bool) -> Seq<i64>
    decreases entities.len(),
{
    if entities.len() == 0 {
        Seq::empty()
    } else if !alive_only || entities.last().life > 0 {
        numbers_of(entities.drop_last(), alive_only).push(entities.last().id)
    } else {
        numbers_of(entities.drop_last(), alive_only)
    }
}

/// Whether a list of numbers grows.
pub open spec fn growing(list: Seq<i64>) -> bool {
    forall|i: int, j: int| 0 <= i < j < list.len() ==> list[i] < list[j]
}

/// Whether somebody in a team is alive.
pub open spec fn team_lives(entities: Seq<EntityView>, team: i64) -> bool {
    exists|i: int|
        0 <= i < entities.len() && (#[trigger] entities[i]).life > 0 && entities[i].team == team
}

/// One step towards what lies `d` away, or away from it.
pub open spec fn way(d: int, away: bool) -> int {
    if (d > 0) != away {
        1
    } else {
        -1
    }
}

/// What the log says of an effect that does nothing.
pub open spec fn warning(item: i64, effect_id: u8) -> Seq<char> {
    "[engine] item "@ + crate::text::decimal(item as int) + ": effect type "@
        + crate::text::decimal(effect_id as int) + " not modeled — skipped"@
}

impl FightView {
    /// The number of cells fits a machine integer. A side below zero makes a
    /// grid without coordinates.
    pub open spec fn wf(self) -> bool {
        i64::MIN <= self.width * self.height <= i64::MAX
    }

    /// Whether another state of the fight has the same grid and entities with
    /// the same numbers.
    pub open spec fn keeps(self, before: FightView) -> bool {
        &&& self.width == before.width
        &&& self.height == before.height
        &&& self.obstacles == before.obstacles
        &&& self.current == before.current
        &&& self.turn == before.turn
        &&& self.entities.len() == before.entities.len()
        &&& forall|i: int|
            0 <= i < self.entities.len() ==> (#[trigger] self.entities[i]).id
                == before.entities[i].id && self.entities[i].team == before.entities[i].team
    }

    pub open spec fn place(self, id: i64) -> Option<int> {
        first_of(self.entities, id)
    }

    pub open spec fn entity(self, id: i64) -> Option<EntityView> {
        match self.place(id) {
            Some(i) => Some(self.entities[i]),
            None => None,
        }
    }

    /// Another entity in the place of one.
    pub open spec fn with(self, i: int, e: EntityView) -> FightView {
        FightView { entities: self.entities.update(i, e), ..self }
    }

    /// Another entity in the place of the one with a number, if there is one.
    pub open spec fn changed(self, id: i64, e: EntityView) -> FightView {
        match self.place(id) {
            Some(i) => self.with(i, e),
            None => self,
        }
    }

    pub open spec fn on_grid(self, cell: int) -> bool {
        0 <= cell < self.width * self.height
    }

    pub open spec fn in_bounds(self, x: int, y: int) -> bool {
        0 <= x < self.width && 0 <= y < self.height
    }

    pub open spec fn x(self, cell: int) -> int {
        crate::rng::trunc_rem(cell, self.width)
    }

    pub open spec fn y(self, cell: int) -> int {
        crate::rng::trunc_div(cell, self.width)
    }

    pub open spec fn cell_at(self, x: int, y: int) -> int {
        y * self.width + x
    }

    /// Whether there is an obstacle at some coordinates.
    pub open spec fn blocked(self, x: int, y: int) -> bool {
        self.in_bounds(x, y) && self.obstacles.contains(self.cell_at(x, y) as i64)
    }

    /// A characteristic with what effects add.
    pub open spec fn stat(self, id: i64, stat: Stat) -> Option<i64> {
        match self.entity(id) {
            Some(e) => Some(base_of(e, stat).wrapping_add(e.buff(stat))),
            None => None,
        }
    }

    pub open spec fn damage_return(self, id: i64) -> Option<i64> {
        match self.entity(id) {
            Some(e) => Some(
                e.damage_return.wrapping_add(
                    crate::entity::sum_of(e.effects, EffectKind::DamageReturn),
                ),
            ),
            None => None,
        }
    }

    pub open spec fn relative_shield(self, id: i64) -> i64 {
        match self.entity(id) {
            Some(e) => e.relative_shield.wrapping_add(
                crate::entity::sum_of(e.effects, EffectKind::RelativeShield),
            ),
            None => 0,
        }
    }

    pub open spec fn absolute_shield(self, id: i64) -> i64 {
        match self.entity(id) {
            Some(e) => e.absolute_shield.wrapping_add(
                crate::entity::sum_of(e.effects, EffectKind::AbsoluteShield),
            ),
            None => 0,
        }
    }

    /// Whether a step to a cell is barred to an entity.
    pub open spec fn barred(self, id: i64, cell: i64) -> bool {
        ||| self.obstacles.contains(cell)
        ||| exists|i: int|
            {
                &&& 0 <= i < self.entities.len()
                &&& (#[trigger] self.entities[i]).id != id
                &&& self.entities[i].life > 0
                &&& self.entities[i].cell == cell
            }
    }

    /// The coordinates one step towards a target, or away from it: along the
    /// longer way, and to the right for who flees from its own cell.
    pub open spec fn step_of(self, cell: int, tx: int, ty: int, away: bool) -> Option<(int, int)> {
        let cx = self.x(cell);
        let cy = self.y(cell);
        let dx = tx - cx;
        let dy = ty - cy;
        if crate::map::abs(dx) >= crate::map::abs(dy) && dx != 0 {
            Some((cx + way(dx, away), cy))
        } else if dy != 0 {
            Some((cx, cy + way(dy, away)))
        } else if away {
            Some((cx + 1, cy))
        } else {
            None
        }
    }

    /// The cell one step on, where that is possible.
    pub open spec fn next_cell(self, i: int, tx: int, ty: int, away: bool) -> Option<i64> {
        match self.step_of(self.entities[i].cell as int, tx, ty, away) {
            Some((x, y)) => if self.in_bounds(x, y) && !self.barred(
                self.entities[i].id,
                self.cell_at(x, y) as i64,
            ) {
                Some(self.cell_at(x, y) as i64)
            } else {
                None
            },
            None => None,
        }
    }

    /// At most `budget` steps, each for one movement point.
    pub open spec fn strolled(self, i: int, tx: int, ty: int, away: bool, budget: nat) -> FightView
        decreases budget,
    {
        if budget == 0 {
            self
        } else {
            match self.next_cell(i, tx, ty, away) {
                Some(cell) => self.with(
                    i,
                    EntityView {
                        cell,
                        mp: self.entities[i].mp.wrapping_sub(1),
                        ..self.entities[i]
                    },
                ).strolled(i, tx, ty, away, (budget - 1) as nat),
                None => self,
            }
        }
    }

    /// How many steps these are.
    pub open spec fn stroll_length(self, i: int, tx: int, ty: int, away: bool, budget: nat) -> nat
        decreases budget,
    {
        if budget == 0 {
            0
        } else {
            match self.next_cell(i, tx, ty, away) {
                Some(cell) => 1 + self.with(
                    i,
                    EntityView {
                        cell,
                        mp: self.entities[i].mp.wrapping_sub(1),
                        ..self.entities[i]
                    },
                ).stroll_length(i, tx, ty, away, (budget - 1) as nat),
                None => 0,
            }
        }
    }

    /// How many steps an entity may take.
    pub open spec fn step_budget(self, i: int, max_mp: i64) -> nat {
        crate::entity::max64(
            crate::entity::min64(self.entities[i].mp, max_mp),
            0,
        ) as nat
    }

    /// An entity goes towards a cell, or away from it.
    pub open spec fn moved_toward(self, id: i64, target: i64, max_mp: i64, away: bool) -> FightView {
        match self.place(id) {
            Some(i) if self.on_grid(target as int) => self.strolled(
                i,
                self.x(target as int),
                self.y(target as int),
                away,
                self.step_budget(i, max_mp),
            ),
            _ => self,
        }
    }

    /// How far the entity goes.
    pub open spec fn move_length(self, id: i64, target: i64, max_mp: i64, away: bool) -> nat {
        match self.place(id) {
            Some(i) if self.on_grid(target as int) => self.stroll_length(
                i,
                self.x(target as int),
                self.y(target as int),
                away,
                self.step_budget(i, max_mp),
            ),
            _ => 0,
        }
    }

    pub open spec fn has_item_effect(self, id: i64, item: i64) -> bool {
        match self.entity(id) {
            Some(e) => exists|i: int|
                0 <= i < e.effects.len() && (#[trigger] e.effects[i]).item == item,
            None => false,
        }
    }

    /// The log warns once of an effect of an item that does nothing.
    pub open spec fn warned_of(self, id: i64, item: i64, effect_id: u8) -> FightView {
        if self.warned.contains((item, effect_id)) {
            self
        } else {
            FightView {
                warned: self.warned.push((item, effect_id)),
                log: self.log.push((id, warning(item, effect_id))),
                ..self
            }
        }
    }
}

/// What an entity has of a characteristic by itself.
pub open spec fn base_of(e: EntityView, stat: Stat) -> i64 {
    match stat {
        Stat::Strength => e.strength,
        Stat::Agility => e.agility,
        Stat::Wisdom => e.wisdom,
        Stat::Resistance => e.resistance,
        Stat::Science => e.science,
        Stat::Magic => e.magic,
        Stat::Power => e.power,
        Stat::Mp => e.max_mp,
        Stat::Tp => e.max_tp,
    }
}

/// What stands first in the beginning of a list stands first in the list.
proof fn lemma_first_stays(entities: Seq<EntityView>, n: int, id: i64)
    requires
        0 <= n <= entities.len(),
        first_of(entities.take(n), id) is Some,
    ensures
        first_of(entities, id) == first_of(entities.take(n), id),
    decreases entities.len() - n,
{
    if n == entities.len() {
        assert(entities.take(n) =~= entities);
    } else {
        assert(entities.take(n + 1).drop_last() =~= entities.take(n));
        lemma_first_stays(entities, n + 1, id);
    }
}

/// The first entity with a number is one of the entities, and has it.
pub proof fn lemma_first(entities: Seq<EntityView>, id: i64)
    ensures
        first_of(entities, id) matches Some(i) ==> 0 <= i < entities.len() && entities[i].id == id,
    decreases entities.len(),
{
    if entities.len() > 0 {
        lemma_first(entities.drop_last(), id);
    }
}

/// The places of entities go by their numbers alone.
proof fn lemma_places(a: Seq<EntityView>, b: Seq<EntityView>, id: i64)
    requires
        a.len() == b.len(),
        forall|i: int| 0 <= i < a.len() ==> (#[trigger] a[i]).id == b[i].id,
    ensures
        first_of(a, id) == first_of(b, id),
    decreases a.len(),
{
    if a.len() > 0 {
        assert forall|i: int| 0 <= i < a.drop_last().len() implies (#[trigger] a.drop_last()[i]).id
            == b.drop_last()[i].id by {
            assert(a[i].id == b[i].id);
        }
        lemma_places(a.drop_last(), b.drop_last(), id);
        assert(a[a.len() - 1].id == b[b.len() - 1].id);
    }
}

impl FightView {
    /// Entities that keep their numbers keep their places.
    pub(crate) proof fn lemma_keeps_place(self, before: FightView, id: i64)
        requires
            self.keeps(before),
        ensures
            self.place(id) == before.place(id),
    {
        assert forall|i: int| 0 <= i < self.entities.len() implies (
        #[trigger] self.entities[i]).id == before.entities[i].id by {}
        lemma_places(self.entities, before.entities, id);
    }

    /// Another entity with the same number in the place of one is found by
    /// that number, and everybody else where they were.
    pub proof fn lemma_changed(self, id: i64, e: EntityView)
        requires
            self.entity(id) is Some,
            e.id == id,
        ensures
            self.changed(id, e).entity(id) == Some(e),
            forall|other: i64| #[trigger]
                self.changed(id, e).place(other) == self.place(other),
            forall|other: i64|
                other != id ==> #[trigger] self.changed(id, e).entity(other) == self.entity(other),
    {
        lemma_first(self.entities, id);
        let g = self.changed(id, e);
        assert forall|other: i64| #[trigger] g.place(other) == self.place(other) by {
            lemma_places(g.entities, self.entities, other);
        }
        assert forall|other: i64| other != id implies #[trigger] g.entity(other) == self.entity(
            other,
        ) by {
            lemma_first(self.entities, other);
            assert(g.place(other) == self.place(other));
        }
    }
}

/// Who stands first on a cell in the beginning of a list does so in the list.
proof fn lemma_standing_stays(entities: Seq<EntityView>, n: int, cell: i64)
    requires
        0 <= n <= entities.len(),
        standing_on(entities.take(n), cell) is Some,
    ensures
        standing_on(entities, cell) == standing_on(entities.take(n), cell),
    decreases entities.len() - n,
{
    if n == entities.len() {
        assert(entities.take(n) =~= entities);
    } else {
        assert(entities.take(n + 1).drop_last() =~= entities.take(n));
        lemma_standing_stays(entities, n + 1, cell);
    }
}

/// The cell of coordinates on the grid is on the grid, and has them.
pub proof fn lemma_cell_at(f: FightView, x: int, y: int)
    requires
        f.wf(),
        f.in_bounds(x, y),
    ensures
        f.on_grid(f.cell_at(x, y)),
        f.x(f.cell_at(x, y)) == x,
        f.y(f.cell_at(x, y)) == y,
{
    let w = f.width;
    assert(0 <= y * w + x < w * f.height) by (nonlinear_arith)
        requires
            0 <= x < w,
            0 <= y < f.height,
    ;
    vstd::arithmetic::div_mod::lemma_fundamental_div_mod_converse(y * w + x, w, y, x);
}

/// The coordinates of a cell on the grid are shorter than its sides, which
/// together are no longer than the grid has cells, and one.
pub proof fn lemma_coords_small(f: FightView, cell: int)
    requires
        f.wf(),
        f.on_grid(cell),
    ensures
        f.width != 0,
        0 <= f.x(cell) < crate::map::abs(f.width),
        f.height >= 0 ==> 0 <= f.y(cell) < f.height,
        f.height < 0 ==> f.height < f.y(cell) <= 0,
        crate::map::abs(f.width) + crate::map::abs(f.height) <= f.width * f.height + 1,
{
    let w = f.width;
    let h = f.height;
    let m = crate::map::abs(w);
    let n = crate::map::abs(h);
    assert(w != 0 && h != 0 && (w > 0 <==> h > 0)) by (nonlinear_arith)
        requires
            0 <= cell < w * h,
    ;
    assert(w * h == m * n) by (nonlinear_arith)
        requires
            m == w && n == h || m == -w && n == -h,
    ;
    assert(m + n <= m * n + 1) by (nonlinear_arith)
        requires
            m >= 1,
            n >= 1,
    ;
    let q = cell / w;
    let r = cell % w;
    vstd::arithmetic::div_mod::lemma_fundamental_div_mod(cell, w);
    if w > 0 {
        assert(0 <= r < w);
        assert(0 <= q < h) by (nonlinear_arith)
            requires
                0 <= cell < w * h,
                cell == w * q + r,
                0 <= r < w,
        ;
    } else {
        assert(0 <= r < -w);
        assert(h < q <= 0) by (nonlinear_arith)
            requires
                0 <= cell < w * h,
                cell == w * q + r,
                0 <= r < -w,
                w < 0,
        ;
    }
}

/// The coordinates of a cell on a grid whose sides have a length lie in its
/// bounds, and lead back to the cell.
pub proof fn lemma_coords(f: FightView, cell: int)
    requires
        f.wf(),
        f.width > 0,
        f.on_grid(cell),
    ensures
        f.in_bounds(f.x(cell), f.y(cell)),
        f.cell_at(f.x(cell), f.y(cell)) == cell,
{
    let w = f.width;
    assert(w > 0) by (nonlinear_arith)
        requires
            0 <= cell < w * f.height,
            0 <= w,
    ;
    vstd::arithmetic::div_mod::lemma_fundamental_div_mod(cell, w);
    assert(0 <= cell / w < f.height) by (nonlinear_arith)
        requires
            0 <= cell < w * f.height,
            w > 0,
            cell == w * (cell / w) + cell % w,
            0 <= cell % w < w,
    ;
    assert((cell / w) * w + cell % w == cell) by (nonlinear_arith)
        requires
            cell == w * (cell / w) + cell % w,
    ;
}

/// What a division leaves is shorter than what it divides by, and neither
/// part is longer than the whole.
proof fn lemma_split_small(a: int, w: int)
    requires
        w != 0,
    ensures
        -crate::map::abs(w) < crate::rng::trunc_rem(a, w) < crate::map::abs(w),
        -crate::map::abs(a) <= crate::rng::trunc_div(a, w) <= crate::map::abs(a),
{
    let n = crate::map::abs(a);
    vstd::arithmetic::div_mod::lemma_fundamental_div_mod(n, w);
    let q = n / w;
    let r = n % w;
    if w > 0 {
        assert(0 <= q <= n) by (nonlinear_arith)
            requires
                w > 0,
                n >= 0,
                n == w * q + r,
                0 <= r < w,
        ;
    } else {
        assert(0 <= r < -w);
        assert(-n <= q <= 0) by (nonlinear_arith)
            requires
                w < 0,
                n >= 0,
                n == w * q + r,
                0 <= r < -w,
        ;
    }
}

/// A stroll keeps everything but the place and the points of who strolls, and
/// spends a point for each step.
pub proof fn lemma_stroll(f: FightView, i: int, tx: int, ty: int, away: bool, budget: nat)
    requires
        f.wf(),
        0 <= i < f.entities.len(),
        budget <= f.entities[i].mp,
    ensures
        f.strolled(i, tx, ty, away, budget).wf(),
        f.strolled(i, tx, ty, away, budget).keeps(f),
        f.stroll_length(i, tx, ty, away, budget) <= budget,
        f.strolled(i, tx, ty, away, budget).entities[i].mp == f.entities[i].mp - f.stroll_length(
            i,
            tx,
            ty,
            away,
            budget,
        ),
        forall|j: int|
            0 <= j < f.entities.len() && j != i ==> #[trigger] f.strolled(
                i,
                tx,
                ty,
                away,
                budget,
            ).entities[j] == f.entities[j],
    decreases budget,
{
    if budget > 0 {
        match f.next_cell(i, tx, ty, away) {
            Some(cell) => {
                let (x, y) = f.step_of(f.entities[i].cell as int, tx, ty, away).unwrap();
                lemma_cell_at(f, x, y);
                let g = f.with(
                    i,
                    EntityView {
                        cell,
                        mp: f.entities[i].mp.wrapping_sub(1),
                        ..f.entities[i]
                    },
                );
                lemma_stroll(g, i, tx, ty, away, (budget - 1) as nat);
            },
            None => {},
        }
    }
}

/// Every step towards a cell shortens the way to it by one.
pub proof fn lemma_step_nears(f: FightView, cell: int, tx: int, ty: int)
    ensures
        f.step_of(cell, tx, ty, false) matches Some(p) ==> crate::map::abs(tx - p.0)
            + crate::map::abs(ty - p.1) == crate::map::abs(tx - f.x(cell)) + crate::map::abs(
            ty - f.y(cell),
        ) - 1,
{
}

impl Fight {
    pub open spec fn wf(&self) -> bool {
        self@.wf()
    }

    /// An empty fight.
    #[must_use]
    pub fn new(width: i64, height: i64, current: i64) -> (f: Self)
        requires
            i64::MIN <= width * height <= i64::MAX,
        ensures
            f.wf(),
            f@ == (FightView {
                entities: Seq::empty(),
                current,
                width: width as int,
                height: height as int,
                turn: 0,
                obstacles: Set::empty(),
                log: Seq::empty(),
                warned: Seq::empty(),
                rng: 0x2545_f491_4f6c_dd1d,
                seed: 0x2545_f491_4f6c_dd1d,
            }),
    {
        let f = Self {
            entities: Vec::new(),
            current,
            width,
            height,
            turn: 0,
            obstacles: BTreeSet::new(),
            log: Vec::new(),
            warned: Vec::new(),
            rng: 0x2545_f491_4f6c_dd1d,
            seed: 0x2545_f491_4f6c_dd1d,
        };
        assert(f@.entities =~= Seq::empty());
        assert(f@.log =~= Seq::empty());
        f
    }

    /// With an obstacle on a cell.
    #[must_use]
    pub fn with_obstacle(self, cell: i64) -> (f: Self)
        requires
            self.wf(),
        ensures
            f.wf(),
            f@ == (FightView { obstacles: self@.obstacles.insert(cell), ..self@ }),
    {
        let ghost before = self@;
        let mut f = self;
        let _ = f.obstacles.insert(cell);
        assert(f@ =~= (FightView { obstacles: before.obstacles.insert(cell), ..before }));
        f
    }

    /// With other random numbers; 0 stands for 1.
    #[must_use]
    pub fn with_seed(self, seed: u64) -> (f: Self)
        requires
            self.wf(),
        ensures
            f.wf(),
            ({
                let s = if seed == 0 {
                    1
                } else {
                    seed
                };
                f@ == (FightView { rng: s, seed: s, ..self@ })
            }),
    {
        let mut f = self;
        let s: u64 = if seed == 0 {
            1
        } else {
            seed
        };
        f.rng = s;
        f.seed = s;
        f
    }

    /// With one more entity.
    #[must_use]
    pub fn with_entity(self, entity: Entity) -> (f: Self)
        requires
            self.wf(),
        ensures
            f.wf(),
            f@ == (FightView { entities: self@.entities.push(entity@), ..self@ }),
    {
        let ghost before = self@;
        let mut f = self;
        f.entities.push(entity);
        assert(f@.entities =~= before.entities.push(entity@));
        f
    }

    /// What the random numbers began with.
    #[must_use]
    pub fn seed(&self) -> (s: u64)
        ensures
            s == self@.seed,
    {
        self.seed
    }

    /// Lets the program of an entity run.
    pub fn set_current(&mut self, entity: i64)
        requires
            old(self).wf(),
        ensures
            final(self).wf(),
            final(self)@ == (FightView { current: entity, ..old(self)@ }),
    {
        self.current = entity;
    }

    /// Goes to a turn.
    pub fn set_turn(&mut self, turn: i64)
        requires
            old(self).wf(),
        ensures
            final(self).wf(),
            final(self)@ == (FightView { turn, ..old(self)@ }),
    {
        self.turn = turn;
    }

    /// Whose program runs.
    #[must_use]
    pub fn current_entity(&self) -> (id: i64)
        ensures
            id == self@.current,
    {
        self.current
    }

    #[must_use]
    pub fn turn(&self) -> (t: i64)
        ensures
            t == self@.turn,
    {
        self.turn
    }

    /// What was said, and by whom.
    #[must_use]
    pub fn log(&self) -> (l: &[(i64, String)])
        ensures
            log_views(l@) == self@.log,
    {
        self.log.as_slice()
    }

    /// Where the entity with a number stands in the list.
    fn find(&self, id: i64) -> (at: Option<usize>)
        ensures
            match self@.place(id) {
                Some(i) => at matches Some(k) && k == i && 0 <= i < self.entities@.len(),
                None => at is None,
            },
            at matches Some(i) ==> i < self.entities@.len() && self@.entities[i as int]
                == self.entities@[i as int]@ && self@.entities[i as int].id == id,
    {
        let ghost all = self@.entities;
        let mut i: usize = 0;
        assert(all.take(0) =~= Seq::<EntityView>::empty());
        while i < self.entities.len()
            invariant
                all == self@.entities,
                all.len() == self.entities@.len(),
                i <= all.len(),
                first_of(all.take(i as int), id) is None,
            decreases self.entities.len() - i,
        {
            assert(all.take(i + 1).drop_last() =~= all.take(i as int));
            assert(all[i as int] == self.entities@[i as int]@);
            if self.entities[i].id == id {
                proof {
                    lemma_first_stays(all, i + 1, id);
                }
                return Some(i);
            }
            i += 1;
        }
        assert(all.take(i as int) =~= all);
        None
    }

    /// The life of an entity.
    #[must_use]
    pub fn life(&self, entity: i64) -> (r: Option<i64>)
        ensures
            r == match self@.entity(entity) {
                Some(e) => Some(e.life),
                None => None,
            },
    {
        match self.find(entity) {
            Some(i) => Some(self.entities[i].life),
            None => None,
        }
    }

    /// The total life of an entity.
    #[must_use]
    pub fn max_life(&self, entity: i64) -> (r: Option<i64>)
        ensures
            r == match self@.entity(entity) {
                Some(e) => Some(e.max_life),
                None => None,
            },
    {
        match self.find(entity) {
            Some(i) => Some(self.entities[i].max_life),
            None => None,
        }
    }

    /// The cell of an entity.
    #[must_use]
    pub fn cell(&self, entity: i64) -> (r: Option<i64>)
        ensures
            r == match self@.entity(entity) {
                Some(e) => Some(e.cell),
                None => None,
            },
    {
        match self.find(entity) {
            Some(i) => Some(self.entities[i].cell),
            None => None,
        }
    }

    /// The team of an entity.
    #[must_use]
    pub fn team(&self, entity: i64) -> (r: Option<i64>)
        ensures
            r == match self@.entity(entity) {
                Some(e) => Some(e.team),
                None => None,
            },
    {
        match self.find(entity) {
            Some(i) => Some(self.entities[i].team),
            None => None,
        }
    }

    /// The movement points of an entity.
    #[must_use]
    pub fn mp(&self, entity: i64) -> (r: Option<i64>)
        ensures
            r == match self@.entity(entity) {
                Some(e) => Some(e.mp),
                None => None,
            },
    {
        match self.find(entity) {
            Some(i) => Some(self.entities[i].mp),
            None => None,
        }
    }

    /// The turn points of an entity.
    #[must_use]
    pub fn tp(&self, entity: i64) -> (r: Option<i64>)
        ensures
            r == match self@.entity(entity) {
                Some(e) => Some(e.tp),
                None => None,
            },
    {
        match self.find(entity) {
            Some(i) => Some(self.entities[i].tp),
            None => None,
        }
    }

    /// The level of an entity.
    #[must_use]
    pub fn level(&self, entity: i64) -> (r: Option<i64>)
        ensures
            r == match self@.entity(entity) {
                Some(e) => Some(e.level),
                None => None,
            },
    {
        match self.find(entity) {
            Some(i) => Some(self.entities[i].level),
            None => None,
        }
    }

    /// The name of an entity.
    #[must_use]
    pub fn name(&self, entity: i64) -> (r: Option<String>)
        ensures
            match self@.entity(entity) {
                Some(e) => r matches Some(s) && s@ == e.name,
                None => r is None,
            },
    {
        match self.find(entity) {
            Some(i) => Some(String::from_str(self.entities[i].name.as_str())),
            None => None,
        }
    }

    /// A characteristic of an entity, with what effects add.
    #[must_use]
    pub fn stat(&self, entity: i64, stat: Stat) -> (r: Option<i64>)
        ensures
            r == self@.stat(entity, stat),
    {
        match self.find(entity) {
            Some(i) => {
                let e = &self.entities[i];
                let base: i64 = match stat {
                    Stat::Strength => e.strength,
                    Stat::Agility => e.agility,
                    Stat::Wisdom => e.wisdom,
                    Stat::Resistance => e.resistance,
                    Stat::Science => e.science,
                    Stat::Magic => e.magic,
                    Stat::Power => e.power,
                    Stat::Mp => e.max_mp,
                    Stat::Tp => e.max_tp,
                };
                Some(base.wrapping_add(e.buff_sum(stat)))
            },
            None => None,
        }
    }

    /// The share of damage that an entity sends back.
    #[must_use]
    pub fn damage_return(&self, entity: i64) -> (r: Option<i64>)
        ensures
            r == self@.damage_return(entity),
    {
        match self.find(entity) {
            Some(i) => {
                let e = &self.entities[i];
                Some(e.damage_return.wrapping_add(e.effect_sum(EffectKind::DamageReturn)))
            },
            None => None,
        }
    }

    /// The shield that takes off a share.
    #[must_use]
    pub fn relative_shield(&self, entity: i64) -> (r: i64)
        ensures
            r == self@.relative_shield(entity),
    {
        match self.find(entity) {
            Some(i) => {
                let e = &self.entities[i];
                e.relative_shield.wrapping_add(e.effect_sum(EffectKind::RelativeShield))
            },
            None => 0,
        }
    }

    /// The shield that takes off a number.
    #[must_use]
    pub fn absolute_shield(&self, entity: i64) -> (r: i64)
        ensures
            r == self@.absolute_shield(entity),
    {
        match self.find(entity) {
            Some(i) => {
                let e = &self.entities[i];
                e.absolute_shield.wrapping_add(e.effect_sum(EffectKind::AbsoluteShield))
            },
            None => 0,
        }
    }

    /// The weapon in the hands of an entity.
    #[must_use]
    pub fn weapon(&self, entity: i64) -> (r: Option<i64>)
        ensures
            r == match self@.entity(entity) {
                Some(e) => e.weapon,
                None => None,
            },
    {
        match self.find(entity) {
            Some(i) => self.entities[i].weapon,
            None => None,
        }
    }

    /// The weapons that an entity owns.
    #[must_use]
    pub fn weapons(&self, entity: i64) -> (r: Vec<i64>)
        ensures
            r@ == match self@.entity(entity) {
                Some(e) => e.inventory,
                None => Seq::empty(),
            },
    {
        let mut list: Vec<i64> = Vec::new();
        match self.find(entity) {
            Some(i) => {
                let own: &Vec<i64> = &self.entities[i].inventory;
                let mut k: usize = 0;
                while k < own.len()
                    invariant
                        k <= own@.len(),
                        list@ == own@.take(k as int),
                    decreases own.len() - k,
                {
                    list.push(own[k]);
                    k += 1;
                    assert(list@ =~= own@.take(k as int));
                }
                assert(list@ =~= own@);
            },
            None => {
                assert(list@ =~= Seq::<i64>::empty());
            },
        }
        list
    }

    /// How many turns an item of an entity still has to wait.
    #[must_use]
    pub fn cooldown(&self, entity: i64, item: i64) -> (r: i64)
        ensures
            r == match self@.entity(entity) {
                Some(e) => crate::entity::value_of(e.item_cooldowns, item),
                None => 0,
            },
    {
        match self.find(entity) {
            Some(i) => known_value(&self.entities[i].item_cooldowns, item),
            None => 0,
        }
    }

    /// How often an entity has used an item this turn.
    #[must_use]
    pub fn uses_this_turn(&self, entity: i64, item: i64) -> (r: i64)
        ensures
            r == match self@.entity(entity) {
                Some(e) => crate::entity::value_of(e.item_uses, item),
                None => 0,
            },
    {
        match self.find(entity) {
            Some(i) => known_value(&self.entities[i].item_uses, item),
            None => 0,
        }
    }

    /// Whether an effect of an item is on an entity.
    #[must_use]
    pub fn has_item_effect(&self, entity: i64, item: i64) -> (b: bool)
        ensures
            b == self@.has_item_effect(entity, item),
    {
        match self.find(entity) {
            Some(i) => self.entities[i].has_effect_of(item),
            None => false,
        }
    }

    /// The numbers of the entities, of all or of the living.
    #[must_use]
    pub fn entities(&self, alive_only: bool) -> (ids: Vec<i64>)
        ensures
            ids@ == numbers_of(self@.entities, alive_only),
    {
        let ghost all = self@.entities;
        let mut ids: Vec<i64> = Vec::new();
        let mut i: usize = 0;
        assert(all.take(0) =~= Seq::<EntityView>::empty());
        while i < self.entities.len()
            invariant
                all == self@.entities,
                all.len() == self.entities@.len(),
                i <= all.len(),
                ids@ == numbers_of(all.take(i as int), alive_only),
            decreases self.entities.len() - i,
        {
            assert(all.take(i + 1).drop_last() =~= all.take(i as int));
            assert(all[i as int] == self.entities@[i as int]@);
            if !alive_only || self.entities[i].life > 0 {
                ids.push(self.entities[i].id);
            }
            i += 1;
        }
        assert(all.take(i as int) =~= all);
        ids
    }

    /// The teams in which somebody is alive, from the least on.
    #[must_use]
    pub fn living_teams(&self) -> (teams: Vec<i64>)
        ensures
            growing(teams@),
            forall|t: i64| #[trigger] teams@.contains(t) <==> team_lives(self@.entities, t),
    {
        let ghost all = self@.entities;
        let mut teams: Vec<i64> = Vec::new();
        let mut i: usize = 0;
        while i < self.entities.len()
            invariant
                all == self@.entities,
                all.len() == self.entities@.len(),
                i <= all.len(),
                growing(teams@),
                forall|t: i64| #[trigger]
                    teams@.contains(t) <==> team_lives(all.take(i as int), t),
            decreases self.entities.len() - i,
        {
            let ghost before = teams@;
            assert(all[i as int] == self.entities@[i as int]@);
            if self.entities[i].life > 0 {
                include_number(&mut teams, self.entities[i].team);
            }
            proof {
                let now = all.take(i + 1);
                let past = all.take(i as int);
                assert forall|t: i64| #[trigger] teams@.contains(t) <==> team_lives(now, t) by {
                    if team_lives(past, t) {
                        let k = choose|k: int|
                            0 <= k < past.len() && (#[trigger] past[k]).life > 0 && past[k].team
                                == t;
                        assert(now[k] == past[k]);
                    }
                    if team_lives(now, t) {
                        let k = choose|k: int|
                            0 <= k < now.len() && (#[trigger] now[k]).life > 0 && now[k].team == t;
                        if k < i {
                            assert(past[k] == now[k]);
                        }
                    }
                    if all[i as int].life > 0 {
                        assert(now[i as int] == all[i as int]);
                    }
                    assert(before.contains(t) <==> team_lives(past, t));
                }
            }
            i += 1;
        }
        assert(all.take(i as int) =~= all);
        teams
    }

    /// The column of a cell on the grid.
    #[must_use]
    pub fn cell_x(&self, cell: i64) -> (x: Option<i64>)
        requires
            self.wf(),
        ensures
            x == if self@.on_grid(cell as int) {
                Some(self@.x(cell as int) as i64)
            } else {
                None
            },
            x matches Some(v) ==> v == self@.x(cell as int) && 0 <= v < i64::MAX,
    {
        if self.is_on_grid(cell) {
            proof {
                lemma_coords_small(self@, cell as int);
            }
            Some(cell % self.width)
        } else {
            None
        }
    }

    /// The row of a cell on the grid.
    #[must_use]
    pub fn cell_y(&self, cell: i64) -> (y: Option<i64>)
        requires
            self.wf(),
        ensures
            y == if self@.on_grid(cell as int) {
                Some(self@.y(cell as int) as i64)
            } else {
                None
            },
            y matches Some(v) ==> {
                &&& v == self@.y(cell as int)
                &&& self.height >= 0 ==> 0 <= v < i64::MAX
                &&& self.height < 0 ==> -i64::MAX < v <= 0
            },
    {
        if self.is_on_grid(cell) {
            proof {
                lemma_coords_small(self@, cell as int);
            }
            Some(cell / self.width)
        } else {
            None
        }
    }

    fn is_on_grid(&self, cell: i64) -> (b: bool)
        requires
            self.wf(),
        ensures
            b == self@.on_grid(cell as int),
    {
        cell >= 0 && cell < self.width * self.height
    }

    /// The cell at some coordinates.
    #[must_use]
    pub fn cell_from_xy(&self, x: i64, y: i64) -> (cell: Option<i64>)
        requires
            self.wf(),
        ensures
            cell == if self@.in_bounds(x as int, y as int) {
                Some(self@.cell_at(x as int, y as int) as i64)
            } else {
                None
            },
            cell matches Some(c) ==> c == self@.cell_at(x as int, y as int) && self@.on_grid(
                c as int,
            ),
    {
        if x >= 0 && x < self.width && y >= 0 && y < self.height {
            proof {
                lemma_cell_at(self@, x as int, y as int);
                assert(0 <= y * self.width) by (nonlinear_arith)
                    requires
                        0 <= y,
                        0 <= self.width,
                ;
            }
            Some(y * self.width + x)
        } else {
            None
        }
    }

    /// Who stands on a cell.
    #[must_use]
    pub fn entity_at(&self, cell: i64) -> (id: Option<i64>)
        ensures
            id == standing_on(self@.entities, cell),
    {
        let ghost all = self@.entities;
        let mut i: usize = 0;
        assert(all.take(0) =~= Seq::<EntityView>::empty());
        while i < self.entities.len()
            invariant
                all == self@.entities,
                all.len() == self.entities@.len(),
                i <= all.len(),
                standing_on(all.take(i as int), cell) is None,
            decreases self.entities.len() - i,
        {
            assert(all.take(i + 1).drop_last() =~= all.take(i as int));
            assert(all[i as int] == self.entities@[i as int]@);
            if self.entities[i].life > 0 && self.entities[i].cell == cell {
                proof {
                    lemma_standing_stays(all, i + 1, cell);
                }
                return Some(self.entities[i].id);
            }
            i += 1;
        }
        assert(all.take(i as int) =~= all);
        None
    }

    #[must_use]
    pub fn is_obstacle(&self, cell: i64) -> (b: bool)
        ensures
            b == self@.obstacles.contains(cell),
    {
        self.obstacles.contains(&cell)
    }

    /// The cells with obstacles, from the least on.
    #[must_use]
    pub fn obstacles(&self) -> (cells: Vec<i64>)
        ensures
            growing(cells@),
            cells@.to_set() == self@.obstacles,
    {
        let mut cells: Vec<i64> = Vec::new();
        let elements = self.obstacles.iter();
        let ghost all = elements.remaining();
        assert(all.unref().to_set() == self@.obstacles);
        for k in it: elements
            invariant
                it.seq() == all,
                growing(cells@),
                forall|x: i64| #[trigger] cells@.contains(x) <==> exists|i: int|
                    0 <= i < it.index() && *(#[trigger] all[i]) == x,
        {
            let ghost before = cells@;
            let ghost n = it.index();
            include_number(&mut cells, *k);
            proof {
                assert forall|x: i64| #[trigger] cells@.contains(x) <==> exists|j: int|
                    0 <= j < n + 1 && *(#[trigger] all[j]) == x by {
                    if before.contains(x) {
                        let j = choose|j: int| 0 <= j < n && *(#[trigger] all[j]) == x;
                        assert(*all[j] == x);
                    }
                    if x == *k {
                        assert(*all[n] == x);
                    }
                }
            }
        }
        proof {
            assert forall|x: i64| cells@.to_set().contains(x) == self@.obstacles.contains(x) by {
                if self@.obstacles.contains(x) {
                    assert(all.unref().to_set().contains(x));
                    let i = choose|i: int| 0 <= i < all.len() && all.unref()[i] == x;
                    assert(*all[i] == x);
                    assert(cells@.contains(x));
                }
                if cells@.contains(x) {
                    let i = choose|i: int| 0 <= i < all.len() && *(#[trigger] all[i]) == x;
                    assert(all.unref()[i] == x);
                    assert(all.unref().to_set().contains(x));
                }
            }
            assert(cells@.to_set() =~= self@.obstacles);
        }
        cells
    }

    /// Whether a step to a cell is barred to an entity.
    fn is_barred(&self, id: i64, cell: i64) -> (b: bool)
        ensures
            b == self@.barred(id, cell),
    {
        if self.obstacles.contains(&cell) {
            return true;
        }
        let mut i: usize = 0;
        while i < self.entities.len()
            invariant
                i <= self.entities@.len(),
                forall|j: int|
                    0 <= j < i ==> (#[trigger] self@.entities[j]).id == id || self@.entities[j].life
                        <= 0 || self@.entities[j].cell != cell,
            decreases self.entities.len() - i,
        {
            let e = &self.entities[i];
            assert(self@.entities[i as int] == self.entities@[i as int]@);
            if e.id != id && e.life > 0 && e.cell == cell {
                assert(self@.entities[i as int].id != id);
                return true;
            }
            i += 1;
        }
        false
    }

    /// The cell one step on.
    fn next_step(&self, i: usize, tx: i64, ty: i64, away: bool) -> (next: Option<i64>)
        requires
            self.wf(),
            i < self@.entities.len(),
            self.width != 0,
        ensures
            next == self@.next_cell(i as int, tx as int, ty as int, away),
    {
        assert(self@.entities[i as int] == self.entities@[i as int]@);
        let cell: i64 = self.entities[i].cell;
        let cx: i128 = cell as i128 % self.width as i128;
        let cy: i128 = cell as i128 / self.width as i128;
        proof {
            lemma_split_small(cell as int, self.width as int);
        }
        let dx: i128 = tx as i128 - cx;
        let dy: i128 = ty as i128 - cy;
        let ax: i128 = if dx < 0 {
            -dx
        } else {
            dx
        };
        let ay: i128 = if dy < 0 {
            -dy
        } else {
            dy
        };
        let mut nx: i128 = cx;
        let mut ny: i128 = cy;
        if ax >= ay && dx != 0 {
            if (dx > 0) != away {
                nx = cx + 1;
            } else {
                nx = cx - 1;
            }
        } else if dy != 0 {
            if (dy > 0) != away {
                ny = cy + 1;
            } else {
                ny = cy - 1;
            }
        } else if away {
            nx = cx + 1;
        } else {
            return None;
        }
        assert(self@.step_of(cell as int, tx as int, ty as int, away) == Some(
            (nx as int, ny as int),
        ));
        if nx < 0 || nx >= self.width as i128 || ny < 0 || ny >= self.height as i128 {
            return None;
        }
        match self.cell_from_xy(nx as i64, ny as i64) {
            Some(c) => {
                if self.is_barred(self.entities[i].id, c) {
                    None
                } else {
                    Some(c)
                }
            },
            None => None,
        }
    }

    /// Lets an entity go towards a cell, or away from it, and tells how far.
    pub fn move_toward(&mut self, entity: i64, target: i64, max_mp: i64, away: bool) -> (moved: i64)
        requires
            old(self).wf(),
        ensures
            final(self).wf(),
            final(self)@.keeps(old(self)@),
            final(self)@ == old(self)@.moved_toward(entity, target, max_mp, away),
            moved == old(self)@.move_length(entity, target, max_mp, away),
    {
        let ghost f = self@;
        let (tx, ty) = match (self.cell_x(target), self.cell_y(target)) {
            (Some(x), Some(y)) => (x, y),
            _ => {
                return 0;
            },
        };
        let i: usize = match self.find(entity) {
            Some(i) => i,
            None => {
                return 0;
            },
        };
        let budget: i64 = max_of(min_of(self.entities[i].mp, max_mp), 0);
        if budget == 0 {
            return 0;
        }
        proof {
            lemma_coords_small(f, target as int);
            lemma_stroll(f, i as int, tx as int, ty as int, away, budget as nat);
        }
        let ghost goal = f.strolled(i as int, tx as int, ty as int, away, budget as nat);
        let ghost length = f.stroll_length(i as int, tx as int, ty as int, away, budget as nat);
        let mut moved: i64 = 0;
        while moved < budget
            invariant
                self.wf(),
                goal.wf(),
                goal.keeps(f),
                f == old(self)@,
                0 <= moved <= budget,
                length <= budget,
                i < self@.entities.len(),
                self.width != 0,
                goal == f.moved_toward(entity, target, max_mp, away),
                length == f.move_length(entity, target, max_mp, away),
                self@.strolled(i as int, tx as int, ty as int, away, (budget - moved) as nat)
                    == goal,
                self@.stroll_length(i as int, tx as int, ty as int, away, (budget - moved) as nat)
                    + moved == length,
            decreases budget - moved,
        {
            match self.next_step(i, tx, ty, away) {
                Some(c) => {
                    let ghost before = self@;
                    assert(before.entities[i as int] == self.entities@[i as int]@);
                    self.entities[i].cell = c;
                    let mp: i64 = self.entities[i].mp.wrapping_sub(1);
                    self.entities[i].mp = mp;
                    proof {
                        let after = before.with(
                            i as int,
                            EntityView {
                                cell: c,
                                mp: before.entities[i as int].mp.wrapping_sub(1),
                                ..before.entities[i as int]
                            },
                        );
                        assert(self@.entities =~= after.entities);
                        assert(self@ =~= after);
                    }
                    moved += 1;
                },
                None => {
                    return moved;
                },
            }
        }
        moved
    }

    /// Spends turn points, if there are enough.
    pub fn spend_tp(&mut self, entity: i64, amount: i64) -> (spent: bool)
        requires
            old(self).wf(),
        ensures
            final(self).wf(),
            final(self)@.keeps(old(self)@),
            match old(self)@.entity(entity) {
                Some(e) if e.tp >= amount => spent && final(self)@ == old(self)@.changed(
                    entity,
                    EntityView { tp: e.tp.wrapping_sub(amount), ..e },
                ),
                _ => !spent && final(self)@ == old(self)@,
            },
    {
        let ghost f = self@;
        if let Some(i) = self.find(entity) {
            if self.entities[i].tp >= amount {
                let tp: i64 = self.entities[i].tp.wrapping_sub(amount);
                self.entities[i].tp = tp;
                proof {
                    let e = f.entities[i as int];
                    let g = f.changed(entity, EntityView { tp: e.tp.wrapping_sub(amount), ..e });
                    assert(self@.entities =~= g.entities);
                    assert(self@ =~= g);
                }
                return true;
            }
        }
        false
    }

    /// Takes life from an entity, and tells how much.
    pub fn deal_damage(&mut self, target: i64, amount: i64) -> (dealt: i64)
        requires
            old(self).wf(),
        ensures
            final(self).wf(),
            final(self)@.keeps(old(self)@),
            0 <= dealt,
            match old(self)@.entity(target) {
                Some(e) => dealt == e.dealt(amount) && final(self)@ == old(self)@.changed(
                    target,
                    e.damaged(amount),
                ),
                None => dealt == 0 && final(self)@ == old(self)@,
            },
    {
        let ghost f = self@;
        match self.find(target) {
            Some(i) => {
                let dealt: i64 = self.entities[i].damage(amount);
                proof {
                    let g = f.changed(target, f.entities[i as int].damaged(amount));
                    assert(self@.entities =~= g.entities);
                    assert(self@ =~= g);
                }
                dealt
            },
            None => 0,
        }
    }

    /// Writes down what an entity says.
    pub fn say(&mut self, entity: i64, message: &str)
        requires
            old(self).wf(),
        ensures
            final(self).wf(),
            final(self)@ == (FightView { log: old(self)@.log.push((entity, message@)), ..old(self)@ }),
    {
        let ghost f = self@;
        self.log.push((entity, String::from_str(message)));
        assert(self@.log =~= f.log.push((entity, message@)));
    }

    /// Equips a weapon that the entity owns.
    pub fn set_weapon(&mut self, entity: i64, item: i64) -> (done: bool)
        requires
            old(self).wf(),
        ensures
            final(self).wf(),
            final(self)@.keeps(old(self)@),
            match old(self)@.entity(entity) {
                Some(e) if e.inventory.contains(item) => done && final(self)@ == old(
                    self,
                )@.changed(entity, EntityView { weapon: Some(item), ..e }),
                _ => !done && final(self)@ == old(self)@,
            },
    {
        let ghost f = self@;
        if let Some(i) = self.find(entity) {
            if crate::entity::holds(&self.entities[i].inventory, item) {
                self.entities[i].weapon = Some(item);
                proof {
                    let e = f.entities[i as int];
                    let g = f.changed(entity, EntityView { weapon: Some(item), ..e });
                    assert(self@.entities =~= g.entities);
                    assert(self@ =~= g);
                }
                return true;
            }
        }
        false
    }

    /// A random part of 1.
    pub fn roll_jet(&mut self) -> (jet: Real)
        requires
            old(self).wf(),
        ensures
            final(self).wf(),
            final(self)@ == (FightView { rng: stirred(old(self)@.rng), ..old(self)@ }),
            jet == crate::might::part_of_one(stirred(old(self)@.rng)),
            jet.within(200),
    {
        let x: u64 = self.rng;
        let a: u64 = x ^ (x << 13u64);
        let b: u64 = a ^ (a >> 7u64);
        let c: u64 = b ^ (b << 17u64);
        self.rng = c;
        crate::might::part_of(c)
    }

    /// Warns once of an effect of an item that does nothing.
    pub fn warn_unsupported(&mut self, entity: i64, item: i64, effect_id: u8)
        requires
            old(self).wf(),
        ensures
            final(self).wf(),
            final(self)@ == old(self)@.warned_of(entity, item, effect_id),
    {
        let ghost f = self@;
        let mut i: usize = 0;
        while i < self.warned.len()
            invariant
                self.wf(),
                self@ == f,
                f == old(self)@,
                i <= self.warned@.len(),
                forall|j: int| 0 <= j < i ==> self.warned@[j] != (item, effect_id),
            decreases self.warned.len() - i,
        {
            if self.warned[i].0 == item && self.warned[i].1 == effect_id {
                assert(f.warned[i as int] == (item, effect_id));
                return;
            }
            i += 1;
        }
        self.warned.push((item, effect_id));
        let mut s: String = String::from_str("[engine] item ");
        s.append(crate::text::decimal_text(item).as_str());
        s.append(": effect type ");
        s.append(crate::text::decimal_text(effect_id as i64).as_str());
        s.append(" not modeled — skipped");
        assert(s@ =~= warning(item, effect_id));
        self.log.push((entity, s));
        assert(self@.log =~= f.log.push((entity, warning(item, effect_id))));
        assert(self@ =~= f.warned_of(entity, item, effect_id));
    }

    /// Begins a turn of an entity: all points are back, and its items wait less.
    pub fn regen(&mut self, entity: i64)
        requires
            old(self).wf(),
        ensures
            final(self).wf(),
            final(self)@.keeps(old(self)@),
            final(self)@ == match old(self)@.entity(entity) {
                Some(e) => old(self)@.changed(entity, e.regenerated()),
                None => old(self)@,
            },
    {
        let ghost f = self@;
        if let Some(i) = self.find(entity) {
            self.entities[i].regenerate();
            proof {
                let g = f.changed(entity, f.entities[i as int].regenerated());
                assert(self@.entities =~= g.entities);
                assert(self@ =~= g);
            }
        }
    }

    /// Lets the effects on an entity act and grow older.
    pub fn tick_effects(&mut self, entity: i64)
        requires
            old(self).wf(),
        ensures
            final(self).wf(),
            final(self)@.keeps(old(self)@),
            final(self)@ == match old(self)@.entity(entity) {
                Some(e) => old(self)@.changed(entity, e.effects_ticked()),
                None => old(self)@,
            },
    {
        let ghost f = self@;
        if let Some(i) = self.find(entity) {
            self.entities[i].tick();
            proof {
                let g = f.changed(entity, f.entities[i as int].effects_ticked());
                assert(self@.entities =~= g.entities);
                assert(self@ =~= g);
            }
        }
    }

    /// Gives life back, up to the total.
    pub fn heal(&mut self, entity: i64, amount: i64)
        requires
            old(self).wf(),
        ensures
            final(self).wf(),
            final(self)@.keeps(old(self)@),
            final(self)@ == match old(self)@.entity(entity) {
                Some(e) => old(self)@.changed(entity, e.healed(amount)),
                None => old(self)@,
            },
    {
        let ghost f = self@;
        if let Some(i) = self.find(entity) {
            self.entities[i].restore(amount);
            proof {
                let g = f.changed(entity, f.entities[i as int].healed(amount));
                assert(self@.entities =~= g.entities);
                assert(self@ =~= g);
            }
        }
    }

    /// Lowers the total life, and the life with it.
    pub fn reduce_max_life(&mut self, entity: i64, amount: i64)
        requires
            old(self).wf(),
        ensures
            final(self).wf(),
            final(self)@.keeps(old(self)@),
            final(self)@ == match old(self)@.entity(entity) {
                Some(e) => old(self)@.changed(entity, e.worn(amount)),
                None => old(self)@,
            },
    {
        let ghost f = self@;
        if let Some(i) = self.find(entity) {
            self.entities[i].wear(amount);
            proof {
                let g = f.changed(entity, f.entities[i as int].worn(amount));
                assert(self@.entities =~= g.entities);
                assert(self@ =~= g);
            }
        }
    }

    /// Puts an effect on an entity.
    pub fn add_effect(&mut self, entity: i64, effect: ActiveEffect)
        requires
            old(self).wf(),
        ensures
            final(self).wf(),
            final(self)@.keeps(old(self)@),
            final(self)@ == match old(self)@.entity(entity) {
                Some(e) => old(self)@.changed(entity, e.affected(effect)),
                None => old(self)@,
            },
    {
        let ghost f = self@;
        if let Some(i) = self.find(entity) {
            self.entities[i].affect(effect);
            proof {
                let g = f.changed(entity, f.entities[i as int].affected(effect));
                assert(self@.entities =~= g.entities);
                assert(self@ =~= g);
            }
        }
    }

    /// Raises the life and the total life.
    pub fn grant_vitality(&mut self, entity: i64, amount: i64)
        requires
            old(self).wf(),
        ensures
            final(self).wf(),
            final(self)@.keeps(old(self)@),
            final(self)@ == match old(self)@.entity(entity) {
                Some(e) => old(self)@.changed(entity, e.vitalized(amount)),
                None => old(self)@,
            },
    {
        let ghost f = self@;
        if let Some(i) = self.find(entity) {
            self.entities[i].vitalize(amount);
            proof {
                let g = f.changed(entity, f.entities[i as int].vitalized(amount));
                assert(self@.entities =~= g.entities);
                assert(self@ =~= g);
            }
        }
    }

    /// Raises the total life.
    pub fn raise_max_life(&mut self, entity: i64, amount: i64)
        requires
            old(self).wf(),
        ensures
            final(self).wf(),
            final(self)@.keeps(old(self)@),
            final(self)@ == match old(self)@.entity(entity) {
                Some(e) => old(self)@.changed(entity, e.raised(amount)),
                None => old(self)@,
            },
    {
        let ghost f = self@;
        if let Some(i) = self.find(entity) {
            self.entities[i].raise(amount);
            proof {
                let g = f.changed(entity, f.entities[i as int].raised(amount));
                assert(self@.entities =~= g.entities);
                assert(self@ =~= g);
            }
        }
    }

    /// Takes a share, in hundredths, off the effects on an entity.
    pub fn reduce_effects(&mut self, entity: i64, percent: i64, total: bool)
        requires
            old(self).wf(),
        ensures
            final(self).wf(),
            final(self)@.keeps(old(self)@),
            final(self)@ == match old(self)@.entity(entity) {
                Some(e) => old(self)@.changed(entity, e.effects_lessened(percent, total)),
                None => old(self)@,
            },
    {
        let ghost f = self@;
        if let Some(i) = self.find(entity) {
            self.entities[i].lessen(percent, total);
            proof {
                let g = f.changed(entity, f.entities[i as int].effects_lessened(percent, total));
                assert(self@.entities =~= g.entities);
                assert(self@ =~= g);
            }
        }
    }

    /// Frees an entity of shackles.
    pub fn remove_shackles(&mut self, entity: i64)
        requires
            old(self).wf(),
        ensures
            final(self).wf(),
            final(self)@.keeps(old(self)@),
            final(self)@ == match old(self)@.entity(entity) {
                Some(e) => old(self)@.changed(entity, e.unshackled()),
                None => old(self)@,
            },
    {
        let ghost f = self@;
        if let Some(i) = self.find(entity) {
            self.entities[i].unshackle();
            proof {
                let g = f.changed(entity, f.entities[i as int].unshackled());
                assert(self@.entities =~= g.entities);
                assert(self@ =~= g);
            }
        }
    }

    /// Brings a dead entity back with some life; at least 1, and no more than the total.
    pub fn revive(&mut self, entity: i64, life: i64)
        requires
            old(self).wf(),
        ensures
            final(self).wf(),
            final(self)@.keeps(old(self)@),
            final(self)@ == match old(self)@.entity(entity) {
                Some(e) => old(self)@.changed(entity, e.revived(life)),
                None => old(self)@,
            },
    {
        let ghost f = self@;
        if let Some(i) = self.find(entity) {
            self.entities[i].revive(life);
            proof {
                let g = f.changed(entity, f.entities[i as int].revived(life));
                assert(self@.entities =~= g.entities);
                assert(self@ =~= g);
            }
        }
    }

    /// Counts the use of an item, which then has to wait.
    pub fn register_use(&mut self, entity: i64, item: i64, cooldown: i64)
        requires
            old(self).wf(),
        ensures
            final(self).wf(),
            final(self)@.keeps(old(self)@),
            final(self)@ == match old(self)@.entity(entity) {
                Some(e) => old(self)@.changed(entity, e.used(item, cooldown)),
                None => old(self)@,
            },
    {
        let ghost f = self@;
        if let Some(i) = self.find(entity) {
            self.entities[i].count_use(item, cooldown);
            proof {
                let g = f.changed(entity, f.entities[i as int].used(item, cooldown));
                assert(self@.entities =~= g.entities);
                assert(self@ =~= g);
            }
        }
    }

    /// Frees an entity of the effects of a kind.
    pub fn remove_effects(&mut self, entity: i64, kind: EffectKind)
        requires
            old(self).wf(),
        ensures
            final(self).wf(),
            final(self)@.keeps(old(self)@),
            final(self)@ == match old(self)@.entity(entity) {
                Some(e) => old(self)@.changed(entity, EntityView { effects: crate::entity::without_kind(e.effects, kind), ..e }),
                None => old(self)@,
            },
    {
        let ghost f = self@;
        if let Some(i) = self.find(entity) {
            self.entities[i].drop_kind(kind);
            proof {
                let g = f.changed(entity, EntityView { effects: crate::entity::without_kind(f.entities[i as int].effects, kind), ..f.entities[i as int] });
                assert(self@.entities =~= g.entities);
                assert(self@ =~= g);
            }
        }
    }
}

/// Puts a number into a list that grows, unless it is there.
fn include_number(list: &mut Vec<i64>, n: i64)
    requires
        growing(old(list)@),
    ensures
        growing(final(list)@),
        forall|x: i64| #[trigger]
            final(list)@.contains(x) <==> old(list)@.contains(x) || x == n,
{
    let ghost before = list@;
    let mut i: usize = 0;
    while i < list.len() && list[i] < n
        invariant
            list@ == before,
            i <= list@.len(),
            forall|j: int| 0 <= j < i ==> list@[j] < n,
        decreases list.len() - i,
    {
        i += 1;
    }
    if i < list.len() && list[i] == n {
        assert(before[i as int] == n);
        return;
    }
    list.insert(i, n);
    proof {
        assert forall|x: i64| #[trigger] list@.contains(x) <==> before.contains(x) || x == n by {
            if list@.contains(x) {
                let j = choose|j: int| 0 <= j < list@.len() && list@[j] == x;
                if j < i {
                    assert(before[j] == x);
                } else if j > i {
                    assert(before[j - 1] == x);
                }
            }
            if before.contains(x) {
                let j = choose|j: int| 0 <= j < before.len() && before[j] == x;
                if j < i {
                    assert(list@[j] == x);
                } else {
                    assert(list@[j + 1] == x);
                }
            }
            assert(list@[i as int] == n);
        }
    }
}

} // verus!
