//! Using weapons and chips: what is refused and why, and what a use does.

use crate::actions::Action;
use crate::attack::{Area, AttackType, EffectParams, EffectType};
use crate::fighter::{FighterView, TeamView};
use crate::map::Board;
use crate::world::{ChipSpec, State, WeaponSpec, World};
use vstd::prelude::*;

verus! {

broadcast use {
    vstd::std_specs::hash::group_hash_axioms,
    vstd::std_specs::btree::group_btree_axioms,
};

pub const USE_CRITICAL: i32 = 2;

pub const USE_SUCCESS: i32 = 1;

pub const USE_FAILED: i32 = 0;

pub const USE_INVALID_TARGET: i32 = -1;

pub const USE_NOT_ENOUGH_TP: i32 = -2;

pub const USE_INVALID_COOLDOWN: i32 = -3;

pub const USE_INVALID_POSITION: i32 = -4;

pub const USE_TOO_MANY_SUMMONS: i32 = -5;

pub const USE_RESURRECT_INVALID_ENTITY: i32 = -6;

pub const USE_MAX_USES: i32 = -7;

impl WeaponSpec {
    /// Whether two weapons are the same.
    pub open spec fn same(self, other: WeaponSpec) -> bool {
        &&& self.id == other.id
        &&& self.cost == other.cost
        &&& self.min_range == other.min_range
        &&& self.max_range == other.max_range
        &&& self.launch_type == other.launch_type
        &&& self.needs_los == other.needs_los
        &&& self.max_uses == other.max_uses
        &&& self.area == other.area
        &&& self.effects@ == other.effects@
        &&& self.forgotten == other.forgotten
    }

    /// A copy of the weapon.
    #[must_use]
    pub fn copied(&self) -> (r: WeaponSpec)
        ensures
            r.same(*self),
    {
        WeaponSpec {
            id: self.id,
            cost: self.cost,
            min_range: self.min_range,
            max_range: self.max_range,
            launch_type: self.launch_type,
            needs_los: self.needs_los,
            max_uses: self.max_uses,
            area: self.area,
            effects: copy_lines(&self.effects),
            forgotten: self.forgotten,
        }
    }
}

impl ChipSpec {
    /// Whether two chips are the same.
    pub open spec fn same(self, other: ChipSpec) -> bool {
        &&& self.id == other.id
        &&& self.cost == other.cost
        &&& self.min_range == other.min_range
        &&& self.max_range == other.max_range
        &&& self.launch_type == other.launch_type
        &&& self.needs_los == other.needs_los
        &&& self.max_uses == other.max_uses
        &&& self.area == other.area
        &&& self.effects@ == other.effects@
        &&& self.cooldown == other.cooldown
        &&& self.team_cooldown == other.team_cooldown
        &&& self.initial_cooldown == other.initial_cooldown
        &&& self.level == other.level
    }

    /// A copy of the chip.
    #[must_use]
    pub fn copied(&self) -> (r: ChipSpec)
        ensures
            r.same(*self),
    {
        ChipSpec {
            id: self.id,
            cost: self.cost,
            min_range: self.min_range,
            max_range: self.max_range,
            launch_type: self.launch_type,
            needs_los: self.needs_los,
            max_uses: self.max_uses,
            area: self.area,
            effects: copy_lines(&self.effects),
            cooldown: self.cooldown,
            team_cooldown: self.team_cooldown,
            initial_cooldown: self.initial_cooldown,
            level: self.level,
        }
    }
}

/// A copy of the lines of an item.
fn copy_lines(lines: &Vec<EffectParams>) -> (r: Vec<EffectParams>)
    ensures
        r@ == lines@,
{
    let mut r: Vec<EffectParams> = Vec::new();
    let mut i: usize = 0;
    while i < lines.len()
        invariant
            i <= lines@.len(),
            r@ == lines@.take(i as int),
        decreases lines.len() - i,
    {
        r.push(lines[i]);
        i += 1;
        assert(r@ =~= lines@.take(i as int));
    }
    assert(lines@.take(i as int) =~= lines@);
    r
}

/// The first line of an item that is of a kind.
pub open spec fn first_line(lines: Seq<EffectParams>, kind: EffectType) -> Option<EffectParams>
    decreases lines.len(),
{
    if lines.len() == 0 {
        None
    } else {
        match first_line(lines.drop_last(), kind) {
            Some(l) => Some(l),
            None => if lines.last().effect == kind {
                Some(lines.last())
            } else {
                None
            },
        }
    }
}

proof fn lemma_first_line_extends(lines: Seq<EffectParams>, n: int, kind: EffectType)
    requires
        0 <= n <= lines.len(),
        first_line(lines.take(n), kind) is Some,
    ensures
        first_line(lines, kind) == first_line(lines.take(n), kind),
    decreases lines.len(),
{
    if n < lines.len() {
        assert(lines.drop_last().take(n) =~= lines.take(n));
        lemma_first_line_extends(lines.drop_last(), n, kind);
    } else {
        assert(lines.take(n) =~= lines);
    }
}

/// The first line of an item that is of a kind.
pub(crate) fn find_line(lines: &Vec<EffectParams>, kind: EffectType) -> (found: Option<EffectParams>)
    ensures
        found == first_line(lines@, kind),
        crate::world::lines_wf(lines@) && found is Some ==> found.unwrap().wf(),
{
    let mut i: usize = 0;
    assert(lines@.take(0) =~= Seq::<EffectParams>::empty());
    while i < lines.len()
        invariant
            i <= lines@.len(),
            first_line(lines@.take(i as int), kind) is None,
        decreases lines.len() - i,
    {
        assert(lines@.take(i + 1).drop_last() =~= lines@.take(i as int));
        if lines[i].effect == kind {
            proof {
                lemma_first_line_extends(lines@, i + 1, kind);
                assert(crate::world::lines_wf(lines@) ==> lines@[i as int].wf());
            }
            return Some(lines[i]);
        }
        i += 1;
    }
    assert(lines@.take(i as int) =~= lines@);
    None
}

impl Board {
    /// Whether an attack from a cell reaches another: in range, and in sight
    /// where that is needed. An attack on the first in line cannot aim at it,
    /// and sees past it.
    pub open spec fn attackable(
        self,
        from: int,
        target: int,
        min_range: int,
        max_range: int,
        launch_type: i32,
        needs_los: bool,
        area: Area,
    ) -> bool {
        let first = if area is FirstInLine {
            self.first_met(from, target, min_range, max_range)
        } else {
            None
        };
        &&& self.in_range(from, target, min_range, max_range, launch_type)
        &&& first != Some(target as usize)
        &&& !needs_los || self.sees(
            from,
            target,
            match first {
                Some(c) => seq![from as usize, c],
                None => seq![from as usize],
            },
        )
    }
}

impl World {
    /// Chance is drawn once.
    pub open spec fn drawn(self) -> World {
        World { rng: crate::rng::successor(self.rng), ..self }
    }

    /// Whether the next draw is a critical hit for a fighter.
    pub open spec fn next_is_critical(self, fid: int) -> bool {
        crate::power::hits_critically(
            crate::rng::fraction(crate::rng::successor(self.rng)),
            self.fighters[fid].stat(crate::fighter::STAT_AGILITY as int) as int,
        )
    }

    /// The result of a use that is not refused.
    pub open spec fn use_result(self, fid: int) -> i32 {
        if self.next_is_critical(fid) {
            USE_CRITICAL
        } else {
            USE_SUCCESS
        }
    }

    /// Why a fighter may not use its weapon on a cell.
    pub open spec fn weapon_refusal(self, fid: int, target: int) -> Option<i32> {
        let f = self.fighters[fid];
        if self.order.current() != Some(fid as usize) || f.weapon is None
            || !self.weapon_specs.contains_key(f.weapon.unwrap()) {
            Some(USE_INVALID_TARGET)
        } else {
            let spec = self.weapon_specs[f.weapon.unwrap()];
            if spec.cost > f.tp() {
                Some(USE_NOT_ENOUGH_TP)
            } else if spec.max_uses != -1 && f.uses(spec.id) >= spec.max_uses {
                Some(USE_MAX_USES)
            } else if f.cell is None || !self.board.attackable(
                f.cell.unwrap() as int,
                target,
                spec.min_range as int,
                spec.max_range as int,
                spec.launch_type,
                spec.needs_los,
                spec.area,
            ) {
                Some(USE_INVALID_POSITION)
            } else {
                None
            }
        }
    }

    /// A fighter uses its weapon on a cell.
    pub open spec fn weapon_used(self, fid: int, target: usize) -> World {
        let spec = self.weapon_specs[self.fighters[fid].weapon.unwrap()];
        let critical = self.next_is_critical(fid);
        let w = self.drawn().logged(
            crate::json::row(
                seq![crate::actions::USE_WEAPON as int, target as int, self.use_result(fid) as int],
            ),
        ).attacked(
            fid,
            target,
            critical,
            spec.area,
            spec.effects@,
            spec.id,
            AttackType::Weapon,
            spec.min_range as int,
            spec.max_range as int,
            spec.needs_los,
        ).world;
        w.with_fighter(fid, w.fighters[fid].tp_used(spec.cost).item_used(spec.id))
    }

    /// Whether a chip has to cool down for a fighter.
    pub open spec fn chip_cools(self, fid: int, chip: int, team_cooldown: bool) -> bool {
        if team_cooldown {
            self.teams[self.fighters[fid].team as int].cooldowns.contains_key(chip as i32)
        } else {
            self.fighters[fid].cooldowns.contains_key(chip as i32)
        }
    }

    /// A chip has to cool down, for the fighter or for its team.
    pub open spec fn chip_cooling(
        self,
        fid: int,
        chip: i32,
        team_cooldown: bool,
        cooldown: i32,
    ) -> World {
        let f = self.fighters[fid];
        if team_cooldown {
            self.with_team(
                f.team as int,
                self.teams[f.team as int].cooling(chip, cooldown),
            )
        } else {
            self.with_fighter(fid, f.cooling(chip, cooldown))
        }
    }

    /// A chip that was used cools down, if it has to.
    pub open spec fn chip_spent(self, fid: int, spec: ChipSpec) -> World {
        if spec.cooldown != 0 {
            self.chip_cooling(fid, spec.id, spec.team_cooldown, spec.cooldown)
        } else {
            self
        }
    }

    /// Whether a fighter could stand on a cell.
    pub open spec fn vacant(self, cell: usize) -> bool {
        self.board.walkable(cell as int) && self.entity_on(cell) is None
    }

    /// Why a fighter may not use a chip on a cell.
    pub open spec fn chip_refusal(self, fid: int, target: usize, chip: i32) -> Option<i32> {
        let f = self.fighters[fid];
        if !self.chip_specs.contains_key(chip) || self.order.current() != Some(fid as usize) {
            Some(USE_INVALID_TARGET)
        } else {
            let spec = self.chip_specs[chip];
            if spec.cost > 0 && spec.cost > f.tp() {
                Some(USE_NOT_ENOUGH_TP)
            } else if self.chip_cools(fid, spec.id as int, spec.team_cooldown) {
                Some(USE_INVALID_COOLDOWN)
            } else if spec.max_uses != -1 && f.uses(spec.id) >= spec.max_uses {
                Some(USE_MAX_USES)
            } else if f.cell is None || !self.board.walkable(target as int)
                || !self.board.attackable(
                f.cell.unwrap() as int,
                target as int,
                spec.min_range as int,
                spec.max_range as int,
                spec.launch_type,
                spec.needs_los,
                spec.area,
            ) {
                Some(USE_INVALID_POSITION)
            } else if first_line(spec.effects@, EffectType::Teleport) is Some && !self.vacant(
                target,
            ) {
                Some(USE_INVALID_TARGET)
            } else {
                None
            }
        }
    }

    /// A fighter uses a chip on a cell.
    pub open spec fn chip_used(self, fid: int, target: usize, chip: i32) -> World {
        let spec = self.chip_specs[chip];
        let critical = self.next_is_critical(fid);
        let w = self.drawn().logged(
            crate::json::row(
                seq![
                    crate::actions::USE_CHIP as int,
                    spec.id as int,
                    target as int,
                    self.use_result(fid) as int,
                ],
            ),
        ).attacked(
            fid,
            target,
            critical,
            spec.area,
            spec.effects@,
            spec.id,
            AttackType::Chip,
            spec.min_range as int,
            spec.max_range as int,
            spec.needs_los,
        ).world.chip_spent(fid, spec);
        w.with_fighter(fid, w.fighters[fid].tp_used(spec.cost).item_used(spec.id))
    }
}

impl State {
    /// Equips a weapon, for one turn point; tells whether there was one left.
    pub fn set_weapon(&mut self, fid: usize, weapon: i32) -> (done: bool)
        requires
            old(self).wf(),
            fid < old(self)@.fighters.len(),
        ensures
            final(self).wf(),
            final(self)@.extends(old(self)@),
            done == (old(self)@.fighters[fid as int].tp() > 0),
            !done ==> final(self)@ == old(self)@,
            done ==> final(self)@ == old(self)@.with_fighter(
                fid as int,
                FighterView {
                    weapon: Some(weapon),
                    ..old(self)@.fighters[fid as int]
                }.tp_used(1),
            ).logged(crate::json::row(seq![crate::actions::SET_WEAPON as int, weapon as int])),
    {
        let ghost w = self@;
        assert(w.fighters[fid as int] == self.fighters@[fid as int]@);
        if self.fighters[fid].tp() <= 0 {
            return false;
        }
        self.fighters[fid].weapon = Some(weapon);
        self.fighters[fid].use_tp(1);
        proof {
            let w1 = w.with_fighter(
                fid as int,
                FighterView { weapon: Some(weapon), ..w.fighters[fid as int] }.tp_used(1),
            );
            assert(self@.fighters =~= w1.fighters);
            assert(self@ =~= w1);
        }
        self.log(Action::SetWeapon { weapon_template: weapon });
        true
    }

    /// Whether an attack from a cell reaches another.
    #[must_use]
    pub fn can_use_attack(
        &self,
        caster_cell: usize,
        target_cell: usize,
        min_range: i32,
        max_range: i32,
        launch_type: i32,
        needs_los: bool,
        area: Area,
    ) -> (b: bool)
        requires
            self.wf(),
            self@.board.has(caster_cell as int),
            self@.board.has(target_cell as int),
        ensures
            b == self@.board.attackable(
                caster_cell as int,
                target_cell as int,
                min_range as int,
                max_range as int,
                launch_type,
                needs_los,
                area,
            ),
    {
        if !self.map.verify_range(caster_cell, target_cell, min_range, max_range, launch_type) {
            return false;
        }
        let mut ignored: Vec<usize> = Vec::new();
        ignored.push(caster_cell);
        assert(ignored@ =~= seq![caster_cell]);
        if let Area::FirstInLine = area {
            if let Some(c) = self.first_in_line(caster_cell, target_cell, min_range, max_range) {
                if c == target_cell {
                    return false;
                }
                ignored.push(c);
                assert(ignored@ =~= seq![caster_cell, c]);
            }
        }
        self.map.verify_los(caster_cell, target_cell, needs_los, ignored.as_slice())
    }

    /// Draws whether a use of a fighter is a critical hit.
    pub fn generate_critical(&mut self, fid: usize) -> (critical: bool)
        requires
            old(self).wf(),
            fid < old(self)@.fighters.len(),
        ensures
            final(self).wf(),
            final(self)@.extends(old(self)@),
            final(self)@ == old(self)@.drawn(),
            critical == old(self)@.next_is_critical(fid as int),
    {
        let ghost w = self@;
        assert(w.fighters[fid as int] == self.fighters@[fid as int]@);
        let draw: i64 = self.rng.draw();
        proof {
            assert(self@ =~= w.drawn());
        }
        crate::power::is_critical(draw, self.fighters[fid].stat(crate::fighter::STAT_AGILITY))
    }

    /// Counts what the use of an item costs.
    fn pay(&mut self, fid: usize, cost: i32, item_id: i32)
        requires
            old(self).wf(),
            fid < old(self)@.fighters.len(),
        ensures
            final(self).wf(),
            final(self)@.extends(old(self)@),
            final(self)@ == old(self)@.with_fighter(
                fid as int,
                old(self)@.fighters[fid as int].tp_used(cost).item_used(item_id),
            ),
    {
        let ghost w = self@;
        assert(w.fighters[fid as int] == self.fighters@[fid as int]@);
        self.fighters[fid].use_tp(cost);
        self.fighters[fid].add_item_use(item_id);
        proof {
            let w1 = w.with_fighter(
                fid as int,
                w.fighters[fid as int].tp_used(cost).item_used(item_id),
            );
            assert(self@.fighters =~= w1.fighters);
            assert(self@ =~= w1);
        }
    }

    /// Why a fighter cannot use its weapon on a cell, if it cannot.
    #[verifier::rlimit(30)]
    pub(crate) fn refuse_weapon(&self, fid: usize, target_cell: usize) -> (why: Option<i32>)
        requires
            self.wf(),
            fid < self@.fighters.len(),
            self@.board.has(target_cell as int),
        ensures
            why == self@.weapon_refusal(fid as int, target_cell as int),
    {
        let ghost w = self@;
        assert(w.fighters[fid as int] == self.fighters@[fid as int]@);
        assert(w.fighters[fid as int].fits(
            fid as int,
            w.teams.len() as int,
            w.board.cells.len() as int,
            w.effects.len() as int,
        ));
        match self.order.current() {
            Some(c) => {
                if c != fid {
                    return Some(USE_INVALID_TARGET);
                }
            },
            None => {
                return Some(USE_INVALID_TARGET);
            },
        }
        let weapon: i32 = match self.fighters[fid].weapon {
            Some(id) => id,
            None => {
                return Some(USE_INVALID_TARGET);
            },
        };
        let spec: &WeaponSpec = match self.weapon_specs.get(&weapon) {
            Some(spec) => spec,
            None => {
                return Some(USE_INVALID_TARGET);
            },
        };
        assert(w.weapon_specs.contains_key(weapon));
        if spec.cost > self.fighters[fid].tp() {
            return Some(USE_NOT_ENOUGH_TP);
        }
        if spec.max_uses != -1 && self.fighters[fid].item_uses(spec.id) >= spec.max_uses {
            return Some(USE_MAX_USES);
        }
        let caster_cell: usize = match self.fighters[fid].cell {
            Some(c) => c,
            None => {
                return Some(USE_INVALID_POSITION);
            },
        };
        if !self.can_use_attack(
            caster_cell,
            target_cell,
            spec.min_range,
            spec.max_range,
            spec.launch_type,
            spec.needs_los,
            spec.area,
        ) {
            return Some(USE_INVALID_POSITION);
        }
        None
    }

    /// Lets a fighter use its weapon on a cell. What is refused changes
    /// nothing and draws nothing. What nothing models is noted in
    /// [`State::unmodelled`].
    #[verifier::rlimit(30)]
    pub fn use_weapon(&mut self, fid: usize, target_cell: usize) -> (result: i32)
        requires
            old(self).wf(),
            fid < old(self)@.fighters.len(),
            old(self)@.board.has(target_cell as int),
        ensures
            final(self).wf(),
            final(self)@.extends(old(self)@),
            match old(self)@.weapon_refusal(fid as int, target_cell as int) {
                Some(why) => result == why && final(self)@ == old(self)@,
                None => result == old(self)@.use_result(fid as int) && final(self)@ == old(
                    self,
                )@.weapon_used(fid as int, target_cell),
            },
    {
        let ghost w = self@;
        assert(w.fighters[fid as int] == self.fighters@[fid as int]@);
        assert(w.fighters[fid as int].fits(
            fid as int,
            w.teams.len() as int,
            w.board.cells.len() as int,
            w.effects.len() as int,
        ));
        proof {
            crate::map::lemma_cell_count_limit(w.board);
        }
        if let Some(why) = self.refuse_weapon(fid, target_cell) {
            return why;
        }
        let weapon: i32 = match self.fighters[fid].weapon {
            Some(id) => id,
            None => {
                return USE_INVALID_TARGET;
            },
        };
        let spec: WeaponSpec = match self.weapon_specs.get(&weapon) {
            Some(spec) => spec.copied(),
            None => {
                return USE_INVALID_TARGET;
            },
        };
        assert(w.weapon_specs.contains_key(weapon));
        assert(spec.same(w.weapon_specs[weapon]));
        let critical: bool = self.generate_critical(fid);
        let result: i32 = if critical {
            USE_CRITICAL
        } else {
            USE_SUCCESS
        };
        self.log(Action::UseWeapon { cell: target_cell as i32, success: result });
        let _ = self.apply_on_cell(
            fid,
            target_cell,
            critical,
            spec.area,
            spec.effects.as_slice(),
            spec.id,
            AttackType::Weapon,
            spec.min_range,
            spec.max_range,
            spec.needs_los,
        );
        self.pay(fid, spec.cost, spec.id);
        result
    }

    /// Makes a chip cool down, for a fighter or for its team.
    pub fn add_chip_cooldown(&mut self, fid: usize, chip: &ChipSpec, cooldown: i32)
        requires
            old(self).wf(),
            fid < old(self)@.fighters.len(),
        ensures
            final(self).wf(),
            final(self)@.extends(old(self)@),
            final(self)@ == old(self)@.chip_cooling(
                fid as int,
                chip.id,
                chip.team_cooldown,
                cooldown,
            ),
    {
        let ghost w = self@;
        assert(w.fighters[fid as int] == self.fighters@[fid as int]@);
        assert(w.fighters[fid as int].fits(
            fid as int,
            w.teams.len() as int,
            w.board.cells.len() as int,
            w.effects.len() as int,
        ));
        let ghost goal = w.chip_cooling(fid as int, chip.id, chip.team_cooldown, cooldown);
        if chip.team_cooldown {
            let team: usize = self.fighters[fid].team;
            assert(w.teams[team as int] == self.teams@[team as int]@);
            self.teams[team].add_cooldown(chip.id, cooldown);
            proof {
                assert(self@.teams =~= goal.teams);
                assert(self@ =~= goal);
            }
        } else {
            self.fighters[fid].add_cooldown(chip.id, cooldown);
            proof {
                assert(self@.fighters =~= goal.fighters);
                assert(self@ =~= goal);
            }
        }
    }

    /// Whether a chip has to cool down for a fighter.
    #[must_use]
    pub fn has_chip_cooldown(&self, fid: usize, chip: &ChipSpec) -> (b: bool)
        requires
            self.wf(),
            fid < self@.fighters.len(),
        ensures
            b == self@.chip_cools(fid as int, chip.id as int, chip.team_cooldown),
    {
        let ghost w = self@;
        assert(w.fighters[fid as int] == self.fighters@[fid as int]@);
        assert(w.fighters[fid as int].fits(
            fid as int,
            w.teams.len() as int,
            w.board.cells.len() as int,
            w.effects.len() as int,
        ));
        if chip.team_cooldown {
            let team: usize = self.fighters[fid].team;
            assert(w.teams[team as int] == self.teams@[team as int]@);
            self.teams[team].has_cooldown(chip.id)
        } else {
            self.fighters[fid].has_cooldown(chip.id)
        }
    }

    /// The turns that a chip has to cool down for a fighter; 0 for a chip
    /// that is not known.
    #[must_use]
    pub fn chip_cooldown(&self, fid: usize, chip_id: i32) -> (n: i32)
        requires
            self.wf(),
            fid < self@.fighters.len(),
        ensures
            n == if !self@.chip_specs.contains_key(chip_id) {
                0
            } else {
                let spec = self@.chip_specs[chip_id];
                if spec.team_cooldown {
                    crate::fighter::or_zero(
                        self@.teams[self@.fighters[fid as int].team as int].cooldowns,
                        spec.id,
                    )
                } else {
                    crate::fighter::or_zero(self@.fighters[fid as int].cooldowns, spec.id)
                }
            },
    {
        let ghost w = self@;
        assert(w.fighters[fid as int] == self.fighters@[fid as int]@);
        assert(w.fighters[fid as int].fits(
            fid as int,
            w.teams.len() as int,
            w.board.cells.len() as int,
            w.effects.len() as int,
        ));
        match self.chip_specs.get(&chip_id) {
            Some(chip) => {
                if chip.team_cooldown {
                    let team: usize = self.fighters[fid].team;
                    assert(w.teams[team as int] == self.teams@[team as int]@);
                    self.teams[team].cooldown(chip.id)
                } else {
                    self.fighters[fid].cooldown(chip.id)
                }
            },
            None => 0,
        }
    }

    /// Whether a fighter could stand on a cell.
    pub(crate) fn is_vacant(&self, cell: usize) -> (b: bool)
        requires
            self.wf(),
            self@.board.has(cell as int),
        ensures
            b == self@.vacant(cell),
    {
        self.map.cells[cell].walkable && self.entity_on(cell).is_none()
    }

    /// Makes a chip that was used cool down, if it has to.
    fn spend_chip(&mut self, fid: usize, spec: &ChipSpec)
        requires
            old(self).wf(),
            fid < old(self)@.fighters.len(),
        ensures
            final(self).wf(),
            final(self)@.extends(old(self)@),
            final(self)@ == old(self)@.chip_spent(fid as int, *spec),
    {
        if spec.cooldown != 0 {
            self.add_chip_cooldown(fid, spec, spec.cooldown);
        }
    }

    /// Why a fighter cannot use a chip on a cell, if it cannot.
    #[verifier::rlimit(30)]
    pub(crate) fn refuse_chip(&self, fid: usize, target_cell: usize, chip_id: i32) -> (why:
        Option<i32>)
        requires
            self.wf(),
            fid < self@.fighters.len(),
            self@.board.has(target_cell as int),
        ensures
            why == self@.chip_refusal(fid as int, target_cell, chip_id),
    {
        let ghost w = self@;
        assert(w.fighters[fid as int] == self.fighters@[fid as int]@);
        assert(w.fighters[fid as int].fits(
            fid as int,
            w.teams.len() as int,
            w.board.cells.len() as int,
            w.effects.len() as int,
        ));
        let spec: &ChipSpec = match self.chip_specs.get(&chip_id) {
            Some(spec) => spec,
            None => {
                return Some(USE_INVALID_TARGET);
            },
        };
        assert(w.chip_specs.contains_key(chip_id));
        match self.order.current() {
            Some(c) => {
                if c != fid {
                    return Some(USE_INVALID_TARGET);
                }
            },
            None => {
                return Some(USE_INVALID_TARGET);
            },
        }
        if spec.cost > 0 && spec.cost > self.fighters[fid].tp() {
            return Some(USE_NOT_ENOUGH_TP);
        }
        if self.has_chip_cooldown(fid, spec) {
            return Some(USE_INVALID_COOLDOWN);
        }
        if spec.max_uses != -1 && self.fighters[fid].item_uses(spec.id) >= spec.max_uses {
            return Some(USE_MAX_USES);
        }
        let caster_cell: usize = match self.fighters[fid].cell {
            Some(c) => c,
            None => {
                return Some(USE_INVALID_POSITION);
            },
        };
        if !self.map.cells[target_cell].walkable || !self.can_use_attack(
            caster_cell,
            target_cell,
            spec.min_range,
            spec.max_range,
            spec.launch_type,
            spec.needs_los,
            spec.area,
        ) {
            return Some(USE_INVALID_POSITION);
        }
        if find_line(&spec.effects, EffectType::Teleport).is_some() && !self.is_vacant(
            target_cell,
        ) {
            return Some(USE_INVALID_TARGET);
        }
        None
    }

    /// Lets a fighter use a chip on a cell. What is refused changes nothing
    /// and draws nothing. What nothing models is noted in
    /// [`State::unmodelled`].
    #[verifier::rlimit(30)]
    pub fn use_chip(&mut self, fid: usize, target_cell: usize, chip_id: i32) -> (result: i32)
        requires
            old(self).wf(),
            fid < old(self)@.fighters.len(),
            old(self)@.board.has(target_cell as int),
        ensures
            final(self).wf(),
            final(self)@.extends(old(self)@),
            match old(self)@.chip_refusal(fid as int, target_cell, chip_id) {
                Some(why) => result == why && final(self)@ == old(self)@,
                None => result == old(self)@.use_result(fid as int) && final(self)@ == old(
                    self,
                )@.chip_used(fid as int, target_cell, chip_id),
            },
    {
        let ghost w = self@;
        assert(w.fighters[fid as int] == self.fighters@[fid as int]@);
        assert(w.fighters[fid as int].fits(
            fid as int,
            w.teams.len() as int,
            w.board.cells.len() as int,
            w.effects.len() as int,
        ));
        proof {
            crate::map::lemma_cell_count_limit(w.board);
        }
        if let Some(why) = self.refuse_chip(fid, target_cell, chip_id) {
            return why;
        }
        let spec: ChipSpec = match self.chip_specs.get(&chip_id) {
            Some(spec) => spec.copied(),
            None => {
                return USE_INVALID_TARGET;
            },
        };
        assert(w.chip_specs.contains_key(chip_id));
        assert(spec.same(w.chip_specs[chip_id]));
        let critical: bool = self.generate_critical(fid);
        let result: i32 = if critical {
            USE_CRITICAL
        } else {
            USE_SUCCESS
        };
        self.log(
            Action::UseChip {
                chip_template: spec.id,
                cell: target_cell as i32,
                success: result,
            },
        );
        let _ = self.apply_on_cell(
            fid,
            target_cell,
            critical,
            spec.area,
            spec.effects.as_slice(),
            spec.id,
            AttackType::Chip,
            spec.min_range,
            spec.max_range,
            spec.needs_los,
        );
        self.spend_chip(fid, &spec);
        self.pay(fid, spec.cost, spec.id);
        result
    }
}

} // verus!
