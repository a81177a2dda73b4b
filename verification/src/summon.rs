//! Fighters that join: those of the beginning, those that are summoned, and
//! those that come back to life.

use crate::actions::Action;
use crate::attack::EffectType;
use crate::cast::{
    find_line, USE_CRITICAL, USE_INVALID_COOLDOWN, USE_INVALID_POSITION, USE_INVALID_TARGET,
    USE_NOT_ENOUGH_TP, USE_SUCCESS, USE_TOO_MANY_SUMMONS,
};
use crate::fighter::{
    Fighter, FighterView, Stats, Team, TeamView, STAT_AGILITY, STAT_CORES, STAT_LIFE, STAT_MAGIC,
    STAT_MP, STAT_RAM, STAT_RESISTANCE, STAT_SCIENCE, STAT_STRENGTH, STAT_TP, STAT_WISDOM,
    SUMMON_LIMIT,
};
use crate::world::{BulbTemplate, ChipSpec, State, World, FIGHTER_LIMIT};
use std::collections::BTreeSet;
use vstd::prelude::*;
use vstd::string::*;

verus! {

broadcast use {
    vstd::std_specs::hash::group_hash_axioms,
    vstd::std_specs::btree::group_btree_axioms,
    crate::fighter::lemma_stats_len,
};

/// Teams up to a number, numbered in their order.
pub open spec fn teams_up_to(teams: Seq<TeamView>, n: nat) -> Seq<TeamView>
    decreases n,
{
    if teams.len() >= n || n == 0 {
        teams
    } else {
        let before = teams_up_to(teams, (n - 1) as nat);
        before.push(
            TeamView {
                id: (n - 1) as i64,
                fighters: Seq::empty(),
                cooldowns: Map::empty(),
            },
        )
    }
}

/// The chips of a summoned fighter: the first six different ones.
pub open spec fn granted(chips: Seq<i32>, n: nat) -> Set<i32>
    decreases n,
{
    if n == 0 {
        Set::empty()
    } else {
        let before = granted(chips, (n - 1) as nat);
        if before.len() < 6 {
            before.insert(chips[n - 1])
        } else {
            before
        }
    }
}

/// A characteristic of a summoned fighter.
pub open spec fn grown(range: (i32, i32), level: i32, critical: bool) -> i32 {
    crate::power::summon_stat(range.0, range.1, level as int, critical) as i32
}

/// The characteristics of a summoned fighter.
pub open spec fn summon_stats(t: BulbTemplate, level: i32, critical: bool) -> Seq<i32> {
    crate::fighter::no_stats().update(STAT_LIFE as int, grown(t.life, level, critical)).update(
        STAT_STRENGTH as int,
        grown(t.strength, level, critical),
    ).update(STAT_WISDOM as int, grown(t.wisdom, level, critical)).update(
        STAT_AGILITY as int,
        grown(t.agility, level, critical),
    ).update(STAT_RESISTANCE as int, grown(t.resistance, level, critical)).update(
        STAT_SCIENCE as int,
        grown(t.science, level, critical),
    ).update(STAT_MAGIC as int, grown(t.magic, level, critical)).update(
        STAT_TP as int,
        grown(t.tp, level, critical),
    ).update(STAT_MP as int, grown(t.mp, level, critical)).update(STAT_CORES as int, 1).update(
        STAT_RAM as int,
        6,
    )
}

/// The name of a summoned fighter: the first twenty characters of the given
/// one, or that of the template.
pub open spec fn summon_name(t: BulbTemplate, name: Option<Seq<char>>) -> Seq<char> {
    match name {
        Some(n) => if n.len() > 0 {
            crate::text::shortened(n, 20)
        } else {
            t.name@
        },
        None => t.name@,
    }
}

/// The first living fighter that comes behind another in a list.
pub open spec fn next_alive(
    list: Seq<usize>,
    fighters: Seq<FighterView>,
    entity: usize,
    i: int,
    started: bool,
) -> Option<usize>
    decreases list.len() - i,
{
    if i >= list.len() {
        None
    } else if list[i] == entity {
        next_alive(list, fighters, entity, i + 1, true)
    } else if !started || fighters[list[i] as int].is_dead() {
        next_alive(list, fighters, entity, i + 1, started)
    } else {
        Some(list[i])
    }
}

impl World {
    /// The same board and items as before; fighters and teams may have
    /// joined.
    pub open spec fn continues(self, before: World) -> bool {
        &&& self.fighters.len() >= before.fighters.len()
        &&& self.teams.len() >= before.teams.len()
        &&& self.effects.len() >= before.effects.len()
        &&& self.board.width == before.board.width
        &&& self.board.height == before.board.height
        &&& self.board.cells == before.board.cells
        &&& self.weapon_specs == before.weapon_specs
        &&& self.chip_specs == before.chip_specs
        &&& self.bulb_templates == before.bulb_templates
        &&& before.wf() && before.seated() ==> self.seated()
    }

    /// A fighter joins a team, under the next index.
    pub open spec fn joined(self, team: int, f: FighterView) -> World {
        let fid = self.fighters.len() as usize;
        let teams = teams_up_to(self.teams, (team + 1) as nat);
        World {
            teams: teams.update(
                team,
                TeamView { fighters: teams[team].fighters.push(fid), ..teams[team] },
            ),
            fighters: self.fighters.push(FighterView { fid, team: team as usize, ..f }),
            ..self
        }
    }

    /// The fighter that a template makes for an owner.
    pub open spec fn offspring(
        self,
        owner: int,
        t: BulbTemplate,
        level: i32,
        critical: bool,
        name: Option<Seq<char>>,
    ) -> FighterView {
        let o = self.fighters[owner];
        FighterView {
            level,
            farmer: o.farmer,
            ai_name: o.ai_name,
            skin: t.id,
            summoner: Some(owner as usize),
            birth_turn: self.order.turn,
            chips: granted(t.chips@, t.chips@.len()),
            ..FighterView::fresh(
                self.fighters.len() as usize,
                (-self.fighters.len()) as i64,
                summon_name(t, name),
                0,
                summon_stats(t, o.level, critical),
            )
        }
    }

    /// A fighter is summoned onto a cell, to play right behind its owner.
    pub open spec fn summoned(
        self,
        owner: int,
        t: BulbTemplate,
        cell: usize,
        level: i32,
        critical: bool,
        name: Option<Seq<char>>,
    ) -> World {
        let fid = self.fighters.len() as int;
        let w = self.joined(
            self.fighters[owner].team as int,
            self.offspring(owner, t, level, critical, name),
        );
        let placed = World {
            order: w.order.summoned(owner as usize, fid as usize),
            ..w
        }.placed(fid, cell);
        World {
            leek_snapshots: placed.leek_snapshots.push(
                crate::outcome::snapshot(placed.fighters[fid]),
            ),
            ..placed
        }
    }

    /// The line of a chip that summons.
    pub open spec fn summon_line(self, chip: i32) -> Option<crate::attack::EffectParams> {
        if self.chip_specs.contains_key(chip) {
            crate::cast::first_line(self.chip_specs[chip].effects@, EffectType::Summon)
        } else {
            None
        }
    }

    /// Why a fighter may not summon with a chip on a cell.
    pub open spec fn summon_refusal(self, fid: int, target: usize, chip: i32) -> Option<i32> {
        let f = self.fighters[fid];
        if self.summon_line(chip) is None || self.order.current() != Some(fid as usize) {
            Some(USE_INVALID_TARGET)
        } else {
            let spec = self.chip_specs[chip];
            if spec.cost > f.tp() {
                Some(USE_NOT_ENOUGH_TP)
            } else if self.chip_cools(fid, spec.id as int, spec.team_cooldown) {
                Some(USE_INVALID_COOLDOWN)
            } else if f.cell is None || !self.board.attackable(
                f.cell.unwrap() as int,
                target as int,
                spec.min_range as int,
                spec.max_range as int,
                spec.launch_type,
                spec.needs_los,
                spec.area,
            ) || !self.vacant(target) {
                Some(USE_INVALID_POSITION)
            } else if self.teams[f.team as int].summon_count(self.fighters) >= SUMMON_LIMIT {
                Some(USE_TOO_MANY_SUMMONS)
            } else {
                None
            }
        }
    }

    /// A chip is paid for.
    pub open spec fn chip_paid(self, fid: int, spec: ChipSpec) -> World {
        let w = self.chip_spent(fid, spec);
        w.with_fighter(fid, w.fighters[fid].tp_used(spec.cost))
    }

    /// The use of a chip is reported.
    pub open spec fn chip_reported(self, fid: int, spec: ChipSpec, target: usize) -> World {
        self.drawn().logged(
            crate::json::row(
                seq![
                    crate::actions::USE_CHIP as int,
                    spec.id as int,
                    target as int,
                    self.use_result(fid) as int,
                ],
            ),
        )
    }

    /// A fighter summons with a chip on a cell.
    pub open spec fn summoned_by_chip(
        self,
        fid: int,
        target: usize,
        chip: i32,
        name: Option<Seq<char>>,
    ) -> World {
        let spec = self.chip_specs[chip];
        let line = self.summon_line(chip).unwrap();
        self.chip_reported(fid, spec, target).summoned(
            fid,
            self.bulb_templates[line.whole() as i32],
            target,
            spec.level,
            self.next_is_critical(fid),
            name,
        ).logged(
            crate::json::row(
                seq![
                    crate::actions::SUMMON as int,
                    fid,
                    self.fighters.len() as int,
                    target as int,
                    self.use_result(fid) as int,
                ],
            ),
        ).chip_paid(fid, spec)
    }

    /// A fighter comes back to life: it plays before the living one that came
    /// behind it at first, or last, with all of its total life, or with half
    /// of a halved total.
    pub open spec fn revived(
        self,
        owner: int,
        entity: int,
        cell: usize,
        critical: bool,
        full_life: bool,
    ) -> World {
        let order = match next_alive(self.initial_order, self.fighters, entity as usize, 0, false) {
            Some(next) => if self.order.rank(next) > 0 {
                self.order.inserted(self.order.rank(next) - 1, entity as usize)
            } else {
                self.order.added(entity as usize)
            },
            None => self.order.added(entity as usize),
        };
        let f = self.fighters[entity];
        let total = if full_life {
            f.total_life as int
        } else {
            crate::power::at_least(crate::power::revived(f.total_life as int, critical), 10)
        };
        let life = if full_life {
            total
        } else {
            total / 2
        };
        World {
            order,
            ..self.with_fighter(
                entity,
                FighterView { life: life as i32, total_life: total as i32, ..f }.turn_ended(),
            )
        }.placed(entity, cell).logged(
            crate::json::row(
                seq![
                    crate::actions::RESURRECT as int,
                    owner,
                    entity,
                    cell as int,
                    life,
                    total,
                ],
            ),
        )
    }

    /// Why a fighter may not bring another back to life with a chip.
    pub open spec fn revival_refusal(
        self,
        fid: int,
        target: usize,
        chip: i32,
        entity: int,
    ) -> Option<i32> {
        let f = self.fighters[fid];
        let e = self.fighters[entity];
        if !self.chip_specs.contains_key(chip) || self.order.current() != Some(fid as usize) {
            Some(USE_INVALID_TARGET)
        } else {
            let spec = self.chip_specs[chip];
            if spec.cost > f.tp() {
                Some(USE_NOT_ENOUGH_TP)
            } else if f.cell is None || !self.board.attackable(
                f.cell.unwrap() as int,
                target as int,
                spec.min_range as int,
                spec.max_range as int,
                spec.launch_type,
                spec.needs_los,
                spec.area,
            ) {
                Some(USE_INVALID_POSITION)
            } else if self.chip_cools(fid, spec.id as int, spec.team_cooldown) {
                Some(USE_INVALID_COOLDOWN)
            } else if crate::cast::first_line(spec.effects@, EffectType::Resurrect) is None
                || !self.vacant(target) || !e.is_dead() {
                Some(USE_INVALID_TARGET)
            } else if e.is_summon() && self.teams[e.team as int].summon_count(self.fighters)
                >= SUMMON_LIMIT {
                Some(USE_TOO_MANY_SUMMONS)
            } else {
                None
            }
        }
    }

    /// A fighter brings another back to life with a chip.
    pub open spec fn revived_by_chip(
        self,
        fid: int,
        target: usize,
        chip: i32,
        entity: int,
        full_life: bool,
    ) -> World {
        let spec = self.chip_specs[chip];
        self.chip_reported(fid, spec, target).revived(
            fid,
            entity,
            target,
            self.next_is_critical(fid),
            full_life,
        ).chip_paid(fid, spec)
    }
}

/// Whether what a chip summons is known.
pub open spec fn template_known(w: World, chip: i32) -> bool {
    w.summon_line(chip) matches Some(line) ==> w.bulb_templates.contains_key(line.whole() as i32)
}

/// Making up teams keeps those that are there.
proof fn lemma_teams_up_to(teams: Seq<TeamView>, n: nat)
    ensures
        teams_up_to(teams, n).len() == if teams.len() >= n {
            teams.len()
        } else {
            n
        },
        forall|t: int|
            0 <= t < teams.len() ==> #[trigger] teams_up_to(teams, n)[t] == teams[t],
        forall|t: int|
            teams.len() <= t < n ==> (#[trigger] teams_up_to(teams, n)[t]).fighters
                == Seq::<usize>::empty(),
    decreases n,
{
    if teams.len() < n {
        lemma_teams_up_to(teams, (n - 1) as nat);
    }
}

impl State {
    /// Lets a fighter join a team, which is made up where there is none of
    /// that index; returns the index of the fighter.
    pub fn add_entity(&mut self, team: usize, fighter: Fighter) -> (fid: usize)
        requires
            old(self).wf(),
            old(self)@.fighters.len() < FIGHTER_LIMIT,
            team < FIGHTER_LIMIT,
            fighter@.cell matches Some(c) ==> old(self)@.board.has(c as int),
            crate::fighter::all_below(fighter@.effects, old(self)@.effects.len() as int),
            crate::fighter::all_below(fighter@.launched_effects, old(self)@.effects.len() as int),
        ensures
            final(self).wf(),
            final(self)@.continues(old(self)@),
            fid == old(self)@.fighters.len(),
            final(self)@ == old(self)@.joined(team as int, fighter@),
    {
        let ghost w = self@;
        let mut fighter: Fighter = fighter;
        let ghost f0 = fighter@;
        proof {
            lemma_teams_up_to(w.teams, (team + 1) as nat);
            assert(teams_up_to(w.teams, w.teams.len()) == w.teams);
        }
        while self.teams.len() <= team
            invariant
                w.teams.len() <= self.teams@.len(),
                self.teams@.len() <= team + 1 || self.teams@.len() == w.teams.len(),
                team < FIGHTER_LIMIT,
                self@ == (World { teams: teams_up_to(w.teams, self.teams@.len()), ..w }),
                self.map.wf(),
            decreases team + 1 - self.teams.len(),
        {
            let ghost n = self.teams@.len();
            let ghost before = self@;
            let id: i64 = self.teams.len() as i64;
            self.teams.push(Team::with_id(id));
            proof {
                lemma_teams_up_to(w.teams, n);
                assert(self@.teams =~= teams_up_to(w.teams, n + 1));
                assert(self@ =~= (World { teams: teams_up_to(w.teams, n + 1), ..w }));
            }
        }
        proof {
            lemma_teams_up_to(w.teams, self.teams@.len());
            assert(self@.teams =~= teams_up_to(w.teams, (team + 1) as nat));
        }
        let fid: usize = self.fighters.len();
        fighter.fid = fid;
        fighter.team = team;
        self.teams[team].fighters.push(fid);
        self.fighters.push(fighter);
        proof {
            let goal = w.joined(team as int, f0);
            assert(self@.teams =~= goal.teams);
            assert(self@.fighters =~= goal.fighters);
            assert(self@ =~= goal);
            assert forall|i: int| 0 <= i < goal.fighters.len() implies (
            #[trigger] goal.fighters[i]).fits(
                i,
                goal.teams.len() as int,
                goal.board.cells.len() as int,
                goal.effects.len() as int,
            ) by {
                if i < w.fighters.len() {
                    assert(goal.fighters[i] == w.fighters[i]);
                    assert(w.fighters[i].fits(
                        i,
                        w.teams.len() as int,
                        w.board.cells.len() as int,
                        w.effects.len() as int,
                    ));
                }
            }
            assert forall|t: int| 0 <= t < goal.teams.len() implies crate::fighter::all_below(
                (#[trigger] goal.teams[t]).fighters,
                goal.fighters.len() as int,
            ) by {
                if t < w.teams.len() {
                    assert(crate::fighter::all_below(
                        w.teams[t].fighters,
                        w.fighters.len() as int,
                    ));
                }
            }
            assert forall|e: int| 0 <= e < goal.effects.len() implies (
            #[trigger] goal.effects[e]).fits(goal.fighters.len() as int) by {
                assert(w.effects[e].fits(w.fighters.len() as int));
            }
        }
        fid
    }

    /// The fighter that a template makes for an owner.
    fn make_offspring(
        &self,
        owner: usize,
        template_id: i32,
        level: i32,
        critical: bool,
        name: Option<&str>,
    ) -> (f: Fighter)
        requires
            self.wf(),
            owner < self@.fighters.len(),
            self@.bulb_templates.contains_key(template_id),
        ensures
            f@ == self@.offspring(
                owner as int,
                self@.bulb_templates[template_id],
                level,
                critical,
                match name {
                    Some(n) => Some(n@),
                    None => None,
                },
            ),
    {
        let ghost w = self@;
        let ghost o = w.fighters[owner as int];
        assert(o == self.fighters@[owner as int]@);
        let template: &BulbTemplate = self.bulb_templates.get(&template_id).unwrap();
        assert(*template == w.bulb_templates[template_id]);
        let own: i32 = self.fighters[owner].level;
        let mut stats: Stats = Stats::default();
        stats.set(
            STAT_LIFE,
            crate::power::summon_value(template.life.0, template.life.1, own, critical),
        );
        stats.set(
            STAT_STRENGTH,
            crate::power::summon_value(template.strength.0, template.strength.1, own, critical),
        );
        stats.set(
            STAT_WISDOM,
            crate::power::summon_value(template.wisdom.0, template.wisdom.1, own, critical),
        );
        stats.set(
            STAT_AGILITY,
            crate::power::summon_value(template.agility.0, template.agility.1, own, critical),
        );
        stats.set(
            STAT_RESISTANCE,
            crate::power::summon_value(
                template.resistance.0,
                template.resistance.1,
                own,
                critical,
            ),
        );
        stats.set(
            STAT_SCIENCE,
            crate::power::summon_value(template.science.0, template.science.1, own, critical),
        );
        stats.set(
            STAT_MAGIC,
            crate::power::summon_value(template.magic.0, template.magic.1, own, critical),
        );
        stats.set(
            STAT_TP,
            crate::power::summon_value(template.tp.0, template.tp.1, own, critical),
        );
        stats.set(
            STAT_MP,
            crate::power::summon_value(template.mp.0, template.mp.1, own, critical),
        );
        stats.set(STAT_CORES, 1);
        stats.set(STAT_RAM, 6);
        assert(stats@ =~= summon_stats(*template, own, critical));
        let fid: usize = self.fighters.len();
        let bulb_name: String = match name {
            Some(n) => {
                if n.unicode_len() > 0 {
                    crate::text::shorten(n, 20)
                } else {
                    template.name.clone()
                }
            },
            None => template.name.clone(),
        };
        let mut chips: BTreeSet<i32> = BTreeSet::new();
        let mut i: usize = 0;
        while i < template.chips.len()
            invariant
                i <= template.chips@.len(),
                chips@ == granted(template.chips@, i as nat),
            decreases template.chips.len() - i,
        {
            if chips.len() < 6 {
                let _ = chips.insert(template.chips[i]);
            }
            i += 1;
        }
        let mut fighter: Fighter = Fighter::new(fid, -(fid as i64), bulb_name, 0, stats);
        fighter.level = level;
        fighter.farmer = self.fighters[owner].farmer;
        fighter.ai_name = self.fighters[owner].ai_name.clone();
        fighter.skin = template.id;
        fighter.summoner = Some(owner);
        fighter.birth_turn = self.order.turn();
        fighter.chips = chips;
        fighter
    }

    /// Summons a fighter onto a cell; returns its index.
    pub fn create_summon(
        &mut self,
        owner: usize,
        template_id: i32,
        target_cell: usize,
        level: i32,
        critical: bool,
        name: Option<&str>,
    ) -> (fid: usize)
        requires
            old(self).wf(),
            old(self)@.has_room(),
            owner < old(self)@.fighters.len(),
            old(self)@.bulb_templates.contains_key(template_id),
            old(self)@.board.has(target_cell as int),
        ensures
            final(self).wf(),
            final(self)@.continues(old(self)@),
            fid == old(self)@.fighters.len(),
            final(self)@ == old(self)@.summoned(
                owner as int,
                old(self)@.bulb_templates[template_id],
                target_cell,
                level,
                critical,
                match name {
                    Some(n) => Some(n@),
                    None => None,
                },
            ),
    {
        let ghost w = self@;
        assert(w.fighters[owner as int] == self.fighters@[owner as int]@);
        assert(w.fighters[owner as int].fits(
            owner as int,
            w.teams.len() as int,
            w.board.cells.len() as int,
            w.effects.len() as int,
        ));
        let fighter: Fighter = self.make_offspring(owner, template_id, level, critical, name);
        let team: usize = self.fighters[owner].team;
        let ghost f = fighter@;
        let fid: usize = self.add_entity(team, fighter);
        let ghost w1 = self@;
        self.order.add_summon(owner, fid);
        proof {
            let w2 = World { order: w1.order.summoned(owner, fid), ..w1 };
            assert(self@ =~= w2);
            crate::lists::lemma_place(w1.order.fids, owner);
            assert(crate::fighter::all_below(w2.order.fids, w2.fighters.len() as int));
        }
        self.place_entity(fid, target_cell);
        let ghost placed = self@;
        assert(placed.fighters[fid as int] == self.fighters@[fid as int]@);
        assert(placed.fighters[fid as int].team == team);
        let snapshot = crate::outcome::entity_snapshot(&self.fighters[fid]);
        crate::json::push_item(&mut self.leek_snapshots, snapshot);
        proof {
            assert(self@ =~= (World {
                leek_snapshots: placed.leek_snapshots.push(
                    crate::outcome::snapshot(placed.fighters[fid as int]),
                ),
                ..placed
            }));
        }
        fid
    }

    /// Pays for the use of a chip.
    fn pay_chip(&mut self, fid: usize, spec: &ChipSpec)
        requires
            old(self).wf(),
            fid < old(self)@.fighters.len(),
        ensures
            final(self).wf(),
            final(self)@.extends(old(self)@),
            final(self)@ == old(self)@.chip_paid(fid as int, *spec),
    {
        if spec.cooldown != 0 {
            self.add_chip_cooldown(fid, spec, spec.cooldown);
        }
        let ghost w = self@;
        assert(w.fighters[fid as int] == self.fighters@[fid as int]@);
        self.fighters[fid].use_tp(spec.cost);
        proof {
            let w1 = w.with_fighter(fid as int, w.fighters[fid as int].tp_used(spec.cost));
            assert(self@.fighters =~= w1.fighters);
            assert(self@ =~= w1);
        }
    }

    /// Reports the use of a chip, after drawing whether it is critical.
    fn report_chip(&mut self, fid: usize, spec: &ChipSpec, target_cell: usize) -> (result: (
        bool,
        i32,
    ))
        requires
            old(self).wf(),
            fid < old(self)@.fighters.len(),
            old(self)@.board.has(target_cell as int),
        ensures
            final(self).wf(),
            final(self)@.extends(old(self)@),
            final(self)@ == old(self)@.chip_reported(fid as int, *spec, target_cell),
            result.0 == old(self)@.next_is_critical(fid as int),
            result.1 == old(self)@.use_result(fid as int),
    {
        proof {
            crate::map::lemma_cell_count_limit(self@.board);
        }
        let critical: bool = self.generate_critical(fid);
        let result: i32 = if critical {
            USE_CRITICAL
        } else {
            USE_SUCCESS
        };
        self.log(
            Action::UseChip {
                chip_template: spec.id,
                cell: target_cell as i32,
                success: result,
            },
        );
        (critical, result)
    }

    /// Why a fighter cannot summon with a chip on a cell, if it cannot.
    #[verifier::rlimit(30)]
    pub(crate) fn refuse_summon(&self, fid: usize, target_cell: usize, chip_id: i32) -> (why:
        Option<i32>)
        requires
            self.wf(),
            fid < self@.fighters.len(),
            self@.board.has(target_cell as int),
        ensures
            why == self@.summon_refusal(fid as int, target_cell, chip_id),
    {
        let ghost w = self@;
        assert(w.fighters[fid as int] == self.fighters@[fid as int]@);
        assert(w.fighters[fid as int].fits(
            fid as int,
            w.teams.len() as int,
            w.board.cells.len() as int,
            w.effects.len() as int,
        ));
        let spec: &ChipSpec = match self.chip_specs.get(&chip_id) {
            Some(spec) => spec,
            None => {
                return Some(USE_INVALID_TARGET);
            },
        };
        assert(w.chip_specs.contains_key(chip_id));
        if find_line(&spec.effects, EffectType::Summon).is_none() {
            return Some(USE_INVALID_TARGET);
        }
        match self.order.current() {
            Some(c) => {
                if c != fid {
                    return Some(USE_INVALID_TARGET);
                }
            },
            None => {
                return Some(USE_INVALID_TARGET);
            },
        }
        if spec.cost > self.fighters[fid].tp() {
            return Some(USE_NOT_ENOUGH_TP);
        }
        if self.has_chip_cooldown(fid, spec) {
            return Some(USE_INVALID_COOLDOWN);
        }
        let caster_cell: usize = match self.fighters[fid].cell {
            Some(c) => c,
            None => {
                return Some(USE_INVALID_POSITION);
            },
        };
        if !self.can_use_attack(
            caster_cell,
            target_cell,
            spec.min_range,
            spec.max_range,
            spec.launch_type,
            spec.needs_los,
            spec.area,
        ) {
            return Some(USE_INVALID_POSITION);
        }
        if !self.is_vacant(target_cell) {
            return Some(USE_INVALID_POSITION);
        }
        let team: usize = self.fighters[fid].team;
        assert(w.teams[team as int] == self.teams@[team as int]@);
        if self.teams[team].summon_count(self.fighters.as_slice()) >= SUMMON_LIMIT {
            return Some(USE_TOO_MANY_SUMMONS);
        }
        None
    }

    /// Lets a fighter summon with a chip on a cell; returns the result and
    /// the index of the new fighter. What is refused changes nothing and
    /// draws nothing.
    #[verifier::rlimit(30)]
    pub fn summon_entity(
        &mut self,
        fid: usize,
        target_cell: usize,
        chip_id: i32,
        name: Option<&str>,
    ) -> (result: (i32, Option<usize>))
        requires
            old(self).wf(),
            fid < old(self)@.fighters.len(),
            old(self)@.board.has(target_cell as int),
            old(self)@.summon_refusal(fid as int, target_cell, chip_id) is None ==> old(
                self,
            )@.has_room() && template_known(old(self)@, chip_id),
        ensures
            final(self).wf(),
            final(self)@.continues(old(self)@),
            match old(self)@.summon_refusal(fid as int, target_cell, chip_id) {
                Some(why) => result == (why, None::<usize>) && final(self)@ == old(self)@,
                None => {
                    &&& result == (
                        old(self)@.use_result(fid as int),
                        Some(old(self)@.fighters.len() as usize),
                    )
                    &&& final(self)@ == old(self)@.summoned_by_chip(
                        fid as int,
                        target_cell,
                        chip_id,
                        match name {
                            Some(n) => Some(n@),
                            None => None,
                        },
                    )
                },
            },
    {
        let ghost w = self@;
        assert(w.fighters[fid as int] == self.fighters@[fid as int]@);
        assert(w.fighters[fid as int].fits(
            fid as int,
            w.teams.len() as int,
            w.board.cells.len() as int,
            w.effects.len() as int,
        ));
        proof {
            crate::map::lemma_cell_count_limit(w.board);
        }
        if let Some(why) = self.refuse_summon(fid, target_cell, chip_id) {
            return (why, None);
        }
        let spec: ChipSpec = match self.chip_specs.get(&chip_id) {
            Some(spec) => spec.copied(),
            None => {
                return (USE_INVALID_TARGET, None);
            },
        };
        assert(w.chip_specs.contains_key(chip_id));
        assert(spec.same(w.chip_specs[chip_id]));
        let line: crate::attack::EffectParams = match find_line(
            &spec.effects,
            EffectType::Summon,
        ) {
            Some(line) => line,
            None => {
                return (USE_INVALID_TARGET, None);
            },
        };
        let (critical, result) = self.report_chip(fid, &spec, target_cell);
        let bulb: usize = self.create_summon(
            fid,
            line.value1.trunc_i32(),
            target_cell,
            spec.level,
            critical,
            name,
        );
        self.log(
            Action::Invocation {
                owner_id: fid as i64,
                summon_id: bulb as i64,
                cell: target_cell as i32,
                result,
            },
        );
        self.pay_chip(fid, &spec);
        (result, Some(bulb))
    }

    /// Brings a fighter back to life on a cell.
    pub fn resurrect(
        &mut self,
        owner: usize,
        entity: usize,
        cell: usize,
        critical: bool,
        full_life: bool,
    )
        requires
            old(self).wf(),
            old(self)@.order.fids.len() + 1 < i32::MAX,
            owner < old(self)@.fighters.len(),
            entity < old(self)@.fighters.len(),
            old(self)@.board.has(cell as int),
        ensures
            final(self).wf(),
            final(self)@.extends(old(self)@),
            final(self)@ == old(self)@.revived(
                owner as int,
                entity as int,
                cell,
                critical,
                full_life,
            ),
    {
        let ghost w = self@;
        proof {
            crate::map::lemma_cell_count_limit(w.board);
        }
        let next: Option<usize> = self.next_in_line(entity);
        let rank: i32 = match next {
            Some(n) => self.order.entity_turn_order(n),
            None => 0,
        };
        proof {
            if let Some(n) = next {
                crate::lists::lemma_place(w.order.fids, n);
            }
        }
        if rank > 0 {
            self.order.insert_entity((rank - 1) as usize, entity);
        } else {
            self.order.add_entity(entity);
        }
        assert(w.fighters[entity as int] == self.fighters@[entity as int]@);
        if full_life {
            self.fighters[entity].life = self.fighters[entity].total_life;
        } else {
            let half: i32 = crate::power::revived_total(
                self.fighters[entity].total_life,
                critical,
            );
            let total: i32 = if half < 10 {
                10
            } else {
                half
            };
            self.fighters[entity].total_life = total;
            self.fighters[entity].life = total / 2;
        }
        let life: i32 = self.fighters[entity].life;
        let max_life: i32 = self.fighters[entity].total_life;
        self.fighters[entity].end_turn();
        proof {
            let f = w.fighters[entity as int];
            let w1 = World {
                order: self.order@,
                ..w.with_fighter(
                    entity as int,
                    FighterView { life, total_life: max_life, ..f }.turn_ended(),
                )
            };
            assert(self@.fighters =~= w1.fighters);
            assert(self@ =~= w1);
            assert(crate::fighter::all_below(w1.order.fids, w1.fighters.len() as int));
        }
        self.place_entity(entity, cell);
        self.log(
            Action::Resurrect {
                owner_id: owner as i64,
                target_id: entity as i64,
                cell: cell as i32,
                life,
                max_life,
            },
        );
    }

    /// The first living fighter that came behind another at first.
    fn next_in_line(&self, entity: usize) -> (next: Option<usize>)
        requires
            self.wf(),
        ensures
            next == next_alive(self@.initial_order, self@.fighters, entity, 0, false),
            next matches Some(n) ==> n < self@.fighters.len(),
    {
        let ghost w = self@;
        let mut started: bool = false;
        let mut i: usize = 0;
        while i < self.initial_order.len()
            invariant
                self.wf(),
                w == self@,
                i <= w.initial_order.len(),
                next_alive(w.initial_order, w.fighters, entity, i as int, started)
                    == next_alive(w.initial_order, w.fighters, entity, 0, false),
            decreases self.initial_order.len() - i,
        {
            let e: usize = self.initial_order[i];
            assert(w.initial_order[i as int] < w.fighters.len());
            assert(w.fighters[e as int] == self.fighters@[e as int]@);
            if e == entity {
                started = true;
            } else if started && !self.fighters[e].is_dead() {
                return Some(e);
            }
            i += 1;
        }
        None
    }

    /// Why a fighter cannot bring another back to life with a chip, if it
    /// cannot.
    #[verifier::rlimit(30)]
    pub(crate) fn refuse_revival(
        &self,
        fid: usize,
        target_cell: usize,
        chip_id: i32,
        target_entity: usize,
    ) -> (why: Option<i32>)
        requires
            self.wf(),
            fid < self@.fighters.len(),
            target_entity < self@.fighters.len(),
            self@.board.has(target_cell as int),
        ensures
            why == self@.revival_refusal(fid as int, target_cell, chip_id, target_entity as int),
    {
        let ghost w = self@;
        assert(w.fighters[fid as int] == self.fighters@[fid as int]@);
        assert(w.fighters[fid as int].fits(
            fid as int,
            w.teams.len() as int,
            w.board.cells.len() as int,
            w.effects.len() as int,
        ));
        assert(w.fighters[target_entity as int] == self.fighters@[target_entity as int]@);
        assert(w.fighters[target_entity as int].fits(
            target_entity as int,
            w.teams.len() as int,
            w.board.cells.len() as int,
            w.effects.len() as int,
        ));
        let spec: &ChipSpec = match self.chip_specs.get(&chip_id) {
            Some(spec) => spec,
            None => {
                return Some(USE_INVALID_TARGET);
            },
        };
        assert(w.chip_specs.contains_key(chip_id));
        match self.order.current() {
            Some(c) => {
                if c != fid {
                    return Some(USE_INVALID_TARGET);
                }
            },
            None => {
                return Some(USE_INVALID_TARGET);
            },
        }
        if spec.cost > self.fighters[fid].tp() {
            return Some(USE_NOT_ENOUGH_TP);
        }
        let caster_cell: usize = match self.fighters[fid].cell {
            Some(c) => c,
            None => {
                return Some(USE_INVALID_POSITION);
            },
        };
        if !self.can_use_attack(
            caster_cell,
            target_cell,
            spec.min_range,
            spec.max_range,
            spec.launch_type,
            spec.needs_los,
            spec.area,
        ) {
            return Some(USE_INVALID_POSITION);
        }
        if self.has_chip_cooldown(fid, spec) {
            return Some(USE_INVALID_COOLDOWN);
        }
        if find_line(&spec.effects, EffectType::Resurrect).is_none() || !self.is_vacant(
            target_cell,
        ) || !self.fighters[target_entity].is_dead() {
            return Some(USE_INVALID_TARGET);
        }
        if self.fighters[target_entity].is_summon() {
            let team: usize = self.fighters[target_entity].team;
            assert(w.teams[team as int] == self.teams@[team as int]@);
            if self.teams[team].summon_count(self.fighters.as_slice()) >= SUMMON_LIMIT {
                return Some(USE_TOO_MANY_SUMMONS);
            }
        }
        None
    }

    /// Lets a fighter bring another back to life with a chip. What is refused
    /// changes nothing and draws nothing.
    #[verifier::rlimit(30)]
    pub fn resurrect_entity(
        &mut self,
        fid: usize,
        target_cell: usize,
        chip_id: i32,
        target_entity: usize,
        full_life: bool,
    ) -> (result: i32)
        requires
            old(self).wf(),
            fid < old(self)@.fighters.len(),
            target_entity < old(self)@.fighters.len(),
            old(self)@.board.has(target_cell as int),
            old(self)@.revival_refusal(
                fid as int,
                target_cell,
                chip_id,
                target_entity as int,
            ) is None ==> old(self)@.order.fids.len() + 1 < i32::MAX,
        ensures
            final(self).wf(),
            final(self)@.extends(old(self)@),
            match old(self)@.revival_refusal(
                fid as int,
                target_cell,
                chip_id,
                target_entity as int,
            ) {
                Some(why) => result == why && final(self)@ == old(self)@,
                None => result == old(self)@.use_result(fid as int) && final(self)@ == old(
                    self,
                )@.revived_by_chip(
                    fid as int,
                    target_cell,
                    chip_id,
                    target_entity as int,
                    full_life,
                ),
            },
    {
        let ghost w = self@;
        assert(w.fighters[fid as int] == self.fighters@[fid as int]@);
        assert(w.fighters[fid as int].fits(
            fid as int,
            w.teams.len() as int,
            w.board.cells.len() as int,
            w.effects.len() as int,
        ));
        assert(w.fighters[target_entity as int] == self.fighters@[target_entity as int]@);
        assert(w.fighters[target_entity as int].fits(
            target_entity as int,
            w.teams.len() as int,
            w.board.cells.len() as int,
            w.effects.len() as int,
        ));
        if let Some(why) = self.refuse_revival(fid, target_cell, chip_id, target_entity) {
            return why;
        }
        let spec: ChipSpec = match self.chip_specs.get(&chip_id) {
            Some(spec) => spec.copied(),
            None => {
                return USE_INVALID_TARGET;
            },
        };
        assert(w.chip_specs.contains_key(chip_id));
        assert(spec.same(w.chip_specs[chip_id]));
        let (critical, result) = self.report_chip(fid, &spec, target_cell);
        self.resurrect(fid, target_entity, target_cell, critical, full_life);
        self.pay_chip(fid, &spec);
        result
    }
}

} // verus!
