//! The world of a fight: the board with the fighters on it, their effects,
//! the order of play and the journal.

use crate::actions::{Action, ActionLog, Journal};
use crate::attack::{
    Area, AttackType, EffectModifiers, EffectParams, EffectType, EntityState,
};
use crate::fighter::{Fighter, FighterView, Stats, Team, TeamView};
use crate::json::Tree;
use crate::map::{Board, GameMap};
use crate::number::Real;
use crate::rng::OfficialRng;
use crate::turns::{Order, Round};
use std::collections::{BTreeMap, HashMap};
use vstd::prelude::*;

verus! {

broadcast use {
    vstd::std_specs::hash::group_hash_axioms,
    vstd::std_specs::btree::group_btree_axioms,
    crate::fighter::lemma_stats_len,
};

/// A weapon: what using it takes, and what it does.
#[derive(Debug, Clone)]
pub struct WeaponSpec {
    pub id: i32,
    pub cost: i32,
    pub min_range: i32,
    pub max_range: i32,
    pub launch_type: i32,
    pub needs_los: bool,
    /// Uses per turn; -1 is without limit.
    pub max_uses: i32,
    pub area: Area,
    pub effects: Vec<EffectParams>,
    /// Whether it is one of the weapons of which a farmer wears only one.
    pub forgotten: bool,
}

/// A chip: what using it takes, what it does, and how long it cools down.
#[derive(Debug, Clone)]
pub struct ChipSpec {
    pub id: i32,
    pub cost: i32,
    pub min_range: i32,
    pub max_range: i32,
    pub launch_type: i32,
    pub needs_los: bool,
    /// Uses per turn; -1 is without limit.
    pub max_uses: i32,
    pub area: Area,
    pub effects: Vec<EffectParams>,
    /// Turns to cool down; -1 is the rest of the fight.
    pub cooldown: i32,
    /// Whether the whole team waits.
    pub team_cooldown: bool,
    /// Turns to wait when the fight begins.
    pub initial_cooldown: i32,
    /// The level of what it summons.
    pub level: i32,
}

/// What a summoned fighter is made from: ranges of characteristics by the
/// level of the summoner, and chips.
#[derive(Debug)]
pub struct BulbTemplate {
    pub id: i32,
    pub name: String,
    pub life: (i32, i32),
    pub strength: (i32, i32),
    pub wisdom: (i32, i32),
    pub agility: (i32, i32),
    pub resistance: (i32, i32),
    pub science: (i32, i32),
    pub magic: (i32, i32),
    pub tp: (i32, i32),
    pub mp: (i32, i32),
    pub chips: Vec<i32>,
}

/// The part of the fight around the turns in which programs may run.
#[derive(Debug, Clone, Copy, PartialEq, Eq, Structural)]
pub enum HookPhase {
    NoHook,
    BeforeFight,
    AfterFight,
}

/// What the values of effects are: finite doubles.
pub open spec fn lines_wf(effects: Seq<EffectParams>) -> bool {
    forall|i: int| 0 <= i < effects.len() ==> (#[trigger] effects[i]).wf()
}

/// An effect on a fighter.
#[derive(Debug, Clone, Copy)]
pub struct EffectInstance {
    pub effect: EffectType,
    /// The item that it comes from.
    pub item_id: i32,
    pub attack_type: AttackType,
    /// The turns of the caster that are left; -1 is the whole fight.
    pub turns: i32,
    pub value: i32,
    pub erosion_rate: Real,
    pub critical: bool,
    pub caster: usize,
    pub target: usize,
    /// What it adds to the characteristics of the target.
    pub stats: Stats,
    /// Its number in the journal.
    pub log_id: u32,
    pub modifiers: EffectModifiers,
    /// How far it spreads at the end of the target's turns.
    pub propagate: i32,
    /// The state that it pins on the target.
    pub state: Option<EntityState>,
}

/// What an effect on a fighter is.
#[verifier::ext_equal]
pub struct EffectView {
    pub effect: EffectType,
    pub item_id: i32,
    pub attack_type: AttackType,
    pub turns: i32,
    pub value: i32,
    pub erosion_rate: Real,
    pub critical: bool,
    pub caster: usize,
    pub target: usize,
    pub stats: Seq<i32>,
    pub log_id: u32,
    pub modifiers: EffectModifiers,
    pub propagate: i32,
    pub state: Option<EntityState>,
}

impl View for EffectInstance {
    type V = EffectView;

    open spec fn view(&self) -> EffectView {
        EffectView {
            effect: self.effect,
            item_id: self.item_id,
            attack_type: self.attack_type,
            turns: self.turns,
            value: self.value,
            erosion_rate: self.erosion_rate,
            critical: self.critical,
            caster: self.caster,
            target: self.target,
            stats: self.stats@,
            log_id: self.log_id,
            modifiers: self.modifiers,
            propagate: self.propagate,
            state: self.state,
        }
    }
}

/// What the world of a fight is.
#[verifier::ext_equal]
pub struct World {
    /// The state of the random stream.
    pub rng: int,
    pub board: Board,
    pub fighters: Seq<FighterView>,
    pub teams: Seq<TeamView>,
    pub order: Round,
    pub journal: Journal,
    pub weapon_specs: Map<i32, WeaponSpec>,
    pub chip_specs: Map<i32, ChipSpec>,
    pub bulb_templates: Map<i32, BulbTemplate>,
    /// The programs of summoned fighters.
    pub summon_ais: Map<usize, u64>,
    pub effects: Seq<EffectView>,
    /// Who stands on a cell.
    pub occupancy: Map<usize, usize>,
    pub running: bool,
    pub last_turn: i32,
    pub initial_order: Seq<usize>,
    pub leek_snapshots: Seq<Tree>,
    pub map_snapshot: Tree,
    /// Messages by farmer and by the event before them.
    pub farmer_logs: Map<i64, Map<usize, Seq<Tree>>>,
    pub hook_phase: HookPhase,
    pub win_team: i32,
    /// Whether something happened that nothing models: a fighter was struck by
    /// an unknown effect, or pushed or pulled off the board. The fight cannot
    /// be told any further.
    pub unmodelled: bool,
}

/// The most fighters, and the most teams, that a fight can hold.
pub const FIGHTER_LIMIT: usize = 0x7fff_fff0;

impl FighterView {
    /// The fighter is the `i`-th, and what it points at exists.
    pub open spec fn fits(self, i: int, teams: int, cells: int, effects: int) -> bool {
        &&& self.fid == i
        &&& self.team < teams
        &&& self.base_stats.len() == crate::fighter::STAT_COUNT
        &&& self.buff_stats.len() == crate::fighter::STAT_COUNT
        &&& (self.cell matches Some(c) ==> c < cells)
        &&& crate::fighter::all_below(self.effects, effects)
        &&& crate::fighter::all_below(self.launched_effects, effects)
    }
}

impl EffectView {
    /// The fighters that the effect points at exist.
    pub open spec fn fits(self, fighters: int) -> bool {
        &&& self.caster < fighters
        &&& self.target < fighters
        &&& self.stats.len() == crate::fighter::STAT_COUNT
        &&& self.erosion_rate.within(100)
    }
}

impl World {
    /// Everything that is pointed at exists.
    pub open spec fn wf(self) -> bool {
        &&& self.board.wf()
        &&& self.fighters.len() <= FIGHTER_LIMIT
        &&& self.teams.len() <= FIGHTER_LIMIT
        &&& forall|i: int|
            0 <= i < self.fighters.len() ==> (#[trigger] self.fighters[i]).fits(
                i,
                self.teams.len() as int,
                self.board.cells.len() as int,
                self.effects.len() as int,
            )
        &&& forall|t: int|
            0 <= t < self.teams.len() ==> crate::fighter::all_below(
                (#[trigger] self.teams[t]).fighters,
                self.fighters.len() as int,
            )
        &&& self.order.wf()
        &&& crate::fighter::all_below(self.order.fids, self.fighters.len() as int)
        &&& crate::fighter::all_below(self.initial_order, self.fighters.len() as int)
        &&& forall|e: int|
            0 <= e < self.effects.len() ==> (#[trigger] self.effects[e]).fits(
                self.fighters.len() as int,
            )
        &&& forall|c: usize| #[trigger]
            self.occupancy.contains_key(c) ==> self.occupancy[c] < self.fighters.len()
        &&& forall|w: i32| #[trigger]
            self.weapon_specs.contains_key(w) ==> lines_wf(self.weapon_specs[w].effects@)
        &&& forall|c: i32| #[trigger]
            self.chip_specs.contains_key(c) ==> lines_wf(self.chip_specs[c].effects@)
    }

    /// Whether the same board, fighters, teams and items are there as before,
    /// and no effect has left the list.
    pub open spec fn extends(self, before: World) -> bool {
        &&& self.fighters.len() == before.fighters.len()
        &&& self.teams.len() == before.teams.len()
        &&& self.effects.len() >= before.effects.len()
        &&& self.board.width == before.board.width
        &&& self.board.height == before.board.height
        &&& self.board.cells == before.board.cells
        &&& self.weapon_specs == before.weapon_specs
        &&& self.chip_specs == before.chip_specs
        &&& self.bulb_templates == before.bulb_templates
        &&& before.wf() && before.seated() ==> self.seated()
    }

    /// Whether whoever is said to stand on a cell stands there, and no cell is
    /// blocked on which nobody is said to stand.
    pub open spec fn seated(self) -> bool {
        &&& forall|c: usize| #[trigger]
            self.occupancy.contains_key(c) ==> self.fighters[self.occupancy[c] as int].cell
                == Some(c)
        &&& forall|i: int|
            0 <= i < self.board.occupied.len() ==> self.occupancy.contains_key(
                #[trigger] self.board.occupied[i],
            )
    }

    /// Whether one more fighter can join.
    pub open spec fn has_room(self) -> bool {
        self.fighters.len() < FIGHTER_LIMIT && self.order.fids.len() + 1 < i32::MAX
    }

    /// Another fighter in the place of one.
    pub open spec fn with_fighter(self, fid: int, f: FighterView) -> World {
        World { fighters: self.fighters.update(fid, f), ..self }
    }

    /// Another effect in the place of one.
    pub open spec fn with_effect(self, ei: int, e: EffectView) -> World {
        World { effects: self.effects.update(ei, e), ..self }
    }

    /// Another team in the place of one.
    pub open spec fn with_team(self, t: int, team: TeamView) -> World {
        World { teams: self.teams.update(t, team), ..self }
    }

    /// One more event in the journal.
    pub open spec fn logged(self, event: Tree) -> World {
        World { journal: self.journal.logged(event), ..self }
    }

    /// Who stands on a cell.
    pub open spec fn entity_on(self, cell: usize) -> Option<usize> {
        if self.occupancy.contains_key(cell) {
            Some(self.occupancy[cell])
        } else {
            None
        }
    }

    /// The fighter leaves the board.
    pub open spec fn taken_off(self, fid: int) -> World {
        match self.fighters[fid].cell {
            Some(c) => World {
                occupancy: self.occupancy.remove(c),
                board: Board {
                    occupied: crate::lists::without(self.board.occupied, c),
                    ..self.board
                },
                ..self.with_fighter(fid, FighterView { cell: None, ..self.fighters[fid] })
            },
            None => self,
        }
    }

    /// The fighter stands on a cell, and nowhere else.
    pub open spec fn placed(self, fid: int, cell: usize) -> World {
        let off = self.taken_off(fid);
        World {
            occupancy: off.occupancy.insert(cell, fid as usize),
            board: Board { occupied: off.board.occupied.push(cell), ..off.board },
            ..off.with_fighter(fid, FighterView { cell: Some(cell), ..off.fighters[fid] })
        }
    }

    /// The fighter is moved by force; one that is static stays.
    pub open spec fn slid(self, fid: int, cell: usize) -> World {
        if self.fighters[fid].has_state(EntityState::Static) || self.fighters[fid].cell == Some(
            cell,
        ) {
            self
        } else {
            self.placed(fid, cell)
        }
    }

    /// Two fighters change places, unless the second is static.
    pub open spec fn inverted(self, a: int, b: int) -> World {
        if self.fighters[b].has_state(EntityState::Static) {
            self
        } else {
            match (self.fighters[a].cell, self.fighters[b].cell) {
                (Some(ca), Some(cb)) => {
                    let moved = self.with_fighter(
                        a,
                        FighterView { cell: Some(cb), ..self.fighters[a] },
                    );
                    World {
                        occupancy: self.occupancy.insert(ca, b as usize).insert(cb, a as usize),
                        ..moved.with_fighter(
                            b,
                            FighterView { cell: Some(ca), ..moved.fighters[b] },
                        )
                    }
                },
                _ => self,
            }
        }
    }
}

/// The fight.
pub struct State {
    pub rng: OfficialRng,
    pub map: GameMap,
    pub fighters: Vec<Fighter>,
    pub teams: Vec<Team>,
    pub order: Order,
    pub actions: ActionLog,
    pub weapon_specs: BTreeMap<i32, WeaponSpec>,
    pub chip_specs: BTreeMap<i32, ChipSpec>,
    pub bulb_templates: BTreeMap<i32, BulbTemplate>,
    /// The programs of summoned fighters, by a number that their owner gives
    /// them.
    pub summon_ais: HashMap<usize, u64>,
    /// Every effect that was ever put on a fighter. The lists of the fighters
    /// say which are in force.
    pub effects: Vec<EffectInstance>,
    pub occupancy: HashMap<usize, usize>,
    pub running: bool,
    pub last_turn: i32,
    pub initial_order: Vec<usize>,
    pub leek_snapshots: Vec<serde_json::Value>,
    pub map_snapshot: serde_json::Value,
    pub farmer_logs: BTreeMap<i64, BTreeMap<usize, Vec<serde_json::Value>>>,
    pub hook_phase: HookPhase,
    pub win_team: i32,
    /// Whether something happened that nothing models: a fighter was struck by
    /// an unknown effect, or pushed or pulled off the board. Whoever runs the
    /// fight stops there: what follows has no meaning.
    pub unmodelled: bool,
}

/// The messages of farmers as documents.
pub open spec fn log_contents(
    logs: Map<i64, BTreeMap<usize, Vec<serde_json::Value>>>,
) -> Map<i64, Map<usize, Seq<Tree>>> {
    logs.map_values(
        |m: BTreeMap<usize, Vec<serde_json::Value>>|
            m@.map_values(|v: Vec<serde_json::Value>| crate::json::all_contents(v@)),
    )
}

impl View for State {
    type V = World;

    open spec fn view(&self) -> World {
        World {
            rng: self.rng@,
            board: self.map@,
            fighters: crate::fighter::views(self.fighters@),
            teams: self.teams@.map_values(|t: Team| t@),
            order: self.order@,
            journal: self.actions@,
            weapon_specs: self.weapon_specs@,
            chip_specs: self.chip_specs@,
            bulb_templates: self.bulb_templates@,
            summon_ais: self.summon_ais@,
            effects: self.effects@.map_values(|e: EffectInstance| e@),
            occupancy: self.occupancy@,
            running: self.running,
            last_turn: self.last_turn,
            initial_order: self.initial_order@,
            leek_snapshots: crate::json::all_contents(self.leek_snapshots@),
            map_snapshot: crate::json::contents(self.map_snapshot),
            farmer_logs: log_contents(self.farmer_logs@),
            hook_phase: self.hook_phase,
            win_team: self.win_team,
            unmodelled: self.unmodelled,
        }
    }
}

impl State {
    /// Everything that is pointed at exists, and the map counts its cells.
    pub open spec fn wf(&self) -> bool {
        self@.wf() && self.map.wf()
    }

    /// Who stands on a cell.
    #[must_use]
    pub fn entity_on(&self, cell: usize) -> (fid: Option<usize>)
        ensures
            fid == self@.entity_on(cell),
    {
        match self.occupancy.get(&cell) {
            Some(fid) => Some(*fid),
            None => None,
        }
    }

    /// Writes an event into the journal.
    pub(crate) fn log(&mut self, action: Action)
        requires
            old(self).wf(),
        ensures
            final(self).wf(),
            final(self)@.extends(old(self)@),
            final(self)@ == old(self)@.logged(action.json()),
    {
        self.actions.log(action);
        assert(self@ =~= old(self)@.logged(action.json()));
    }

    /// Takes a fighter off the board.
    pub fn remove_entity_from_map(&mut self, fid: usize)
        requires
            old(self).wf(),
            fid < old(self)@.fighters.len(),
        ensures
            final(self).wf(),
            final(self)@.extends(old(self)@),
            final(self)@ == old(self)@.taken_off(fid as int),
    {
        let ghost before = self@;
        if let Some(c) = self.fighters[fid].cell {
            self.fighters[fid].cell = None;
            let _ = self.occupancy.remove(&c);
            crate::lists::drop_all(&mut self.map.entity_cells, c);
            proof {
                crate::lists::lemma_without(before.board.occupied, c);
                assert(self@.fighters =~= before.taken_off(fid as int).fighters);
                assert(self@ =~= before.taken_off(fid as int));
                assert forall|i: int| 0 <= i < self@.board.occupied.len() implies
                    #[trigger] self@.board.occupied[i] < self@.board.cells.len() by {
                    assert(self@.board.occupied.contains(self@.board.occupied[i]));
                }
                if before.seated() {
                    assert forall|i: int| 0 <= i < self@.board.occupied.len() implies
                        self@.occupancy.contains_key(#[trigger] self@.board.occupied[i]) by {
                        let x = self@.board.occupied[i];
                        assert(self@.board.occupied.contains(x));
                        assert(before.board.occupied.contains(x));
                        let j = choose|j: int|
                            0 <= j < before.board.occupied.len() && before.board.occupied[j] == x;
                        assert(before.occupancy.contains_key(before.board.occupied[j]));
                    }
                }
            }
        }
    }

    /// Puts a fighter on a cell.
    pub fn place_entity(&mut self, fid: usize, cell: usize)
        requires
            old(self).wf(),
            fid < old(self)@.fighters.len(),
            old(self)@.board.has(cell as int),
        ensures
            final(self).wf(),
            final(self)@.extends(old(self)@),
            final(self)@ == old(self)@.placed(fid as int, cell),
    {
        self.remove_entity_from_map(fid);
        let ghost off = self@;
        let _ = self.occupancy.insert(cell, fid);
        self.map.entity_cells.push(cell);
        self.fighters[fid].cell = Some(cell);
        proof {
            assert(self@.fighters =~= old(self)@.placed(fid as int, cell).fighters);
            assert(self@ =~= old(self)@.placed(fid as int, cell));
        }
    }

    /// Moves a fighter by force.
    pub fn slide_entity(&mut self, fid: usize, cell: usize)
        requires
            old(self).wf(),
            fid < old(self)@.fighters.len(),
            old(self)@.board.has(cell as int),
        ensures
            final(self).wf(),
            final(self)@.extends(old(self)@),
            final(self)@ == old(self)@.slid(fid as int, cell),
    {
        if self.fighters[fid].has_state(EntityState::Static) {
            return;
        }
        if let Some(c) = self.fighters[fid].cell {
            if c == cell {
                return;
            }
        }
        self.place_entity(fid, cell);
    }

    /// Moves a fighter to any cell.
    pub fn teleport_entity(&mut self, fid: usize, cell: usize)
        requires
            old(self).wf(),
            fid < old(self)@.fighters.len(),
            old(self)@.board.has(cell as int),
        ensures
            final(self).wf(),
            final(self)@.extends(old(self)@),
            final(self)@ == old(self)@.placed(fid as int, cell),
    {
        self.place_entity(fid, cell);
    }

    /// Lets two fighters change places.
    pub fn invert_entities(&mut self, a: usize, b: usize)
        requires
            old(self).wf(),
            a < old(self)@.fighters.len(),
            b < old(self)@.fighters.len(),
        ensures
            final(self).wf(),
            final(self)@.extends(old(self)@),
            final(self)@ == old(self)@.inverted(a as int, b as int),
    {
        if self.fighters[b].has_state(EntityState::Static) {
            return;
        }
        if let Some(ca) = self.fighters[a].cell {
            if let Some(cb) = self.fighters[b].cell {
                let _ = self.occupancy.insert(ca, b);
                let _ = self.occupancy.insert(cb, a);
                self.fighters[a].cell = Some(cb);
                self.fighters[b].cell = Some(ca);
                proof {
                    assert(self@.fighters =~= old(self)@.inverted(a as int, b as int).fighters);
                    assert(self@ =~= old(self)@.inverted(a as int, b as int));
                }
            }
        }
    }
}

} // verus!
