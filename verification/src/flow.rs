//! The course of a fight: its beginning, its turns and its end.

use crate::actions::{Action, ActionLog, Journal};
use crate::fighter::{Fighter, FighterView, Team, TeamView, MAX_TURNS, STAT_FREQUENCY};
use crate::json::Tree;
use crate::map::{Board, GameMap};
use crate::number::Real;
use crate::rng::OfficialRng;
use crate::turns::{Order, Round};
use crate::world::{ChipSpec, HookPhase, State, World};
use std::collections::{BTreeMap, HashMap};
use vstd::prelude::*;
use vstd::std_specs::cmp::OrdSpec;
use vstd::std_specs::iter::IteratorSpec;
use vstd::string::*;

verus! {

broadcast use {
    vstd::std_specs::hash::group_hash_axioms,
    vstd::std_specs::btree::group_btree_axioms,
    crate::fighter::lemma_stats_len,
};

/// What follows from the beginning of a turn.
#[derive(Debug, Clone, Copy, PartialEq, Eq, Structural)]
pub enum BeginTurn {
    /// Nobody is left to play.
    NoCurrent,
    /// The fighter died as its turn began.
    Skip,
    /// The fighter plays.
    Act(usize),
}

/// How many of the first `n` teams are alive.
pub open spec fn teams_alive(teams: Seq<TeamView>, fighters: Seq<FighterView>, n: nat) -> int
    decreases n,
{
    if n == 0 {
        0
    } else {
        teams_alive(teams, fighters, (n - 1) as nat) + if teams[n - 1].is_dead(fighters) {
            0int
        } else {
            1int
        }
    }
}

/// The members of a list whom nobody summoned.
pub open spec fn born(list: Seq<usize>, fighters: Seq<FighterView>) -> Seq<usize>
    decreases list.len(),
{
    if list.len() == 0 {
        list
    } else if fighters[list.last() as int].is_summon() {
        born(list.drop_last(), fighters)
    } else {
        born(list.drop_last(), fighters).push(list.last())
    }
}

/// Whether a list of keys grows.
pub open spec fn ascending(keys: Seq<i32>) -> bool {
    forall|i: int, j: int| 0 <= i < j < keys.len() ==> keys[i] < keys[j]
}

/// The members of teams with their frequencies.
pub open spec fn beginners(teams: Seq<TeamView>, fighters: Seq<FighterView>) -> Seq<
    Seq<(i64, i64)>,
> {
    teams.map_values(
        |t: TeamView|
            t.fighters.map_values(
                |f: usize|
                    (f as i64, fighters[f as int].stat(STAT_FREQUENCY as int) as i64),
            ),
    )
}

impl World {
    /// A world without fighters.
    pub open spec fn blank(seed: int) -> World {
        World {
            rng: seed,
            board: Board::bare(18, 18),
            fighters: Seq::empty(),
            teams: Seq::empty(),
            order: Round::blank(),
            journal: Journal::blank(),
            weapon_specs: Map::empty(),
            chip_specs: Map::empty(),
            bulb_templates: Map::empty(),
            summon_ais: Map::empty(),
            effects: Seq::empty(),
            occupancy: Map::empty(),
            running: false,
            last_turn: 0,
            initial_order: Seq::empty(),
            leek_snapshots: Seq::empty(),
            map_snapshot: Tree::Null,
            farmer_logs: Map::empty(),
            hook_phase: HookPhase::NoHook,
            win_team: (-1) as i32,
            unmodelled: false,
        }
    }

    /// A fighter stands on a cell, if there is one for it.
    pub open spec fn placed_maybe(self, fid: int, cell: Option<usize>) -> World {
        match cell {
            Some(c) => self.placed(fid, c),
            None => self,
        }
    }

    /// A new board with the two fighters on it.
    pub open spec fn mapped(self) -> World {
        let g = crate::mapgen::generated(
            crate::rng::int_value(self.rng, 30, 80),
            crate::rng::int_state(self.rng, 30, 80),
        );
        World {
            rng: g.stream,
            board: Board { occupied: Seq::empty(), ..g.board },
            ..self
        }.placed_maybe(self.teams[0].fighters[0] as int, g.first).placed_maybe(
            self.teams[1].fighters[0] as int,
            g.second,
        )
    }

    /// The first `n` fighters of a list come into the order of play, but the
    /// dead.
    pub open spec fn lined_up(self, list: Seq<i64>, n: nat) -> World
        decreases n,
    {
        if n == 0 {
            self
        } else {
            let w = self.lined_up(list, (n - 1) as nat);
            let fid = list[n - 1] as usize;
            World {
                order: if w.fighters[fid as int].is_dead() {
                    w.order
                } else {
                    w.order.added(fid)
                },
                initial_order: w.initial_order.push(fid),
                ..w
            }
        }
    }

    /// The order of play is drawn.
    pub open spec fn ordered(self, weights: Seq<Real>) -> World {
        let list = crate::order::start_order(
            beginners(self.teams, self.fighters),
            weights,
            self.rng,
        );
        World {
            rng: crate::order::after_draws(self.rng, self.teams.len()),
            ..self
        }.lined_up(list, list.len())
    }

    /// A chip cools down for the first `n` members of a list.
    pub open spec fn charged_members(self, list: Seq<usize>, spec: ChipSpec, n: nat) -> World
        decreases n,
    {
        if n == 0 {
            self
        } else {
            self.charged_members(list, spec, (n - 1) as nat).chip_cooling(
                list[n - 1] as int,
                spec.id,
                spec.team_cooldown,
                spec.initial_cooldown.wrapping_add(1),
            )
        }
    }

    /// A chip cools down for the members of the first `n` teams.
    pub open spec fn charged_teams(self, spec: ChipSpec, n: nat) -> World
        decreases n,
    {
        if n == 0 {
            self
        } else {
            let w = self.charged_teams(spec, (n - 1) as nat);
            w.charged_members(
                w.teams[n - 1].fighters,
                spec,
                w.teams[n - 1].fighters.len(),
            )
        }
    }

    /// Those of the first `n` chips of a list that have to wait at the
    /// beginning cool down for everyone.
    pub open spec fn charged(self, keys: Seq<i32>, n: nat) -> World
        decreases n,
    {
        if n == 0 {
            self
        } else {
            let w = self.charged(keys, (n - 1) as nat);
            let spec = w.chip_specs[keys[n - 1]];
            if spec.initial_cooldown > 0 {
                w.charged_teams(spec, w.teams.len())
            } else {
                w
            }
        }
    }

    /// The fight begins: the board, the places, the order of play and the
    /// chips that have to wait, in the order of their numbers.
    pub open spec fn begins_as(self, weights: Seq<Real>, w: World) -> bool {
        exists|keys: Seq<i32>|
            {
                &&& ascending(keys)
                &&& keys.to_set() == self.chip_specs.dom()
                &&& w == (World {
                    running: true,
                    ..#[trigger] self.mapped().ordered(weights).charged(keys, keys.len())
                })
            }
    }

    /// What the report says of the beginning is kept.
    pub open spec fn recorded(self) -> World {
        World {
            leek_snapshots: self.initial_order.map_values(
                |f: usize| crate::outcome::snapshot(self.fighters[f as int]),
            ),
            map_snapshot: crate::outcome::map_tree(self.board),
            ..self
        }.logged(crate::json::row(seq![crate::actions::START_FIGHT as int]))
    }

    /// A turn begins.
    pub open spec fn turn_begun(self) -> World {
        match self.order.current() {
            Some(fid) => self.logged(
                crate::json::row(seq![crate::actions::LEEK_TURN as int, fid as int]),
            ).turn_started(fid as int),
            None => self,
        }
    }

    /// A fighter has played.
    pub open spec fn turn_done(self, fid: int) -> World {
        let w = self.with_fighter(fid, self.fighters[fid].turn_ended()).effects_spread(fid);
        w.logged(
            crate::json::row(
                seq![
                    crate::actions::END_TURN as int,
                    fid,
                    w.fighters[fid].tp() as int,
                    w.fighters[fid].mp() as int,
                ],
            ),
        )
    }

    /// Whether at most one team is alive.
    pub open spec fn is_finished(self) -> bool {
        teams_alive(self.teams, self.fighters, self.teams.len()) < 2
    }

    /// The next turn, or the end.
    pub open spec fn turn_passed(self) -> World {
        if self.is_finished() {
            World { running: false, ..self }
        } else {
            let w = World { order: self.order.advanced(), ..self };
            if self.order.wraps() {
                let turn = w.order.turn;
                let told = if self.last_turn != turn && turn <= MAX_TURNS {
                    World {
                        last_turn: turn,
                        ..w.logged(
                            crate::json::row(seq![crate::actions::NEW_TURN as int, turn as int]),
                        )
                    }
                } else {
                    w
                };
                World { teams: told.teams.map_values(|t: TeamView| t.cooled()), ..told }
            } else {
                w
            }
        }
    }

    /// Whether a team has more life than any other, and than the least number.
    pub open spec fn leads(self, t: int) -> bool {
        &&& 0 <= t < self.teams.len()
        &&& self.teams[t].life(self.fighters) > i32::MIN
        &&& forall|o: int|
            0 <= o < self.teams.len() && o != t ==> (#[trigger] self.teams[o]).life(self.fighters)
                < self.teams[t].life(self.fighters)
    }

    /// Whether a team is the only one alive.
    pub open spec fn survives(self, t: int) -> bool {
        &&& 0 <= t < self.teams.len()
        &&& !self.teams[t].is_dead(self.fighters)
        &&& forall|o: int|
            0 <= o < self.teams.len() && o != t ==> (#[trigger] self.teams[o]).is_dead(
                self.fighters,
            )
    }

    /// The winner: the only team alive; or, where that counts, the one that
    /// has more life than any other; or none (-1).
    pub open spec fn winner_is(self, by_life: bool, winner: int) -> bool {
        if exists|t: int| self.survives(t) {
            self.survives(winner)
        } else if by_life && exists|t: int| self.leads(t) {
            self.leads(winner)
        } else {
            winner == -1
        }
    }

    /// Nobody who was summoned is in a team any more.
    pub open spec fn without_summons(self) -> World {
        World {
            teams: self.teams.map_values(
                |t: TeamView| TeamView { fighters: born(t.fighters, self.fighters), ..t },
            ),
            ..self
        }
    }

    /// A message for the farmer of a fighter, under the last event.
    pub open spec fn told(self, fid: int, entry: Tree) -> World {
        let farmer = self.fighters[fid].farmer;
        let event = (if self.journal.actions.len() == 0 {
            0
        } else {
            self.journal.actions.len() - 1
        }) as usize;
        let own = if self.farmer_logs.contains_key(farmer) {
            self.farmer_logs[farmer]
        } else {
            Map::empty()
        };
        let list = if own.contains_key(event) {
            own[event]
        } else {
            Seq::empty()
        };
        World {
            farmer_logs: self.farmer_logs.insert(farmer, own.insert(event, list.push(entry))),
            ..self
        }
    }
}

/// A message: about whom, of what kind, which, and with what words.
pub open spec fn message_tree(
    fid: int,
    log_type: int,
    key: int,
    params: Option<Seq<Tree>>,
) -> Tree {
    let base = seq![
        Tree::Int(fid),
        Tree::Int(log_type),
        Tree::Str(Seq::empty()),
        Tree::Int(key),
    ];
    match params {
        Some(p) => Tree::Array(base.push(Tree::Array(p))),
        None => Tree::Array(base),
    }
}

/// Words as documents.
pub open spec fn words(params: Seq<&str>) -> Seq<Tree> {
    params.map_values(|p: &str| Tree::Str(p@))
}

impl State {
    /// A fight without fighters.
    #[must_use]
    pub fn new(seed: i64) -> (s: Self)
        ensures
            s@.seated(),
            s.wf(),
            s@ == World::blank(seed as int),
    {
        let s = State {
            rng: OfficialRng::new(seed),
            map: GameMap::new(18, 18),
            fighters: Vec::new(),
            teams: Vec::new(),
            order: Order::new(),
            actions: ActionLog::new(),
            weapon_specs: BTreeMap::new(),
            chip_specs: BTreeMap::new(),
            bulb_templates: BTreeMap::new(),
            summon_ais: HashMap::new(),
            effects: Vec::new(),
            occupancy: HashMap::new(),
            running: false,
            last_turn: 0,
            initial_order: Vec::new(),
            leek_snapshots: crate::json::no_items(),
            map_snapshot: crate::json::null(),
            farmer_logs: BTreeMap::new(),
            hook_phase: HookPhase::NoHook,
            win_team: -1,
            unmodelled: false,
        };
        proof {
            let w = World::blank(seed as int);
            assert(s@.fighters =~= w.fighters);
            assert(s@.teams =~= w.teams);
            assert(s@.effects =~= w.effects);
            assert(s@.initial_order =~= w.initial_order);
            assert(s@.weapon_specs =~= w.weapon_specs);
            assert(s@.chip_specs =~= w.chip_specs);
            assert(s@.bulb_templates =~= w.bulb_templates);
            assert(s@.summon_ais =~= w.summon_ais);
            assert(s@.occupancy =~= w.occupancy);
            assert(s@.farmer_logs =~= w.farmer_logs);
            assert(s@ =~= w);
        }
        s
    }

    /// Begins a fight of one fighter against another: draws the board, their
    /// places and the order of play, and lets the chips that have to wait
    /// cool down for everyone. The weights of the teams are those of
    /// [`start_exponents`](crate::order::start_exponents).
    pub fn init(&mut self, weights: &[Real])
        requires
            old(self).wf(),
            old(self)@.teams.len() == 2,
            old(self)@.teams[0].fighters.len() == 1,
            old(self)@.teams[1].fighters.len() == 1,
            old(self)@.board.width == 18,
            old(self)@.board.height == 18,
            old(self)@.order.fids.len() + 2 < i32::MAX,
            weights@.len() == 2,
            crate::order::finite(weights@),
        ensures
            final(self).wf(),
            old(self)@.begins_as(weights@, final(self)@),
            old(self)@.seated() ==> final(self)@.seated(),
    {
        let ghost w = self@;
        self.lay_out();
        self.line_up(weights);
        let ghost ordered = self@;
        let keys: Vec<i32> = ascending_keys(&self.chip_specs);
        let mut k: usize = 0;
        while k < keys.len()
            invariant
                self.wf(),
                k <= keys@.len(),
                keys@.to_set() == ordered.chip_specs.dom(),
                self@.chip_specs == ordered.chip_specs,
                self@ == ordered.charged(keys@, k as nat),
                ordered.seated() ==> self@.seated(),
            decreases keys.len() - k,
        {
            let key: i32 = keys[k];
            assert(keys@.to_set().contains(keys@[k as int]));
            match self.chip_specs.get(&key) {
                Some(spec) => {
                    if spec.initial_cooldown > 0 {
                        let chip = spec.copied();
                        self.charge(&chip, key);
                    }
                },
                None => {},
            }
            k += 1;
        }
        self.running = true;
        assert(self@ =~= (World { running: true, ..ordered.charged(keys@, keys@.len()) }));
        assert(w.begins_as(weights@, self@));
    }

    /// Draws the board and the places of the two fighters.
    fn lay_out(&mut self)
        requires
            old(self).wf(),
            old(self)@.teams.len() == 2,
            old(self)@.teams[0].fighters.len() == 1,
            old(self)@.teams[1].fighters.len() == 1,
            old(self)@.board.width == 18,
            old(self)@.board.height == 18,
        ensures
            final(self).wf(),
            final(self)@.teams == old(self)@.teams,
            final(self)@.order == old(self)@.order,
            final(self)@.chip_specs == old(self)@.chip_specs,
            final(self)@ == old(self)@.mapped(),
            old(self)@.seated() ==> final(self)@.seated(),
    {
        let ghost w = self@;
        let obstacle_count: i32 = self.rng.get_int(30, 80);
        let (map, first, second) = GameMap::generate_map(&mut self.rng, obstacle_count);
        self.map = map;
        self.map.entity_cells = Vec::new();
        let ghost g = crate::mapgen::generated(
            crate::rng::int_value(w.rng, 30, 80),
            crate::rng::int_state(w.rng, 30, 80),
        );
        proof {
            assert(self@.board =~= Board { occupied: Seq::empty(), ..g.board });
            assert(self@ =~= (World {
                rng: g.stream,
                board: Board { occupied: Seq::empty(), ..g.board },
                ..w
            }));
            assert(w.teams[0] == self.teams@[0]@);
            assert(w.teams[1] == self.teams@[1]@);
            assert(w.teams[0].fighters[0] < w.fighters.len());
            assert(w.teams[1].fighters[0] < w.fighters.len());
        }
        let a: usize = self.teams[0].fighters[0];
        let b: usize = self.teams[1].fighters[0];
        if let Some(cell) = first {
            self.place_entity(a, cell);
        }
        if let Some(cell) = second {
            self.place_entity(b, cell);
        }
    }

    /// The members of the teams with their frequencies.
    #[must_use]
    pub fn beginners(&self) -> (list: Vec<Vec<(i64, i64)>>)
        requires
            self.wf(),
        ensures
            crate::order::members_of(list@) == beginners(self@.teams, self@.fighters),
    {
        let ghost w = self@;
        let ghost goal = beginners(w.teams, w.fighters);
        let mut list: Vec<Vec<(i64, i64)>> = Vec::new();
        let mut t: usize = 0;
        while t < self.teams.len()
            invariant
                self.wf(),
                w == self@,
                goal == beginners(w.teams, w.fighters),
                t <= w.teams.len(),
                list@.len() == t,
                forall|i: int| 0 <= i < t ==> (#[trigger] list@[i])@ == goal[i],
            decreases self.teams.len() - t,
        {
            let ghost members = w.teams[t as int].fighters;
            assert(w.teams[t as int] == self.teams@[t as int]@);
            assert(crate::fighter::all_below(members, w.fighters.len() as int));
            let mut row: Vec<(i64, i64)> = Vec::new();
            let mut i: usize = 0;
            while i < self.teams[t].fighters.len()
                invariant
                    self.wf(),
                    w == self@,
                    t < self.teams@.len(),
                    members == self.teams@[t as int].fighters@,
                    goal == beginners(w.teams, w.fighters),
                    members == w.teams[t as int].fighters,
                    crate::fighter::all_below(members, w.fighters.len() as int),
                    i <= members.len(),
                    row@ == goal[t as int].take(i as int),
                decreases members.len() - i,
            {
                let f: usize = self.teams[t].fighters[i];
                assert(members[i as int] < w.fighters.len());
                assert(w.fighters[f as int] == self.fighters@[f as int]@);
                row.push((f as i64, self.fighters[f].stat(STAT_FREQUENCY) as i64));
                i += 1;
                assert(row@ =~= goal[t as int].take(i as int));
            }
            assert(row@ =~= goal[t as int]);
            list.push(row);
            t += 1;
        }
        assert(crate::order::members_of(list@) =~= goal);
        list
    }

    /// Draws the order of play.
    fn line_up(&mut self, weights: &[Real])
        requires
            old(self).wf(),
            old(self)@.teams.len() == 2,
            old(self)@.teams[0].fighters.len() == 1,
            old(self)@.teams[1].fighters.len() == 1,
            old(self)@.order.fids.len() + 2 < i32::MAX,
            weights@.len() == 2,
            crate::order::finite(weights@),
        ensures
            final(self).wf(),
            final(self)@.chip_specs == old(self)@.chip_specs,
            final(self)@ == old(self)@.ordered(weights@),
            old(self)@.seated() ==> final(self)@.seated(),
    {
        let ghost w = self@;
        let teams: Vec<Vec<(i64, i64)>> = self.beginners();
        let ghost pairs = beginners(w.teams, w.fighters);
        let fids: Vec<i64> = crate::order::compute_start_order(
            teams.as_slice(),
            weights,
            &mut self.rng,
        );
        let ghost w0 = World { rng: crate::order::after_draws(w.rng, w.teams.len()), ..w };
        proof {
            assert(self@ =~= w0);
            lemma_two_begin(w, weights@);
        }
        let mut i: usize = 0;
        while i < fids.len()
            invariant
                self.wf(),
                i <= fids@.len() <= 2,
                fids@ == crate::order::start_order(pairs, weights@, w.rng),
                pairs == beginners(w.teams, w.fighters),
                w.teams.len() <= usize::MAX,
                w.wf(),
                self@.fighters == w.fighters,
                self@.occupancy == w.occupancy,
                self@.board == w.board,
                self@.chip_specs == w.chip_specs,
                w.order.fids.len() + 2 < i32::MAX,
                self@.order.fids.len() <= w.order.fids.len() + i,
                self@ == w0.lined_up(fids@, i as nat),
            decreases fids.len() - i,
        {
            let fid: usize = fids[i] as usize;
            let ghost before = self@;
            proof {
                crate::order::lemma_beginners_have_a_team(pairs, weights@, w.rng, i as int);
                let (t, j) = choose|t: int, j: int|
                    0 <= t < pairs.len() && 0 <= j < pairs[t].len() && (#[trigger] pairs[t][j]).0
                        == fids@[i as int];
                assert(w.teams[t].fighters[j] < w.fighters.len());
                assert(fid == w.teams[t].fighters[j]);
                assert(self@.fighters[fid as int] == self.fighters@[fid as int]@);
            }
            if !self.fighters[fid].is_dead() {
                self.order.add_entity(fid);
            }
            self.initial_order.push(fid);
            i += 1;
            assert(self@ =~= w0.lined_up(fids@, i as nat));
        }
    }

    /// Lets a chip that has to wait at the beginning cool down for everyone.
    fn charge(&mut self, chip: &ChipSpec, key: i32)
        requires
            old(self).wf(),
            old(self)@.chip_specs.contains_key(key),
            chip.same(old(self)@.chip_specs[key]),
        ensures
            final(self).wf(),
            final(self)@.extends(old(self)@),
            final(self)@ == old(self)@.charged_teams(
                old(self)@.chip_specs[key],
                old(self)@.teams.len(),
            ),
    {
        let ghost w = self@;
        let ghost spec = w.chip_specs[key];
        let mut t: usize = 0;
        while t < self.teams.len()
            invariant
                self.wf(),
                chip.same(spec),
                self@.extends(w),
                t <= w.teams.len(),
                self@.teams.len() == w.teams.len(),
                self@ == w.charged_teams(spec, t as nat),
            decreases w.teams.len() - t,
        {
            let ghost before = self@;
            let ghost members = before.teams[t as int].fighters;
            assert(before.teams[t as int] == self.teams@[t as int]@);
            assert(crate::fighter::all_below(members, before.fighters.len() as int));
            let mut i: usize = 0;
            while i < self.teams[t].fighters.len()
                invariant
                    self.wf(),
                    chip.same(spec),
                    self@.extends(w),
                    t < self@.teams.len(),
                    self@.teams.len() == w.teams.len(),
                    self@.fighters.len() == before.fighters.len(),
                    self@.teams[t as int].fighters == members,
                    crate::fighter::all_below(members, before.fighters.len() as int),
                    i <= members.len(),
                    self@ == before.charged_members(members, spec, i as nat),
                decreases members.len() - i,
            {
                assert(self@.teams[t as int] == self.teams@[t as int]@);
                let fid: usize = self.teams[t].fighters[i];
                assert(members[i as int] < before.fighters.len());
                self.add_chip_cooldown(fid, chip, chip.initial_cooldown.wrapping_add(1));
                i += 1;
            }
            assert(self@.teams[t as int] == self.teams@[t as int]@);
            t += 1;
        }
    }

    /// Keeps what the report says of the beginning, and writes it into the
    /// journal.
    pub fn record_initial_state(&mut self)
        requires
            old(self).wf(),
            old(self)@.teams.len() >= 2,
        ensures
            final(self).wf(),
            final(self)@.extends(old(self)@),
            final(self)@ == old(self)@.recorded(),
    {
        let ghost w = self@;
        let ghost goal = w.initial_order.map_values(
            |f: usize| crate::outcome::snapshot(w.fighters[f as int]),
        );
        let mut snapshots: Vec<serde_json::Value> = crate::json::no_items();
        let mut i: usize = 0;
        while i < self.initial_order.len()
            invariant
                self.wf(),
                self@ == w,
                goal == w.initial_order.map_values(
                    |f: usize| crate::outcome::snapshot(w.fighters[f as int]),
                ),
                i <= w.initial_order.len(),
                crate::json::all_contents(snapshots@) == goal.take(i as int),
            decreases self.initial_order.len() - i,
        {
            let f: usize = self.initial_order[i];
            assert(w.initial_order[i as int] < w.fighters.len());
            assert(w.fighters[f as int] == self.fighters@[f as int]@);
            assert(w.fighters[f as int].fits(
                f as int,
                w.teams.len() as int,
                w.board.cells.len() as int,
                w.effects.len() as int,
            ));
            crate::json::push_item(
                &mut snapshots,
                crate::outcome::entity_snapshot(&self.fighters[f]),
            );
            i += 1;
            assert(crate::json::all_contents(snapshots@) =~= goal.take(i as int));
        }
        assert(goal.take(i as int) =~= goal);
        self.leek_snapshots = snapshots;
        self.map_snapshot = crate::outcome::map_json(&self.map);
        let team1: usize = self.teams[0].fighters.len();
        let team2: usize = self.teams[1].fighters.len();
        proof {
            assert(self@ =~= (World {
                leek_snapshots: goal,
                map_snapshot: crate::outcome::map_tree(w.board),
                ..w
            }));
        }
        self.log(Action::StartFight { team1: team1 as i32, team2: team2 as i32 });
    }

    /// Whether at most one team is alive.
    #[must_use]
    pub fn is_finished(&self) -> (b: bool)
        requires
            self.wf(),
        ensures
            b == self@.is_finished(),
    {
        let ghost w = self@;
        let mut alive: usize = 0;
        let mut t: usize = 0;
        while t < self.teams.len()
            invariant
                self.wf(),
                w == self@,
                t <= w.teams.len(),
                alive <= t,
                alive == teams_alive(w.teams, w.fighters, t as nat),
            decreases self.teams.len() - t,
        {
            assert(w.teams[t as int] == self.teams@[t as int]@);
            if !self.teams[t].is_dead(self.fighters.as_slice()) {
                alive += 1;
            }
            t += 1;
        }
        alive < 2
    }

    /// Begins the turn of the fighter whose turn it is.
    pub fn begin_turn(&mut self) -> (next: BeginTurn)
        requires
            old(self).wf(),
        ensures
            final(self).wf(),
            final(self)@.extends(old(self)@),
            final(self)@ == old(self)@.turn_begun(),
            next == match old(self)@.order.current() {
                None => BeginTurn::NoCurrent,
                Some(fid) => if final(self)@.fighters[fid as int].is_dead() {
                    BeginTurn::Skip
                } else {
                    BeginTurn::Act(fid)
                },
            },
    {
        let ghost w = self@;
        match self.order.current() {
            None => BeginTurn::NoCurrent,
            Some(fid) => {
                assert(w.order.fids[w.order.position as int] < w.fighters.len());
                self.log(Action::EntityTurn { entity_id: fid as i64 });
                self.start_turn(fid);
                assert(self@.fighters[fid as int] == self.fighters@[fid as int]@);
                if self.fighters[fid].is_dead() {
                    BeginTurn::Skip
                } else {
                    BeginTurn::Act(fid)
                }
            },
        }
    }

    /// Ends the turn of a fighter that has played.
    pub fn end_entity_turn(&mut self, fid: usize)
        requires
            old(self).wf(),
            fid < old(self)@.fighters.len(),
        ensures
            final(self).wf(),
            final(self)@.extends(old(self)@),
            final(self)@ == old(self)@.turn_done(fid as int),
    {
        let ghost w = self@;
        assert(w.fighters[fid as int] == self.fighters@[fid as int]@);
        self.fighters[fid].end_turn();
        proof {
            let w1 = w.with_fighter(fid as int, w.fighters[fid as int].turn_ended());
            assert(self@.fighters =~= w1.fighters);
            assert(self@ =~= w1);
        }
        self.propagate_effects(fid);
        assert(self@.fighters[fid as int] == self.fighters@[fid as int]@);
        let tp: i64 = self.fighters[fid].tp() as i64;
        let mp: i64 = self.fighters[fid].mp() as i64;
        self.log(Action::EndTurn { entity_id: fid as i64, tp, mp });
    }

    /// Goes on to the next turn, or ends the fight.
    pub fn end_turn(&mut self)
        requires
            old(self).wf(),
            !old(self)@.is_finished() ==> old(self)@.order.fids.len() > 0,
        ensures
            final(self).wf(),
            final(self)@.extends(old(self)@),
            final(self)@ == old(self)@.turn_passed(),
    {
        let ghost w = self@;
        if self.is_finished() {
            self.running = false;
            assert(self@ =~= w.turn_passed());
            return;
        }
        let wrapped: bool = self.order.next();
        let ghost w1 = World { order: w.order.advanced(), ..w };
        assert(self@ =~= w1);
        if wrapped {
            let turn: i32 = self.order.turn();
            let ghost mut told = w1;
            if self.last_turn != turn && turn <= MAX_TURNS {
                self.log(Action::NewTurn { count: turn });
                self.last_turn = turn;
                proof {
                    told = World {
                        last_turn: turn,
                        ..w1.logged(
                            crate::json::row(seq![crate::actions::NEW_TURN as int, turn as int]),
                        )
                    };
                    assert(self@ =~= told);
                }
            }
            let mut t: usize = 0;
            while t < self.teams.len()
                invariant
                    self.wf(),
                    told.teams == w.teams,
                    t <= told.teams.len(),
                    self@.teams.len() == told.teams.len(),
                    self@ == (World { teams: self@.teams, ..told }),
                    forall|i: int|
                        0 <= i < told.teams.len() ==> #[trigger] self@.teams[i] == (if i < t {
                            told.teams[i].cooled()
                        } else {
                            told.teams[i]
                        }),
                decreases self.teams.len() - t,
            {
                let ghost before = self@;
                assert(before.teams[t as int] == self.teams@[t as int]@);
                self.teams[t].apply_cooldown();
                proof {
                    let after = before.with_team(t as int, before.teams[t as int].cooled());
                    assert(self@.teams =~= after.teams);
                    assert(self@ =~= after);
                }
                t += 1;
            }
            proof {
                assert(self@.teams =~= told.teams.map_values(|t: TeamView| t.cooled()));
                assert(self@ =~= w.turn_passed());
            }
        }
    }

    /// The winner of the fight by its index, or -1. By life, the team with
    /// the most life wins where not just one is alive.
    #[must_use]
    pub fn compute_winner(&self, draw_check_life: bool) -> (winner: i32)
        requires
            self.wf(),
        ensures
            self@.winner_is(draw_check_life, winner as int),
    {
        let ghost w = self@;
        let mut win_team: i32 = -1;
        let mut alive: usize = 0;
        let mut t: usize = 0;
        while t < self.teams.len()
            invariant
                self.wf(),
                w == self@,
                t <= w.teams.len(),
                alive <= t,
                alive == 0 <==> forall|o: int|
                    0 <= o < t ==> (#[trigger] w.teams[o]).is_dead(w.fighters),
                alive > 0 ==> 0 <= win_team < t && !w.teams[win_team as int].is_dead(w.fighters),
                alive == 1 ==> forall|o: int|
                    0 <= o < t && o != win_team ==> (#[trigger] w.teams[o]).is_dead(w.fighters),
                alive >= 2 ==> exists|a: int, b: int|
                    0 <= a < b < t && !(#[trigger] w.teams[a]).is_dead(w.fighters) && !(
                    #[trigger] w.teams[b]).is_dead(w.fighters),
            decreases self.teams.len() - t,
        {
            assert(w.teams[t as int] == self.teams@[t as int]@);
            let ghost last = win_team;
            if !self.teams[t].is_dead(self.fighters.as_slice()) {
                proof {
                    if alive >= 1 {
                        assert(!w.teams[last as int].is_dead(w.fighters));
                        assert(!w.teams[t as int].is_dead(w.fighters));
                    }
                }
                alive += 1;
                win_team = t as i32;
            }
            t += 1;
        }
        if alive == 1 {
            assert(w.survives(win_team as int));
            return win_team;
        }
        assert(forall|t: int| !w.survives(t)) by {
            if alive >= 2 {
                let (a, b) = choose|a: int, b: int|
                    0 <= a < b < t && !(#[trigger] w.teams[a]).is_dead(w.fighters) && !(
                    #[trigger] w.teams[b]).is_dead(w.fighters);
                assert forall|t: int| !w.survives(t) by {
                    if w.survives(t) {
                        assert(t == a || w.teams[a].is_dead(w.fighters));
                        assert(t == b || w.teams[b].is_dead(w.fighters));
                    }
                }
            } else {
                assert forall|t: int| !w.survives(t) by {
                    if w.survives(t) {
                        assert(w.teams[t].is_dead(w.fighters));
                    }
                }
            }
        }
        if !draw_check_life {
            return -1;
        }
        let mut max_life: i32 = i32::MIN;
        let mut winners: usize = 0;
        let mut candidate: i32 = -1;
        let mut t: usize = 0;
        while t < self.teams.len()
            invariant
                self.wf(),
                w == self@,
                t <= w.teams.len(),
                winners <= t,
                -1 <= candidate < t,
                forall|o: int|
                    0 <= o < t ==> (#[trigger] w.teams[o]).life(w.fighters) <= max_life,
                candidate < 0 ==> max_life == i32::MIN,
                candidate >= 0 ==> max_life > i32::MIN && winners >= 1 && w.teams[candidate as int].life(
                    w.fighters,
                ) == max_life,
                candidate >= 0 && winners == 1 ==> forall|o: int|
                    0 <= o < t && o != candidate ==> (#[trigger] w.teams[o]).life(w.fighters)
                        < max_life,
                candidate >= 0 && winners >= 2 ==> exists|o: int|
                    0 <= o < t && o != candidate && (#[trigger] w.teams[o]).life(w.fighters)
                        == max_life,
            decreases self.teams.len() - t,
        {
            assert(w.teams[t as int] == self.teams@[t as int]@);
            let life: i32 = self.teams[t].life(self.fighters.as_slice());
            if life > max_life {
                max_life = life;
                candidate = t as i32;
                winners = 1;
            } else if life == max_life {
                assert(w.teams[t as int].life(w.fighters) == max_life);
                winners += 1;
            }
            t += 1;
        }
        if winners == 1 {
            proof {
                if candidate >= 0 {
                    assert(w.leads(candidate as int));
                }
            }
            return candidate;
        }
        assert forall|t: int| !w.leads(t) by {
            if w.leads(t) {
                let o = choose|o: int|
                    0 <= o < w.teams.len() && o != candidate && (#[trigger] w.teams[o]).life(
                        w.fighters,
                    ) == max_life;
                assert(t == o || w.teams[o].life(w.fighters) < w.teams[t].life(w.fighters));
                assert(t == candidate || w.teams[candidate as int].life(w.fighters) < w.teams[t].life(
                    w.fighters,
                ));
            }
        }
        -1
    }

    /// How many rounds the fight has lasted.
    #[must_use]
    pub fn duration(&self) -> (n: i32)
        ensures
            n == self@.order.turn,
    {
        self.order.turn()
    }

    /// Takes everyone who was summoned out of the teams.
    pub fn remove_all_invocations(&mut self)
        requires
            old(self).wf(),
        ensures
            final(self).wf(),
            final(self)@.extends(old(self)@),
            final(self)@ == old(self)@.without_summons(),
    {
        let ghost w = self@;
        let mut t: usize = 0;
        while t < self.teams.len()
            invariant
                self.wf(),
                t <= w.teams.len(),
                self@.teams.len() == w.teams.len(),
                self@ == (World { teams: self@.teams, ..w }),
                forall|i: int|
                    0 <= i < w.teams.len() ==> #[trigger] self@.teams[i] == (if i < t {
                        TeamView { fighters: born(w.teams[i].fighters, w.fighters), ..w.teams[i] }
                    } else {
                        w.teams[i]
                    }),
            decreases self.teams.len() - t,
        {
            let ghost before = self@;
            let ghost members = before.teams[t as int].fighters;
            assert(before.teams[t as int] == self.teams@[t as int]@);
            assert(crate::fighter::all_below(members, w.fighters.len() as int));
            let mut kept: Vec<usize> = Vec::new();
            let mut i: usize = 0;
            assert(members.take(0) =~= Seq::<usize>::empty());
            while i < self.teams[t].fighters.len()
                invariant
                    self.wf(),
                    self@ == before,
                    before.fighters == w.fighters,
                    t < self.teams@.len(),
                    members == self.teams@[t as int].fighters@,
                    crate::fighter::all_below(members, w.fighters.len() as int),
                    i <= members.len(),
                    kept@ == born(members.take(i as int), w.fighters),
                    crate::fighter::all_below(kept@, w.fighters.len() as int),
                decreases members.len() - i,
            {
                let f: usize = self.teams[t].fighters[i];
                assert(members.take(i + 1).drop_last() =~= members.take(i as int));
                assert(members[i as int] < w.fighters.len());
                assert(self@.fighters[f as int] == self.fighters@[f as int]@);
                if !self.fighters[f].is_summon() {
                    kept.push(f);
                }
                i += 1;
            }
            assert(members.take(i as int) =~= members);
            self.teams[t].fighters = kept;
            proof {
                let after = before.with_team(
                    t as int,
                    TeamView {
                        fighters: born(members, w.fighters),
                        ..before.teams[t as int]
                    },
                );
                assert(self@.teams =~= after.teams);
                assert(self@ =~= after);
            }
            t += 1;
        }
        proof {
            assert(self@.teams =~= w.without_summons().teams);
            assert(self@ =~= w.without_summons());
        }
    }

    /// Keeps a message for the farmer of a fighter.
    pub fn add_system_log(
        &mut self,
        fid: usize,
        log_type: i32,
        key: i32,
        params: Option<&[&str]>,
    )
        requires
            old(self).wf(),
            fid < old(self)@.fighters.len(),
        ensures
            final(self).wf(),
            final(self)@.extends(old(self)@),
            final(self)@ == old(self)@.told(
                fid as int,
                message_tree(
                    fid as int,
                    log_type as int,
                    key as int,
                    match params {
                        Some(p) => Some(words(p@)),
                        None => None,
                    },
                ),
            ),
    {
        let words: Option<Vec<serde_json::Value>> = match params {
            Some(p) => Some(word_items(p)),
            None => None,
        };
        self.add_system_log_json(fid, log_type, key, words);
    }

    /// Keeps a message with any documents for the farmer of a fighter.
    pub fn add_system_log_json(
        &mut self,
        fid: usize,
        log_type: i32,
        key: i32,
        params: Option<Vec<serde_json::Value>>,
    )
        requires
            old(self).wf(),
            fid < old(self)@.fighters.len(),
        ensures
            final(self).wf(),
            final(self)@.extends(old(self)@),
            final(self)@ == old(self)@.told(
                fid as int,
                message_tree(
                    fid as int,
                    log_type as int,
                    key as int,
                    match params {
                        Some(p) => Some(crate::json::all_contents(p@)),
                        None => None,
                    },
                ),
            ),
    {
        let mut entry: Vec<serde_json::Value> = crate::json::no_items();
        crate::json::push_item(&mut entry, crate::json::index(fid));
        crate::json::push_number(&mut entry, log_type as i64);
        crate::json::push_item(&mut entry, crate::json::text(String::new()));
        crate::json::push_number(&mut entry, key as i64);
        proof {
            assert(crate::json::all_contents(entry@) =~= seq![
                Tree::Int(fid as int),
                Tree::Int(log_type as int),
                Tree::Str(Seq::empty()),
                Tree::Int(key as int),
            ]);
        }
        if let Some(p) = params {
            crate::json::push_item(&mut entry, crate::json::array(p));
        }
        let document = crate::json::array(entry);
        self.keep_message(fid, document);
    }

    /// Keeps a document for the farmer of a fighter, under the last event.
    fn keep_message(&mut self, fid: usize, document: serde_json::Value)
        requires
            old(self).wf(),
            fid < old(self)@.fighters.len(),
        ensures
            final(self).wf(),
            final(self)@.extends(old(self)@),
            final(self)@ == old(self)@.told(fid as int, crate::json::contents(document)),
    {
        let ghost w = self@;
        assert(w.fighters[fid as int] == self.fighters@[fid as int]@);
        let n: usize = self.actions.get_next_id();
        let event: usize = if n == 0 {
            0
        } else {
            n - 1
        };
        let farmer: i64 = self.fighters[fid].farmer;
        let ghost logs = self.farmer_logs@;
        let mut own: BTreeMap<usize, Vec<serde_json::Value>> = match self.farmer_logs.remove(
            &farmer,
        ) {
            Some(m) => m,
            None => BTreeMap::new(),
        };
        let ghost own_before = own@;
        let mut list: Vec<serde_json::Value> = match own.remove(&event) {
            Some(v) => v,
            None => crate::json::no_items(),
        };
        crate::json::push_item(&mut list, document);
        let _ = own.insert(event, list);
        let _ = self.farmer_logs.insert(farmer, own);
        proof {
            let goal = w.told(fid as int, crate::json::contents(document));
            let view_own = own@.map_values(
                |v: Vec<serde_json::Value>| crate::json::all_contents(v@),
            );
            assert(own@ =~= own_before.insert(event, list));
            assert(self.farmer_logs@ =~= logs.insert(farmer, own));
            let before_view = if w.farmer_logs.contains_key(farmer) {
                w.farmer_logs[farmer]
            } else {
                Map::empty()
            };
            assert(own_before.map_values(
                |v: Vec<serde_json::Value>| crate::json::all_contents(v@),
            ) =~= before_view);
            assert(view_own =~= goal.farmer_logs[farmer]);
            assert(self@.farmer_logs =~= goal.farmer_logs);
            assert(self@ =~= goal);
        }
    }
}

/// Of two teams of one, two begin.
proof fn lemma_two_begin(w: World, weights: Seq<Real>)
    requires
        w.teams.len() == 2,
        w.teams[0].fighters.len() == 1,
        w.teams[1].fighters.len() == 1,
    ensures
        crate::order::start_order(beginners(w.teams, w.fighters), weights, w.rng).len() == 2,
{
    broadcast use {
        vstd::seq_lib::group_to_multiset_ensures,
        vstd::multiset::group_multiset_axioms,
    };

    let pairs = beginners(w.teams, w.fighters);
    let order = crate::order::start_order(pairs, weights, w.rng);
    crate::order::lemma_everyone_begins_once(pairs, weights, w.rng);
    reveal_with_fuel(crate::order::everyone, 3);
    assert(order.to_multiset().len() == order.len());
    assert(crate::order::ids(pairs[0]).to_multiset().len() == 1);
    assert(crate::order::ids(pairs[1]).to_multiset().len() == 1);
    assert(crate::order::everyone(pairs, 0).len() == 0);
    assert(crate::order::everyone(pairs, 1).len() == 1);
    assert(crate::order::everyone(pairs, 2).len() == 2);
}

/// The keys of a table in their order.
fn ascending_keys(table: &BTreeMap<i32, ChipSpec>) -> (keys: Vec<i32>)
    ensures
        ascending(keys@),
        keys@.to_set() == table@.dom(),
{
    let entries = table.iter();
    let ghost all = entries.remaining();
    let ghost sorted = all.map_values(|kv: (&i32, &ChipSpec)| *kv.0);
    assert(vstd::std_specs::btree::increasing_seq(sorted));
    let mut keys: Vec<i32> = Vec::new();
    for kv in it: entries
        invariant
            it.seq() == all,
            keys@.len() == it.index(),
            forall|i: int| 0 <= i < keys@.len() ==> keys@[i] == *all[i].0,
    {
        keys.push(*kv.0);
    }
    proof {
        assert(keys@ =~= sorted);
        assert forall|i: int, j: int| 0 <= i < j < keys@.len() implies keys@[i] < keys@[j] by {
            assert(sorted[i].cmp_spec(&sorted[j]) is Less);
        }
        assert forall|k: i32| keys@.to_set().contains(k) == table@.dom().contains(k) by {
            if table@.contains_key(k) {
                let i = choose|i: int| 0 <= i < all.len() && all[i] == (&k, &table@[k]);
                assert(keys@[i] == k);
            }
            if keys@.contains(k) {
                let i = choose|i: int| 0 <= i < keys@.len() && keys@[i] == k;
                assert(table@.contains_key(*all[i].0));
            }
        }
        assert(keys@.to_set() =~= table@.dom());
    }
    keys
}

/// Words as JSON documents.
fn word_items(params: &[&str]) -> (items: Vec<serde_json::Value>)
    ensures
        crate::json::all_contents(items@) == words(params@),
{
    let mut items: Vec<serde_json::Value> = crate::json::no_items();
    let mut i: usize = 0;
    while i < params.len()
        invariant
            i <= params@.len(),
            crate::json::all_contents(items@) == words(params@).take(i as int),
        decreases params.len() - i,
    {
        crate::json::push_item(
            &mut items,
            crate::json::text(String::from_str(params[i])),
        );
        i += 1;
        assert(crate::json::all_contents(items@) =~= words(params@).take(i as int));
    }
    assert(words(params@).take(i as int) =~= words(params@));
    items
}

} // verus!
