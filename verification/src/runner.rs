//! The loop of a fight, between the runs of programs.

use crate::actions::Action;
use crate::calls::{ERROR_HELP_PAGE_LINK, LOG_SSTANDARD};
use crate::fighter::MAX_TURNS;
use crate::flow::BeginTurn;
use crate::json::Tree;
use crate::number::Real;
use crate::world::{HookPhase, State, World};
use std::collections::HashMap;
use vstd::prelude::*;
use vstd::string::*;

verus! {

broadcast use {
    vstd::std_specs::hash::group_hash_axioms,
    vstd::std_specs::btree::group_btree_axioms,
    crate::fighter::lemma_stats_len,
};

/// How many operations a hook may take on top of those of a turn.
pub const HOOK_OPS_BONUS: u64 = 1_000_000;

/// The most operations with which a turn does not fail: the turn that reaches
/// its budget fails.
pub open spec fn op_limit_of(budget: int) -> int {
    if budget > 0 {
        budget - 1
    } else {
        0
    }
}

/// The most operations with which a turn does not fail.
#[must_use]
pub fn fight_op_limit(max_ops_per_turn: u64) -> (limit: u64)
    ensures
        limit == op_limit_of(max_ops_per_turn as int),
{
    max_ops_per_turn.saturating_sub(1)
}

/// The least of a number and the greatest that 64 bits hold.
pub open spec fn capped(n: int) -> int {
    if n > u64::MAX {
        u64::MAX as int
    } else {
        n
    }
}

/// The most operations of a bulb, whose owner has already spent some in its
/// turn: they share one budget.
pub open spec fn bulb_limit_of(limit: int, spent: int) -> int {
    let budget = capped(limit + 1);
    op_limit_of(
        if budget > spent {
            budget - spent
        } else {
            0
        },
    )
}

/// The most operations of a bulb.
#[must_use]
pub fn bulb_op_limit(limit: u64, owner_turn_ops: u64) -> (bulb: u64)
    ensures
        bulb == bulb_limit_of(limit as int, owner_turn_ops as int),
{
    fight_op_limit(limit.saturating_add(1).saturating_sub(owner_turn_ops))
}

/// The most operations of a hook.
#[must_use]
pub fn hook_op_limit(limit: u64) -> (hook: u64)
    ensures
        hook == capped(limit + HOOK_OPS_BONUS),
{
    limit.saturating_add(HOOK_OPS_BONUS)
}

/// A bulb and its owner never take more than the owner's budget together:
/// what the bulb may take without failing leaves the sum below it.
pub proof fn lemma_bulbs_share_the_budget(budget: int, spent: int, ops: int)
    requires
        0 < budget <= u64::MAX,
        0 <= spent < budget,
        0 <= ops <= bulb_limit_of(op_limit_of(budget), spent),
    ensures
        spent + ops < budget,
{
}

/// How the run of a program ended.
#[derive(Debug)]
pub enum RunResult {
    /// It came to its end.
    Done,
    /// It took too many operations.
    TooMuchOperations,
    /// It left the bounds of an array.
    ArrayOutOfBound,
    /// It nested too many calls.
    StackOverflow,
    /// It failed in another way, under this code.
    Failed(String),
    /// It could not be run at all, for this reason.
    NotRun(String),
}

impl RunResult {
    /// Whether the program ran at all.
    pub open spec fn ran(self) -> bool {
        !(self is NotRun)
    }
}

/// How a run ended that stopped with a code.
#[must_use]
pub fn run_result_of(code: &str) -> (r: RunResult)
    ensures
        if code@ == "TOO_MUCH_OPERATIONS"@ {
            r is TooMuchOperations
        } else if code@ == "ARRAY_OUT_OF_BOUND"@ {
            r is ArrayOutOfBound
        } else if code@ == "STACKOVERFLOW"@ {
            r is StackOverflow
        } else {
            r matches RunResult::Failed(c) && c@ == code@
        },
{
    if crate::args::same_text(code, "TOO_MUCH_OPERATIONS") {
        RunResult::TooMuchOperations
    } else if crate::args::same_text(code, "ARRAY_OUT_OF_BOUND") {
        RunResult::ArrayOutOfBound
    } else if crate::args::same_text(code, "STACKOVERFLOW") {
        RunResult::StackOverflow
    } else {
        RunResult::Failed(String::from_str(code))
    }
}

/// The operations that a run is charged with: none where it did not run.
#[must_use]
pub fn harvested_ops(result: &RunResult, ops: u64) -> (charged: u64)
    ensures
        charged == if result.ran() {
            ops
        } else {
            0
        },
{
    match result {
        RunResult::NotRun(_) => 0,
        _ => ops,
    }
}

/// The numbers of the errors in the messages for farmers, which the language
/// of the programs gives them.
#[derive(Debug, Clone, Copy, PartialEq, Eq, Structural)]
pub struct ErrorCodes {
    /// The kind of the message.
    pub log_type: i32,
    pub too_much_operations: i32,
    pub array_out_of_bound: i32,
    pub stack_overflow: i32,
    pub interrupted: i32,
}

/// The number of an error.
pub open spec fn error_key(result: RunResult, codes: ErrorCodes) -> i32 {
    match result {
        RunResult::TooMuchOperations => codes.too_much_operations,
        RunResult::ArrayOutOfBound => codes.array_out_of_bound,
        RunResult::StackOverflow => codes.stack_overflow,
        _ => codes.interrupted,
    }
}

/// The words that go with an error.
pub open spec fn error_words(result: RunResult) -> Seq<Tree> {
    match result {
        RunResult::TooMuchOperations | RunResult::ArrayOutOfBound => seq![Tree::Null],
        RunResult::StackOverflow | RunResult::Done => Seq::empty(),
        RunResult::Failed(code) => seq![Tree::Str(code@)],
        RunResult::NotRun(reason) => seq![Tree::Str(reason@)],
    }
}

impl World {
    /// The error of a program is written down: in the journal for the fighter
    /// that acted, and for a farmer. Too many operations come with a link.
    pub open spec fn error_logged(
        self,
        acting: int,
        log_fid: int,
        result: RunResult,
        codes: ErrorCodes,
    ) -> World {
        if result is Done {
            self
        } else {
            let w = self.logged(
                crate::json::row(seq![crate::actions::AI_ERROR as int, acting]),
            ).told(
                log_fid,
                crate::flow::message_tree(
                    log_fid,
                    codes.log_type as int,
                    error_key(result, codes) as int,
                    Some(error_words(result)),
                ),
            );
            if error_key(result, codes) == codes.too_much_operations {
                w.told(
                    log_fid,
                    crate::flow::message_tree(
                        log_fid,
                        LOG_SSTANDARD as int,
                        ERROR_HELP_PAGE_LINK as int,
                        Some(seq![Tree::Str("too_much_ops"@)]),
                    ),
                )
            } else {
                w
            }
        }
    }

    /// Whether the fight goes on.
    pub open spec fn goes_on(self) -> bool {
        self.order.turn <= MAX_TURNS && self.running
    }

    /// The operations of the first `n` fighters are reported.
    pub open spec fn ops_reported(self, total: Map<usize, u64>, n: nat) -> World
        decreases n,
    {
        if n == 0 {
            self
        } else {
            let w = self.ops_reported(total, (n - 1) as nat);
            let fid = (n - 1) as usize;
            if total.contains_key(fid) {
                World {
                    journal: w.journal.ops_recorded(
                        fid as int,
                        if total[fid] > i64::MAX {
                            i64::MAX as int
                        } else {
                            total[fid] as int
                        },
                    ),
                    ..w
                }
            } else {
                w
            }
        }
    }
}

/// What the turn of a fighter asks for.
#[derive(Debug, Clone, Copy, PartialEq, Eq, Structural)]
pub enum Turn {
    /// Nobody plays.
    Nobody,
    /// The fighter died as its turn began.
    Dead,
    /// The program of the fighter is to be run.
    Entity(usize),
    /// The function of a bulb is to be run by the program of its owner, who
    /// has already spent some operations in its turn.
    Bulb { fid: usize, owner: usize, function: u64, spent: u64 },
    /// A bulb without a program does nothing.
    Idle(usize),
}

impl Turn {
    /// Whose turn it is.
    pub open spec fn actor(self) -> Option<usize> {
        match self {
            Turn::Entity(fid) | Turn::Idle(fid) => Some(fid),
            Turn::Bulb { fid, .. } => Some(fid),
            _ => None,
        }
    }
}

/// How it goes on after a turn.
#[derive(Debug, Clone, Copy, PartialEq, Eq, Structural)]
pub enum Going {
    /// With the next turn.
    On,
    /// Not at all: nobody is left to play.
    Over,
    /// Not at all: nobody plays, though two teams are alive.
    Stuck,
}

/// A fight that is being run.
pub struct Runner {
    pub state: State,
    /// The operations of each fighter.
    pub total_ops: HashMap<usize, u64>,
    /// The operations of each fighter in its present turn.
    pub turn_ops: HashMap<usize, u64>,
}

/// How many operations a table holds for a fighter.
pub open spec fn ops_of(m: Map<usize, u64>, fid: usize) -> u64 {
    if m.contains_key(fid) {
        m[fid]
    } else {
        0
    }
}

/// How many operations a table holds for a fighter.
fn known_ops(m: &HashMap<usize, u64>, fid: usize) -> (n: u64)
    ensures
        n == ops_of(m@, fid),
{
    match m.get(&fid) {
        Some(n) => *n,
        None => 0,
    }
}

impl State {
    /// Writes down how the run of a program failed: for the fighter that
    /// acted, and for the farmer of another, whose program it was.
    pub fn log_ai_error(
        &mut self,
        acting: usize,
        log_fid: usize,
        result: &RunResult,
        codes: ErrorCodes,
    )
        requires
            old(self).wf(),
            acting < old(self)@.fighters.len(),
            log_fid < old(self)@.fighters.len(),
        ensures
            final(self).wf(),
            final(self)@.extends(old(self)@),
            final(self)@ == old(self)@.error_logged(acting as int, log_fid as int, *result, codes),
    {
        let mut words: Vec<serde_json::Value> = crate::json::no_items();
        let key: i32 = match result {
            RunResult::Done => {
                return;
            },
            RunResult::TooMuchOperations => {
                crate::json::push_item(&mut words, crate::json::null());
                codes.too_much_operations
            },
            RunResult::ArrayOutOfBound => {
                crate::json::push_item(&mut words, crate::json::null());
                codes.array_out_of_bound
            },
            RunResult::StackOverflow => codes.stack_overflow,
            RunResult::Failed(code) => {
                crate::json::push_item(
                    &mut words,
                    crate::json::text(String::from_str(code.as_str())),
                );
                codes.interrupted
            },
            RunResult::NotRun(reason) => {
                crate::json::push_item(
                    &mut words,
                    crate::json::text(String::from_str(reason.as_str())),
                );
                codes.interrupted
            },
        };
        assert(crate::json::all_contents(words@) =~= error_words(*result));
        self.log(Action::AiError { entity_id: acting as i64 });
        self.add_system_log_json(log_fid, codes.log_type, key, Some(words));
        if key == codes.too_much_operations {
            let mut params: Vec<&str> = Vec::new();
            params.push("too_much_ops");
            assert(crate::flow::words(params@) =~= seq![Tree::Str("too_much_ops"@)]);
            self.add_system_log(
                log_fid,
                LOG_SSTANDARD,
                ERROR_HELP_PAGE_LINK,
                Some(params.as_slice()),
            );
        }
    }
}

impl Runner {
    pub open spec fn wf(&self) -> bool {
        self.state.wf()
    }

    /// A fight that has not begun.
    #[must_use]
    pub fn new(state: State) -> (r: Runner)
        requires
            state.wf(),
        ensures
            r.wf(),
            r.state == state,
            r.total_ops@ == Map::<usize, u64>::empty(),
            r.turn_ops@ == Map::<usize, u64>::empty(),
    {
        Runner { state, total_ops: HashMap::new(), turn_ops: HashMap::new() }
    }

    /// Lets a hook begin or end.
    pub fn enter_phase(&mut self, phase: HookPhase)
        requires
            old(self).wf(),
        ensures
            final(self).wf(),
            final(self).state@ == (World { hook_phase: phase, ..old(self).state@ }),
            final(self).total_ops == old(self).total_ops,
            final(self).turn_ops == old(self).turn_ops,
    {
        let ghost w = self.state@;
        self.state.hook_phase = phase;
        assert(self.state@ =~= (World { hook_phase: phase, ..w }));
    }

    /// Whether the fight goes on.
    #[must_use]
    pub fn goes_on(&self) -> (b: bool)
        ensures
            b == self.state@.goes_on(),
    {
        self.state.order.turn() <= MAX_TURNS && self.state.running
    }

    /// Begins the next turn, and tells what it asks for.
    pub fn open_turn(&mut self) -> (turn: Turn)
        requires
            old(self).wf(),
        ensures
            final(self).wf(),
            final(self).state@.extends(old(self).state@),
            final(self).state@ == old(self).state@.turn_begun(),
            final(self).total_ops == old(self).total_ops,
            turn.actor() matches Some(f) ==> f < final(self).state@.fighters.len(),
            match old(self).state@.order.current() {
                None => turn == Turn::Nobody && final(self).turn_ops == old(self).turn_ops,
                Some(fid) => {
                    let f = final(self).state@.fighters[fid as int];
                    let programs = final(self).state@.summon_ais;
                    if f.is_dead() {
                        turn == Turn::Dead && final(self).turn_ops == old(self).turn_ops
                    } else {
                        match f.summoner {
                            Some(owner) => {
                                &&& final(self).turn_ops == old(self).turn_ops
                                &&& turn == if programs.contains_key(fid) {
                                    Turn::Bulb {
                                        fid,
                                        owner,
                                        function: programs[fid],
                                        spent: ops_of(old(self).turn_ops@, owner),
                                    }
                                } else {
                                    Turn::Idle(fid)
                                }
                            },
                            None => {
                                &&& turn == Turn::Entity(fid)
                                &&& final(self).turn_ops@ == old(self).turn_ops@.insert(fid, 0)
                            },
                        }
                    }
                },
            },
    {
        match self.state.begin_turn() {
            BeginTurn::NoCurrent => Turn::Nobody,
            BeginTurn::Skip => Turn::Dead,
            BeginTurn::Act(fid) => {
                assert(self.state@.fighters[fid as int] == self.state.fighters@[fid as int]@);
                match self.state.fighters[fid].summoner {
                    Some(owner) => match self.state.summon_ais.get(&fid) {
                        Some(function) => Turn::Bulb {
                            fid,
                            owner,
                            function: *function,
                            spent: known_ops(&self.turn_ops, owner),
                        },
                        None => Turn::Idle(fid),
                    },
                    None => {
                        let _ = self.turn_ops.insert(fid, 0);
                        Turn::Entity(fid)
                    },
                }
            },
        }
    }

    /// Charges a fighter with the operations of its own turn.
    pub fn charge_entity(&mut self, fid: usize, ops: u64)
        ensures
            final(self).state == old(self).state,
            final(self).total_ops@ == old(self).total_ops@.insert(
                fid,
                ops_of(old(self).total_ops@, fid).wrapping_add(ops),
            ),
            final(self).turn_ops@ == old(self).turn_ops@.insert(fid, ops),
    {
        let total: u64 = known_ops(&self.total_ops, fid).wrapping_add(ops);
        let _ = self.total_ops.insert(fid, total);
        let _ = self.turn_ops.insert(fid, ops);
    }

    /// Charges an owner with the operations of a bulb, in this turn too.
    pub fn charge_bulb(&mut self, owner: usize, ops: u64)
        ensures
            final(self).state == old(self).state,
            final(self).total_ops@ == old(self).total_ops@.insert(
                owner,
                ops_of(old(self).total_ops@, owner).wrapping_add(ops),
            ),
            final(self).turn_ops@ == old(self).turn_ops@.insert(
                owner,
                ops_of(old(self).turn_ops@, owner).wrapping_add(ops),
            ),
    {
        let total: u64 = known_ops(&self.total_ops, owner).wrapping_add(ops);
        let _ = self.total_ops.insert(owner, total);
        let turn: u64 = known_ops(&self.turn_ops, owner).wrapping_add(ops);
        let _ = self.turn_ops.insert(owner, turn);
    }

    /// Ends the turn, and tells how it goes on.
    pub fn close_turn(&mut self, turn: Turn) -> (going: Going)
        requires
            old(self).wf(),
            turn.actor() matches Some(f) ==> f < old(self).state@.fighters.len(),
        ensures
            final(self).wf(),
            final(self).state@.extends(old(self).state@),
            final(self).total_ops == old(self).total_ops,
            final(self).turn_ops == old(self).turn_ops,
            old(self).state@.turn_closed(turn, final(self).state@, going),
    {
        let ghost w = self.state@;
        match turn {
            Turn::Entity(fid) | Turn::Idle(fid) => self.state.end_entity_turn(fid),
            Turn::Bulb { fid, .. } => self.state.end_entity_turn(fid),
            _ => {},
        }
        let ended: bool = match turn {
            Turn::Nobody => false,
            _ => true,
        };
        if ended {
            if !self.state.is_finished() && self.state.order.fids().len() == 0 {
                return Going::Stuck;
            }
            self.state.end_turn();
        }
        if self.state.order.current().is_none() {
            let ghost w1 = self.state@;
            self.state.running = false;
            assert(self.state@ =~= (World { running: false, ..w1 }));
            Going::Over
        } else {
            Going::On
        }
    }

    /// Ends the fight: reports the operations, takes the summons out of the
    /// teams and finds the winner.
    pub fn conclude(&mut self)
        requires
            old(self).wf(),
        ensures
            final(self).wf(),
            final(self).state@.extends(old(self).state@),
            final(self).total_ops == old(self).total_ops,
            ({
                let w = old(self).state@.ops_reported(
                    old(self).total_ops@,
                    old(self).state@.fighters.len(),
                ).without_summons();
                &&& final(self).state@ == (World { win_team: final(self).state@.win_team, ..w })
                &&& w.winner_is(true, final(self).state@.win_team as int)
            }),
    {
        let ghost w = self.state@;
        let ghost total = self.total_ops@;
        let mut fid: usize = 0;
        while fid < self.state.fighters.len()
            invariant
                self.wf(),
                total == self.total_ops@,
                self.total_ops == old(self).total_ops,
                self.state@.extends(w),
                self.state@.fighters == w.fighters,
                fid <= w.fighters.len(),
                w.fighters.len() <= crate::world::FIGHTER_LIMIT,
                self.state@ == w.ops_reported(total, fid as nat),
            decreases w.fighters.len() - fid,
        {
            let ghost before = self.state@;
            if let Some(n) = self.total_ops.get(&fid) {
                let ops: i64 = if *n > i64::MAX as u64 {
                    i64::MAX
                } else {
                    *n as i64
                };
                self.state.actions.add_ops(fid as i64, ops);
                assert(self.state@ =~= (World {
                    journal: before.journal.ops_recorded(fid as int, ops as int),
                    ..before
                }));
            }
            fid += 1;
        }
        self.state.remove_all_invocations();
        let ghost w1 = self.state@;
        let winner: i32 = self.state.compute_winner(true);
        self.state.win_team = winner;
        assert(self.state@ =~= (World { win_team: winner, ..w1 }));
    }

    /// The report of the fight.
    #[must_use]
    pub fn report(&self, farmers: &[i64]) -> (v: serde_json::Value)
        requires
            self.wf(),
        ensures
            crate::json::contents(v) == self.state@.report_tree(farmers@),
    {
        let s = &self.state;
        proof {
            let w = s@;
            assert forall|t: int| 0 <= t < s.teams@.len() implies crate::fighter::all_below(
                (#[trigger] s.teams@[t]).fighters@,
                s.fighters@.len() as int,
            ) by {
                assert(w.teams[t] == s.teams@[t]@);
            }
            assert(crate::outcome::team_views(s.teams@) =~= w.teams);
        }
        crate::outcome::build_report(
            s.leek_snapshots.as_slice(),
            &s.map,
            &s.actions,
            s.teams.as_slice(),
            s.fighters.as_slice(),
            farmers,
            &s.farmer_logs,
            s.win_team,
            s.order.turn(),
        )
    }
}

impl World {
    /// A turn is over.
    pub open spec fn turn_closed(self, turn: Turn, after: World, going: Going) -> bool {
        let acted = match turn.actor() {
            Some(fid) => self.turn_done(fid as int),
            None => self,
        };
        if turn != Turn::Nobody && !acted.is_finished() && acted.order.fids.len() == 0 {
            after == acted && going == Going::Stuck
        } else {
            let w = if turn == Turn::Nobody {
                acted
            } else {
                acted.turn_passed()
            };
            if w.order.current() is None {
                after == (World { running: false, ..w }) && going == Going::Over
            } else {
                after == w && going == Going::On
            }
        }
    }

    /// The report of the fight.
    pub open spec fn report_tree(self, farmers: Seq<i64>) -> Tree {
        crate::outcome::outcome_tree(
            self.leek_snapshots,
            crate::outcome::map_tree(self.board),
            self.journal.actions,
            crate::outcome::dead_entries(self.teams, self.fighters, self.teams.len()),
            self.journal.ops,
            crate::outcome::farmer_entries(farmers, self.farmer_logs, farmers.len()),
            self.win_team as int,
            self.order.turn as int,
        )
    }
}

} // verus!
