//! The functions that programs call during a fight.

use crate::actions::Action;
use crate::args::{
    call_by_name, fit, long_arg, points_arg, text_arg, Answer, Arg, ArgKind, Call, Reply,
};
use crate::attack::{EffectParams, EffectType};
use crate::cast::USE_RESURRECT_INVALID_ENTITY;
use crate::fighter::{FighterView, SAY_LIMIT_TURN, STAT_COUNT};
use crate::json::Tree;
use crate::world::{HookPhase, State, World, FIGHTER_LIMIT};
use vstd::prelude::*;
use vstd::string::*;

verus! {

broadcast use {
    vstd::std_specs::hash::group_hash_axioms,
    vstd::std_specs::btree::group_btree_axioms,
    crate::fighter::lemma_stats_len,
};

/// The kind of a plain message of the fight.
pub const LOG_SSTANDARD: i32 = 6;

/// The kind of a warning of the fight.
pub const LOG_SWARNING: i32 = 7;

/// A bulb was summoned without a program.
pub const FARMER_LOG_BULB_WITHOUT_AI: i32 = 1005;

/// There is no loadout with that name.
pub const FARMER_LOG_LOADOUT_NOT_FOUND: i32 = 1006;

/// A loadout can only be put on before the fight.
pub const FARMER_LOG_SET_LOADOUT_OUT_OF_HOOK: i32 = 1007;

/// An action is not possible in a hook.
pub const FARMER_LOG_ACTION_DENIED_IN_HOOK: i32 = 1008;

/// Where help is to be found.
pub const ERROR_HELP_PAGE_LINK: i32 = 113;

/// The longest message that a fighter says.
pub const SAY_LENGTH_LIMIT: usize = 100;

/// The chip that brings a fighter back.
pub const CHIP_RESURRECTION: i32 = 84;

/// The chip that brings a fighter back with all of its life.
pub const CHIP_AWAKENING: i32 = 415;

/// What is known of a loadout that a program asks for.
#[derive(Debug, Clone, Copy, PartialEq, Eq, Structural)]
pub struct LoadoutFacts {
    /// Whether its characteristics differ from those of the fighter.
    pub differs: bool,
    /// Whether the farmer has a potion to change them with.
    pub potion: bool,
}

/// What becomes of a loadout.
#[derive(Debug, Clone, Copy, PartialEq, Eq, Structural)]
pub struct LoadoutChoice {
    /// Whether the fighter puts it on.
    pub worn: bool,
    /// Whether its characteristics change too, for a potion.
    pub stats: bool,
}

/// The numbers of the messages of which a farmer is told when a loadout is put
/// on.
#[derive(Debug, Clone, Copy, PartialEq, Eq, Structural)]
pub struct LoadoutKeys {
    /// There is no potion to change the characteristics with.
    pub no_potion: i32,
    /// No forgotten weapon of it is left: others wear them.
    pub no_forgotten: i32,
}

impl World {
    /// A warning for the farmer of a fighter.
    pub open spec fn warned(self, fid: int, key: i32, params: Seq<Tree>) -> World {
        self.told(
            fid,
            crate::flow::message_tree(fid, LOG_SWARNING as int, key as int, Some(params)),
        )
    }

    /// An action is refused in a hook.
    pub open spec fn denied(self, fid: int, name: Seq<char>) -> World {
        self.warned(fid, FARMER_LOG_ACTION_DENIED_IN_HOOK, seq![Tree::Str(name)])
    }

    /// A fighter says something, if it has a turn point; only the first
    /// messages of a turn are heard.
    pub open spec fn said(self, fid: int, message: Seq<char>) -> World {
        let f = self.fighters[fid];
        if f.tp() <= 0 {
            self
        } else if f.says_turn >= SAY_LIMIT_TURN {
            self.with_fighter(fid, f.tp_used(1))
        } else {
            self.with_fighter(
                fid,
                FighterView { says_turn: (f.says_turn + 1) as i32, ..f.tp_used(1) },
            ).logged(
                Tree::Array(
                    seq![
                        Tree::Int(crate::actions::SAY as int),
                        Tree::Str(
                            crate::text::widened(
                                crate::text::shortened(message, SAY_LENGTH_LIMIT as nat),
                            ),
                        ),
                    ],
                ),
            )
        }
    }

    /// Whether a fighter is heard.
    pub open spec fn is_heard(self, fid: int) -> bool {
        self.fighters[fid].tp() > 0 && self.fighters[fid].says_turn < SAY_LIMIT_TURN
    }

    /// What the call to equip a weapon does.
    pub open spec fn weapon_set(self, current: int, n: i64, after: World, reply: Reply) -> bool {
        let id = crate::args::fitting(n);
        if id is None || !self.weapon_specs.contains_key(id.unwrap())
            || !self.fighters[current].weapons.contains(id.unwrap())
            || self.fighters[current].tp() <= 0 {
            after == self && reply == Reply::Bool(false)
        } else {
            &&& reply == Reply::Bool(true)
            &&& after == self.with_fighter(
                current,
                FighterView { weapon: id, ..self.fighters[current] }.tp_used(1),
            ).logged(
                crate::json::row(
                    seq![crate::actions::SET_WEAPON as int, id.unwrap() as int],
                ),
            )
        }
    }

    /// What an attack answers: its result, unless something happened that
    /// nothing models.
    pub open spec fn attack_reply(self, result: i32) -> Reply {
        if self.unmodelled {
            Reply::Unsupported
        } else {
            Reply::Int(result as int)
        }
    }

    /// What the call to use the weapon on another fighter does.
    pub open spec fn weapon_called(self, current: int, leek: i64, after: World, reply: Reply) -> bool {
        match self.goal_cell(leek as int) {
            Some(cell) if leek != current => match self.weapon_refusal(current, cell as int) {
                Some(why) => after == self && reply == Reply::Int(why as int),
                None => after == self.weapon_used(current, cell) && reply == after.attack_reply(
                    self.use_result(current),
                ),
            },
            _ => after == self && reply == Reply::Int(-1),
        }
    }

    /// Whether a chip summons.
    pub open spec fn summons(self, chip: i32) -> bool {
        &&& self.chip_specs.contains_key(chip)
        &&& crate::cast::first_line(self.chip_specs[chip].effects@, EffectType::Summon) is Some
    }

    /// Whether a summon that is not refused can be carried out: there is room
    /// for a fighter, and what the chip summons is known.
    pub open spec fn can_summon(self, chip: i32) -> bool {
        self.has_room() && crate::summon::template_known(self, chip)
    }

    /// The farmer is told that a bulb has no program.
    pub open spec fn warned_of_idle_bulb(self, current: int) -> World {
        self.warned(current, FARMER_LOG_BULB_WITHOUT_AI, Seq::empty()).told(
            current,
            crate::flow::message_tree(
                current,
                LOG_SSTANDARD as int,
                ERROR_HELP_PAGE_LINK as int,
                Some(seq![Tree::Str("summons"@)]),
            ),
        )
    }

    /// What the use of a chip that the fighter carries does: a summon without
    /// a program, or an attack.
    pub open spec fn chip_cast(
        self,
        current: int,
        cell: usize,
        chip: i32,
        after: World,
        reply: Reply,
    ) -> bool {
        if self.summons(chip) {
            let w = self.warned_of_idle_bulb(current);
            match w.summon_refusal(current, cell, chip) {
                Some(why) => after == w && reply == Reply::Int(why as int),
                None => if w.can_summon(chip) {
                    after == w.summoned_by_chip(current, cell, chip, None) && reply == Reply::Int(
                        w.use_result(current) as int,
                    )
                } else {
                    after == w && reply == Reply::Unsupported
                },
            }
        } else {
            match self.chip_refusal(current, cell, chip) {
                Some(why) => after == self && reply == Reply::Int(why as int),
                None => after == self.chip_used(current, cell, chip) && reply
                    == after.attack_reply(self.use_result(current)),
            }
        }
    }

    /// The cell that a number stands for, without any loss of bits.
    pub open spec fn cell_numbered(self, n: i64) -> Option<usize> {
        match crate::args::fitting(n) {
            Some(c) => if self.board.has(c as int) {
                Some(c as usize)
            } else {
                None
            },
            None => None,
        }
    }

    /// What the call to use a chip does, on a fighter or on a cell.
    pub open spec fn chip_called(
        self,
        current: int,
        n: i64,
        cell: Option<usize>,
        after: World,
        reply: Reply,
    ) -> bool {
        let id = crate::args::fitting(n);
        if id is None || !self.fighters[current].chips.contains(id.unwrap()) || cell is None {
            after == self && reply == Reply::Int(-1)
        } else {
            self.chip_cast(current, cell.unwrap(), id.unwrap(), after, reply)
        }
    }

    /// What the call to summon does: the cell, the program and the chip are
    /// looked at in this order.
    pub open spec fn summon_called(
        self,
        current: int,
        args: Seq<Arg>,
        after: World,
        reply: Reply,
    ) -> bool {
        let cell = self.cell_numbered(crate::args::long_at(args, 1));
        let id = crate::args::fitting(crate::args::long_at(args, 0));
        if cell is None || args.len() <= 2 || args[2].kind != ArgKind::Function || id is None
            || !self.fighters[current].chips.contains(id.unwrap()) {
            after == self && reply == Reply::Int(-1)
        } else {
            let name = if args.len() > 3 && args[3].kind == ArgKind::Text {
                Some(args[3].text@)
            } else {
                None
            };
            match self.summon_refusal(current, cell.unwrap(), id.unwrap()) {
                Some(why) => after == self && reply == Reply::Int(why as int),
                None => if !self.can_summon(id.unwrap()) {
                    after == self && reply == Reply::Unsupported
                } else {
                    let w = self.summoned_by_chip(current, cell.unwrap(), id.unwrap(), name);
                    &&& reply == Reply::Int(self.use_result(current) as int)
                    &&& after == (World {
                        summon_ais: w.summon_ais.insert(
                            self.fighters.len() as usize,
                            args[2].function,
                        ),
                        ..w
                    })
                },
            }
        }
    }

    /// The chip with which a fighter brings others back.
    pub open spec fn revival_chip(self, current: int) -> Option<i32> {
        if self.fighters[current].chips.contains(CHIP_RESURRECTION) {
            Some(CHIP_RESURRECTION)
        } else if self.fighters[current].chips.contains(CHIP_AWAKENING) {
            Some(CHIP_AWAKENING)
        } else {
            None
        }
    }

    /// What the call to bring a dead fighter back does: the cell, the fighter
    /// and the chip are looked at in this order.
    pub open spec fn revival_called(
        self,
        current: int,
        args: Seq<Arg>,
        after: World,
        reply: Reply,
    ) -> bool {
        let cell = self.cell_numbered(crate::args::long_at(args, 1));
        let target = if args.len() > 0 {
            args[0].long as int
        } else {
            -1
        };
        let chip = self.revival_chip(current);
        if cell is None {
            after == self && reply == Reply::Int(-1)
        } else if !(0 <= target < self.fighters.len()) || !self.fighters[target].is_dead() {
            after == self && reply == Reply::Int(USE_RESURRECT_INVALID_ENTITY as int)
        } else if chip is None {
            after == self && reply == Reply::Int(-1)
        } else {
            match self.revival_refusal(current, cell.unwrap(), chip.unwrap(), target) {
                Some(why) => after == self && reply == Reply::Int(why as int),
                None => if !(self.order.fids.len() + 1 < i32::MAX) {
                    after == self && reply == Reply::Unsupported
                } else {
                    &&& reply == Reply::Int(self.use_result(current) as int)
                    &&& after == self.revived_by_chip(
                        current,
                        cell.unwrap(),
                        chip.unwrap(),
                        target,
                        self.fighters[current].chips.contains(CHIP_AWAKENING),
                    )
                },
            }
        }
    }

    /// What the call to put on a loadout does.
    pub open spec fn loadout_called(
        self,
        current: int,
        args: Seq<Arg>,
        after: World,
        reply: Reply,
    ) -> bool {
        if self.hook_phase == HookPhase::BeforeFight {
            after == self && reply == Reply::Loadout(
                crate::args::text_at(args),
                args.len() <= 1 || args[1].truthy,
            )
        } else {
            after == self.warned(current, FARMER_LOG_SET_LOADOUT_OUT_OF_HOOK, Seq::empty())
                && reply == Reply::Bool(false)
        }
    }

    /// Whether another fighter of the same farmer carries a forgotten weapon.
    pub open spec fn is_reserved(self, current: int, weapon: i32) -> bool {
        &&& self.fighters[current].farmer > 0
        &&& self.weapon_specs.contains_key(weapon)
        &&& self.weapon_specs[weapon].forgotten
        &&& exists|f: int|
            {
                &&& 0 <= f < self.fighters.len()
                &&& f != current
                &&& (#[trigger] self.fighters[f]).farmer == self.fighters[current].farmer
                &&& self.fighters[f].weapons.contains(weapon)
            }
    }

    /// What an action that no hook allows answers there.
    pub open spec fn denial(call: Call) -> Reply {
        match call {
            Call::MoveToward
            | Call::MoveTowardCell
            | Call::MoveAwayFrom
            | Call::MoveAwayFromCell => Reply::Int(0),
            Call::SetWeapon => Reply::Bool(false),
            _ => Reply::Int(-1),
        }
    }

    /// Whether no hook allows an action.
    pub open spec fn is_denied(call: Call) -> bool {
        match call {
            Call::MoveToward
            | Call::MoveTowardCell
            | Call::MoveAwayFrom
            | Call::MoveAwayFromCell
            | Call::SetWeapon
            | Call::UseWeapon
            | Call::UseChip
            | Call::UseChipOnCell => true,
            _ => false,
        }
    }

    /// What an action does.
    pub open spec fn acts(
        self,
        current: int,
        call: Call,
        args: Seq<Arg>,
        after: World,
        reply: Reply,
    ) -> bool {
        let first = crate::args::long_at(args, 0);
        let points = crate::args::points_at(args);
        match call {
            Call::MoveToward => reply matches Reply::Int(n) && self.moved_toward(
                current,
                first as int,
                points,
                after,
                n,
            ),
            Call::MoveTowardCell => reply matches Reply::Int(n) && self.moved_toward_cell(
                current,
                first as int,
                points,
                after,
                n,
            ),
            Call::MoveAwayFrom => reply matches Reply::Int(n) && self.moved_away_from(
                current,
                first as int,
                points,
                after,
                n,
            ),
            Call::MoveAwayFromCell => reply matches Reply::Int(n) && self.moved_away_from_cell(
                current,
                first as int,
                points,
                after,
                n,
            ),
            Call::SetWeapon => self.weapon_set(current, first, after, reply),
            Call::UseWeapon => self.weapon_called(current, first, after, reply),
            Call::UseChip => self.chip_called(
                current,
                first,
                self.goal_cell(
                    if args.len() > 1 {
                        args[1].long as int
                    } else {
                        current
                    },
                ),
                after,
                reply,
            ),
            Call::UseChipOnCell => self.chip_called(
                current,
                first,
                self.cell_numbered(crate::args::long_at(args, 1)),
                after,
                reply,
            ),
            Call::Summon => self.summon_called(current, args, after, reply),
            Call::Resurrect => self.revival_called(current, args, after, reply),
            Call::SetLoadout => self.loadout_called(current, args, after, reply),
            Call::Say => {
                &&& after == self.said(current, crate::args::text_at(args))
                &&& reply == Reply::Bool(self.is_heard(current))
            },
            _ => after == self && self.tells(current, call, args, reply),
        }
    }

    /// What the call of a function by its name does. A dead fighter does
    /// nothing, and nothing has no name.
    pub open spec fn called(
        self,
        current: int,
        name: Seq<char>,
        args: Seq<Arg>,
        after: World,
        reply: Reply,
    ) -> bool {
        let call = crate::args::call_named(name);
        if call is None || (!self.in_hook() && self.fighters[current].is_dead()) {
            after == self && reply == Reply::Null
        } else if self.in_hook() && Self::is_denied(call.unwrap()) {
            after == self.denied(current, name) && reply == Self::denial(call.unwrap())
        } else {
            self.acts(current, call.unwrap(), args, after, reply)
        }
    }
}

/// Whether a list holds a number.
fn holds_number(list: &Vec<i32>, n: i32) -> (b: bool)
    ensures
        b == list@.contains(n),
{
    let mut i: usize = 0;
    while i < list.len()
        invariant
            i <= list@.len(),
            forall|j: int| 0 <= j < i ==> list@[j] != n,
        decreases list.len() - i,
    {
        if list[i] == n {
            return true;
        }
        i += 1;
    }
    false
}

/// Whether one of the first `n` fighters, or the next with one of its first
/// `k` weapons, keeps a forgotten weapon from a fighter of the same farmer.
spec fn seen_below(w: World, current: int, n: int, k: int, weapon: i32) -> bool {
    &&& w.weapon_specs.contains_key(weapon)
    &&& w.weapon_specs[weapon].forgotten
    &&& {
        ||| exists|f: int|
            {
                &&& 0 <= f < n
                &&& f != current
                &&& (#[trigger] w.fighters[f]).farmer == w.fighters[current].farmer
                &&& w.fighters[f].weapons.contains(weapon)
            }
        ||| exists|i: int| 0 <= i < k && #[trigger] w.fighters[n].weapons[i] == weapon
    }
}

/// All weapons of a fighter are seen when the next fighter is looked at.
proof fn lemma_seen(w: World, current: int, n: int, weapon: i32)
    requires
        0 <= n < w.fighters.len(),
    ensures
        n != current && w.fighters[n].farmer == w.fighters[current].farmer ==> seen_below(
            w,
            current,
            n + 1,
            0,
            weapon,
        ) == seen_below(w, current, n, w.fighters[n].weapons.len() as int, weapon),
        !(n != current && w.fighters[n].farmer == w.fighters[current].farmer) ==> seen_below(
            w,
            current,
            n + 1,
            0,
            weapon,
        ) == seen_below(w, current, n, 0, weapon),
{
    if seen_below(w, current, n + 1, 0, weapon) {
        let f = choose|f: int|
            {
                &&& 0 <= f < n + 1
                &&& f != current
                &&& (#[trigger] w.fighters[f]).farmer == w.fighters[current].farmer
                &&& w.fighters[f].weapons.contains(weapon)
            };
        if f == n {
            let i = choose|i: int|
                0 <= i < w.fighters[n].weapons.len() && w.fighters[n].weapons[i] == weapon;
            assert(w.fighters[n].weapons[i] == weapon);
        } else {
            assert(w.fighters[f].weapons.contains(weapon));
        }
    }
    if n != current && w.fighters[n].farmer == w.fighters[current].farmer && seen_below(
        w,
        current,
        n,
        w.fighters[n].weapons.len() as int,
        weapon,
    ) {
        if exists|i: int|
            0 <= i < w.fighters[n].weapons.len() && #[trigger] w.fighters[n].weapons[i] == weapon {
            assert(w.fighters[n].weapons.contains(weapon));
            assert(w.fighters[n].farmer == w.fighters[current].farmer);
        }
    }
}

impl State {
    /// Keeps a warning with one word, or none, for the farmer of a fighter.
    fn warn(&mut self, fid: usize, key: i32, word: Option<&str>)
        requires
            old(self).wf(),
            fid < old(self)@.fighters.len(),
        ensures
            final(self).wf(),
            final(self)@.extends(old(self)@),
            final(self)@ == old(self)@.warned(
                fid as int,
                key,
                match word {
                    Some(s) => seq![Tree::Str(s@)],
                    None => Seq::empty(),
                },
            ),
    {
        let mut params: Vec<&str> = Vec::new();
        if let Some(s) = word {
            params.push(s);
        }
        assert(crate::flow::words(params@) =~= match word {
            Some(s) => seq![Tree::Str(s@)],
            None => Seq::empty(),
        });
        self.add_system_log(fid, LOG_SWARNING, key, Some(params.as_slice()));
    }

    /// Lets a fighter say something, for one turn point; tells whether it was
    /// heard.
    pub fn say(&mut self, fid: usize, message: &str) -> (heard: bool)
        requires
            old(self).wf(),
            fid < old(self)@.fighters.len(),
        ensures
            final(self).wf(),
            final(self)@.extends(old(self)@),
            final(self)@ == old(self)@.said(fid as int, message@),
            heard == old(self)@.is_heard(fid as int),
    {
        let ghost w = self@;
        assert(w.fighters[fid as int] == self.fighters@[fid as int]@);
        if self.fighters[fid].tp() <= 0 {
            return false;
        }
        self.fighters[fid].use_tp(1);
        let ghost f = w.fighters[fid as int];
        if self.fighters[fid].says_turn >= SAY_LIMIT_TURN {
            proof {
                let goal = w.said(fid as int, message@);
                assert(self@.fighters =~= goal.fighters);
                assert(self@ =~= goal);
            }
            return false;
        }
        self.fighters[fid].says_turn = self.fighters[fid].says_turn + 1;
        proof {
            let w1 = w.with_fighter(
                fid as int,
                FighterView { says_turn: (f.says_turn + 1) as i32, ..f.tp_used(1) },
            );
            assert(self@.fighters =~= w1.fighters);
            assert(self@ =~= w1);
        }
        self.log(Action::Say { message: crate::text::shorten(message, SAY_LENGTH_LIMIT) });
        true
    }

    /// Equips a weapon that exists and that the fighter carries.
    fn call_set_weapon(&mut self, current: usize, n: i64) -> (answer: Answer)
        requires
            old(self).wf(),
            current < old(self)@.fighters.len(),
        ensures
            final(self).wf(),
            final(self)@.extends(old(self)@),
            old(self)@.weapon_set(current as int, n, final(self)@, answer@),
    {
        assert(self@.fighters[current as int] == self.fighters@[current as int]@);
        match fit(n) {
            Some(id) => {
                if !self.weapon_specs.contains_key(&id) || !self.fighters[current].has_weapon(id) {
                    Answer::Bool(false)
                } else {
                    Answer::Bool(self.set_weapon(current, id))
                }
            },
            None => Answer::Bool(false),
        }
    }

    /// Whether a chip summons.
    fn does_summon(&self, chip: i32) -> (b: bool)
        ensures
            b == self@.summons(chip),
    {
        match self.chip_specs.get(&chip) {
            Some(spec) => crate::cast::find_line(&spec.effects, EffectType::Summon).is_some(),
            None => false,
        }
    }

    /// Whether a summon can be carried out.
    fn is_summon_possible(&self, chip: i32) -> (b: bool)
        requires
            self.wf(),
        ensures
            b == self@.can_summon(chip),
    {
        if self.fighters.len() >= FIGHTER_LIMIT || self.order.fids().len() >= i32::MAX as usize - 1 {
            return false;
        }
        match self.chip_specs.get(&chip) {
            Some(spec) => {
                assert(self@.chip_specs.contains_key(chip));
                match crate::cast::find_line(&spec.effects, EffectType::Summon) {
                    Some(line) => self.bulb_templates.contains_key(&line.value1.trunc_i32()),
                    None => true,
                }
            },
            None => true,
        }
    }

    /// Uses the weapon on another fighter.
    fn call_use_weapon(&mut self, current: usize, leek: i64) -> (answer: Answer)
        requires
            old(self).wf(),
            current < old(self)@.fighters.len(),
        ensures
            final(self).wf(),
            final(self)@.extends(old(self)@),
            old(self)@.weapon_called(current as int, leek, final(self)@, answer@),
    {
        if leek == current as i64 {
            return Answer::Int(-1);
        }
        match self.goal_cell(leek) {
            Some(cell) => {
                let refused: bool = self.refuse_weapon(current, cell).is_some();
                let result: i32 = self.use_weapon(current, cell);
                if !refused && self.unmodelled {
                    Answer::Unsupported
                } else {
                    Answer::Int(result as i64)
                }
            },
            None => Answer::Int(-1),
        }
    }

    /// Uses a chip that the fighter carries.
    fn cast_chip(&mut self, current: usize, cell: usize, chip: i32) -> (answer: Answer)
        requires
            old(self).wf(),
            current < old(self)@.fighters.len(),
            old(self)@.board.has(cell as int),
        ensures
            final(self).wf(),
            final(self)@.continues(old(self)@),
            old(self)@.chip_cast(current as int, cell, chip, final(self)@, answer@),
    {
        let ghost w = self@;
        if self.does_summon(chip) {
            self.warn(current, FARMER_LOG_BULB_WITHOUT_AI, None);
            let mut params: Vec<&str> = Vec::new();
            params.push("summons");
            assert(crate::flow::words(params@) =~= seq![Tree::Str("summons"@)]);
            self.add_system_log(
                current,
                LOG_SSTANDARD,
                ERROR_HELP_PAGE_LINK,
                Some(params.as_slice()),
            );
            assert(self@ == w.warned_of_idle_bulb(current as int));
            if self.refuse_summon(current, cell, chip).is_none() && !self.is_summon_possible(chip) {
                return Answer::Unsupported;
            }
            let result = self.summon_entity(current, cell, chip, None);
            Answer::Int(result.0 as i64)
        } else {
            let refused: bool = self.refuse_chip(current, cell, chip).is_some();
            let result: i32 = self.use_chip(current, cell, chip);
            if !refused && self.unmodelled {
                Answer::Unsupported
            } else {
                Answer::Int(result as i64)
            }
        }
    }

    /// Uses a chip on a cell, if the fighter carries it.
    fn call_use_chip(&mut self, current: usize, n: i64, cell: Option<usize>) -> (answer: Answer)
        requires
            old(self).wf(),
            current < old(self)@.fighters.len(),
            cell matches Some(c) ==> old(self)@.board.has(c as int),
        ensures
            final(self).wf(),
            final(self)@.continues(old(self)@),
            old(self)@.chip_called(current as int, n, cell, final(self)@, answer@),
    {
        assert(self@.fighters[current as int] == self.fighters@[current as int]@);
        match (fit(n), cell) {
            (Some(id), Some(c)) => {
                if self.fighters[current].chips.contains(&id) {
                    self.cast_chip(current, c, id)
                } else {
                    Answer::Int(-1)
                }
            },
            _ => Answer::Int(-1),
        }
    }

    /// The cell that a number stands for.
    fn cell_numbered(&self, n: i64) -> (cell: Option<usize>)
        requires
            self.wf(),
        ensures
            cell == self@.cell_numbered(n),
            cell matches Some(c) ==> self@.board.has(c as int),
    {
        match fit(n) {
            Some(c) => self.map.get_cell(c),
            None => None,
        }
    }

    /// Summons a bulb with a program.
    fn call_summon(&mut self, current: usize, args: &[Arg]) -> (answer: Answer)
        requires
            old(self).wf(),
            current < old(self)@.fighters.len(),
        ensures
            final(self).wf(),
            final(self)@.continues(old(self)@),
            old(self)@.summon_called(current as int, args@, final(self)@, answer@),
    {
        let ghost w = self@;
        assert(w.fighters[current as int] == self.fighters@[current as int]@);
        let cell: usize = match self.cell_numbered(long_arg(args, 1)) {
            Some(c) => c,
            None => {
                return Answer::Int(-1);
            },
        };
        if args.len() <= 2 || args[2].kind != ArgKind::Function {
            return Answer::Int(-1);
        }
        let chip: i32 = match fit(long_arg(args, 0)) {
            Some(c) => c,
            None => {
                return Answer::Int(-1);
            },
        };
        if !self.fighters[current].chips.contains(&chip) {
            return Answer::Int(-1);
        }
        if self.refuse_summon(current, cell, chip).is_none() && !self.is_summon_possible(chip) {
            return Answer::Unsupported;
        }
        let name: Option<&str> = if args.len() > 3 && args[3].kind == ArgKind::Text {
            Some(args[3].text.as_str())
        } else {
            None
        };
        let (result, bulb) = self.summon_entity(current, cell, chip, name);
        if result > 0 {
            if let Some(b) = bulb {
                let ghost w1 = self@;
                let _ = self.summon_ais.insert(b, args[2].function);
                assert(self@ =~= (World {
                    summon_ais: w1.summon_ais.insert(b, args@[2].function),
                    ..w1
                }));
            }
        }
        Answer::Int(result as i64)
    }

    /// Brings a dead fighter back.
    fn call_resurrect(&mut self, current: usize, args: &[Arg]) -> (answer: Answer)
        requires
            old(self).wf(),
            current < old(self)@.fighters.len(),
        ensures
            final(self).wf(),
            final(self)@.extends(old(self)@),
            old(self)@.revival_called(current as int, args@, final(self)@, answer@),
    {
        let ghost w = self@;
        assert(w.fighters[current as int] == self.fighters@[current as int]@);
        let cell: usize = match self.cell_numbered(long_arg(args, 1)) {
            Some(c) => c,
            None => {
                return Answer::Int(-1);
            },
        };
        if args.len() == 0 || args[0].long < 0 || args[0].long as u64 >= self.fighters.len() as u64 {
            return Answer::Int(USE_RESURRECT_INVALID_ENTITY as i64);
        }
        let target: usize = args[0].long as usize;
        assert(w.fighters[target as int] == self.fighters@[target as int]@);
        if !self.fighters[target].is_dead() {
            return Answer::Int(USE_RESURRECT_INVALID_ENTITY as i64);
        }
        let full_life: bool = self.fighters[current].chips.contains(&CHIP_AWAKENING);
        let chip: i32 = if self.fighters[current].chips.contains(&CHIP_RESURRECTION) {
            CHIP_RESURRECTION
        } else if full_life {
            CHIP_AWAKENING
        } else {
            return Answer::Int(-1);
        };
        if self.order.fids().len() >= i32::MAX as usize - 1 && self.refuse_revival(
            current,
            cell,
            chip,
            target,
        ).is_none() {
            return Answer::Unsupported;
        }
        Answer::Int(self.resurrect_entity(current, cell, chip, target, full_life) as i64)
    }

    /// Asks for a loadout before the fight; at any other time the farmer is
    /// warned.
    fn call_set_loadout(&mut self, current: usize, args: &[Arg]) -> (answer: Answer)
        requires
            old(self).wf(),
            current < old(self)@.fighters.len(),
        ensures
            final(self).wf(),
            final(self)@.extends(old(self)@),
            old(self)@.loadout_called(current as int, args@, final(self)@, answer@),
    {
        if self.is_in_before_fight_hook() {
            let stats: bool = args.len() <= 1 || args[1].truthy;
            Answer::Loadout(text_arg(args), stats)
        } else {
            self.warn(current, FARMER_LOG_SET_LOADOUT_OUT_OF_HOOK, None);
            Answer::Bool(false)
        }
    }

    /// Decides what becomes of the loadout that a program asks for, with what
    /// is known of it; none where the fighter has no such loadout. The farmer
    /// is warned of what does not come to pass.
    pub fn wear_loadout(
        &mut self,
        current: usize,
        name: &str,
        change_stats: bool,
        facts: Option<LoadoutFacts>,
        keys: LoadoutKeys,
    ) -> (choice: LoadoutChoice)
        requires
            old(self).wf(),
            current < old(self)@.fighters.len(),
        ensures
            final(self).wf(),
            final(self)@.extends(old(self)@),
            match facts {
                _ if old(self)@.hook_phase != HookPhase::BeforeFight => !choice.worn
                    && !choice.stats && final(self)@ == old(self)@.warned(
                    current as int,
                    FARMER_LOG_SET_LOADOUT_OUT_OF_HOOK,
                    Seq::empty(),
                ),
                None => !choice.worn && !choice.stats && final(self)@ == old(
                    self,
                )@.warned(current as int, FARMER_LOG_LOADOUT_NOT_FOUND, seq![Tree::Str(name@)]),
                Some(f) => choice.worn && choice.stats == (change_stats && f.differs && f.potion)
                    && final(self)@ == if change_stats && f.differs && !f.potion {
                    old(self)@.warned(current as int, keys.no_potion, seq![Tree::Str(name@)])
                } else {
                    old(self)@
                },
            },
    {
        if !self.is_in_before_fight_hook() {
            self.warn(current, FARMER_LOG_SET_LOADOUT_OUT_OF_HOOK, None);
            return LoadoutChoice { worn: false, stats: false };
        }
        match facts {
            None => {
                self.warn(current, FARMER_LOG_LOADOUT_NOT_FOUND, Some(name));
                LoadoutChoice { worn: false, stats: false }
            },
            Some(f) => {
                let apply: bool = change_stats && f.differs;
                if apply && !f.potion {
                    self.warn(current, keys.no_potion, Some(name));
                }
                LoadoutChoice { worn: true, stats: apply && f.potion }
            },
        }
    }

    /// Warns the farmer of a fighter that has put on a loadout where none of
    /// its forgotten weapons was left for it.
    pub fn loadout_worn(
        &mut self,
        current: usize,
        name: &str,
        none_left: bool,
        keys: LoadoutKeys,
    )
        requires
            old(self).wf(),
            current < old(self)@.fighters.len(),
        ensures
            final(self).wf(),
            final(self)@.extends(old(self)@),
            final(self)@ == if none_left {
                old(self)@.warned(current as int, keys.no_forgotten, seq![Tree::Str(name@)])
            } else {
                old(self)@
            },
    {
        if none_left {
            self.warn(current, keys.no_forgotten, Some(name));
        }
    }

    /// The forgotten weapons that other fighters of the same farmer carry,
    /// each once.
    #[must_use]
    pub fn reserved_forgotten(&self, current: usize) -> (reserved: Vec<i32>)
        requires
            self.wf(),
            current < self@.fighters.len(),
        ensures
            reserved@.no_duplicates(),
            forall|weapon: i32| #[trigger]
                reserved@.contains(weapon) <==> self@.is_reserved(current as int, weapon),
    {
        let ghost w = self@;
        let ghost own = current as int;
        assert(w.fighters[own] == self.fighters@[own]@);
        let farmer: i64 = self.fighters[current].farmer;
        let mut reserved: Vec<i32> = Vec::new();
        if farmer <= 0 {
            return reserved;
        }
        let mut f: usize = 0;
        while f < self.fighters.len()
            invariant
                self.wf(),
                w == self@,
                own == current,
                0 <= own < w.fighters.len(),
                farmer == w.fighters[own].farmer,
                farmer > 0,
                f <= w.fighters.len(),
                reserved@.no_duplicates(),
                forall|x: i32| #[trigger]
                    reserved@.contains(x) <==> seen_below(w, own, f as int, 0, x),
            decreases self.fighters.len() - f,
        {
            assert(w.fighters[f as int] == self.fighters@[f as int]@);
            if f != current && self.fighters[f].farmer == farmer {
                let ghost worn = w.fighters[f as int].weapons;
                let mut i: usize = 0;
                while i < self.fighters[f].weapons.len()
                    invariant
                        self.wf(),
                        w == self@,
                        own == current,
                        0 <= own < w.fighters.len(),
                        farmer == w.fighters[own].farmer,
                        f < w.fighters.len(),
                        f != own,
                        w.fighters[f as int].farmer == farmer,
                        worn == self.fighters@[f as int].weapons@,
                        worn == w.fighters[f as int].weapons,
                        i <= worn.len(),
                        reserved@.no_duplicates(),
                        forall|x: i32| #[trigger]
                            reserved@.contains(x) <==> seen_below(w, own, f as int, i as int, x),
                    decreases worn.len() - i,
                {
                    let id: i32 = self.fighters[f].weapons[i];
                    let ghost before = reserved@;
                    let forgotten: bool = match self.weapon_specs.get(&id) {
                        Some(spec) => spec.forgotten,
                        None => false,
                    };
                    if forgotten && !holds_number(&reserved, id) {
                        reserved.push(id);
                    }
                    proof {
                        assert forall|x: i32| #[trigger]
                            reserved@.contains(x) <==> seen_below(w, own, f as int, i + 1, x) by {
                            if x == id && forgotten {
                                assert(worn[i as int] == x);
                                if !before.contains(id) {
                                    assert(reserved@[before.len() as int] == id);
                                }
                            } else {
                                if before.contains(x) {
                                    let k = choose|k: int| 0 <= k < before.len() && before[k] == x;
                                    assert(reserved@[k] == x);
                                }
                                if reserved@.contains(x) {
                                    let k = choose|k: int|
                                        0 <= k < reserved@.len() && reserved@[k] == x;
                                    assert(before[k] == x);
                                }
                            }
                        }
                    }
                    i += 1;
                }
                proof {
                    assert forall|x: i32| #[trigger]
                        reserved@.contains(x) <==> seen_below(w, own, f + 1, 0, x) by {
                        lemma_seen(w, own, f as int, x);
                    }
                }
            } else {
                proof {
                    assert forall|x: i32| #[trigger]
                        reserved@.contains(x) <==> seen_below(w, own, f + 1, 0, x) by {
                        lemma_seen(w, own, f as int, x);
                    }
                }
            }
            f += 1;
        }
        proof {
            assert forall|x: i32| #[trigger] reserved@.contains(x) <==> w.is_reserved(own, x) by {
                assert(seen_below(w, own, f as int, 0, x) == w.is_reserved(own, x));
            }
        }
        reserved
    }

    /// Runs an action.
    fn act(&mut self, current: usize, call: Call, args: &[Arg]) -> (answer: Answer)
        requires
            old(self).wf(),
            current < old(self)@.fighters.len(),
            call matches Call::Stat(id) ==> id < STAT_COUNT,
        ensures
            final(self).wf(),
            final(self)@.continues(old(self)@),
            old(self)@.acts(current as int, call, args@, final(self)@, answer@),
    {
        let first: i64 = long_arg(args, 0);
        match call {
            Call::MoveToward => Answer::Int(self.move_toward(current, first, points_arg(args))),
            Call::MoveTowardCell => Answer::Int(
                self.move_toward_cell(current, first, points_arg(args)),
            ),
            Call::MoveAwayFrom => Answer::Int(
                self.move_away_from(current, first, points_arg(args)),
            ),
            Call::MoveAwayFromCell => Answer::Int(
                self.move_away_from_cell(current, first, points_arg(args)),
            ),
            Call::SetWeapon => self.call_set_weapon(current, first),
            Call::UseWeapon => self.call_use_weapon(current, first),
            Call::UseChip => {
                let leek: i64 = if args.len() > 1 {
                    args[1].long
                } else {
                    current as i64
                };
                let cell = self.goal_cell(leek);
                self.call_use_chip(current, first, cell)
            },
            Call::UseChipOnCell => {
                let cell = self.cell_numbered(long_arg(args, 1));
                self.call_use_chip(current, first, cell)
            },
            Call::Summon => self.call_summon(current, args),
            Call::Resurrect => self.call_resurrect(current, args),
            Call::SetLoadout => self.call_set_loadout(current, args),
            Call::Say => {
                let message: String = text_arg(args);
                Answer::Bool(self.say(current, message.as_str()))
            },
            _ => self.tell(current, call, args),
        }
    }
}

/// Runs the function with a name for the fighter `current`, whose program
/// calls it. There is no argument that it fails on.
pub fn call_official_builtin(state: &mut State, current: usize, name: &str, args: &[Arg]) -> (answer:
    Answer)
    requires
        old(state).wf(),
        current < old(state)@.fighters.len(),
    ensures
        final(state).wf(),
        final(state)@.continues(old(state)@),
        old(state)@.called(current as int, name@, args@, final(state)@, answer@),
{
    assert(state@.fighters[current as int] == state.fighters@[current as int]@);
    if !state.is_in_hook() && state.fighters[current].is_dead() {
        return Answer::Null;
    }
    let call: Call = match call_by_name(name) {
        Some(call) => call,
        None => {
            return Answer::Null;
        },
    };
    if state.is_in_hook() {
        match call {
            Call::MoveToward
            | Call::MoveTowardCell
            | Call::MoveAwayFrom
            | Call::MoveAwayFromCell => {
                state.warn(current, FARMER_LOG_ACTION_DENIED_IN_HOOK, Some(name));
                return Answer::Int(0);
            },
            Call::SetWeapon => {
                state.warn(current, FARMER_LOG_ACTION_DENIED_IN_HOOK, Some(name));
                return Answer::Bool(false);
            },
            Call::UseWeapon | Call::UseChip | Call::UseChipOnCell => {
                state.warn(current, FARMER_LOG_ACTION_DENIED_IN_HOOK, Some(name));
                return Answer::Int(-1);
            },
            _ => {},
        }
    }
    state.act(current, call, args)
}

/// In a hook, an action that none allows changes nothing of the fight: only
/// the farmer is warned.
pub proof fn lemma_denied_actions_do_nothing(
    w: World,
    current: int,
    name: Seq<char>,
    args: Seq<Arg>,
    after: World,
    reply: Reply,
)
    requires
        w.called(current, name, args, after, reply),
        w.in_hook(),
        crate::args::call_named(name) matches Some(call) && World::is_denied(call),
    ensures
        after == (World { farmer_logs: after.farmer_logs, ..w }),
{
}

/// The dead do nothing.
pub proof fn lemma_the_dead_do_nothing(
    w: World,
    current: int,
    name: Seq<char>,
    args: Seq<Arg>,
    after: World,
    reply: Reply,
)
    requires
        w.called(current, name, args, after, reply),
        !w.in_hook(),
        w.fighters[current].is_dead(),
    ensures
        after == w,
        reply == Reply::Null,
{
}

/// The functions that read the fight change nothing.
pub proof fn lemma_questions_change_nothing(
    w: World,
    current: int,
    name: Seq<char>,
    call: Call,
    args: Seq<Arg>,
    after: World,
    reply: Reply,
)
    requires
        w.called(current, name, args, after, reply),
        crate::args::call_named(name) == Some(call),
        !World::is_denied(call),
        call != Call::Summon,
        call != Call::Resurrect,
        call != Call::SetLoadout,
        call != Call::Say,
    ensures
        after == w,
{
}

/// The coordinates that a program sees lead back to the cell.
pub proof fn lemma_coordinates_lead_back(w: World, cell: Seq<Arg>, xy: Seq<Arg>, c: usize)
    requires
        w.wf(),
        crate::queries::cell_named(w.board, crate::args::long_at(cell, 0)) == Some(c),
        w.cell_reply(Call::CellX, cell) == Reply::Int(crate::args::long_at(xy, 0) as int),
        w.cell_reply(Call::CellY, cell) == Reply::Int(crate::args::long_at(xy, 1) as int),
    ensures
        w.cell_reply(Call::CellFromXy, xy) == Reply::Int(c as int),
{
    w.board.lemma_coords(c as int);
}

} // verus!
