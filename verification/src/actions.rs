//! The journal of a fight: what happened, in order, as compact JSON arrays
//! that begin with the number of the kind of event.

use crate::json::Tree;
use std::collections::HashMap;
use vstd::prelude::*;

verus! {

broadcast use vstd::std_specs::hash::group_hash_axioms;

/// The fight begins.
pub const START_FIGHT: i64 = 0;

/// The fight ends.
pub const END_FIGHT: i64 = 4;

/// A fighter dies.
pub const PLAYER_DEAD: i64 = 5;

/// A new turn begins.
pub const NEW_TURN: i64 = 6;

/// A fighter begins to play.
pub const LEEK_TURN: i64 = 7;

/// A fighter has played.
pub const END_TURN: i64 = 8;

/// A fighter is summoned.
pub const SUMMON: i64 = 9;

/// A fighter walks.
pub const MOVE_TO: i64 = 10;

/// A fighter is killed outright.
pub const KILL: i64 = 11;

/// A chip is used.
pub const USE_CHIP: i64 = 12;

/// A weapon is equipped.
pub const SET_WEAPON: i64 = 13;

/// An effect is added to one of the same kind.
pub const STACK_EFFECT: i64 = 14;

/// A chest is opened.
pub const CHEST_OPENED: i64 = 15;

/// A weapon is used.
pub const USE_WEAPON: i64 = 16;

/// Turn points are lost.
pub const LOST_PT: i64 = 100;

/// Direct damage.
pub const LOST_LIFE: i64 = 101;

/// Movement points are lost.
pub const LOST_PM: i64 = 102;

/// Life is given back.
pub const HEAL: i64 = 103;

/// Life and total life rise.
pub const VITALITY: i64 = 104;

/// A fighter comes back to life.
pub const RESURRECT: i64 = 105;

/// Strength is lost.
pub const LOSE_STRENGTH: i64 = 106;

/// Damage to the total life.
pub const NOVA_DAMAGE: i64 = 107;

/// Damage sent back.
pub const DAMAGE_RETURN: i64 = 108;

/// Damage measured by the caster's life.
pub const LIFE_DAMAGE: i64 = 109;

/// Poison damage.
pub const POISON_DAMAGE: i64 = 110;

/// Aftereffect damage.
pub const AFTEREFFECT: i64 = 111;

/// Total life rises.
pub const NOVA_VITALITY: i64 = 112;

/// A lama is seen.
pub const LAMA: i64 = 201;

/// A fighter says something.
pub const SAY: i64 = 203;

/// A fighter points at a cell.
pub const SHOW_CELL: i64 = 205;

/// A weapon puts an effect on a fighter.
pub const ADD_WEAPON_EFFECT: i64 = 301;

/// A chip puts an effect on a fighter.
pub const ADD_CHIP_EFFECT: i64 = 302;

/// An effect ends.
pub const REMOVE_EFFECT: i64 = 303;

/// An effect changes its value.
pub const UPDATE_EFFECT: i64 = 304;

/// The effects of a fighter are reduced.
pub const REDUCE_EFFECTS: i64 = 306;

/// The poisons of a fighter are removed.
pub const REMOVE_POISONS: i64 = 307;

/// The shackles of a fighter are removed.
pub const REMOVE_SHACKLES: i64 = 308;

/// An error.
pub const ERROR: i64 = 1000;

/// A map.
pub const MAP: i64 = 1001;

/// The program of a fighter failed.
pub const AI_ERROR: i64 = 1002;

/// An effect that comes from a weapon.
pub const ATTACK_TYPE_WEAPON: i64 = 1;

/// An effect that comes from a chip.
pub const ATTACK_TYPE_CHIP: i64 = 2;

/// The kinds of damage.
#[derive(Debug, Clone, Copy, PartialEq, Eq, Structural)]
pub enum DamageType {
    Direct,
    Nova,
    Return,
    Life,
    Poison,
}

impl DamageType {
    /// The number of the event that reports this kind of damage.
    pub open spec fn wire(self) -> int {
        match self {
            DamageType::Direct => LOST_LIFE as int,
            DamageType::Nova => NOVA_DAMAGE as int,
            DamageType::Return => DAMAGE_RETURN as int,
            DamageType::Life => LIFE_DAMAGE as int,
            DamageType::Poison => POISON_DAMAGE as int,
        }
    }

    /// The number of the event that reports this kind of damage.
    #[must_use]
    pub fn wire_value(self) -> (v: i64)
        ensures
            v == self.wire(),
    {
        match self {
            DamageType::Direct => LOST_LIFE,
            DamageType::Nova => NOVA_DAMAGE,
            DamageType::Return => DAMAGE_RETURN,
            DamageType::Life => LIFE_DAMAGE,
            DamageType::Poison => POISON_DAMAGE,
        }
    }
}

/// One event of a fight.
#[derive(Debug, Clone)]
pub enum Action {
    /// `[0]`
    StartFight { team1: i32, team2: i32 },
    /// `[6, count]`
    NewTurn { count: i32 },
    /// `[7, entity]`
    EntityTurn { entity_id: i64 },
    /// `[8, entity, turn points, movement points]`
    EndTurn { entity_id: i64, tp: i64, mp: i64 },
    /// `[10, entity, end, [cell, ..]]`
    Move { entity_id: i64, end_cell: i32, path: Vec<i32> },
    /// `[16, cell, success]`
    UseWeapon { cell: i32, success: i32 },
    /// `[12, chip, cell, success]`
    UseChip { chip_template: i32, cell: i32, success: i32 },
    /// `[13, weapon]`
    SetWeapon { weapon_template: i32 },
    /// `[kind of damage, target, life, total life]`
    Damage { damage_type: DamageType, target_id: i64, pv: i32, erosion: i32 },
    /// `[103, target, life]`
    Heal { target_id: i64, life: i32 },
    /// `[104, target, life]`
    Vitality { target_id: i64, life: i32 },
    /// `[112, target, life]`
    NovaVitality { target_id: i64, life: i32 },
    /// `[kind, item, id, caster, target, effect, value, turns]`, with the
    /// modifiers at the end where there are any
    AddEffect {
        type_id: i64,
        item_id: i32,
        log_id: u32,
        caster_id: i64,
        target_id: i64,
        effect_id: i32,
        value: i32,
        turns: i32,
        modifiers: i32,
    },
    /// `[14, id, value]`
    StackEffect { log_id: u32, value: i32 },
    /// `[304, id, value]`
    UpdateEffect { log_id: u32, value: i32 },
    /// `[303, id]`
    RemoveEffect { log_id: u32 },
    /// `[306, entity, value]`
    ReduceEffects { entity_id: i64, value: i32 },
    /// `[307, entity]`
    RemovePoisons { entity_id: i64 },
    /// `[308, entity]`
    RemoveShackles { entity_id: i64 },
    /// `[5, entity]`, with the killer at the end where there is one (not -1)
    EntityDie { entity_id: i64, killer_id: i64 },
    /// `[11, caster, target]`
    Kill { caster_id: i64, target_id: i64 },
    /// `[105, owner, target, cell, life, total life]`
    Resurrect { owner_id: i64, target_id: i64, cell: i32, life: i32, max_life: i32 },
    /// `[9, owner, summoned, cell, result]`
    Invocation { owner_id: i64, summon_id: i64, cell: i32, result: i32 },
    /// `[15, killer, chest, {resource: amount, ..}]`
    ChestOpened { killer_id: i64, chest_id: i64, resources: HashMap<i32, i32> },
    /// `[203, message]`, tabs widened to four spaces
    Say { message: String },
    /// `[205, cell, colour in hexadecimal]`
    ShowCell { cell: i32, color: u32 },
    /// `[201]`
    Lama,
    /// `[1002, entity]`
    AiError { entity_id: i64 },
}

/// Amounts by resource, as the members of a JSON object.
pub open spec fn keyed(resources: Map<i32, i32>) -> Map<Seq<char>, Tree> {
    Map::new(
        |s: Seq<char>|
            exists|k: i32| #[trigger]
                resources.contains_key(k) && s == crate::text::decimal(k as int),
        |s: Seq<char>|
            Tree::Int(
                resources[choose|k: i32| #[trigger]
                    resources.contains_key(k) && s == crate::text::decimal(k as int)] as int,
            ),
    )
}

impl Action {
    /// The event as a JSON array.
    pub open spec fn json(self) -> Tree {
        match self {
            Action::StartFight { .. } => crate::json::row(seq![START_FIGHT as int]),
            Action::NewTurn { count } => crate::json::row(seq![NEW_TURN as int, count as int]),
            Action::EntityTurn { entity_id } => crate::json::row(
                seq![LEEK_TURN as int, entity_id as int],
            ),
            Action::EndTurn { entity_id, tp, mp } => crate::json::row(
                seq![END_TURN as int, entity_id as int, tp as int, mp as int],
            ),
            Action::Move { entity_id, end_cell, path } => Tree::Array(
                seq![
                    Tree::Int(MOVE_TO as int),
                    Tree::Int(entity_id as int),
                    Tree::Int(end_cell as int),
                    crate::json::row(path@.map_values(|c: i32| c as int)),
                ],
            ),
            Action::UseWeapon { cell, success } => crate::json::row(
                seq![USE_WEAPON as int, cell as int, success as int],
            ),
            Action::UseChip { chip_template, cell, success } => crate::json::row(
                seq![USE_CHIP as int, chip_template as int, cell as int, success as int],
            ),
            Action::SetWeapon { weapon_template } => crate::json::row(
                seq![SET_WEAPON as int, weapon_template as int],
            ),
            Action::Damage { damage_type, target_id, pv, erosion } => crate::json::row(
                seq![damage_type.wire(), target_id as int, pv as int, erosion as int],
            ),
            Action::Heal { target_id, life } => crate::json::row(
                seq![HEAL as int, target_id as int, life as int],
            ),
            Action::Vitality { target_id, life } => crate::json::row(
                seq![VITALITY as int, target_id as int, life as int],
            ),
            Action::NovaVitality { target_id, life } => crate::json::row(
                seq![NOVA_VITALITY as int, target_id as int, life as int],
            ),
            Action::AddEffect {
                type_id,
                item_id,
                log_id,
                caster_id,
                target_id,
                effect_id,
                value,
                turns,
                modifiers,
            } => effect_row(
                type_id as int,
                item_id as int,
                log_id as int,
                caster_id as int,
                target_id as int,
                effect_id as int,
                value as int,
                turns as int,
                modifiers as int,
            ),
            Action::StackEffect { log_id, value } => crate::json::row(
                seq![STACK_EFFECT as int, log_id as int, value as int],
            ),
            Action::UpdateEffect { log_id, value } => crate::json::row(
                seq![UPDATE_EFFECT as int, log_id as int, value as int],
            ),
            Action::RemoveEffect { log_id } => crate::json::row(
                seq![REMOVE_EFFECT as int, log_id as int],
            ),
            Action::ReduceEffects { entity_id, value } => crate::json::row(
                seq![REDUCE_EFFECTS as int, entity_id as int, value as int],
            ),
            Action::RemovePoisons { entity_id } => crate::json::row(
                seq![REMOVE_POISONS as int, entity_id as int],
            ),
            Action::RemoveShackles { entity_id } => crate::json::row(
                seq![REMOVE_SHACKLES as int, entity_id as int],
            ),
            Action::EntityDie { entity_id, killer_id } => if killer_id == -1 {
                crate::json::row(seq![PLAYER_DEAD as int, entity_id as int])
            } else {
                crate::json::row(seq![PLAYER_DEAD as int, entity_id as int, killer_id as int])
            },
            Action::Kill { caster_id, target_id } => crate::json::row(
                seq![KILL as int, caster_id as int, target_id as int],
            ),
            Action::Resurrect { owner_id, target_id, cell, life, max_life } => crate::json::row(
                seq![
                    RESURRECT as int,
                    owner_id as int,
                    target_id as int,
                    cell as int,
                    life as int,
                    max_life as int,
                ],
            ),
            Action::Invocation { owner_id, summon_id, cell, result } => crate::json::row(
                seq![
                    SUMMON as int,
                    owner_id as int,
                    summon_id as int,
                    cell as int,
                    result as int,
                ],
            ),
            Action::ChestOpened { killer_id, chest_id, resources } => Tree::Array(
                seq![
                    Tree::Int(CHEST_OPENED as int),
                    Tree::Int(killer_id as int),
                    Tree::Int(chest_id as int),
                    Tree::Object(keyed(resources@)),
                ],
            ),
            Action::Say { message } => Tree::Array(
                seq![Tree::Int(SAY as int), Tree::Str(crate::text::widened(message@))],
            ),
            Action::ShowCell { cell, color } => Tree::Array(
                seq![
                    Tree::Int(SHOW_CELL as int),
                    Tree::Int(cell as int),
                    Tree::Str(crate::text::hex((color % 0x100_0000) as int, 6)),
                ],
            ),
            Action::Lama => crate::json::row(seq![LAMA as int]),
            Action::AiError { entity_id } => crate::json::row(
                seq![AI_ERROR as int, entity_id as int],
            ),
        }
    }
}

/// The array that reports a new effect.
pub open spec fn effect_row(
    type_id: int,
    item_id: int,
    log_id: int,
    caster_id: int,
    target_id: int,
    effect_id: int,
    value: int,
    turns: int,
    modifiers: int,
) -> Tree {
    let base = seq![
        type_id,
        item_id,
        log_id,
        caster_id,
        target_id,
        effect_id,
        value,
        turns,
    ];
    if modifiers != 0 {
        crate::json::row(base.push(modifiers))
    } else {
        crate::json::row(base)
    }
}

/// The members of a JSON object that gives amounts by resource.
fn resource_members(resources: &HashMap<i32, i32>) -> (m: serde_json::Map<
    String,
    serde_json::Value,
>)
    ensures
        crate::json::members(m) == keyed(resources@),
{
    let mut m = crate::json::no_members();
    let ghost all = resources@;
    let ghost mut done: Set<i32> = Set::empty();
    for pair in it: resources.iter()
        invariant
            all == resources@,
            crate::json::members(m) =~= keyed(all.restrict(done)),
            forall|k: i32| #[trigger] done.contains(k) <==> exists|i: int|
                0 <= i < it.index() && *(#[trigger] it.seq()[i]).0 == k,
            forall|i: int|
                0 <= i < it.seq().len() ==> all.contains_key(*(#[trigger] it.seq()[i]).0)
                    && all[*it.seq()[i].0] == *it.seq()[i].1,
            forall|k: i32| #[trigger] all.contains_key(k) ==> it.seq().contains((&k, &all[k])),
    {
        let (k, v) = pair;
        let ghost before = done;
        crate::json::set_member(
            &mut m,
            crate::text::decimal_text(*k as i64),
            crate::json::number(*v as i64),
        );
        proof {
            done = done.insert(*k);
            lemma_keyed_insert(all, before, *k);
        }
    }
    proof {
        assert(all.restrict(done) =~= all) by {
            assert forall|k: i32| all.contains_key(k) implies done.contains(k) by {}
        }
    }
    m
}

/// One more resource puts one more member in the object.
proof fn lemma_keyed_insert(all: Map<i32, i32>, done: Set<i32>, k: i32)
    requires
        all.contains_key(k),
    ensures
        keyed(all.restrict(done.insert(k))) =~= keyed(all.restrict(done)).insert(
            crate::text::decimal(k as int),
            Tree::Int(all[k] as int),
        ),
{
    let less = all.restrict(done);
    let more = all.restrict(done.insert(k));
    let a = keyed(less).insert(crate::text::decimal(k as int), Tree::Int(all[k] as int));
    let b = keyed(more);
    assert forall|s: Seq<char>|
        #![trigger a.dom().contains(s)]
        #![trigger b.dom().contains(s)]
        a.contains_key(s) == b.contains_key(s) && (a.contains_key(s) ==> a[s] == b[s]) by {
        if s == crate::text::decimal(k as int) {
            assert(more.contains_key(k));
            let j = choose|j: i32| #[trigger]
                more.contains_key(j) && s == crate::text::decimal(j as int);
            crate::text::lemma_decimal_injective(j as int, k as int);
        } else {
            if keyed(less).contains_key(s) {
                let j = choose|j: i32| #[trigger]
                    less.contains_key(j) && s == crate::text::decimal(j as int);
                assert(more.contains_key(j));
            }
            if b.contains_key(s) {
                let j = choose|j: i32| #[trigger]
                    more.contains_key(j) && s == crate::text::decimal(j as int);
                assert(less.contains_key(j));
                let i = choose|i: i32| #[trigger]
                    less.contains_key(i) && s == crate::text::decimal(i as int);
                crate::text::lemma_decimal_injective(i as int, j as int);
            }
        }
    }
    assert(b =~= a);
}

impl Action {
    /// The event as a JSON array.
    #[must_use]
    pub fn to_json(&self) -> (v: serde_json::Value)
        ensures
            crate::json::contents(v) == self.json(),
    {
        match self {
            Action::StartFight { .. } => crate::json::row1(START_FIGHT),
            Action::NewTurn { count } => crate::json::row2(NEW_TURN, *count as i64),
            Action::EntityTurn { entity_id } => crate::json::row2(LEEK_TURN, *entity_id as i64),
            Action::EndTurn { entity_id, tp, mp } => crate::json::row4(END_TURN, *entity_id as i64, *tp as i64, *mp as i64),
            Action::Move { entity_id, end_cell, path } => {
                let mut cells: Vec<i64> = Vec::new();
                let mut i: usize = 0;
                while i < path.len()
                    invariant
                        i <= path@.len(),
                        cells@ == path@.take(i as int).map_values(|c: i32| c as i64),
                    decreases path.len() - i,
                {
                    cells.push(path[i] as i64);
                    i += 1;
                    assert(cells@ =~= path@.take(i as int).map_values(|c: i32| c as i64));
                }
                assert(cells@.map_values(|n: i64| n as int) =~= path@.map_values(
                    |c: i32| c as int,
                ));
                crate::json::array4(
                    crate::json::number(MOVE_TO),
                    crate::json::number(*entity_id),
                    crate::json::number(*end_cell as i64),
                    crate::json::numbers(&cells),
                )
            },
            Action::UseWeapon { cell, success } => crate::json::row3(USE_WEAPON, *cell as i64, *success as i64),
            Action::UseChip { chip_template, cell, success } => crate::json::row4(USE_CHIP, *chip_template as i64, *cell as i64, *success as i64),
            Action::SetWeapon { weapon_template } => crate::json::row2(SET_WEAPON, *weapon_template as i64),
            Action::Damage { damage_type, target_id, pv, erosion } => crate::json::row4(damage_type.wire_value(), *target_id as i64, *pv as i64, *erosion as i64),
            Action::Heal { target_id, life } => crate::json::row3(HEAL, *target_id as i64, *life as i64),
            Action::Vitality { target_id, life } => crate::json::row3(VITALITY, *target_id as i64, *life as i64),
            Action::NovaVitality { target_id, life } => crate::json::row3(NOVA_VITALITY, *target_id as i64, *life as i64),
            Action::AddEffect {
                type_id,
                item_id,
                log_id,
                caster_id,
                target_id,
                effect_id,
                value,
                turns,
                modifiers,
            } => {
                let mut row: Vec<i64> = vec![
                    *type_id,
                    *item_id as i64,
                    *log_id as i64,
                    *caster_id,
                    *target_id,
                    *effect_id as i64,
                    *value as i64,
                    *turns as i64,
                ];
                let ghost base = row@.map_values(|n: i64| n as int);
                if *modifiers != 0 {
                    row.push(*modifiers as i64);
                    assert(row@.map_values(|n: i64| n as int) =~= base.push(*modifiers as int));
                }
                let v = crate::json::numbers(&row);
                proof {
                    assert(base =~= seq![
                        *type_id as int,
                        *item_id as int,
                        *log_id as int,
                        *caster_id as int,
                        *target_id as int,
                        *effect_id as int,
                        *value as int,
                        *turns as int,
                    ]);
                }
                v
            },
            Action::StackEffect { log_id, value } => crate::json::row3(STACK_EFFECT, *log_id as i64, *value as i64),
            Action::UpdateEffect { log_id, value } => crate::json::row3(UPDATE_EFFECT, *log_id as i64, *value as i64),
            Action::RemoveEffect { log_id } => crate::json::row2(REMOVE_EFFECT, *log_id as i64),
            Action::ReduceEffects { entity_id, value } => crate::json::row3(REDUCE_EFFECTS, *entity_id as i64, *value as i64),
            Action::RemovePoisons { entity_id } => crate::json::row2(REMOVE_POISONS, *entity_id as i64),
            Action::RemoveShackles { entity_id } => crate::json::row2(REMOVE_SHACKLES, *entity_id as i64),
            Action::EntityDie { entity_id, killer_id } => {
                if *killer_id == -1 {
                    crate::json::row2(PLAYER_DEAD, *entity_id)
                } else {
                    crate::json::row3(PLAYER_DEAD, *entity_id, *killer_id)
                }
            },
            Action::Kill { caster_id, target_id } => crate::json::row3(KILL, *caster_id as i64, *target_id as i64),
            Action::Resurrect { owner_id, target_id, cell, life, max_life } => crate::json::row6(RESURRECT, *owner_id as i64, *target_id as i64, *cell as i64, *life as i64, *max_life as i64),
            Action::Invocation { owner_id, summon_id, cell, result } => crate::json::row5(SUMMON, *owner_id as i64, *summon_id as i64, *cell as i64, *result as i64),
            Action::ChestOpened { killer_id, chest_id, resources } => crate::json::array4(
                crate::json::number(CHEST_OPENED),
                crate::json::number(*killer_id),
                crate::json::number(*chest_id),
                crate::json::object(resource_members(resources)),
            ),
            Action::Say { message } => crate::json::array2(
                crate::json::number(SAY),
                crate::json::text(crate::text::widen_tabs(message.as_str())),
            ),
            Action::ShowCell { cell, color } => crate::json::array3(
                crate::json::number(SHOW_CELL),
                crate::json::number(*cell as i64),
                crate::json::text(crate::text::colour_text(*color)),
            ),
            Action::Lama => crate::json::row1(LAMA),
            Action::AiError { entity_id } => crate::json::row2(AI_ERROR, *entity_id as i64),
        }
    }
}

/// What a journal holds: the events, the next free number of an effect, and
/// the side tables by entity.
#[verifier::ext_equal]
pub struct Journal {
    pub actions: Seq<Tree>,
    pub next_effect_id: int,
    pub dead: Map<Seq<char>, Tree>,
    pub ops: Map<Seq<char>, Tree>,
    pub times: Map<Seq<char>, Tree>,
}

impl Journal {
    /// The journal before the fight.
    pub open spec fn blank() -> Journal {
        Journal {
            actions: Seq::empty(),
            next_effect_id: 0,
            dead: Map::empty(),
            ops: Map::empty(),
            times: Map::empty(),
        }
    }

    /// The journal with one more event.
    pub open spec fn logged(self, event: Tree) -> Journal {
        Journal { actions: self.actions.push(event), ..self }
    }

    /// The journal with one more number given away.
    pub open spec fn counted(self) -> Journal {
        Journal { next_effect_id: (self.next_effect_id + 1) % 0x1_0000_0000, ..self }
    }

    /// The journal with a new effect reported in it, under the next number.
    pub open spec fn effect_created(
        self,
        attack_type: int,
        item_id: int,
        caster_id: int,
        target_id: int,
        effect_id: int,
        value: int,
        turns: int,
        modifiers: int,
    ) -> Journal {
        self.counted().logged(
            effect_row(
                effect_event(attack_type),
                item_id,
                self.next_effect_id,
                caster_id,
                target_id,
                effect_id,
                value,
                turns,
                modifiers,
            ),
        )
    }

    /// The journal with the operations of an entity recorded.
    pub open spec fn ops_recorded(self, entity_id: int, op_count: int) -> Journal {
        Journal {
            ops: self.ops.insert(crate::text::decimal(entity_id), Tree::Int(op_count)),
            ..self
        }
    }
}

/// The kind of event that reports a new effect of an attack.
pub open spec fn effect_event(attack_type: int) -> int {
    if attack_type == ATTACK_TYPE_CHIP {
        ADD_CHIP_EFFECT as int
    } else if attack_type == ATTACK_TYPE_WEAPON {
        ADD_WEAPON_EFFECT as int
    } else {
        attack_type
    }
}

/// The journal of a fight.
#[derive(Debug)]
pub struct ActionLog {
    actions: Vec<Action>,
    next_effect_id: u32,
    /// Killers by dead entity.
    pub dead: serde_json::Map<String, serde_json::Value>,
    /// Operations by entity.
    pub ops: serde_json::Map<String, serde_json::Value>,
    /// Running times by entity.
    pub times: serde_json::Map<String, serde_json::Value>,
}

impl View for ActionLog {
    type V = Journal;

    closed spec fn view(&self) -> Journal {
        Journal {
            actions: self.actions@.map_values(|a: Action| a.json()),
            next_effect_id: self.next_effect_id as int,
            dead: crate::json::members(self.dead),
            ops: crate::json::members(self.ops),
            times: crate::json::members(self.times),
        }
    }
}

impl ActionLog {
    /// An empty journal.
    #[must_use]
    pub fn new() -> (log: Self)
        ensures
            log@ == Journal::blank(),
    {
        let log = ActionLog {
            actions: Vec::new(),
            next_effect_id: 0,
            dead: crate::json::no_members(),
            ops: crate::json::no_members(),
            times: crate::json::no_members(),
        };
        assert(log@ =~= Journal::blank());
        log
    }

    /// Gives away the next number of an effect.
    pub fn get_effect_id(&mut self) -> (id: u32)
        ensures
            id == old(self)@.next_effect_id,
            final(self)@ == old(self)@.counted(),
    {
        let id: u32 = self.next_effect_id;
        self.next_effect_id = id.wrapping_add(1);
        assert(self@ =~= old(self)@.counted());
        id
    }

    /// The index that the next event will have.
    #[must_use]
    pub fn get_next_id(&self) -> (n: usize)
        ensures
            n == self@.actions.len(),
    {
        self.actions.len()
    }

    /// The index of the last event.
    #[must_use]
    pub fn current_id(&self) -> (n: usize)
        requires
            self@.actions.len() > 0,
        ensures
            n == self@.actions.len() - 1,
    {
        self.actions.len() - 1
    }

    /// Appends an event.
    pub fn log(&mut self, action: Action)
        ensures
            final(self)@ == old(self)@.logged(action.json()),
    {
        self.actions.push(action);
        assert(self@ =~= old(self)@.logged(action.json()));
    }

    /// Reports a new effect under the next number, and returns that number.
    pub fn create_effect(
        &mut self,
        attack_type: i64,
        item_id: i32,
        caster_id: i64,
        target_id: i64,
        effect_id: i32,
        value: i32,
        turns: i32,
        modifiers: i32,
    ) -> (log_id: u32)
        ensures
            log_id == old(self)@.next_effect_id,
            final(self)@ == old(self)@.effect_created(
                attack_type as int,
                item_id as int,
                caster_id as int,
                target_id as int,
                effect_id as int,
                value as int,
                turns as int,
                modifiers as int,
            ),
    {
        let type_id: i64 = if attack_type == ATTACK_TYPE_CHIP {
            ADD_CHIP_EFFECT
        } else if attack_type == ATTACK_TYPE_WEAPON {
            ADD_WEAPON_EFFECT
        } else {
            attack_type
        };
        let log_id: u32 = self.get_effect_id();
        self.log(
            Action::AddEffect {
                type_id,
                item_id,
                log_id,
                caster_id,
                target_id,
                effect_id,
                value,
                turns,
                modifiers,
            },
        );
        log_id
    }

    /// Records how many operations an entity has run.
    pub fn add_ops(&mut self, entity_id: i64, op_count: i64)
        ensures
            final(self)@ == old(self)@.ops_recorded(entity_id as int, op_count as int),
    {
        crate::json::set_member(
            &mut self.ops,
            crate::text::decimal_text(entity_id),
            crate::json::number(op_count),
        );
        assert(self@ =~= old(self)@.ops_recorded(entity_id as int, op_count as int));
    }

    /// A copy of the operations by entity.
    pub(crate) fn ops_copy(&self) -> (ops: serde_json::Map<String, serde_json::Value>)
        ensures
            crate::json::members(ops) == self@.ops,
    {
        crate::json::copy_members(&self.ops)
    }

    /// The events as a JSON array.
    #[must_use]
    pub fn to_json(&self) -> (v: serde_json::Value)
        ensures
            crate::json::contents(v) == Tree::Array(self@.actions),
    {
        let mut items: Vec<serde_json::Value> = crate::json::no_items();
        let mut i: usize = 0;
        while i < self.actions.len()
            invariant
                i <= self.actions@.len(),
                crate::json::all_contents(items@) == self@.actions.take(i as int),
            decreases self.actions.len() - i,
        {
            crate::json::push_item(&mut items, self.actions[i].to_json());
            i += 1;
            assert(crate::json::all_contents(items@) =~= self@.actions.take(i as int));
        }
        assert(self@.actions.take(i as int) =~= self@.actions);
        crate::json::array(items)
    }
}

/// Two effects that are reported one after the other have different numbers.
pub proof fn lemma_effect_numbers_differ(before: Journal)
    requires
        0 <= before.next_effect_id <= u32::MAX,
    ensures
        before.counted().next_effect_id != before.next_effect_id,
        before.next_effect_id < u32::MAX ==> before.counted().next_effect_id
            == before.next_effect_id + 1,
{
}

} // verus!
