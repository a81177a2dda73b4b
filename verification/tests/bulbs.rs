use leek_game::actions::{AI_ERROR, LEEK_TURN};
use leek_game::args::{Answer, Arg, ArgKind};
use leek_game::attack::{Area, EffectModifiers, EffectParams, EffectTargets, EffectType};
use leek_game::calls::call_official_builtin;
use leek_game::fighter::{
    Fighter, Stats, STAT_AGILITY, STAT_FREQUENCY, STAT_LIFE, STAT_MP, STAT_RESISTANCE,
    STAT_STRENGTH, STAT_TP,
};
use leek_game::number::Real;
use leek_game::runner::{
    bulb_op_limit, fight_op_limit, harvested_ops, ErrorCodes, Going, RunResult, Runner, Turn,
};
use leek_game::world::{BulbTemplate, ChipSpec, State, WeaponSpec};
use serde_json::Value;

const SPAWN_CHIP: i32 = 1048;
const BULB_TEMPLATE: i32 = 1001;
const BUDGET: u64 = 200_000;
const BULB: i64 = 2;
const BULB_FUNCTION: u64 = 9;

/// The operations of the function of the bulb.
const BULB_OPS: u64 = 100;

/// The operations with which the owner looks for a place and summons.
const SUMMON_OPS: u64 = 1_000;

fn double(x: f64) -> Real {
    Real::from_bits(x.to_bits()).unwrap()
}

fn pistol() -> WeaponSpec {
    WeaponSpec {
        id: 37,
        cost: 3,
        min_range: 1,
        max_range: 7,
        launch_type: 1,
        needs_los: true,
        max_uses: -1,
        area: Area::SingleCell,
        effects: Vec::new(),
        forgotten: false,
    }
}

fn spawn_chip() -> ChipSpec {
    ChipSpec {
        id: SPAWN_CHIP,
        cost: 2,
        min_range: 1,
        max_range: 8,
        launch_type: 7,
        needs_los: true,
        max_uses: -1,
        area: Area::SingleCell,
        effects: vec![EffectParams {
            effect: EffectType::Summon,
            value1: double(f64::from(BULB_TEMPLATE)),
            value2: double(0.0),
            turns: 0,
            targets: EffectTargets::all(),
            modifiers: EffectModifiers::empty(),
        }],
        cooldown: 0,
        team_cooldown: false,
        initial_cooldown: 0,
        level: 1,
    }
}

fn bulb_template() -> BulbTemplate {
    BulbTemplate {
        id: BULB_TEMPLATE,
        name: "test_bulb".to_string(),
        life: (100, 400),
        strength: (0, 0),
        wisdom: (0, 0),
        agility: (0, 0),
        resistance: (0, 0),
        science: (0, 0),
        magic: (0, 0),
        tp: (4, 8),
        mp: (3, 6),
        chips: Vec::new(),
    }
}

fn leek(id: i64, name: &str, farmer: i64) -> Fighter {
    let mut stats = Stats::default();
    stats.set(STAT_LIFE, 500);
    stats.set(STAT_TP, 6);
    stats.set(STAT_MP, 7);
    stats.set(STAT_STRENGTH, 100);
    stats.set(STAT_AGILITY, 100);
    stats.set(STAT_FREQUENCY, 10);
    stats.set(STAT_RESISTANCE, 10);
    let mut f = Fighter::new(0, id, name.to_string(), 0, stats);
    f.level = 10;
    f.farmer = farmer;
    f.weapons = vec![37];
    f.chips.insert(SPAWN_CHIP);
    f
}

fn arg(kind: ArgKind, long: i64, function: u64) -> Arg {
    Arg {
        kind,
        long,
        text: long.to_string(),
        truthy: true,
        items: Vec::new(),
        function,
    }
}

/// What a run of so many operations comes to under a limit.
fn spend(ops: u64, limit: u64) -> (RunResult, u64) {
    if ops > limit {
        (RunResult::TooMuchOperations, limit + 1)
    } else {
        (RunResult::Done, ops)
    }
}

/// Summons a bulb on the first free cell around the owner.
fn summon(state: &mut State, fid: usize) {
    let here = state.fighters[fid].cell.unwrap() as i64;
    for d in 1..=40 {
        for cell in [here - d, here + d] {
            let answer = call_official_builtin(
                state,
                fid,
                "summon",
                &[
                    arg(ArgKind::Number, i64::from(SPAWN_CHIP), 0),
                    arg(ArgKind::Number, cell, 0),
                    arg(ArgKind::Function, 0, BULB_FUNCTION),
                ],
            );
            if matches!(answer, Answer::Int(n) if n > 0) {
                return;
            }
        }
    }
}

/// A fight in which the owner summons a bulb and spends so many operations in
/// every turn, and its enemy does nothing.
fn run(owner_ops: u64) -> Value {
    let codes = ErrorCodes {
        log_type: 8,
        too_much_operations: 1,
        array_out_of_bound: 2,
        stack_overflow: 3,
        interrupted: 4,
    };
    let mut state = State::new(7);
    state.add_entity(0, leek(1, "Owner", 100));
    state.add_entity(1, leek(2, "Foe", 200));
    state.weapon_specs.insert(37, pistol());
    state.chip_specs.insert(SPAWN_CHIP, spawn_chip());
    state.bulb_templates.insert(BULB_TEMPLATE, bulb_template());
    let weight = double(10f64.powf(0.1));
    state.init(&[weight, weight]);
    state.record_initial_state();
    let mut runner = Runner::new(state);
    let limit = fight_op_limit(BUDGET);
    while runner.goes_on() {
        let turn = runner.open_turn();
        match turn {
            Turn::Entity(0) => {
                if runner.state.order.turn() == 1 {
                    summon(&mut runner.state, 0);
                }
                let (result, ops) = spend(owner_ops, limit);
                runner.state.log_ai_error(0, 0, &result, codes);
                runner.charge_entity(0, harvested_ops(&result, ops));
            }
            Turn::Bulb {
                fid,
                owner,
                function,
                spent,
            } => {
                assert_eq!(function, BULB_FUNCTION);
                let (result, ops) = spend(BULB_OPS, bulb_op_limit(limit, spent));
                runner.state.log_ai_error(fid, owner, &result, codes);
                runner.charge_bulb(owner, harvested_ops(&result, ops));
            }
            _ => {}
        }
        if runner.close_turn(turn) != Going::On {
            break;
        }
    }
    runner.conclude();
    runner.report(&[100, 200])
}

fn count(outcome: &Value, code: i64, entity: i64) -> usize {
    outcome["fight"]["actions"]
        .as_array()
        .expect("actions array")
        .iter()
        .filter(|a| {
            a.get(0) == Some(&Value::from(code)) && a.get(1) == Some(&Value::from(entity))
        })
        .count()
}

#[test]
fn the_owner_summons_a_bulb_that_takes_turns() {
    let outcome = run(SUMMON_OPS);

    assert_eq!(
        outcome["fight"]["leeks"]
            .as_array()
            .expect("leeks array")
            .len(),
        3,
        "two leeks and the summoned bulb"
    );
    assert!(
        count(&outcome, LEEK_TURN, BULB) > 10,
        "the bulb takes a turn per round from the one it was summoned in"
    );
}

#[test]
fn a_bulb_gets_nothing_after_its_owner_spends_the_turn() {
    let outcome = run(50_000_000);

    let turns = count(&outcome, LEEK_TURN, BULB);
    assert!(turns > 10, "the bulb took {turns} turns");
    assert_eq!(
        count(&outcome, AI_ERROR, BULB),
        turns,
        "the bulb's budget is its owner's remainder, which is empty every turn"
    );
}

#[test]
fn a_bulb_keeps_what_its_owner_left() {
    let outcome = run(BUDGET / 2);

    assert!(count(&outcome, LEEK_TURN, BULB) > 10);
    assert_eq!(
        count(&outcome, AI_ERROR, 0),
        0,
        "half the budget a turn is within the owner's own means"
    );
    assert_eq!(
        count(&outcome, AI_ERROR, BULB),
        0,
        "and the other half is still there for its bulb"
    );
}

#[test]
fn summons_are_in_no_team_at_the_end() {
    let outcome = run(SUMMON_OPS);
    assert_eq!(outcome["fight"]["dead"].as_object().unwrap().len(), 2);
    assert_eq!(outcome["winner"], Value::from(-1));
}
