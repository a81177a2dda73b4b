use leek_game::args::{Answer, Arg, ArgKind};
use leek_game::attack::{Area, EffectModifiers, EffectParams, EffectTargets, EffectType, EntityState};
use leek_game::calls::{call_official_builtin, LoadoutFacts, LoadoutKeys};
use leek_game::cast::{
    USE_FAILED, USE_INVALID_COOLDOWN, USE_INVALID_POSITION, USE_INVALID_TARGET, USE_MAX_USES,
    USE_NOT_ENOUGH_TP, USE_SUCCESS, USE_TOO_MANY_SUMMONS,
};
use leek_game::fighter::{
    Fighter, Stats, STAT_ABSOLUTE_SHIELD, STAT_AGILITY, STAT_LIFE, STAT_MP, STAT_RELATIVE_SHIELD,
    STAT_STRENGTH, STAT_TP, STAT_WISDOM,
};
use leek_game::number::Real;
use leek_game::runner::{
    bulb_op_limit, fight_op_limit, harvested_ops, hook_op_limit, run_result_of, ErrorCodes, Going,
    RunResult, Runner, Turn,
};
use leek_game::world::{BulbTemplate, ChipSpec, HookPhase, State, WeaponSpec};
use serde_json::Value;

const KEYS: LoadoutKeys = LoadoutKeys {
    no_potion: 1101,
    no_forgotten: 1102,
};
const NEAR: usize = 306;
const FAR: usize = 324;

fn double(x: f64) -> Real {
    Real::from_bits(x.to_bits()).unwrap()
}

fn json(text: &str) -> Value {
    serde_json::from_str(text).unwrap()
}

fn line(effect: EffectType, value1: f64, turns: i32) -> EffectParams {
    EffectParams {
        effect,
        value1: double(value1),
        value2: double(0.0),
        turns,
        targets: EffectTargets::all(),
        modifiers: EffectModifiers::empty(),
    }
}

fn weapon(id: i32, effects: Vec<EffectParams>) -> WeaponSpec {
    WeaponSpec {
        id,
        cost: 3,
        min_range: 1,
        max_range: 7,
        launch_type: 7,
        needs_los: true,
        max_uses: -1,
        area: Area::SingleCell,
        effects,
        forgotten: false,
    }
}

fn chip(id: i32, cooldown: i32, effects: Vec<EffectParams>) -> ChipSpec {
    ChipSpec {
        id,
        cost: 2,
        min_range: 0,
        max_range: 7,
        launch_type: 7,
        needs_los: true,
        max_uses: -1,
        area: Area::SingleCell,
        effects,
        cooldown,
        team_cooldown: false,
        initial_cooldown: 0,
        level: 3,
    }
}

fn leek(id: i64, name: &str, team: usize, farmer: i64) -> Fighter {
    let mut stats = Stats::default();
    stats.set(STAT_LIFE, 500);
    stats.set(STAT_TP, 20);
    stats.set(STAT_MP, 7);
    stats.set(STAT_STRENGTH, 100);
    let mut f = Fighter::new(0, id, name.to_string(), team, stats);
    f.level = 150;
    f.farmer = farmer;
    f
}

/// Two fighters two cells apart on one line; the first plays.
fn duel() -> State {
    let mut state = State::new(42);
    let a = state.add_entity(0, leek(11, "A", 0, 100));
    let b = state.add_entity(1, leek(12, "B", 1, 200));
    state.place_entity(a, NEAR);
    state.place_entity(b, FAR);
    state.order.add_entity(a);
    state.order.add_entity(b);
    state
        .weapon_specs
        .insert(1, weapon(1, vec![line(EffectType::Damage, 10.0, 0)]));
    state.fighters[a].weapons = vec![1];
    state.fighters[a].weapon = Some(1);
    state
}

fn with_chip(spec: ChipSpec) -> State {
    let mut state = duel();
    state.fighters[0].chips = [spec.id].into_iter().collect();
    state.chip_specs.insert(spec.id, spec);
    state
}

fn journal(state: &State) -> Vec<Value> {
    state.actions.to_json().as_array().unwrap().clone()
}

fn num(n: i64) -> Arg {
    Arg {
        kind: ArgKind::Number,
        long: n,
        text: n.to_string(),
        truthy: n != 0,
        items: Vec::new(),
        function: 0,
    }
}

fn words(s: &str) -> Arg {
    Arg {
        kind: ArgKind::Text,
        long: 0,
        text: s.to_string(),
        truthy: !s.is_empty(),
        items: Vec::new(),
        function: 0,
    }
}

fn answer_int(a: &Answer) -> i64 {
    match a {
        Answer::Int(n) => *n,
        other => panic!("expected a number, got {other:?}"),
    }
}

#[test]
fn damage_grows_with_strength_and_wears_off_the_total() {
    let mut state = duel();
    assert_eq!(state.use_weapon(0, FAR), USE_SUCCESS);
    assert_eq!(state.fighters[1].life, 480);
    assert_eq!(state.fighters[1].total_life, 499);
    assert_eq!(state.fighters[0].tp(), 17);
    let log = journal(&state);
    assert_eq!(log[0], json("[16, 324, 1]"));
    assert_eq!(log[1], json("[101, 1, 20, 1]"));
}

#[test]
fn shields_are_taken_off_the_damage() {
    let mut state = duel();
    state.fighters[1].buff_stats.set(STAT_RELATIVE_SHIELD, 10);
    state.fighters[1].buff_stats.set(STAT_ABSOLUTE_SHIELD, 5);
    assert_eq!(state.use_weapon(0, FAR), USE_SUCCESS);
    assert_eq!(state.fighters[1].life, 487);
}

#[test]
fn a_part_of_the_damage_comes_back_as_life() {
    let mut state = duel();
    state.fighters[0].base_stats.set(STAT_WISDOM, 500);
    state.fighters[0].life = 100;
    assert_eq!(state.use_weapon(0, FAR), USE_SUCCESS);
    assert_eq!(state.fighters[0].life, 110);
}

#[test]
fn agility_makes_hits_critical() {
    let mut state = duel();
    state.fighters[0].base_stats.set(STAT_AGILITY, 1000);
    assert_eq!(state.use_weapon(0, FAR), leek_game::cast::USE_CRITICAL);
    assert_eq!(state.fighters[1].life, 474);
    assert_eq!(state.fighters[1].total_life, 496);
}

#[test]
fn each_refusal_has_its_answer_and_changes_nothing() {
    let mut state = duel();
    assert_eq!(state.use_weapon(1, NEAR), USE_INVALID_TARGET);
    state.fighters[0].weapon = None;
    assert_eq!(state.use_weapon(0, FAR), USE_INVALID_TARGET);
    state.fighters[0].weapon = Some(1);
    state.weapon_specs.get_mut(&1).unwrap().cost = 21;
    assert_eq!(state.use_weapon(0, FAR), USE_NOT_ENOUGH_TP);
    state.weapon_specs.get_mut(&1).unwrap().cost = 3;
    assert_eq!(state.use_weapon(0, 0), USE_INVALID_POSITION);
    state.weapon_specs.get_mut(&1).unwrap().max_uses = 0;
    assert_eq!(state.use_weapon(0, FAR), USE_MAX_USES);
    assert!(journal(&state).is_empty());
    assert_eq!(state.fighters[1].life, 500);
    assert_eq!(state.fighters[0].tp(), 20);
}

#[test]
fn the_fallen_leave_the_board_and_the_order() {
    let mut state = duel();
    state.fighters[1].life = 15;
    assert_eq!(state.use_weapon(0, FAR), USE_SUCCESS);
    assert!(state.fighters[1].is_dead());
    assert_eq!(state.fighters[1].cell, None);
    assert_eq!(state.entity_on(FAR), None);
    assert_eq!(state.order.fids(), &[0]);
    assert!(journal(&state).contains(&json("[5, 1, 0]")));
    assert!(state.is_finished());
}

#[test]
fn a_chip_heals_and_cools_down() {
    let mut state = with_chip(chip(4, 3, vec![line(EffectType::Heal, 20.0, 0)]));
    state.fighters[0].base_stats.set(STAT_WISDOM, 50);
    state.fighters[0].life = 100;
    assert_eq!(state.use_chip(0, NEAR, 4), USE_SUCCESS);
    assert_eq!(state.fighters[0].life, 130);
    assert_eq!(state.chip_cooldown(0, 4), 3);
    assert_eq!(state.use_chip(0, NEAR, 4), USE_INVALID_COOLDOWN);
    assert_eq!(journal(&state)[0], json("[12, 4, 306, 1]"));
}

#[test]
fn healing_stops_at_the_total() {
    let mut state = with_chip(chip(4, 0, vec![line(EffectType::Heal, 20.0, 0)]));
    state.fighters[0].life = 495;
    assert_eq!(state.use_chip(0, NEAR, 4), USE_SUCCESS);
    assert_eq!(state.fighters[0].life, 500);
}

#[test]
fn shields_buffs_and_shackles_change_the_characteristics() {
    let mut state = with_chip(chip(
        5,
        0,
        vec![
            line(EffectType::AbsoluteShield, 25.0, 3),
            line(EffectType::BuffStrength, 30.0, 3),
        ],
    ));
    assert_eq!(state.use_chip(0, FAR, 5), USE_SUCCESS);
    assert_eq!(state.fighters[1].stat(STAT_ABSOLUTE_SHIELD), 25);
    assert_eq!(state.fighters[1].stat(STAT_STRENGTH), 130);
    assert_eq!(state.fighters[1].effects.len(), 2);
    assert_eq!(state.fighters[0].launched_effects.len(), 2);

    let mut state = with_chip(chip(6, 0, vec![line(EffectType::ShackleStrength, 40.0, 2)]));
    assert_eq!(state.use_chip(0, FAR, 6), USE_SUCCESS);
    assert_eq!(state.fighters[1].stat(STAT_STRENGTH), 60);
    state.remove_shackles(1);
    assert_eq!(state.fighters[1].stat(STAT_STRENGTH), 100);
}

#[test]
fn poison_acts_when_the_turn_begins() {
    let mut state = with_chip(chip(7, 0, vec![line(EffectType::Poison, 30.0, 2)]));
    assert_eq!(state.use_chip(0, FAR, 7), USE_SUCCESS);
    assert_eq!(state.fighters[1].life, 500);
    state.end_entity_turn(0);
    state.end_turn();
    state.begin_turn();
    assert_eq!(state.fighters[1].life, 470);
    assert_eq!(state.fighters[1].total_life, 497);
    assert!(journal(&state).contains(&json("[110, 1, 30, 3]")));
    state.clear_poisons(1);
    assert!(state.fighters[1].effects.is_empty());
}

#[test]
fn effects_can_be_reduced() {
    let mut state = with_chip(chip(5, 0, vec![line(EffectType::BuffStrength, 30.0, 3)]));
    assert_eq!(state.use_chip(0, FAR, 5), USE_SUCCESS);
    state.reduce_effects(1, 50);
    assert_eq!(state.fighters[1].stat(STAT_STRENGTH), 115);
    state.reduce_effects_total(1, 100);
    assert_eq!(state.fighters[1].stat(STAT_STRENGTH), 100);
}

#[test]
fn effects_end_with_their_turns() {
    let mut state = with_chip(chip(5, 0, vec![line(EffectType::BuffStrength, 30.0, 1)]));
    assert_eq!(state.use_chip(0, FAR, 5), USE_SUCCESS);
    for fid in [0, 1] {
        state.begin_turn();
        state.end_entity_turn(fid);
        state.end_turn();
    }
    state.begin_turn();
    assert_eq!(state.fighters[1].stat(STAT_STRENGTH), 100);
}

#[test]
fn pushing_stops_in_front_of_an_obstacle() {
    let mut state = duel();
    state.place_entity(1, FAR);
    state.slide_entity(1, 342);
    assert_eq!(state.fighters[1].cell, Some(342));
    assert_eq!(state.entity_on(FAR), None);
    assert_eq!(state.entity_on(342), Some(1));
    state.teleport_entity(0, 0);
    assert_eq!(state.entity_on(0), Some(0));
    assert_eq!(state.entity_on(NEAR), None);
    state.invert_entities(0, 1);
    assert_eq!(state.entity_on(0), Some(1));
    assert_eq!(state.entity_on(342), Some(0));
}

#[test]
fn nobody_moves_who_is_pinned() {
    let mut state = duel();
    state.fighters[1].states = vec![EntityState::Static];
    state.slide_entity(1, 342);
    assert_eq!(state.fighters[1].cell, Some(FAR));
}

fn bulb() -> BulbTemplate {
    BulbTemplate {
        id: 1,
        name: "puny_bulb".to_string(),
        life: (50, 300),
        strength: (0, 50),
        wisdom: (0, 0),
        agility: (0, 100),
        resistance: (0, 100),
        science: (0, 0),
        magic: (0, 0),
        tp: (4, 7),
        mp: (3, 5),
        chips: vec![21],
    }
}

fn summoner() -> State {
    let mut state = with_chip(chip(73, 0, vec![line(EffectType::Summon, 1.0, 0)]));
    state.bulb_templates.insert(1, bulb());
    state
}

#[test]
fn a_summoned_bulb_is_half_grown_at_half_the_levels() {
    let mut state = summoner();
    let (result, bulb) = state.summon_entity(0, 288, 73, None);
    assert_eq!(result, USE_SUCCESS);
    assert_eq!(bulb, Some(2));
    let b = &state.fighters[2];
    assert_eq!(b.life, 175);
    assert_eq!(b.stat(STAT_STRENGTH), 25);
    assert_eq!(b.tp(), 5);
    assert_eq!(b.mp(), 4);
    assert_eq!(b.summoner, Some(0));
    assert_eq!(b.team, 0);
    assert_eq!(b.level, 3);
    assert_eq!(b.cell, Some(288));
    assert_eq!(state.order.fids(), &[0, 2, 1]);
    assert_eq!(state.entity_on(288), Some(2));
    assert!(journal(&state).contains(&json("[9, 0, 2, 288, 1]")));
}

#[test]
fn a_summon_needs_room_and_a_free_place() {
    let mut state = summoner();
    assert_eq!(
        state.summon_entity(0, FAR, 73, None),
        (USE_INVALID_POSITION, None)
    );
    for i in 0..8 {
        let mut b = leek(100 + i, "bulb", 0, 100);
        b.summoner = Some(0);
        state.add_entity(0, b);
    }
    assert_eq!(
        state.summon_entity(0, 288, 73, None),
        (USE_TOO_MANY_SUMMONS, None)
    );
}

#[test]
fn only_the_dead_can_be_brought_back() {
    let mut state = with_chip(chip(84, 0, vec![line(EffectType::Resurrect, 0.0, 0)]));
    assert_eq!(
        state.resurrect_entity(0, 288, 84, 1, false),
        USE_INVALID_TARGET
    );
    state.fighters[1].life = 15;
    assert_eq!(state.use_weapon(0, FAR), USE_SUCCESS);
    assert!(state.fighters[1].is_dead());
    assert_eq!(state.resurrect_entity(0, 288, 84, 1, false), USE_SUCCESS);
    assert!(!state.fighters[1].is_dead());
    assert_eq!(state.fighters[1].cell, Some(288));
    assert!(state.order.fids().contains(&1));
}

#[test]
fn a_fight_of_idlers_ends_in_a_draw() {
    let mut runner = idle_fight();
    let mut turns = 0;
    while runner.goes_on() {
        let turn = runner.open_turn();
        if let Turn::Entity(fid) = turn {
            runner.charge_entity(fid, 5);
        }
        turns += 1;
        if runner.close_turn(turn) != Going::On {
            break;
        }
    }
    assert_eq!(turns, 128);
    runner.conclude();
    let report = runner.report(&[100, 200]);
    assert_eq!(report["winner"], json("-1"));
    assert_eq!(report["duration"], json("65"));
    assert_eq!(report["fight"]["ops"], json("{\"0\": 320, \"1\": 320}"));
    assert_eq!(report["fight"]["dead"], json("{\"11\": false, \"12\": false}"));
    assert_eq!(report["fight"]["leeks"].as_array().unwrap().len(), 2);
    assert_eq!(report["logs"], json("{\"100\": {}, \"200\": {}}"));
}

fn idle_fight() -> Runner {
    let mut state = State::new(1);
    state.add_entity(0, leek(11, "A", 0, 100));
    state.add_entity(1, leek(12, "B", 1, 200));
    state.init(&[double(1.0), double(1.0)]);
    state.record_initial_state();
    Runner::new(state)
}

#[test]
fn equal_seeds_replay_equal_fights() {
    let reports: Vec<Value> = (0..2)
        .map(|_| {
            let mut runner = idle_fight();
            while runner.goes_on() {
                let turn = runner.open_turn();
                if let Turn::Entity(fid) = turn {
                    let enemy = answer_int(&call_official_builtin(
                        &mut runner.state,
                        fid,
                        "getNearestEnemy",
                        &[],
                    ));
                    call_official_builtin(&mut runner.state, fid, "moveToward", &[num(enemy)]);
                }
                if runner.close_turn(turn) != Going::On {
                    break;
                }
            }
            runner.conclude();
            runner.report(&[100])
        })
        .collect();
    assert_eq!(reports[0], reports[1]);
}

#[test]
fn set_loadout_unknown_name_warns_through_hook() {
    let mut state = State::new(1);
    state.add_entity(0, leek(11, "A", 0, 100));
    state.add_entity(1, leek(12, "B", 1, 200));
    state.init(&[double(1.0), double(1.0)]);
    let mut runner = Runner::new(state);
    runner.enter_phase(HookPhase::BeforeFight);
    let asked = call_official_builtin(&mut runner.state, 0, "setLoadout", &[words("ghost")]);
    let Answer::Loadout(name, change_stats) = asked else {
        panic!("expected a loadout, got {asked:?}");
    };
    assert_eq!(name, "ghost");
    let choice = runner
        .state
        .wear_loadout(0, &name, change_stats, None, KEYS);
    assert!(!choice.worn);
    runner.enter_phase(HookPhase::NoHook);
    runner.state.record_initial_state();
    runner.conclude();
    let report = runner.report(&[100]);
    let entries: Vec<Value> = report["logs"]["100"]
        .as_object()
        .unwrap()
        .values()
        .flat_map(|list| list.as_array().unwrap().clone())
        .collect();
    assert!(entries.iter().any(|e| e[3] == json("1006")));
    assert_eq!(report["fight"]["leeks"][0]["life"], json("500"));
}

#[test]
fn a_denied_action_is_told_to_the_farmer() {
    let mut state = duel();
    state.hook_phase = HookPhase::AfterFight;
    assert_eq!(
        answer_int(&call_official_builtin(&mut state, 0, "useWeapon", &[num(1)])),
        i64::from(USE_INVALID_TARGET)
    );
    let told: Vec<Value> = state.farmer_logs[&100].values().flatten().cloned().collect();
    assert!(told.iter().any(|e| e[3] == json("1008")));
    assert_eq!(state.fighters[1].life, 500);
}

#[test]
fn errors_of_programs_are_written_down() {
    let codes = ErrorCodes {
        log_type: 8,
        too_much_operations: 1,
        array_out_of_bound: 2,
        stack_overflow: 3,
        interrupted: 4,
    };
    let mut state = duel();
    state.log_ai_error(0, 0, &run_result_of("TOO_MUCH_OPERATIONS"), codes);
    assert_eq!(journal(&state), vec![json("[1002, 0]")]);
    let told: Vec<Value> = state.farmer_logs[&100].values().flatten().cloned().collect();
    assert_eq!(told[0], json("[0, 8, \"\", 1, [null]]"));
    assert_eq!(told[1], json("[0, 6, \"\", 113, [\"too_much_ops\"]]"));
    state.log_ai_error(1, 0, &run_result_of("STACKOVERFLOW"), codes);
    state.log_ai_error(1, 0, &run_result_of("ARRAY_OUT_OF_BOUND"), codes);
    state.log_ai_error(1, 0, &run_result_of("OTHER"), codes);
    state.log_ai_error(1, 0, &RunResult::Done, codes);
    let told: Vec<Value> = state.farmer_logs[&100].values().flatten().cloned().collect();
    assert_eq!(told[2], json("[0, 8, \"\", 3, []]"));
    assert_eq!(told[3], json("[0, 8, \"\", 2, [null]]"));
    assert_eq!(told[4], json("[0, 8, \"\", 4, [\"OTHER\"]]"));
    assert_eq!(told.len(), 5);
    assert_eq!(harvested_ops(&RunResult::Done, 7), 7);
    assert_eq!(harvested_ops(&RunResult::NotRun("x".to_string()), 7), 0);
}

#[test]
fn a_bulb_and_its_owner_share_one_budget() {
    assert_eq!(fight_op_limit(0), 0);
    assert_eq!(fight_op_limit(20_000_000), 19_999_999);
    assert_eq!(bulb_op_limit(99, 40), 59);
    assert_eq!(bulb_op_limit(99, 100), 0);
    assert_eq!(hook_op_limit(99), 1_000_099);
}

#[test]
fn an_unknown_chip_is_refused() {
    let mut state = duel();
    assert_eq!(
        answer_int(&call_official_builtin(&mut state, 0, "useChip", &[num(4), num(1)])),
        i64::from(USE_INVALID_TARGET)
    );
    assert_ne!(USE_FAILED, USE_INVALID_TARGET);
}

#[test]
fn a_fighter_is_healed_up_to_its_total() {
    let mut state = duel();
    state.fighters[1].life = 400;
    state.add_life(1, 60);
    assert_eq!(state.fighters[1].life, 460);
    state.add_life(1, -5);
    assert_eq!(state.fighters[1].life, 460);
    state.add_life(1, 60);
    assert_eq!(state.fighters[1].life, 500);
}

#[test]
fn a_refusal_comes_before_what_is_not_modelled() {
    let mut state = with_chip(chip(84, 5, vec![line(EffectType::Resurrect, 0.0, 0)]));
    let used = |state: &mut State, cell: usize| {
        call_official_builtin(state, 0, "useChipOnCell", &[num(84), num(cell as i64)])
    };
    state.chip_specs.get_mut(&84).unwrap().cost = 21;
    assert_eq!(
        answer_int(&used(&mut state, FAR)),
        i64::from(USE_NOT_ENOUGH_TP)
    );
    state.chip_specs.get_mut(&84).unwrap().cost = 2;
    assert_eq!(answer_int(&used(&mut state, 288)), i64::from(USE_SUCCESS));
    assert!(!state.unmodelled, "nobody stands on the cell");
    assert_eq!(
        answer_int(&used(&mut state, FAR)),
        i64::from(USE_INVALID_COOLDOWN)
    );
    let mut state = with_chip(chip(84, 5, vec![line(EffectType::Resurrect, 0.0, 0)]));
    assert!(matches!(used(&mut state, FAR), Answer::Unsupported));
    assert!(state.unmodelled);
}

#[test]
fn a_weapon_that_strikes_with_an_unknown_effect_is_not_modelled() {
    let mut state = duel();
    state.weapon_specs.insert(
        1,
        weapon(
            1,
            vec![
                line(EffectType::Damage, 10.0, 0),
                line(EffectType::MovedToMp, 1.0, 1),
            ],
        ),
    );
    let answer = call_official_builtin(&mut state, 0, "useWeapon", &[num(1)]);
    assert!(matches!(answer, Answer::Unsupported));
    let mut state = duel();
    state
        .weapon_specs
        .insert(1, weapon(1, vec![line(EffectType::AddState, 12.0, 1)]));
    assert_eq!(state.use_weapon(0, FAR), USE_SUCCESS);
    assert!(state.unmodelled, "there is no state of this number");
}

#[test]
fn a_refused_summon_is_told_even_of_an_unknown_bulb() {
    let mut state = with_chip(chip(73, 0, vec![line(EffectType::Summon, 9.0, 0)]));
    assert_eq!(
        state.summon_entity(0, FAR, 73, None),
        (USE_INVALID_POSITION, None)
    );
    let on = |state: &mut State, cell: usize| {
        call_official_builtin(state, 0, "useChipOnCell", &[num(73), num(cell as i64)])
    };
    assert_eq!(
        answer_int(&on(&mut state, FAR)),
        i64::from(USE_INVALID_POSITION)
    );
    let told = |state: &State| state.farmer_logs[&100].values().flatten().count();
    assert_eq!(told(&state), 2, "the bulb would have no program");
    assert!(matches!(on(&mut state, 288), Answer::Unsupported));
    assert_eq!(told(&state), 4);
    assert_eq!(state.fighters.len(), 2);
}

#[test]
fn a_range_of_any_length_is_searched() {
    let mut state = with_chip(chip(4, 0, vec![line(EffectType::Heal, 20.0, 0)]));
    let from = |state: &mut State| {
        call_official_builtin(state, 0, "getCellToUseChip", &[num(4), num(1)])
    };
    state.chip_specs.get_mut(&4).unwrap().max_range = i32::MIN;
    assert_eq!(answer_int(&from(&mut state)), -1);
    state.chip_specs.get_mut(&4).unwrap().max_range = i32::MAX;
    assert_eq!(answer_int(&from(&mut state)), NEAR as i64);
    state.map.cells[FAR].walkable = false;
    assert_eq!(answer_int(&from(&mut state)), -1);
    state.map.cells[FAR].walkable = true;
    let spec = state.chip_specs.get_mut(&4).unwrap();
    spec.launch_type = 1;
    spec.max_range = 2000;
    assert_eq!(answer_int(&from(&mut state)), NEAR as i64);
}

#[test]
fn what_a_loadout_lacks_is_told_to_the_farmer() {
    let mut state = duel();
    state.hook_phase = HookPhase::BeforeFight;
    let facts = |differs, potion| Some(LoadoutFacts { differs, potion });
    let told = |state: &State, key: &str| {
        let entries = state.farmer_logs.get(&100);
        entries.is_some_and(|log| log.values().flatten().any(|e| e[3] == json(key)))
    };
    let choice = state.wear_loadout(0, "axe", true, facts(true, true), KEYS);
    assert!(choice.worn && choice.stats && !told(&state, "1101"));
    let choice = state.wear_loadout(0, "axe", false, facts(true, false), KEYS);
    assert!(choice.worn && !choice.stats && !told(&state, "1101"));
    let choice = state.wear_loadout(0, "axe", true, facts(true, false), KEYS);
    assert!(choice.worn && !choice.stats && told(&state, "1101"));
    state.loadout_worn(0, "axe", false, KEYS);
    assert!(!told(&state, "1102"));
    state.loadout_worn(0, "axe", true, KEYS);
    assert!(told(&state, "1102"));
}

#[test]
fn a_slide_off_the_board_is_not_modelled() {
    let mut lost = 0;
    for place in 500..560 {
        for cell in 560..613 {
            let mut state = with_chip(chip(5, 0, vec![line(EffectType::Push, 0.0, 0)]));
            let spec = state.chip_specs.get_mut(&5).unwrap();
            spec.area = Area::Circle3;
            spec.max_range = 40;
            spec.needs_los = false;
            state.place_entity(1, place);
            let args = [num(5), num(cell as i64)];
            let answer = call_official_builtin(&mut state, 0, "useChipOnCell", &args);
            assert_eq!(matches!(answer, Answer::Unsupported), state.unmodelled);
            if state.unmodelled {
                assert_eq!(state.fighters[1].cell, Some(place));
                lost += 1;
            }
        }
    }
    assert!(lost > 0);
}
