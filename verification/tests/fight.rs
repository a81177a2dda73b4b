use leek_game::args::{Answer, Arg, ArgKind};
use leek_game::chips::Chip;
use leek_game::effects::{ActiveEffect, Effect, EffectKind, Stat, TARGET_ALL};
use leek_game::entity::Entity;
use leek_game::fight::Fight;
use leek_game::game::{call_game_builtin, is_game_builtin};
use leek_game::number::Real;
use leek_game::rounds::{Outcome, Rounds, Step};
use leek_game::weapons::Weapon;

const WEAPON_PISTOL: i64 = 37;
const WEAPON_GRENADE_LAUNCHER: i64 = 43;
const WEAPON_M_LASER: i64 = 47;
const CHIP_CURE: i64 = 4;
const CHIP_PROTEIN: i64 = 8;
const CHIP_SPARK: i64 = 18;
const CHIP_ARMOR: i64 = 22;
const CHIP_REGENERATION: i64 = 35;
const CHIP_RESURRECTION: i64 = 84;
const CHIP_TRANQUILIZER: i64 = 94;
const CHIP_VENOM: i64 = 97;
const CHIP_FRACTURE: i64 = 106;
const CHIP_ANTIDOTE: i64 = 110;

fn double(x: f64) -> Real {
    Real::from_bits(x.to_bits()).unwrap()
}

fn effect(id: u8, value1: f64, value2: f64, turns: i64) -> Effect {
    Effect::from_upstream(id, double(value1), double(value2), turns, TARGET_ALL, 0)
}

fn weapon(item: i64, cost: i64, range: (i64, i64), area: i64, roll: (f64, f64)) -> Weapon {
    Weapon {
        item,
        name: format!("weapon {item}"),
        cost,
        min_range: range.0,
        max_range: range.1,
        launch_type: 7,
        area,
        los: true,
        cooldown: 0,
        max_uses: 0,
        effects: vec![effect(1, roll.0, roll.1, 0)],
    }
}

fn chip(item: i64, cost: i64, range: (i64, i64), cooldown: i64, line: Effect) -> Chip {
    Chip {
        item,
        name: format!("chip {item}"),
        cost,
        min_range: range.0,
        max_range: range.1,
        launch_type: 7,
        area: 1,
        los: true,
        cooldown,
        initial_cooldown: 0,
        team_cooldown: false,
        max_uses: 0,
        effects: vec![line],
    }
}

fn weapons() -> Vec<Weapon> {
    vec![
        weapon(WEAPON_PISTOL, 3, (1, 7), 1, (15.0, 5.0)),
        weapon(WEAPON_GRENADE_LAUNCHER, 6, (4, 7), 4, (45.0, 8.0)),
        weapon(WEAPON_M_LASER, 8, (5, 12), 1, (90.0, 10.0)),
    ]
}

fn chips() -> Vec<Chip> {
    vec![
        chip(CHIP_CURE, 4, (0, 5), 2, effect(2, 35.0, 8.0, 0)),
        chip(CHIP_PROTEIN, 3, (0, 4), 3, effect(3, 80.0, 20.0, 2)),
        chip(CHIP_SPARK, 3, (0, 10), 0, effect(1, 8.0, 8.0, 0)),
        chip(CHIP_ARMOR, 6, (0, 4), 5, effect(6, 25.0, 0.0, 4)),
        chip(CHIP_REGENERATION, 8, (0, 3), 5, effect(2, 50.0, 0.0, 3)),
        chip(CHIP_RESURRECTION, 15, (1, 2), 15, effect(15, 0.0, 0.0, 0)),
        chip(CHIP_TRANQUILIZER, 3, (1, 8), 1, effect(19, 20.0, 5.0, 1)),
        chip(CHIP_VENOM, 4, (0, 10), 2, effect(13, 15.0, 5.0, 3)),
        chip(CHIP_FRACTURE, 4, (1, 10), 3, effect(26, 20.0, 5.0, 2)),
        chip(CHIP_ANTIDOTE, 3, (0, 4), 4, effect(23, 0.0, 0.0, 0)),
    ]
}

fn num(n: i64) -> Arg {
    Arg {
        kind: ArgKind::Number,
        long: n,
        text: n.to_string(),
        truthy: n != 0,
        items: Vec::new(),
        function: 0,
    }
}

fn words(s: &str) -> Arg {
    Arg {
        kind: ArgKind::Text,
        long: 0,
        text: s.to_string(),
        truthy: !s.is_empty(),
        items: Vec::new(),
        function: 0,
    }
}

fn shown(answer: &Answer) -> String {
    match answer {
        Answer::Null => "null".to_string(),
        Answer::Bool(b) => b.to_string(),
        Answer::Int(n) => n.to_string(),
        Answer::Distance(_) => "-1".to_string(),
        Answer::Hypotenuse(a, b) => (*a as f64).hypot(*b as f64).to_string(),
        Answer::Text(s) => s.clone(),
        Answer::List(list) => format!("{list:?}"),
        other => format!("{other:?}"),
    }
}

fn run(f: &mut Fight, name: &str, args: &[i64]) -> String {
    let args: Vec<Arg> = args.iter().map(|&n| num(n)).collect();
    shown(&call_game_builtin(f, name, &args, &weapons(), &chips()))
}

fn entity(id: i64, name: &str, cell: i64, team: i64) -> Entity {
    Entity::new(id, name.to_string(), cell, team)
}

fn arena(bot: Entity, foe: Entity) -> Fight {
    Fight::new(10, 10, 1).with_entity(bot).with_entity(foe)
}

fn poisoned(mut e: Entity, value: i64, turns: i64) -> Entity {
    e.effects
        .push(ActiveEffect::injected(EffectKind::Poison, value, turns));
    e
}

/// Runs a fight in which the programs are functions of the fight.
fn run_fight(f: &mut Fight, max_turns: u32, program: &dyn Fn(&mut Fight, i64)) -> Outcome {
    let mut rounds = Rounds::new(max_turns);
    while let Step::Run(id) = rounds.advance(f) {
        program(f, id);
        if rounds.settle(f, id, None) {
            break;
        }
    }
    rounds.outcome(f)
}

#[test]
fn layer_queries_and_map() {
    let mut f = arena(entity(1, "Bot", 0, 0), entity(2, "Foe", 33, 1));
    assert_eq!(run(&mut f, "getEntity", &[]), "1");
    assert_eq!(run(&mut f, "getCellX", &[33]), "3");
    assert_eq!(run(&mut f, "getCell", &[]), "0");
    assert_eq!(run(&mut f, "getCell", &[2]), "33");
    assert_eq!(run(&mut f, "getCellDistance", &[0, 33]), "6");
    assert_eq!(run(&mut f, "isOnSameLine", &[0, 33]), "true");
}

#[test]
fn layer_actions_move_and_say() {
    let mut f = arena(
        entity(1, "Bot", 0, 0).with_points(5, 10),
        entity(2, "Foe", 33, 1),
    );
    run(&mut f, "moveTowardCell", &[33, 3]);
    let cell = f.cell(1).unwrap();
    assert_eq!(run(&mut f, "getCellDistance", &[cell, 33]), "3");
    call_game_builtin(&mut f, "say", &[words("engaging")], &[], &[]);
    assert_eq!(
        f.log().last().map(|(_, m)| m.clone()),
        Some("engaging".to_string())
    );
}

#[test]
fn weapon_damage_formula() {
    let mut f = arena(
        entity(1, "Bot", 0, 0).with_weapon(WEAPON_PISTOL),
        entity(2, "Foe", 33, 1),
    );
    assert_eq!(run(&mut f, "useWeapon", &[2]), "1");
    let life = f.life(2).unwrap();
    assert!(
        (80..=85).contains(&life),
        "str-0 pistol left {life}, expected 80..=85"
    );

    let mut f = arena(
        entity(1, "Bot", 0, 0)
            .with_weapon(WEAPON_PISTOL)
            .with_strength(100),
        entity(2, "Foe", 33, 1),
    );
    run(&mut f, "useWeapon", &[2]);
    let life = f.life(2).unwrap();
    assert!(
        (60..=70).contains(&life),
        "str-100 pistol left {life}, expected 60..=70"
    );
}

#[test]
fn shields_reduce_damage() {
    let mut f = arena(
        entity(1, "Bot", 0, 0).with_weapon(WEAPON_PISTOL),
        entity(2, "Foe", 33, 1).with_shields(0, 10),
    );
    run(&mut f, "useWeapon", &[2]);
    let life = f.life(2).unwrap();
    assert!(
        (90..=95).contains(&life),
        "shielded foe left {life}, expected 90..=95"
    );
}

#[test]
fn use_rules_range_and_tp() {
    let mut f = arena(
        entity(1, "Bot", 0, 0)
            .with_weapon(WEAPON_M_LASER)
            .with_points(5, 12),
        entity(2, "Foe", 11, 1),
    );
    assert_eq!(run(&mut f, "useWeapon", &[2]), "-1");

    let mut f = arena(
        entity(1, "Bot", 0, 0)
            .with_weapon(WEAPON_PISTOL)
            .with_points(5, 2),
        entity(2, "Foe", 33, 1),
    );
    assert_eq!(run(&mut f, "useWeapon", &[2]), "-2");

    let mut f = arena(entity(1, "Bot", 0, 0), entity(2, "Foe", 33, 1));
    assert_eq!(run(&mut f, "useWeapon", &[2]), "0");
}

#[test]
fn stat_getters() {
    let bot = entity(1, "Bot", 0, 0).with_magic_stats(40, 30, 20, 50);
    let mut f = arena(bot, entity(2, "Foe", 33, 1));
    assert_eq!(run(&mut f, "getWisdom", &[]), "40");
    assert_eq!(run(&mut f, "getResistance", &[]), "30");
    assert_eq!(run(&mut f, "getScience", &[]), "20");
    assert_eq!(run(&mut f, "getMagic", &[]), "50");
}

#[test]
fn chip_damage_and_heal() {
    let mut f = arena(entity(1, "Bot", 0, 0), entity(2, "Foe", 33, 1));
    assert_eq!(run(&mut f, "useChip", &[CHIP_SPARK, 2]), "1");
    let life = f.life(2).unwrap();
    assert!(
        (84..=92).contains(&life),
        "spark left {life}, expected 84..=92"
    );

    let mut f = arena(
        entity(1, "Bot", 0, 0)
            .with_life(150)
            .with_magic_stats(100, 0, 0, 0),
        entity(2, "Foe", 33, 1),
    );
    f.deal_damage(1, 100);
    run(&mut f, "useChip", &[CHIP_CURE, 1]);
    let life = f.life(1).unwrap();
    assert!(
        (120..=136).contains(&life),
        "cure left {life}, expected 120..=136"
    );
}

#[test]
fn chip_shield_and_buff() {
    let mut f = arena(
        entity(1, "Bot", 0, 0).with_magic_stats(0, 100, 0, 0),
        entity(2, "Foe", 33, 1),
    );
    run(&mut f, "useChip", &[CHIP_ARMOR, 1]);
    assert_eq!(run(&mut f, "getAbsoluteShield", &[]), "50");

    let mut f = arena(entity(1, "Bot", 0, 0), entity(2, "Foe", 33, 1));
    run(&mut f, "useChip", &[CHIP_PROTEIN, 1]);
    let str_after = run(&mut f, "getStrength", &[]).parse::<i64>().unwrap();
    assert!(
        (80..=100).contains(&str_after),
        "protein gave strength {str_after}, expected 80..=100"
    );
}

#[test]
fn poison_over_time() {
    let foe = poisoned(entity(2, "Foe", 33, 1).with_life(25), 10, 3);
    let mut f = arena(entity(1, "Bot", 0, 0), foe);
    let outcome = run_fight(&mut f, 10, &|_, _| {});
    assert!(f.life(2).unwrap() <= 0, "poison should kill the foe");
    assert_eq!(outcome.winner_team, Some(0));
}

#[test]
fn critical_hits() {
    let mut bot = entity(1, "Bot", 0, 0).with_weapon(WEAPON_PISTOL);
    bot.agility = 1000;
    let mut f = arena(bot, entity(2, "Foe", 33, 1));
    assert_eq!(run(&mut f, "useWeapon", &[2]), "2");
    let life = f.life(2).unwrap();
    assert!(
        (74..=81).contains(&life),
        "crit pistol left {life}, expected 74..=81"
    );
}

#[test]
fn life_steal_and_erosion() {
    let mut f = arena(
        entity(1, "Bot", 0, 0)
            .with_weapon(WEAPON_PISTOL)
            .with_life(150)
            .with_magic_stats(1000, 0, 0, 0),
        entity(2, "Foe", 33, 1),
    );
    f.deal_damage(1, 100);
    run(&mut f, "useWeapon", &[2]);
    let bot = f.life(1).unwrap();
    assert!(
        (65..=70).contains(&bot),
        "life-steal left bot at {bot}, expected 65..=70"
    );
    assert_eq!(run(&mut f, "getTotalLife", &[2]), "99");
}

#[test]
fn damage_return() {
    let bot = entity(1, "Bot", 0, 0)
        .with_weapon(WEAPON_PISTOL)
        .with_life(150);
    let mut foe = entity(2, "Foe", 33, 1);
    foe.damage_return = 50;
    let mut f = arena(bot, foe);
    run(&mut f, "useWeapon", &[2]);
    let bot = f.life(1).unwrap();
    assert!(
        (140..=143).contains(&bot),
        "return damage left bot at {bot}, expected 140..=143"
    );
}

#[test]
fn buff_any_stat() {
    let mut bot = entity(1, "Bot", 0, 0);
    bot.effects
        .push(ActiveEffect::injected(EffectKind::Buff(Stat::Agility), 30, 5));
    let mut f = arena(bot, entity(2, "Foe", 33, 1));
    assert_eq!(run(&mut f, "getAgility", &[]), "30");
}

#[test]
fn poison_via_venom() {
    let mut f = arena(entity(1, "Bot", 0, 0), entity(2, "Foe", 33, 1));
    run(&mut f, "useChip", &[CHIP_VENOM, 2]);
    f.tick_effects(2);
    let life = f.life(2).unwrap();
    assert!(
        (80..=85).contains(&life),
        "after 1 poison tick foe at {life}, expected 80..=85"
    );
}

#[test]
fn vulnerability_via_fracture() {
    let mut f = arena(entity(1, "Bot", 0, 0), entity(2, "Foe", 33, 1));
    run(&mut f, "useChip", &[CHIP_FRACTURE, 2]);
    let rel = f.relative_shield(2);
    assert!(
        (-25..=-20).contains(&rel),
        "fracture gave relative shield {rel}, expected -25..=-20"
    );
}

#[test]
fn regeneration_over_time() {
    let mut f = arena(
        entity(1, "Bot", 0, 0).with_life(150),
        entity(2, "Foe", 33, 1),
    );
    f.deal_damage(1, 100);
    run(&mut f, "useChip", &[CHIP_REGENERATION, 1]);
    f.tick_effects(1);
    assert_eq!(f.life(1), Some(100));
}

#[test]
fn shackle_via_tranquilizer() {
    let mut f = arena(entity(1, "Bot", 0, 0), entity(2, "Foe", 33, 1));
    run(&mut f, "useChip", &[CHIP_TRANQUILIZER, 2]);
    let s = f.stat(2, Stat::Strength).unwrap();
    assert!(
        (-25..=-20).contains(&s),
        "tranquilizer gave strength {s}, expected -25..=-20"
    );
}

#[test]
fn antidote_clears_poison() {
    let bot = poisoned(entity(1, "Bot", 0, 0), 10, 5);
    let mut f = arena(bot, entity(2, "Foe", 33, 1));
    run(&mut f, "useChip", &[CHIP_ANTIDOTE, 1]);
    f.tick_effects(1);
    assert_eq!(
        f.life(1),
        Some(100),
        "antidote should have removed the poison"
    );
}

/// The chip of this test brings its target back, and then to its old strength.
#[test]
fn resurrect_a_dead_entity() {
    let mut row = chip(CHIP_RESURRECTION, 15, (1, 2), 15, effect(15, 0.0, 0.0, 0));
    row.effects.push(effect(12, 75.0, 0.0, 0));
    let mut f = Fight::new(10, 10, 1)
        .with_entity(entity(1, "Bot", 0, 0).with_points(5, 20))
        .with_entity(entity(2, "Foe", 11, 1));
    f.deal_damage(2, 999);
    assert_eq!(f.life(2), Some(0));
    let args = [num(CHIP_RESURRECTION), num(2)];
    call_game_builtin(&mut f, "useChip", &args, &[], &[row]);
    assert_eq!(f.life(2), Some(100), "resurrection should revive the foe");
}

#[test]
fn a_grid_without_lengths_has_no_coordinates() {
    let mut f = Fight::new(-3, 4, 1).with_entity(entity(1, "Bot", -2, 0));
    assert_eq!(run(&mut f, "getCellX", &[1]), "null");
    assert_eq!(run(&mut f, "getCellFromXY", &[0, 0]), "null");
    assert_eq!(run(&mut f, "getPath", &[0, 1]), "null");
    assert_eq!(run(&mut f, "moveTowardCell", &[1]), "0");
    let mut f = Fight::new(-3, -4, 1).with_entity(entity(1, "Bot", 0, 0));
    assert_eq!(run(&mut f, "getCellX", &[5]), "2");
    assert_eq!(run(&mut f, "getCellY", &[5]), "-1");
    assert_eq!(run(&mut f, "getCellFromXY", &[2, 1]), "null");
    assert_eq!(run(&mut f, "getPath", &[0, 1]), "null");
}

#[test]
fn a_grid_is_as_long_as_its_cells_can_be_counted() {
    let long = i64::MAX;
    let mut f = Fight::new(long, 1, 1)
        .with_entity(entity(1, "Bot", 0, 0).with_points(3, 0))
        .with_entity(entity(2, "Foe", i64::MIN, 1).with_points(3, 0));
    assert_eq!(f.cell_x(long - 1), Some(long - 1));
    assert_eq!(f.cell_x(long), None);
    assert_eq!(f.manhattan(0, long - 1), long - 1);
    assert_eq!(f.move_toward(1, long - 1, 9, false), 3);
    assert_eq!(f.cell(1), Some(3));
    assert_eq!(f.move_toward(2, long - 1, 9, false), 0);
    let tall = Fight::new(1, long, 1).with_obstacle(2);
    assert_eq!(tall.cell_y(long - 1), Some(long - 1));
    assert!(!tall.line_of_sight(0, long - 1));
    assert!(tall.line_of_sight(3, 900));
    let mut f = Fight::new(-1, -4, 1).with_entity(entity(1, "Bot", i64::MIN, 0).with_points(3, 0));
    assert_eq!(f.cell_y(3), Some(-3));
    assert_eq!(f.move_toward(1, 3, 9, false), 0);
}

#[test]
fn an_entity_off_the_grid_walks_onto_it() {
    let mut f = Fight::new(5, 5, 1).with_entity(entity(1, "Bot", -1, 0).with_points(2, 0));
    assert_eq!(f.move_toward(1, 2, 9, false), 2);
    assert_eq!(f.cell(1), Some(1));
}

#[test]
fn a_revived_entity_keeps_half_its_total_and_half_of_that() {
    let mut f = Fight::new(10, 10, 1)
        .with_entity(entity(1, "Bot", 0, 0).with_points(5, 20))
        .with_entity(entity(2, "Foe", 11, 1));
    f.deal_damage(2, 999);
    assert_eq!(f.life(2), Some(0));
    assert_eq!(run(&mut f, "useChip", &[CHIP_RESURRECTION, 2]), "1");
    assert_eq!(f.max_life(2), Some(50));
    assert_eq!(f.life(2), Some(25));
}

#[test]
fn vitality_raises_max_and_heals() {
    let mut f = arena(
        entity(1, "Bot", 0, 0).with_life(100),
        entity(2, "Foe", 33, 1),
    );
    f.grant_vitality(1, 50);
    assert_eq!(f.max_life(1), Some(150));
    assert_eq!(f.life(1), Some(150));
}

#[test]
fn line_of_sight_blocks_attacks() {
    let mut f = Fight::new(10, 10, 1)
        .with_entity(entity(1, "Bot", 0, 0).with_weapon(WEAPON_PISTOL))
        .with_entity(entity(2, "Foe", 33, 1))
        .with_obstacle(22);
    assert_eq!(run(&mut f, "lineOfSight", &[0, 33]), "false");
    assert_eq!(run(&mut f, "lineOfSight", &[0, 3]), "true");
    assert_eq!(run(&mut f, "useWeapon", &[2]), "-3");
    assert_eq!(run(&mut f, "getCellContent", &[22]), "1");
}

#[test]
fn area_of_effect_hits_neighbours() {
    let mut f = Fight::new(10, 10, 1)
        .with_entity(entity(1, "Bot", 0, 0).with_weapon(WEAPON_GRENADE_LAUNCHER))
        .with_entity(entity(2, "FoeA", 33, 1))
        .with_entity(entity(3, "FoeB", 34, 1));
    run(&mut f, "useWeapon", &[2]);
    assert!(f.life(2).unwrap() < 100, "primary target should be hit");
    assert!(
        f.life(3).unwrap() < 100,
        "neighbour should be caught in the blast"
    );
}

#[test]
fn cooldowns_block_reuse() {
    let mut f = arena(
        entity(1, "Bot", 0, 0).with_points(5, 20),
        entity(2, "Foe", 33, 1),
    );
    assert_eq!(run(&mut f, "useChip", &[CHIP_CURE, 1]), "1");
    assert_eq!(run(&mut f, "getCooldown", &[CHIP_CURE]), "2");
    assert_eq!(run(&mut f, "useChip", &[CHIP_CURE, 1]), "-4");
    f.regen(1);
    assert_eq!(run(&mut f, "getCooldown", &[CHIP_CURE]), "1");
}

#[test]
fn pathfinding_around_obstacles() {
    let mut f = Fight::new(5, 5, 1).with_entity(entity(1, "Bot", 0, 0));
    assert_eq!(run(&mut f, "getPathLength", &[0, 2]), "2");
    let mut f = Fight::new(5, 5, 1)
        .with_entity(entity(1, "Bot", 0, 0))
        .with_obstacle(7)
        .with_obstacle(17)
        .with_obstacle(11)
        .with_obstacle(13);
    assert_eq!(run(&mut f, "getPathLength", &[0, 12]), "-1");
    assert_eq!(run(&mut f, "getPath", &[0, 12]), "null");
}

#[test]
fn of_several_shortest_paths_the_first_found_is_taken() {
    let mut f = Fight::new(3, 3, 1);
    assert_eq!(f.current_entity(), 1);
    assert_eq!(run(&mut f, "getPath", &[0, 8]), "[1, 2, 5, 8]");
    assert_eq!(run(&mut f, "getPath", &[8, 0]), "[7, 6, 3, 0]");
    assert_eq!(run(&mut f, "getPath", &[4, 4]), "[]");
    let mut f = Fight::new(3, 3, 1)
        .with_entity(entity(1, "Bot", 4, 0))
        .with_obstacle(2);
    assert_eq!(run(&mut f, "getPath", &[0, 8]), "[3, 6, 7, 8]");
}

#[test]
fn team_and_turn_queries() {
    let mut f = Fight::new(10, 10, 1)
        .with_entity(entity(1, "Bot", 0, 0))
        .with_entity(entity(2, "Ally", 5, 0))
        .with_entity(entity(3, "Foe", 33, 1));
    assert_eq!(run(&mut f, "getEnemies", &[]), "[3]");
    assert_eq!(run(&mut f, "getAllies", &[]), "[2]");
    assert_eq!(run(&mut f, "getEnemiesCount", &[]), "1");
    assert_eq!(run(&mut f, "getNearestEnemy", &[]), "3");

    run_fight(&mut f, 3, &|f, id| {
        if id == 1 {
            let turn = run(f, "getTurn", &[]);
            call_game_builtin(f, "say", &[words(&turn)], &[], &[]);
        }
    });
    assert_eq!(
        f.log().first().map(|(_, m)| m.clone()),
        Some("1".to_string())
    );
}

#[test]
fn turn_loop_to_victory() {
    let mut f = arena(
        entity(1, "Bot", 0, 0)
            .with_weapon(WEAPON_PISTOL)
            .with_strength(100)
            .with_points(5, 12),
        entity(2, "Foe", 33, 1),
    );
    let outcome = run_fight(&mut f, 10, &|f, id| {
        while id == 1 && f.tp(1).unwrap() >= 3 {
            run(f, "useWeapon", &[2]);
        }
    });
    assert_eq!(outcome.winner_team, Some(0));
    assert!(f.life(2).unwrap() <= 0, "foe should be dead");
}

#[test]
fn an_error_ends_a_turn_and_not_the_fight() {
    let mut f = arena(entity(1, "Bot", 0, 0), entity(2, "Foe", 33, 1));
    let mut rounds = Rounds::new(2);
    let mut steps = 0;
    while let Step::Run(id) = rounds.advance(&mut f) {
        steps += 1;
        let error = if id == 1 {
            Some("TOO_MUCH_OPERATIONS".to_string())
        } else {
            None
        };
        assert!(!rounds.settle(&f, id, error));
    }
    assert_eq!(steps, 4);
    let outcome = rounds.outcome(&f);
    assert_eq!(outcome.winner_team, None);
    assert_eq!(outcome.turns, 2);
    let texts: Vec<String> = outcome.errors.iter().map(|e| e.text()).collect();
    assert_eq!(
        texts,
        vec![
            "turn 1: entity 1: TOO_MUCH_OPERATIONS",
            "turn 2: entity 1: TOO_MUCH_OPERATIONS"
        ]
    );
}

#[test]
fn entities_act_by_number_and_the_dead_do_not() {
    let mut f = Fight::new(10, 10, 1)
        .with_entity(entity(9, "Last", 1, 0))
        .with_entity(entity(3, "First", 2, 1))
        .with_entity(entity(5, "Dead", 3, 1).with_life(0))
        .with_entity(poisoned(entity(4, "Dying", 4, 1).with_life(5), 10, 2));
    let mut rounds = Rounds::new(1);
    let mut order = Vec::new();
    while let Step::Run(id) = rounds.advance(&mut f) {
        order.push(id);
        rounds.settle(&f, id, None);
    }
    assert_eq!(order, vec![3, 9]);
    assert_eq!(f.life(4), Some(0));
}

#[test]
fn a_refused_use_changes_nothing() {
    let mut f = arena(
        entity(1, "Bot", 0, 0)
            .with_weapon(WEAPON_PISTOL)
            .with_points(5, 2),
        entity(2, "Foe", 33, 1),
    );
    assert_eq!(run(&mut f, "useWeapon", &[2]), "-2");
    assert_eq!(f.tp(1), Some(2));
    assert_eq!(f.life(2), Some(100));
}

#[test]
fn only_functions_of_the_grid_are_its_own() {
    assert!(is_game_builtin("getNearestEnemy"));
    assert!(is_game_builtin("useChip"));
    assert!(!is_game_builtin("summon"));
    assert!(!is_game_builtin("getSummons"));
    assert!(!is_game_builtin("sqrt"));
    let mut f = arena(entity(1, "Bot", 0, 0), entity(2, "Foe", 33, 1));
    assert_eq!(run(&mut f, "summon", &[1, 2]), "null");
    assert_eq!(run(&mut f, "getDistance", &[0, 33]), 18f64.sqrt().to_string());
    assert_eq!(run(&mut f, "getDistance", &[0, 333]), "-1");
    assert_eq!(run(&mut f, "isDead", &[77]), "true");
    assert_eq!(run(&mut f, "getLife", &[77]), "null");
}

#[test]
fn an_effect_that_does_nothing_is_warned_of_once() {
    let mut list = weapons();
    list[0].effects.push(effect(25, 1.0, 0.0, 0));
    let mut f = arena(
        entity(1, "Bot", 0, 0).with_weapon(WEAPON_PISTOL),
        entity(2, "Foe", 33, 1),
    );
    call_game_builtin(&mut f, "useWeapon", &[num(2)], &list, &[]);
    call_game_builtin(&mut f, "useWeapon", &[num(2)], &list, &[]);
    assert_eq!(f.log().len(), 1);
    assert!(f.log()[0].1.contains("item 37: effect type 25"));
    assert_eq!(
        leek_game::weapons::unsupported_effects(&list, WEAPON_PISTOL),
        Some(vec![25])
    );
    assert_eq!(leek_game::weapons::unsupported_effects(&list, 1), None);
    assert_eq!(
        leek_game::chips::unsupported_effects(&chips(), CHIP_CURE),
        Some(Vec::new())
    );
}
