use leek_game::actions::SAY;
use leek_game::args::{Answer, Arg, ArgKind, Item};
use leek_game::attack::Area;
use leek_game::calls::call_official_builtin;
use leek_game::fighter::{
    Fighter, Stats, STAT_ABSOLUTE_SHIELD, STAT_AGILITY, STAT_DAMAGE_RETURN, STAT_LIFE, STAT_MAGIC,
    STAT_MP, STAT_POWER, STAT_RELATIVE_SHIELD, STAT_RESISTANCE, STAT_SCIENCE, STAT_STRENGTH,
    STAT_TP, STAT_WISDOM,
};
use leek_game::number::Real;
use leek_game::queries::{CELL_EMPTY, CELL_ENTITY, CELL_OBSTACLE};
use leek_game::world::{ChipSpec, HookPhase, State};
use serde_json::Value;

fn arg(kind: ArgKind, long: i64, text: String, truthy: bool) -> Arg {
    Arg {
        kind,
        long,
        text,
        truthy,
        items: Vec::new(),
        function: 0,
    }
}

fn num(n: i64) -> Arg {
    arg(ArgKind::Number, n, n.to_string(), n != 0)
}

fn words(s: &str) -> Arg {
    arg(
        ArgKind::Text,
        s.parse().unwrap_or(0),
        s.to_string(),
        !s.is_empty(),
    )
}

fn null() -> Arg {
    arg(ArgKind::Null, 0, "null".to_string(), false)
}

fn truth(b: bool) -> Arg {
    arg(ArgKind::Other, i64::from(b), b.to_string(), b)
}

fn table() -> Arg {
    arg(ArgKind::Table, 0, "[:]".to_string(), false)
}

fn list(ids: &[i64]) -> Arg {
    Arg {
        items: ids
            .iter()
            .map(|&long| Item { number: true, long })
            .collect(),
        ..arg(
            ArgKind::Array,
            0,
            format!("{ids:?}"),
            !ids.is_empty(),
        )
    }
}

fn same(a: &Answer, b: &Answer) -> bool {
    format!("{a:?}") == format!("{b:?}")
}

fn distance(a: &Answer) -> Option<f64> {
    match a {
        Answer::Distance(Some(square)) => Some(f64::from(*square).sqrt()),
        Answer::Distance(None) => Some(-1.0),
        _ => None,
    }
}

fn one() -> Real {
    Real::from_bits(1f64.to_bits()).unwrap()
}

fn chip(id: i32, team_cooldown: bool) -> ChipSpec {
    ChipSpec {
        id,
        cost: 2,
        min_range: 0,
        max_range: 6,
        launch_type: 7,
        needs_los: true,
        max_uses: -1,
        area: Area::SingleCell,
        effects: Vec::new(),
        cooldown: 1,
        team_cooldown,
        initial_cooldown: 0,
        level: 1,
    }
}



const EXTREMES: &[i64] = &[
    i64::MIN,
    -2_147_483_649,
    -2_147_483_648,
    -613,
    -1,
    0,
    1,
    612,
    613,
    2_147_483_630,
    2_147_483_647,
    2_147_483_648,
    4_294_967_296,
    i64::MAX,
];

fn one_leek() -> State {
    let mut stats = Stats::default();
    stats.set(STAT_LIFE, 100);
    stats.set(STAT_TP, 10);
    stats.set(STAT_MP, 5);
    let mut state = State::new(42);
    let fid = state.add_entity(0, Fighter::new(0, 1, "test".to_string(), 0, stats));
    state.place_entity(fid, 306);
    state
}

fn assert_value(got: &Answer, want: &Answer, what: &str) {
    assert!(same(got, want), "{what}: expected {want:?}, got {got:?}");
}

#[test]
fn extreme_arguments_never_panic_a_builtin() {
    const NAMES: &[&str] = &[
        "getCellFromXY",
        "getCellX",
        "getCellY",
        "isObstacle",
        "getCell",
        "moveToward",
        "moveTowardCell",
        "moveAwayFrom",
        "moveAwayFromCell",
        "say",
        "mark",
        "markText",
        "clearMarks",
        "useChip",
        "useChipOnCell",
        "useWeapon",
        "setWeapon",
        "summon",
        "getCellToUseChip",
        "isStatic",
        "getEnemies",
        "getAllies",
        "getEnemiesCount",
        "getAlliesCount",
        "getEntities",
        "getAliveEntities",
        "getNearestAlly",
        "getObstacles",
        "getCellContent",
        "getCellDistance",
        "getDistance",
        "isOnSameLine",
        "lineOfSight",
        "getPath",
        "getPathLength",
        "getLife",
        "getTotalLife",
        "getMaxLife",
        "getTP",
        "getMP",
        "getStrength",
        "getAgility",
        "getWisdom",
        "getResistance",
        "getScience",
        "getMagic",
        "getPower",
        "getAbsoluteShield",
        "getRelativeShield",
        "getDamageReturn",
        "getWeapon",
        "getWeapons",
        "getChips",
        "getName",
        "getLevel",
        "getTeam",
        "isAlive",
        "isDead",
        "getCooldown",
    ];
    for name in NAMES {
        for &a in EXTREMES {
            for &b in EXTREMES {
                let mut state = one_leek();
                let _ =
                    call_official_builtin(&mut state, 0, name, &[num(a), num(b)]);
            }
        }
    }
}

#[test]
fn get_cell_from_xy_survives_an_i32_max_coordinate() {
    let mut state = one_leek();
    for x in [2_147_483_647_i64, 2_147_483_630] {
        let got = call_official_builtin(
            &mut state,
            0,
            "getCellFromXY",
            &[num(x), num(0)],
        );
        assert_value(&got, &Answer::Null, &format!("getCellFromXY({x}, 0)"));
    }
    let aliased = call_official_builtin(
        &mut state,
        0,
        "getCellFromXY",
        &[num(i64::MAX), num(0)],
    );
    let direct = call_official_builtin(
        &mut state,
        0,
        "getCellFromXY",
        &[num(-1), num(0)],
    );
    assert_value(&aliased, &direct, "i64::MAX must answer exactly as -1 does");
}

#[test]
fn get_cell_from_xy_round_trips_in_range() {
    let mut state = one_leek();
    let cell = call_official_builtin(
        &mut state,
        0,
        "getCellFromXY",
        &[num(0), num(0)],
    );
    let Answer::Int(id) = cell else {
        panic!("(0, 0) is on the board, got {cell:?}");
    };
    let x = call_official_builtin(&mut state, 0, "getCellX", &[num(id)]);
    let y = call_official_builtin(&mut state, 0, "getCellY", &[num(id)]);
    assert_value(&x, &Answer::Int(0), "getCellX of the (0,0) cell");
    assert_value(&y, &Answer::Int(0), "getCellY of the (0,0) cell");
}

#[test]
fn off_board_cell_ids_answer_the_sentinel() {
    let mut state = one_leek();
    for id in [-1_i64, 613, 10_000, 2_147_483_647, -2_147_483_648] {
        for name in ["getCellX", "getCellY"] {
            let got = call_official_builtin(&mut state, 0, name, &[num(id)]);
            assert_value(&got, &Answer::Null, &format!("{name}({id})"));
        }
        let got = call_official_builtin(&mut state, 0, "isObstacle", &[num(id)]);
        assert_value(&got, &Answer::Bool(true), &format!("isObstacle({id})"));
    }
}

#[test]
fn cell_ids_outside_int_alias_through_the_java_narrowing() {
    let mut state = one_leek();
    let got = call_official_builtin(&mut state, 0, "getCellX", &[num(i64::MIN)]);
    assert_value(&got, &Answer::Int(-17), "getCellX(i64::MIN) aliases cell 0");
    let aliased =
        call_official_builtin(&mut state, 0, "getCellY", &[num(4_294_967_296 + 5)]);
    let direct = call_official_builtin(&mut state, 0, "getCellY", &[num(5)]);
    assert_value(&aliased, &direct, "2^32 + 5 must answer exactly as 5 does");
}

#[test]
fn a_movement_budget_narrows_like_a_java_int_cast() {
    let cases = [
        (-1_i64, 5),
        (5, 5),
        (2, 2),
        (4_294_967_296, 0),
        (4_294_967_297, 1),
        (i64::MIN, 0),
        (-2, 0),
    ];
    for (budget, want) in cases {
        let mut state = one_leek();
        let moved = call_official_builtin(
            &mut state,
            0,
            "moveTowardCell",
            &[num(FAR_CELL), num(budget)],
        );
        assert_value(
            &moved,
            &Answer::Int(want),
            &format!("moveTowardCell({FAR_CELL}, {budget})"),
        );
    }
}

const FAR_CELL: i64 = 0;

fn two_leeks() -> State {
    let mut stats = Stats::default();
    stats.set(STAT_LIFE, 100);
    stats.set(STAT_TP, 10);
    stats.set(STAT_MP, 5);
    stats.set(STAT_STRENGTH, 11);
    stats.set(STAT_AGILITY, 12);
    stats.set(STAT_WISDOM, 13);
    stats.set(STAT_RESISTANCE, 14);
    stats.set(STAT_SCIENCE, 15);
    stats.set(STAT_MAGIC, 16);
    stats.set(STAT_POWER, 17);
    stats.set(STAT_ABSOLUTE_SHIELD, 18);
    stats.set(STAT_RELATIVE_SHIELD, 19);
    stats.set(STAT_DAMAGE_RETURN, 20);

    let mut state = State::new(42);
    let me = state.add_entity(0, Fighter::new(0, 1, "mine".to_string(), 0, stats.clone()));
    state.place_entity(me, 306);
    let them = state.add_entity(1, Fighter::new(0, 2, "theirs".to_string(), 1, stats));
    state.place_entity(them, 300);

    state.fighters[me].level = 42;
    state.fighters[me].use_tp(3);
    state.fighters[me].use_mp(2);
    state.fighters[me].buff_stats.set(STAT_STRENGTH, 100);
    state.fighters[me].life = 60;
    state.fighters[me].total_life = 130;
    state.fighters[me].weapons = vec![37, 1, 19];
    state.fighters[me].weapon = Some(19);
    state.fighters[me].chips = [7, 2, 3].into_iter().collect();
    state.fighters[them].life = 0;
    state
}

fn call(state: &mut State, name: &str, args: &[Arg]) -> Answer {
    call_official_builtin(state, 0, name, args)
}

fn int_vec(v: &Answer) -> Vec<i64> {
    let Answer::List(list) = v else {
        panic!("expected an array, got {v:?}");
    };
    list.clone()
}

#[test]
fn entity_getters_read_the_java_field() {
    let mut state = two_leeks();
    let cases: &[(&str, Answer)] = &[
        ("getLife", Answer::Int(60)),
        ("getTotalLife", Answer::Int(130)),
        ("getMaxLife", Answer::Int(130)),
        ("getTP", Answer::Int(7)),
        ("getMP", Answer::Int(3)),
        ("getStrength", Answer::Int(111)),
        ("getAgility", Answer::Int(12)),
        ("getWisdom", Answer::Int(13)),
        ("getResistance", Answer::Int(14)),
        ("getScience", Answer::Int(15)),
        ("getMagic", Answer::Int(16)),
        ("getPower", Answer::Int(17)),
        ("getAbsoluteShield", Answer::Int(18)),
        ("getRelativeShield", Answer::Int(19)),
        ("getDamageReturn", Answer::Int(20)),
        ("getWeapon", Answer::Int(19)),
        ("getLevel", Answer::Int(42)),
        ("getTeam", Answer::Int(0)),
        ("getName", Answer::Text("mine".to_string())),
        ("isAlive", Answer::Bool(true)),
        ("isDead", Answer::Bool(false)),
    ];
    for (name, want) in cases {
        let got = call(&mut state, name, &[]);
        assert_value(&got, want, &format!("{name}()"));
        let explicit = call(&mut state, name, &[num(0)]);
        assert_value(&explicit, want, &format!("{name}(0)"));
    }
    assert_value(
        &call(&mut state, "isDead", &[num(1)]),
        &Answer::Bool(true),
        "isDead(1)",
    );
    assert_value(
        &call(&mut state, "getName", &[num(1)]),
        &Answer::Text("theirs".to_string()),
        "getName(1)",
    );
}

#[test]
fn weapon_and_chip_arrays_keep_the_java_orders() {
    let mut state = two_leeks();
    assert_eq!(
        int_vec(&call(&mut state, "getWeapons", &[])),
        vec![37, 1, 19],
        "getWeapons() is mWeapons order, not sorted"
    );
    assert_eq!(
        int_vec(&call(&mut state, "getChips", &[])),
        vec![2, 3, 7],
        "getChips() is TreeMap order, i.e. by chip id"
    );
    assert_eq!(
        int_vec(&call(&mut state, "getWeapons", &[num(1)])),
        Vec::<i64>::new(),
        "getWeapons(1)"
    );
}

#[test]
fn get_cooldown_takes_the_chip_first() {
    let mut state = two_leeks();
    for id in [3, 73] {
        let spec = chip(id, id == 73);
        state.chip_specs.insert(id, spec);
    }
    state.fighters[0].add_cooldown(3, 2);
    state.teams[0].add_cooldown(73, 4);

    assert_value(
        &call(&mut state, "getCooldown", &[num(3)]),
        &Answer::Int(2),
        "getCooldown(3) reads the entity's table",
    );
    assert_value(
        &call(&mut state, "getCooldown", &[num(73)]),
        &Answer::Int(4),
        "getCooldown(73) reads the team's table",
    );
    assert_value(
        &call(&mut state, "getCooldown", &[num(3), num(1)]),
        &Answer::Int(0),
        "getCooldown(3, 1)",
    );
    assert_value(
        &call(&mut state, "getCooldown", &[num(73), num(1)]),
        &Answer::Int(0),
        "getCooldown(73, 1)",
    );
    assert_value(
        &call(&mut state, "getCooldown", &[num(9999)]),
        &Answer::Int(0),
        "getCooldown(9999)",
    );
    assert_value(
        &call(&mut state, "getCooldown", &[num(3), num(99)]),
        &Answer::Null,
        "getCooldown(3, 99)",
    );
}

#[test]
fn a_before_fight_hook_masks_another_entitys_stats() {
    let mut state = two_leeks();
    let readable = ["getAgility", "getWeapons", "getChips"];
    for name in readable {
        let got = call(&mut state, name, &[num(1)]);
        assert!(
            !matches!(got, Answer::Null),
            "{name}(1) outside a hook must not be null, got {got:?}"
        );
    }
    state.hook_phase = HookPhase::BeforeFight;
    for name in readable {
        let got = call(&mut state, name, &[num(1)]);
        assert_value(&got, &Answer::Null, &format!("{name}(1) in beforeFight"));
        let mine = call(&mut state, name, &[]);
        assert!(
            !matches!(mine, Answer::Null),
            "{name}() in beforeFight is a self query, got {mine:?}"
        );
    }
    assert_value(
        &call(&mut state, "getLevel", &[num(1)]),
        &Answer::Int(1),
        "getLevel(1) in beforeFight",
    );
    assert_value(
        &call(&mut state, "getTeam", &[num(1)]),
        &Answer::Int(1),
        "getTeam(1) in beforeFight",
    );
    state.hook_phase = HookPhase::AfterFight;
    assert_value(
        &call(&mut state, "getAgility", &[num(1)]),
        &Answer::Int(12),
        "getAgility(1) in afterFight",
    );
}

#[test]
fn an_unresolvable_entity_is_null_but_never_dead() {
    let mut state = two_leeks();
    const NULLABLE: &[&str] = &[
        "getLife",
        "getTotalLife",
        "getMaxLife",
        "getTP",
        "getMP",
        "getStrength",
        "getAgility",
        "getWisdom",
        "getResistance",
        "getScience",
        "getMagic",
        "getPower",
        "getAbsoluteShield",
        "getRelativeShield",
        "getDamageReturn",
        "getWeapon",
        "getWeapons",
        "getChips",
        "getName",
        "getLevel",
        "getTeam",
    ];
    for name in NULLABLE {
        let got = call(&mut state, name, &[num(99)]);
        assert_value(&got, &Answer::Null, &format!("{name}(99)"));
    }
    assert_value(
        &call(&mut state, "isAlive", &[num(99)]),
        &Answer::Bool(false),
        "isAlive(99)",
    );
    assert_value(
        &call(&mut state, "isDead", &[num(99)]),
        &Answer::Bool(false),
        "isDead(99) is false too — a missing entity is not a dead one",
    );
}

fn id(n: usize) -> Arg {
    num(i64::try_from(n).expect("an index fits in i64"))
}

fn a_team_fight() -> State {
    let mut stats = Stats::default();
    stats.set(STAT_LIFE, 100);
    stats.set(STAT_TP, 10);
    stats.set(STAT_MP, 5);

    let mut state = State::new(42);
    let me = state.add_entity(0, Fighter::new(0, 1, "mine".to_string(), 0, stats.clone()));
    let enemy = state.add_entity(1, Fighter::new(0, 2, "theirs".to_string(), 1, stats.clone()));
    let dead_ally = state.add_entity(0, Fighter::new(0, 3, "ghost".to_string(), 0, stats.clone()));
    let summon = state.add_entity(1, Fighter::new(0, 4, "bulb".to_string(), 1, stats.clone()));
    let ally = state.add_entity(0, Fighter::new(0, 5, "friend".to_string(), 0, stats));

    state.place_entity(me, 306);
    state.place_entity(enemy, 300);
    state.place_entity(dead_ally, 0);
    state.place_entity(summon, 307);
    state.place_entity(ally, 289);

    state.fighters[dead_ally].life = 0;
    state.fighters[summon].summoner = Some(enemy);
    state
}

#[test]
fn entity_lists_follow_the_java_team_order() {
    let mut state = a_team_fight();
    assert_eq!(
        int_vec(&call(&mut state, "getAllies", &[])),
        vec![0, 2, 4],
        "getAllies() is team 0 with the dead ally AND the caller in it"
    );
    assert_eq!(
        int_vec(&call(&mut state, "getEnemies", &[])),
        vec![1, 3],
        "getEnemies() is team 1, the summon included"
    );
    assert_value(
        &call(&mut state, "getAlliesCount", &[]),
        &Answer::Int(3),
        "getAlliesCount()",
    );
    assert_value(
        &call(&mut state, "getEnemiesCount", &[]),
        &Answer::Int(2),
        "getEnemiesCount()",
    );
    assert_eq!(
        int_vec(&call(&mut state, "getEntities", &[])),
        vec![0, 2, 4, 1, 3],
        "getEntities() is getAllEntities(true)"
    );
    assert_eq!(
        int_vec(&call(&mut state, "getAliveEntities", &[])),
        vec![0, 4, 1, 3],
        "getAliveEntities() is getAllEntities(false) — fid 2 is dead"
    );
    assert_eq!(
        int_vec(&call_official_builtin(&mut state, 1, "getAllies", &[])),
        vec![1, 3],
        "getAllies() as fighter 1"
    );
    assert_eq!(
        int_vec(&call_official_builtin(&mut state, 1, "getEnemies", &[])),
        vec![0, 2, 4],
        "getEnemies() as fighter 1"
    );
}

#[test]
fn get_nearest_ally_skips_the_caller_and_the_dead() {
    let mut state = a_team_fight();
    assert_value(
        &call(&mut state, "getNearestAlly", &[]),
        &Answer::Int(4),
        "getNearestAlly()",
    );
    state.fighters[4].life = 0;
    assert_value(
        &call(&mut state, "getNearestAlly", &[]),
        &Answer::Int(-1),
        "getNearestAlly() with no live ally left",
    );
    let mut alone = one_leek();
    assert_value(
        &call_official_builtin(&mut alone, 0, "getNearestAlly", &[]),
        &Answer::Int(-1),
        "getNearestAlly() with a one-entity team",
    );
}

fn generated_fight() -> State {
    let mut stats = Stats::default();
    stats.set(STAT_LIFE, 100);
    stats.set(STAT_TP, 10);
    stats.set(STAT_MP, 5);
    let mut state = State::new(7);
    state.add_entity(0, Fighter::new(0, 1, "mine".to_string(), 0, stats.clone()));
    state.add_entity(1, Fighter::new(0, 2, "theirs".to_string(), 1, stats));
    state.init(&[one(), one()]);
    state
}

#[test]
fn get_obstacles_lists_every_unwalkable_cell() {
    let mut state = generated_fight();
    let want: Vec<i64> = state
        .map
        .cells
        .iter()
        .filter(|c| !c.walkable)
        .map(|c| i64::try_from(c.id).expect("a cell id fits in i64"))
        .collect();
    assert!(!want.is_empty(), "a generated board has obstacles on it");
    assert_eq!(int_vec(&call(&mut state, "getObstacles", &[])), want);
}

#[test]
fn get_cell_content_answers_obstacle_entity_or_empty() {
    let mut state = generated_fight();
    let obstacle = state
        .map
        .cells
        .iter()
        .find(|c| !c.walkable)
        .expect("a generated board has an obstacle")
        .id;
    let occupied = state.fighters[0].cell.expect("init places both leeks");
    let empty = state
        .map
        .cells
        .iter()
        .find(|c| c.walkable && state.entity_on(c.id).is_none())
        .expect("a generated board has a free cell")
        .id;

    assert_value(
        &call(&mut state, "getCellContent", &[id(obstacle)]),
        &Answer::Int(CELL_OBSTACLE),
        "getCellContent(an obstacle)",
    );
    assert_value(
        &call(&mut state, "getCellContent", &[id(occupied)]),
        &Answer::Int(CELL_ENTITY),
        "getCellContent(an occupied cell)",
    );
    assert_value(
        &call(&mut state, "getCellContent", &[id(empty)]),
        &Answer::Int(CELL_EMPTY),
        "getCellContent(a free cell)",
    );
    for off_board in [-1_i64, 613, 10_000] {
        assert_value(
            &call(&mut state, "getCellContent", &[num(off_board)]),
            &Answer::Int(-1),
            &format!("getCellContent({off_board})"),
        );
    }
}

#[test]
fn two_cell_measurements_use_the_map_metrics() {
    let mut state = one_leek();
    assert_value(
        &call(&mut state, "getCellDistance", &[id(288), id(324)]),
        &Answer::Int(2),
        "getCellDistance(288, 324)",
    );
    assert_value(
        &call(&mut state, "isOnSameLine", &[id(288), id(324)]),
        &Answer::Bool(true),
        "isOnSameLine(288, 324)",
    );
    assert_value(
        &call(&mut state, "isOnSameLine", &[id(288), id(289)]),
        &Answer::Bool(false),
        "isOnSameLine(288, 289) — neither row nor column is shared",
    );
    let got = call(&mut state, "getDistance", &[id(288), id(324)]);
    let Some(d) = distance(&got) else {
        panic!("getDistance must answer a real, got {got:?}");
    };
    assert!(
        (d - 2.0).abs() < 1e-9,
        "getDistance(288, 324) = {d}, expected 2"
    );
}

#[test]
fn off_board_cells_take_each_field_function_to_its_sentinel() {
    let mut state = one_leek();
    for (a, b) in [(613_i64, 306_i64), (306, 613), (-1, -1)] {
        let args = [num(a), num(b)];
        assert_value(
            &call(&mut state, "getCellDistance", &args),
            &Answer::Int(-1),
            &format!("getCellDistance({a}, {b})"),
        );
        let got = call(&mut state, "getDistance", &args);
        let Some(d) = distance(&got) else {
            panic!("getDistance must answer a real, got {got:?}");
        };
        assert!(
            (d + 1.0).abs() < 1e-9,
            "getDistance({a}, {b}) = {d}, expected -1"
        );
        assert_value(
            &call(&mut state, "isOnSameLine", &args),
            &Answer::Bool(false),
            &format!("isOnSameLine({a}, {b})"),
        );
        for name in ["lineOfSight", "getPath", "getPathLength"] {
            assert_value(
                &call(&mut state, name, &args),
                &Answer::Null,
                &format!("{name}({a}, {b})"),
            );
        }
    }
}

#[test]
fn get_path_is_the_maps_a_star_on_a_generated_map() {
    let mut state = generated_fight();
    let start = state.fighters[0].cell.expect("init places both leeks");
    let end = state.fighters[1].cell.expect("init places both leeks");
    let want: Vec<i64> = state
        .map
        .get_astar_path(start, &[end], &[])
        .expect("the generator only accepts connected boards")
        .into_iter()
        .map(|c| i64::try_from(c).expect("a cell id fits in i64"))
        .collect();
    assert!(want.len() > 1, "the two spawns are not adjacent");
    assert_eq!(
        int_vec(&call(&mut state, "getPath", &[id(start), id(end)])),
        want,
        "getPath(spawn, spawn) must be Map::get_astar_path"
    );
    assert_value(
        &call(&mut state, "getPathLength", &[id(start), id(end)]),
        &Answer::Int(i64::try_from(want.len()).expect("a path length fits in i64")),
        "getPathLength agrees with getPath",
    );
    assert_eq!(
        int_vec(&call(&mut state, "getPath", &[id(start), id(start)])),
        Vec::<i64>::new(),
        "getPath(c, c) is the empty array, not null"
    );
    assert_value(
        &call(&mut state, "getPathLength", &[id(start), id(start)]),
        &Answer::Int(0),
        "getPathLength(c, c)",
    );
}

fn a_blocked_row() -> State {
    let mut stats = Stats::default();
    stats.set(STAT_LIFE, 100);
    stats.set(STAT_TP, 10);
    stats.set(STAT_MP, 5);
    let mut state = State::new(42);
    let me = state.add_entity(0, Fighter::new(0, 1, "mine".to_string(), 0, stats.clone()));
    let enemy = state.add_entity(1, Fighter::new(0, 2, "theirs".to_string(), 1, stats));
    state.place_entity(me, 306);
    state.place_entity(enemy, 0);
    state
}

#[test]
fn line_of_sight_ignores_the_caller_only_on_two_of_three_branches() {
    let mut state = a_blocked_row();
    assert_value(
        &call(&mut state, "lineOfSight", &[id(288), id(324)]),
        &Answer::Bool(true),
        "lineOfSight(288, 324) ignores the caller standing on 306",
    );
    assert_value(
        &call(
            &mut state,
            "lineOfSight",
            &[id(288), id(324), num(1)],
        ),
        &Answer::Bool(false),
        "lineOfSight(288, 324, enemy) ignores only the enemy, so 306 blocks",
    );
    let ignore_list = list(&[1]);
    assert_value(
        &call(&mut state, "lineOfSight", &[id(288), id(324), ignore_list]),
        &Answer::Bool(true),
        "lineOfSight(288, 324, [enemy]) ignores the caller as well",
    );
}

#[test]
fn get_path_ignores_cells_where_line_of_sight_ignores_entities() {
    let mut state = a_blocked_row();
    let detour = int_vec(&call(&mut state, "getPath", &[id(288), id(324)]));
    assert!(
        detour.len() > 2,
        "the caller on 306 must force a detour, got {detour:?}"
    );
    let ignore_cells = list(&[306]);
    assert_eq!(
        int_vec(&call(
            &mut state,
            "getPath",
            &[id(288), id(324), ignore_cells]
        )),
        vec![306, 324],
        "getPath's array is cell ids"
    );
    let entity_shaped = list(&[0]);
    assert_eq!(
        int_vec(&call(
            &mut state,
            "getPath",
            &[id(288), id(324), entity_shaped],
        )),
        detour,
        "getPath([0]) must ignore cell 0, not entity 0"
    );
    assert_eq!(
        int_vec(&call(
            &mut state,
            "getPath",
            &[id(288), id(324), num(0)],
        )),
        vec![306, 324],
        "getPath(a, b, entity) is the legacy leek_to_ignore overload"
    );
}

fn leek_and_chaser() -> State {
    let mut state = one_leek();
    let mut stats = Stats::default();
    stats.set(STAT_LIFE, 100);
    stats.set(STAT_TP, 10);
    stats.set(STAT_MP, 5);
    let chaser = state.add_entity(1, Fighter::new(0, 2, "chaser".to_string(), 1, stats));
    let neighbour = state
        .map
        .cells_around(306)
        .into_iter()
        .flatten()
        .next()
        .expect("a mid-board cell has neighbours");
    state.place_entity(chaser, neighbour);
    state
}

#[test]
fn move_away_from_increases_the_distance_and_charges_mp() {
    let mut state = leek_and_chaser();
    let target_cell = state.fighters[1].cell.expect("the chaser is placed");
    let before = state.map.get_distance_sq(
        state.fighters[0].cell.expect("the caster is placed"),
        target_cell,
    );
    let mp_before = state.fighters[0].mp();

    let moved = call_official_builtin(&mut state, 0, "moveAwayFrom", &[num(1)]);
    let Answer::Int(steps) = moved else {
        panic!("moveAwayFrom answers an int, got {moved:?}");
    };
    assert!(
        steps > 0,
        "a leek with 5 MP on an open board can always flee"
    );

    let after = state.map.get_distance_sq(
        state.fighters[0].cell.expect("the caster is still placed"),
        target_cell,
    );
    assert!(
        after > before,
        "moveAwayFrom must strictly increase the squared distance: {before} -> {after}"
    );
    assert_eq!(
        i64::from(mp_before - state.fighters[0].mp()),
        steps,
        "the MP spent is the value returned"
    );
    assert!(
        state
            .actions
            .to_json()
            .as_array()
            .is_some_and(|a| !a.is_empty()),
        "the move is logged"
    );
}

#[test]
fn move_away_from_cell_flees_even_its_own_cell() {
    let mut state = one_leek();
    let start = state.fighters[0].cell.expect("placed");
    let start_id = i64::try_from(start).expect("a cell id fits in i64");
    let moved =
        call_official_builtin(&mut state, 0, "moveAwayFromCell", &[num(start_id)]);
    let Answer::Int(steps) = moved else {
        panic!("moveAwayFromCell answers an int, got {moved:?}");
    };
    assert!(steps > 0, "fleeing your own cell is a legal request");
    assert_ne!(
        state.fighters[0].cell,
        Some(start),
        "the leek actually moved"
    );
}

#[test]
fn move_away_is_denied_during_a_hook() {
    for (name, arg) in [("moveAwayFrom", 1_i64), ("moveAwayFromCell", 0)] {
        let mut state = leek_and_chaser();
        state.hook_phase = HookPhase::BeforeFight;
        let mp_before = state.fighters[0].mp();
        let cell_before = state.fighters[0].cell;
        let got = call_official_builtin(&mut state, 0, name, &[num(arg)]);
        assert_value(&got, &Answer::Int(0), name);
        assert_eq!(state.fighters[0].mp(), mp_before, "{name} spent MP");
        assert_eq!(state.fighters[0].cell, cell_before, "{name} moved the leek");
    }
}

#[test]
fn move_away_from_a_cell_less_target_does_nothing() {
    let mut state = leek_and_chaser();
    state.remove_entity_from_map(1);
    let mp_before = state.fighters[0].mp();
    let got = call_official_builtin(&mut state, 0, "moveAwayFrom", &[num(1)]);
    assert_value(&got, &Answer::Int(0), "moveAwayFrom(dead)");
    assert_eq!(state.fighters[0].mp(), mp_before);
}

fn say_count(state: &State) -> usize {
    state
        .actions
        .to_json()
        .as_array()
        .map(|actions| {
            actions
                .iter()
                .filter(|a| a.get(0) == Some(&Value::from(SAY)))
                .count()
        })
        .unwrap_or_default()
}

#[test]
fn a_third_say_in_one_turn_is_dropped_and_still_costs_tp() {
    let mut state = one_leek();
    let tp_before = state.fighters[0].tp();
    for i in 0..2 {
        let got = call_official_builtin(&mut state, 0, "say", &[words("hello")]);
        assert_value(&got, &Answer::Bool(true), &format!("say #{i}"));
    }
    assert_eq!(say_count(&state), 2, "both says are logged");

    let third = call_official_builtin(&mut state, 0, "say", &[words("hello")]);
    assert_value(&third, &Answer::Bool(false), "the third say of a turn");
    assert_eq!(say_count(&state), 2, "the third say logs nothing");
    assert_eq!(
        state.fighters[0].tp(),
        tp_before - 3,
        "all three says cost 1 TP, the dropped one included"
    );

    state.fighters[0].end_turn();
    let fourth = call_official_builtin(&mut state, 0, "say", &[words("next turn")]);
    assert_value(&fourth, &Answer::Bool(true), "say after end_turn");
    assert_eq!(say_count(&state), 3);
}

#[test]
fn say_without_tp_is_refused() {
    let mut state = one_leek();
    let tp = state.fighters[0].tp();
    state.fighters[0].use_tp(tp);
    let got = call_official_builtin(&mut state, 0, "say", &[words("hello")]);
    assert_value(&got, &Answer::Bool(false), "say with 0 TP");
    assert_eq!(say_count(&state), 0);
    assert_eq!(
        state.fighters[0].says_turn, 0,
        "the cap counter is untouched"
    );
}

#[test]
fn say_is_allowed_during_a_hook() {
    for phase in [HookPhase::BeforeFight, HookPhase::AfterFight] {
        let mut state = one_leek();
        state.hook_phase = phase;
        let got = call_official_builtin(&mut state, 0, "say", &[words("hi from the hook")]);
        assert_value(&got, &Answer::Bool(true), &format!("say during {phase:?}"));
        assert_eq!(say_count(&state), 1, "say during {phase:?} is logged");
    }
}

#[test]
fn a_long_say_is_truncated_and_any_value_is_stringified() {
    let mut state = one_leek();
    let long = "x".repeat(250);
    let _ = call_official_builtin(&mut state, 0, "say", &[words(&long)]);
    let _ = call_official_builtin(&mut state, 0, "say", &[num(42)]);
    let actions = state.actions.to_json();
    let actions = actions.as_array().expect("an action array");
    assert_eq!(actions[0][1], Value::from("x".repeat(100)));
    assert_eq!(actions[1][1], Value::from("42"));
}

#[test]
fn marks_answer_by_cell_validity_and_log_no_action() {
    let mut state = one_leek();
    let array = |ids: &[i64]| list(ids);

    for (arg, want) in [
        (num(306), true),
        (num(613), false),
        (num(-1), false),
        (array(&[306, 307]), true),
        (array(&[900, 901]), false),
        (array(&[900, 306]), true),
        (array(&[]), false),
        (null(), false),
        (words("306"), false),
        (truth(true), false),
    ] {
        let got = call_official_builtin(&mut state, 0, "mark", std::slice::from_ref(&arg));
        assert_value(&got, &Answer::Bool(want), &format!("mark({arg:?})"));
    }

    let got = call_official_builtin(&mut state, 0, "markText", &[num(306), words("A")]);
    assert_value(&got, &Answer::Bool(true), "markText(306, text)");
    let got = call_official_builtin(&mut state, 0, "markText", &[num(613), words("A")]);
    assert_value(&got, &Answer::Bool(false), "markText(613, text)");

    let got = call_official_builtin(&mut state, 0, "clearMarks", &[]);
    assert_value(&got, &Answer::Null, "clearMarks()");

    assert_eq!(
        state.actions.to_json().as_array().map(Vec::len),
        Some(0),
        "no mark reaches the report"
    );
}

#[test]
fn mark_text_accepts_a_map_unconditionally() {
    let mut state = one_leek();
    let empty_map = table();
    let got = call_official_builtin(&mut state, 0, "markText", &[empty_map]);
    assert_value(&got, &Answer::Bool(true), "markText(empty map)");
}
