use leek_game::fighter::{
    Fighter, Stats, Team, STAT_AGILITY, STAT_FREQUENCY, STAT_LIFE, STAT_MP, STAT_RESISTANCE,
    STAT_STRENGTH, STAT_TP, STAT_WISDOM,
};
use leek_game::actions::{Action, ActionLog};
use leek_game::map::GameMap;
use leek_game::outcome::{build_outcome, dead_report, entity_snapshot, map_json};
use serde_json::Value;

fn json(text: &str) -> Value {
    serde_json::from_str(text).unwrap()
}

fn harness_leek(fid: usize, id: i64, team: usize, cell: usize) -> Fighter {
    let mut stats = Stats::default();
    stats.set(STAT_LIFE, 500);
    stats.set(STAT_TP, 6);
    stats.set(STAT_MP, 7);
    stats.set(STAT_STRENGTH, 100);
    stats.set(STAT_WISDOM, 50);
    stats.set(STAT_AGILITY, 100);
    stats.set(STAT_RESISTANCE, 10);
    stats.set(STAT_FREQUENCY, 10);
    let mut f = Fighter::new(fid, id, format!("AI_{id}"), team, stats);
    f.level = 10;
    f.cell = Some(cell);
    f
}

#[test]
fn snapshot_matches_java_golden() {
    let f = harness_leek(0, 1, 0, 284);
    assert_eq!(
        entity_snapshot(&f),
        json("{ \"id\": 0, \"level\": 10, \"skin\": 0, \"hat\": null, \"metal\": false, \"face\": 0, \"life\": 500, \"strength\": 100, \"wisdom\": 50, \"agility\": 100, \"resistance\": 10, \"frequency\": 10, \"science\": 0, \"magic\": 0, \"tp\": 6, \"mp\": 7, \"team\": 1, \"name\": \"AI_1\", \"cellPos\": 284, \"farmer\": 0, \"type\": 0, \"orientation\": -1, \"summon\": false }")
    );
}

#[test]
fn dead_report_keyed_by_real_id() {
    let fighters = [harness_leek(0, 1, 0, 10), harness_leek(1, 2, 1, 20)];
    let mut dead_leek = harness_leek(0, 1, 0, 10);
    dead_leek.life = 0;
    let fighters_dead = vec![dead_leek, fighters[1].clone()];
    let teams = vec![
        Team {
            id: 1,
            fighters: vec![0],
            ..Team::default()
        },
        Team {
            id: 2,
            fighters: vec![1],
            ..Team::default()
        },
    ];
    assert_eq!(
        dead_report(&teams, &fighters_dead),
        json("{\"1\": true, \"2\": false}")
    );
}

#[test]
fn a_report_holds_every_part_of_the_fight() {
    let mut map = GameMap::new(18, 18);
    map.map_type = 3;
    map.cells[40].walkable = false;
    map.cells[40].obstacle_size = 2;
    map.cells[41].walkable = false;
    assert_eq!(
        map_json(&map),
        json("{\"obstacles\": {\"40\": 2}, \"type\": 3, \"width\": 18, \"height\": 18}")
    );
    let mut log = ActionLog::new();
    log.log(Action::NewTurn { count: 1 });
    log.log(Action::EntityTurn { entity_id: 0 });
    assert_eq!(log.current_id(), 1);
    log.add_ops(1, 250);
    let mut loser = harness_leek(1, 2, 1, 20);
    loser.life = 0;
    let fighters = vec![harness_leek(0, 1, 0, 10), loser];
    let teams = vec![
        Team {
            id: 1,
            fighters: vec![0],
            ..Team::default()
        },
        Team {
            id: 2,
            fighters: vec![1],
            ..Team::default()
        },
    ];
    let leeks = vec![json("{\"id\": 0}"), json("{\"id\": 1}")];
    assert_eq!(
        build_outcome(&leeks, &map, &log, &teams, &fighters, &[7, 9], 0, 12),
        json("{ \"fight\": { \"leeks\": [{\"id\": 0}, {\"id\": 1}], \"map\": {\"obstacles\": {\"40\": 2}, \"type\": 3, \"width\": 18, \"height\": 18}, \"actions\": [[6, 1], [7, 0]], \"dead\": {\"1\": false, \"2\": true}, \"ops\": {\"1\": 250} }, \"logs\": {\"7\": {}, \"9\": {}}, \"winner\": 0, \"duration\": 12, \"analyze_time\": 0, \"compilation_time\": 0, \"execution_time\": 0 }")
    );
}
