use leek_game::attack::{Area, EffectModifiers, EffectTargets, EffectType};
use leek_game::catalog::{entries, flag, int32, int_field, int_list, num, range, rows, text};
use leek_game::effects::EffectKind;
use leek_game::items::{
    bulb_ids, bulb_template, chip_ids, chip_spec, chip_unsupported_effect_types, weapon_ids,
    weapon_spec, weapon_unsupported_effect_types, RawBulb, RawChip, RawEffect, RawWeapon,
};
use leek_game::number::Real;

const PISTOL: i32 = 37;

fn double(x: f64) -> Real {
    Real::from_bits(x.to_bits()).unwrap()
}

fn line(id: i32, value1: f64, value2: f64, targets: i32, modifiers: i32) -> RawEffect {
    RawEffect {
        id,
        value1: double(value1),
        value2: double(value2),
        turns: 0,
        targets,
        modifiers,
    }
}

fn weapons() -> Vec<RawWeapon> {
    vec![RawWeapon {
        item: PISTOL,
        name: "pistol".to_string(),
        cost: 3,
        min_range: 1,
        max_range: 7,
        launch_type: 7,
        area: 1,
        los: true,
        max_uses: 4,
        forgotten: false,
        effects: vec![line(1, 15.0, 5.0, 31, 0)],
    }]
}

fn chips() -> Vec<RawChip> {
    vec![RawChip {
        item: 3,
        name: "bandage".to_string(),
        cost: 2,
        min_range: 0,
        max_range: 6,
        launch_type: 7,
        area: 1,
        los: true,
        max_uses: -1,
        cooldown: 1,
        initial_cooldown: 0,
        team_cooldown: false,
        level: 2,
        effects: vec![line(2, 15.0, 5.0, 31, 0), line(33, 1.0, 0.0, 63, 40)],
    }]
}

fn bulbs() -> Vec<RawBulb> {
    vec![RawBulb {
        id: 1,
        name: "puny_bulb".to_string(),
        life: (50, 300),
        strength: (0, 50),
        wisdom: (0, 0),
        agility: (0, 100),
        resistance: (0, 100),
        science: (0, 0),
        magic: (0, 0),
        tp: (4, 7),
        mp: (3, 5),
        chips: vec![21, 19, 3, 8],
    }]
}

#[test]
fn the_official_pistol_matches_the_hand_written_harness_spec() {
    let spec = weapon_spec(&weapons(), PISTOL).expect("the pistol is in the table");
    assert_eq!(spec.id, 37);
    assert_eq!(spec.cost, 3);
    assert_eq!(spec.min_range, 1);
    assert_eq!(spec.max_range, 7);
    assert!(spec.needs_los);
    assert_eq!(spec.area, Area::SingleCell);
    assert!(!spec.forgotten);
    assert_eq!(spec.effects.len(), 1);
    let e = spec.effects[0];
    assert_eq!(e.effect, EffectType::Damage);
    assert_eq!(e.value1, double(15.0));
    assert_eq!(e.value2, double(5.0));
    assert_eq!(e.turns, 0);
    assert_eq!(e.targets, EffectTargets::all());
    assert_eq!(e.modifiers, EffectModifiers::empty());
}

#[test]
fn the_official_pistol_launches_in_every_direction() {
    let spec = weapon_spec(&weapons(), PISTOL).expect("the pistol is in the table");
    assert_eq!(spec.launch_type, 7);
}

#[test]
fn the_official_pistol_is_capped_at_four_uses_a_turn() {
    let spec = weapon_spec(&weapons(), PISTOL).expect("the pistol is in the table");
    assert_eq!(spec.max_uses, 4);
}

#[test]
fn every_official_row_converts() {
    let (w, c, b) = (weapons(), chips(), bulbs());
    for id in weapon_ids(&w) {
        assert_eq!(weapon_spec(&w, id).expect("listed").id, id);
    }
    for id in chip_ids(&c) {
        assert_eq!(chip_spec(&c, id).expect("listed").id, id);
    }
    for id in bulb_ids(&b) {
        assert_eq!(bulb_template(&b, id).expect("listed").id, id);
    }
    assert_eq!(weapon_ids(&w), vec![37]);
    assert_eq!(chip_ids(&c), vec![3]);
    assert_eq!(bulb_ids(&b), vec![1]);
}

#[test]
fn official_masks_are_known_bits() {
    for e in weapons().iter().flat_map(|w| w.effects.clone()) {
        assert_eq!(
            EffectTargets::from_bits_truncate(e.targets).bits(),
            e.targets
        );
        assert_eq!(
            EffectModifiers::from_bits_truncate(e.modifiers).bits(),
            e.modifiers
        );
    }
    let spec = chip_spec(&chips(), 3).unwrap();
    assert_eq!(spec.effects[1].targets.bits(), 31);
    assert_eq!(spec.effects[1].modifiers.bits(), 8);
}

#[test]
fn a_bulb_template_comes_back_for_a_summons_id() {
    let puny = bulb_template(&bulbs(), 1).expect("puny_bulb is template 1");
    assert_eq!(puny.name, "puny_bulb");
    assert_eq!(puny.life, (50, 300));
    assert_eq!(puny.tp, (4, 7));
    assert_eq!(puny.mp, (3, 5));
    assert_eq!(puny.chips, vec![21, 19, 3, 8]);
}

#[test]
fn unknown_ids_are_absent() {
    assert!(weapon_spec(&weapons(), -1).is_none());
    assert!(chip_spec(&chips(), -1).is_none());
    assert!(bulb_template(&bulbs(), -1).is_none());
    assert!(weapon_unsupported_effect_types(&weapons(), -1).is_none());
    assert!(chip_unsupported_effect_types(&chips(), -1).is_none());
}

#[test]
fn no_official_item_uses_an_unported_effect_type() {
    let w = weapons();
    for id in weapon_ids(&w) {
        assert_eq!(
            weapon_unsupported_effect_types(&w, id),
            Some(Vec::new()),
            "weapon {id}"
        );
    }
    assert_eq!(
        chip_unsupported_effect_types(&chips(), 3),
        Some(vec![EffectType::PoisonToScience])
    );
}

const TABLE: &str = "{
    \"10\": {\"id\": 10, \"name\": \"ten\", \"cost\": 4, \"los\": 0, \"area\": 3,
        \"effects\": [{\"id\": 2, \"value1\": 0.5, \"value2\": 8, \"turns\": 3, \"targets\": 31, \"modifiers\": 1}]},
    \"9\": {\"id\": 9, \"name\": \"nine\", \"cost\": 2.9, \"los\": true, \"cooldown\": null,
        \"big\": 5000000000, \"states\": [1, \"x\", 2.5, 3, 5000000000],
        \"characteristics\": {\"life\": [50, 300], \"tp\": [4]}}
}";

#[test]
fn rows_come_by_the_number_of_their_key() {
    let list = rows(TABLE).unwrap();
    assert_eq!(list.len(), 2);
    assert_eq!(text(&list[0], "name"), "nine");
    assert_eq!(text(&list[1], "name"), "ten");
}

#[test]
fn rows_with_one_number_come_by_the_text_of_their_key() {
    let table = "{\"2\": {\"name\": \"last\"}, \"1\": {\"name\": \"c\"}, \"01\": {\"name\": \"b\"}, \"+1\": {\"name\": \"a\"}, \"-1\": {\"name\": \"first\"}}";
    let list = rows(table).unwrap();
    let names: Vec<String> = list.iter().map(|row| text(row, "name")).collect();
    assert_eq!(names, vec!["first", "a", "b", "c", "last"]);
}

#[test]
fn what_is_no_table_has_no_rows() {
    assert!(rows("{").is_none());
    assert!(rows("[1, 2]").is_none());
    assert!(rows("{\"a\": 1}").is_none());
    assert!(rows("{\"-\": 1}").is_none());
    assert!(rows("{\"9223372036854775808\": 1}").is_none());
    assert_eq!(rows("{\"-9223372036854775808\": 1, \"+7\": 2}").unwrap().len(), 2);
}

#[test]
fn members_are_read_with_their_defaults() {
    let list = rows(TABLE).unwrap();
    let (nine, ten) = (&list[0], &list[1]);
    assert_eq!(int_field(nine, "cost", 0), 2);
    assert_eq!(int_field(nine, "cooldown", 5), 5);
    assert_eq!(int_field(nine, "missing", 7), 7);
    assert_eq!(int_field(nine, "name", 7), 0);
    assert_eq!(int_field(nine, "big", 0), 5_000_000_000);
    assert_eq!(int32(nine, "big", 0), 0);
    assert_eq!(int32(nine, "id", 0), 9);
    assert_eq!(num(nine, "cost"), double(2.9));
    assert_eq!(num(nine, "id"), double(9.0));
    assert_eq!(num(nine, "name"), double(0.0));
    assert!(flag(nine, "los", false));
    assert!(!flag(ten, "los", true));
    assert!(flag(ten, "missing", true));
    assert!(!flag(ten, "name", true));
    assert_eq!(text(nine, "cost"), "");
    assert_eq!(int_list(nine, "states"), vec![1, 3]);
    assert_eq!(int_list(nine, "name"), Vec::<i32>::new());
    assert_eq!(entries(ten, "effects").len(), 1);
    assert_eq!(entries(nine, "effects").len(), 0);
    assert_eq!(range(nine, "life"), (50, 300));
    assert_eq!(range(nine, "tp"), (0, 0));
    assert_eq!(range(nine, "mp"), (0, 0));
    assert_eq!(range(ten, "life"), (0, 0));
}

#[test]
fn chips_are_read_out_of_a_table() {
    let list = leek_game::chips::catalog(TABLE).unwrap();
    let ten = leek_game::chips::lookup(&list, 10).unwrap();
    assert_eq!(ten.name, "ten");
    assert_eq!(ten.cost, 4);
    assert_eq!(ten.area, 3);
    assert!(!ten.los);
    assert_eq!(ten.effects.len(), 1);
    assert_eq!(ten.effects[0].kind, EffectKind::Heal);
    assert_eq!(ten.effects[0].value1, double(0.5));
    assert_eq!(ten.effects[0].turns, 3);
    assert_eq!(ten.effects[0].modifiers, 1);
    let nine = leek_game::chips::lookup(&list, 9).unwrap();
    assert_eq!(nine.area, 1);
    assert!(leek_game::chips::lookup(&list, 11).is_none());
    assert!(leek_game::chips::catalog("7").is_none());
}
