use leek_game::actions::{
    Action, ActionLog, DamageType, ADD_CHIP_EFFECT, ADD_WEAPON_EFFECT, ATTACK_TYPE_CHIP,
    ATTACK_TYPE_WEAPON,
};
use serde_json::Value;
use std::collections::HashMap;

fn json(text: &str) -> Value {
    serde_json::from_str(text).unwrap()
}


#[test]
fn start_fight_json() {
    let a = Action::StartFight { team1: 1, team2: 2 };
    assert_eq!(a.to_json(), json("[0]"));
}

#[test]
fn new_turn_json() {
    let a = Action::NewTurn { count: 2 };
    assert_eq!(a.to_json(), json("[6, 2]"));
}

#[test]
fn entity_turn_json() {
    let a = Action::EntityTurn { entity_id: 0 };
    assert_eq!(a.to_json(), json("[7, 0]"));
}

#[test]
fn entity_turn_null_entity_gives_minus_one() {
    let a = Action::EntityTurn { entity_id: -1 };
    assert_eq!(a.to_json(), json("[7, -1]"));
}

#[test]
fn end_turn_json() {
    let a = Action::EndTurn {
        entity_id: 0,
        tp: 6,
        mp: 7,
    };
    assert_eq!(a.to_json(), json("[8, 0, 6, 7]"));
}

#[test]
fn move_json() {
    let path = vec![302, 285, 303, 321, 304, 287, 305];
    let a = Action::Move {
        entity_id: 0,
        end_cell: 305,
        path,
    };
    assert_eq!(
        a.to_json(),
        json("[10, 0, 305, [302, 285, 303, 321, 304, 287, 305]]")
    );
}

#[test]
fn use_weapon_json() {
    let a = Action::UseWeapon {
        cell: 42,
        success: 1,
    };
    assert_eq!(a.to_json(), json("[16, 42, 1]"));
}

#[test]
fn use_chip_json() {
    let a = Action::UseChip {
        chip_template: 7,
        cell: 100,
        success: 1,
    };
    assert_eq!(a.to_json(), json("[12, 7, 100, 1]"));
}

#[test]
fn set_weapon_json() {
    let a = Action::SetWeapon {
        weapon_template: 37,
    };
    assert_eq!(a.to_json(), json("[13, 37]"));
}

#[test]
fn damage_direct_json() {
    let a = Action::Damage {
        damage_type: DamageType::Direct,
        target_id: 5,
        pv: 42,
        erosion: 3,
    };
    assert_eq!(a.to_json(), json("[101, 5, 42, 3]"));
}

#[test]
fn damage_nova_json() {
    let a = Action::Damage {
        damage_type: DamageType::Nova,
        target_id: 1,
        pv: 10,
        erosion: 0,
    };
    assert_eq!(a.to_json(), json("[107, 1, 10, 0]"));
}

#[test]
fn damage_poison_json() {
    let a = Action::Damage {
        damage_type: DamageType::Poison,
        target_id: 2,
        pv: 5,
        erosion: 0,
    };
    assert_eq!(a.to_json(), json("[110, 2, 5, 0]"));
}

#[test]
fn add_effect_weapon_no_modifiers() {
    let a = Action::AddEffect {
        type_id: ADD_WEAPON_EFFECT,
        item_id: 5,
        log_id: 0,
        caster_id: 1,
        target_id: 2,
        effect_id: 10,
        value: 20,
        turns: 3,
        modifiers: 0,
    };
    assert_eq!(a.to_json(), json("[301, 5, 0, 1, 2, 10, 20, 3]"));
}

#[test]
fn add_effect_chip_with_modifiers() {
    let a = Action::AddEffect {
        type_id: ADD_CHIP_EFFECT,
        item_id: 7,
        log_id: 1,
        caster_id: 3,
        target_id: 4,
        effect_id: 11,
        value: 15,
        turns: 2,
        modifiers: 8,
    };
    assert_eq!(a.to_json(), json("[302, 7, 1, 3, 4, 11, 15, 2, 8]"));
}

#[test]
fn add_effect_logid_linkage_with_stack_and_remove() {
    let mut log = ActionLog::new();
    let id = log.create_effect(ATTACK_TYPE_WEAPON, 5, 1, 2, 10, 20, 3, 0);
    assert_eq!(id, 0, "first effect id must be 0");

    log.log(Action::StackEffect {
        log_id: id,
        value: 5,
    });
    log.log(Action::RemoveEffect { log_id: id });

    let actions = log.to_json();
    assert_eq!(actions[0], json("[301, 5, 0, 1, 2, 10, 20, 3]"));
    assert_eq!(actions[1], json("[14, 0, 5]"));
    assert_eq!(actions[2], json("[303, 0]"));
}

#[test]
fn second_effect_id_increments() {
    let mut log = ActionLog::new();
    let id0 = log.create_effect(ATTACK_TYPE_CHIP, 7, 1, 2, 11, 10, 2, 0);
    let id1 = log.create_effect(ATTACK_TYPE_CHIP, 8, 1, 3, 12, 8, 1, 0);
    assert_eq!(id0, 0);
    assert_eq!(id1, 1);
    log.log(Action::UpdateEffect {
        log_id: id1,
        value: 6,
    });
    let actions = log.to_json();
    assert_eq!(actions[2], json("[304, 1, 6]"));
}

#[test]
fn entity_die_with_killer() {
    let a = Action::EntityDie {
        entity_id: 3,
        killer_id: 1,
    };
    assert_eq!(a.to_json(), json("[5, 3, 1]"));
}

#[test]
fn entity_die_no_killer() {
    let a = Action::EntityDie {
        entity_id: 3,
        killer_id: -1,
    };
    assert_eq!(a.to_json(), json("[5, 3]"));
}

#[test]
fn say_json_no_tabs() {
    let a = Action::Say {
        message: "hello".to_owned(),
    };
    assert_eq!(a.to_json(), json("[203, \"hello\"]"));
}

#[test]
fn say_json_tabs_replaced() {
    let a = Action::Say {
        message: "a\tb".to_owned(),
    };
    assert_eq!(a.to_json(), json("[203, \"a    b\"]"));
}

#[test]
fn use_chip_field_order() {
    let a = Action::UseChip {
        chip_template: 3,
        cell: 50,
        success: 0,
    };
    let v = a.to_json();
    assert_eq!(v[0], json("12"));
    assert_eq!(v[1], json("3"));
    assert_eq!(v[2], json("50"));
    assert_eq!(v[3], json("0"));
}

#[test]
fn action_log_to_json_order() {
    let mut log = ActionLog::new();
    log.log(Action::StartFight { team1: 1, team2: 2 });
    log.log(Action::NewTurn { count: 1 });
    log.log(Action::EntityTurn { entity_id: 0 });

    let v = log.to_json();
    assert!(v.is_array());
    assert_eq!(v[0], json("[0]"));
    assert_eq!(v[1], json("[6, 1]"));
    assert_eq!(v[2], json("[7, 0]"));
}

#[test]
fn show_cell_hex_color() {
    let a = Action::ShowCell {
        cell: 10,
        color: 0x00_FF00,
    };
    assert_eq!(a.to_json(), json("[205, 10, \"00ff00\"]"));
}

#[test]
fn show_cell_hex_color_zero_padded() {
    let a = Action::ShowCell {
        cell: 5,
        color: 0x0000_00FF,
    };
    assert_eq!(a.to_json(), json("[205, 5, \"0000ff\"]"));
}

#[test]
fn show_cell_hex_strips_alpha() {
    let a = Action::ShowCell {
        cell: 0,
        color: 0xFF_FF0000,
    };
    assert_eq!(a.to_json(), json("[205, 0, \"ff0000\"]"));
}

#[test]
fn lama_json() {
    assert_eq!(Action::Lama.to_json(), json("[201]"));
}

#[test]
fn ai_error_json() {
    assert_eq!(Action::AiError { entity_id: 5 }.to_json(), json("[1002, 5]"));
}

#[test]
fn resurrect_json() {
    let a = Action::Resurrect {
        owner_id: 1,
        target_id: 2,
        cell: 10,
        life: 50,
        max_life: 100,
    };
    assert_eq!(a.to_json(), json("[105, 1, 2, 10, 50, 100]"));
}

#[test]
fn invocation_json() {
    let a = Action::Invocation {
        owner_id: 0,
        summon_id: 5,
        cell: 20,
        result: 1,
    };
    assert_eq!(a.to_json(), json("[9, 0, 5, 20, 1]"));
}

#[test]
fn chest_opened_json() {
    let mut resources = HashMap::new();
    resources.insert(1, 5);
    let a = Action::ChestOpened {
        killer_id: 0,
        chest_id: 3,
        resources,
    };
    let v = a.to_json();
    assert_eq!(v[0], json("15"));
    assert_eq!(v[1], json("0"));
    assert_eq!(v[2], json("3"));
    assert_eq!(v[3]["1"], json("5"));
}

#[test]
fn remove_poisons_json() {
    assert_eq!(
        Action::RemovePoisons { entity_id: 2 }.to_json(),
        json("[307, 2]")
    );
}

#[test]
fn remove_shackles_json() {
    assert_eq!(
        Action::RemoveShackles { entity_id: 3 }.to_json(),
        json("[308, 3]")
    );
}

#[test]
fn reduce_effects_json() {
    assert_eq!(
        Action::ReduceEffects {
            entity_id: 1,
            value: 50
        }
        .to_json(),
        json("[306, 1, 50]")
    );
}

#[test]
fn heal_json() {
    assert_eq!(
        Action::Heal {
            target_id: 4,
            life: 30
        }
        .to_json(),
        json("[103, 4, 30]")
    );
}

#[test]
fn vitality_json() {
    assert_eq!(
        Action::Vitality {
            target_id: 4,
            life: 50
        }
        .to_json(),
        json("[104, 4, 50]")
    );
}

#[test]
fn nova_vitality_json() {
    assert_eq!(
        Action::NovaVitality {
            target_id: 2,
            life: 10
        }
        .to_json(),
        json("[112, 2, 10]")
    );
}

#[test]
fn kill_json() {
    let a = Action::Kill {
        caster_id: 0,
        target_id: 0,
    };
    assert_eq!(a.to_json(), json("[11, 0, 0]"));
}

#[test]
fn update_effect_json() {
    assert_eq!(
        Action::UpdateEffect {
            log_id: 3,
            value: 7
        }
        .to_json(),
        json("[304, 3, 7]")
    );
}

#[test]
fn action_log_add_ops() {
    let mut log = ActionLog::new();
    log.add_ops(0, 1234);
    log.add_ops(1, 5678);
    assert_eq!(log.ops["0"], json("1234"));
    assert_eq!(log.ops["1"], json("5678"));
}
