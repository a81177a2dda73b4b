use leek_game::attack::{Area, EffectType};
use leek_game::number::{java_round, Real};

fn double(x: f64) -> Real {
    Real::from_bits(x.to_bits()).unwrap()
}


#[test]
fn java_round_matches_math_round() {
    assert_eq!(java_round(double(0.499_999_999_999_999_94)), 0);
    assert_eq!(java_round(double(0.5)), 1);
    assert_eq!(java_round(double(1.5)), 2);
    assert_eq!(java_round(double(-0.5)), 0);
    assert_eq!(java_round(double(-1.5)), -1);
    assert_eq!(java_round(double(-1.6)), -2);
    assert_eq!(java_round(double(2.4)), 2);
}

#[test]
fn effect_type_ids() {
    for id in 1..=62 {
        let e = EffectType::from_id(id).expect("ids 1..=62 are all defined");
        assert_eq!(e.id(), id);
    }
    assert_eq!(EffectType::from_id(0), None);
    assert_eq!(EffectType::from_id(63), None);
}

#[test]
fn area_ids() {
    for id in 1..=15 {
        let a = Area::from_id(id).expect("ids 1..=15 are all defined");
        assert_eq!(a.id(), id);
    }
    assert_eq!(Area::from_id(0), None);
    assert_eq!(Area::from_id(16), None);
}
