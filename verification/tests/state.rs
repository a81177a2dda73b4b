use leek_game::fighter::{decrement_or_remove, Fighter, Stats, STAT_LIFE, STAT_TP};
use leek_game::turns::Order;
use std::collections::BTreeMap;


fn order_of(fids: &[usize]) -> Order {
    let mut o = Order::new();
    for &f in fids {
        o.add_entity(f);
    }
    o
}

#[test]
fn next_wraps_and_increments_turn() {
    let mut o = order_of(&[10, 20]);
    assert_eq!(o.current(), Some(10));
    assert_eq!(o.turn(), 1);
    assert!(!o.next());
    assert_eq!(o.current(), Some(20));
    assert!(o.next());
    assert_eq!(o.turn(), 2);
    assert_eq!(o.current(), Some(10));
}

#[test]
fn remove_before_position_keeps_current() {
    let mut o = order_of(&[1, 2, 3]);
    o.next();
    o.remove_entity(1);
    assert_eq!(o.current(), Some(2));
    assert_eq!(o.position(), 0);
}

#[test]
fn remove_current_at_position_zero_rolls_back_turn() {
    let mut o = order_of(&[1, 2, 3]);
    assert_eq!(o.turn(), 1);
    o.remove_entity(1);
    assert_eq!(o.position(), 1);
    assert_eq!(o.current(), Some(3));
    assert_eq!(o.turn(), 0);
    assert!(o.next());
    assert_eq!(o.turn(), 1);
    assert_eq!(o.current(), Some(2));
}

#[test]
fn remove_after_position_no_fixup() {
    let mut o = order_of(&[1, 2, 3]);
    o.remove_entity(3);
    assert_eq!(o.current(), Some(1));
    assert_eq!(o.position(), 0);
    assert!(!o.next());
    assert_eq!(o.current(), Some(2));
    assert!(o.next());
    assert_eq!(o.turn(), 2);
}

#[test]
fn insert_at_position_shifts() {
    let mut o = order_of(&[1, 2]);
    o.next();
    o.insert_entity(1, 9);
    assert_eq!(o.current(), Some(2));
    assert_eq!(o.fids(), &[1, 9, 2]);
}

#[test]
fn cooldown_decrement_semantics() {
    let mut cds: BTreeMap<i32, i32> = BTreeMap::new();
    cds.insert(1, 1);
    cds.insert(2, 2);
    cds.insert(3, 5);
    decrement_or_remove(&mut cds);
    assert_eq!(cds.get(&1), None);
    assert_eq!(cds.get(&2), Some(&1));
    assert_eq!(cds.get(&3), Some(&4));
}

#[test]
fn tp_total_minus_used_with_buffs() {
    let mut stats = Stats::default();
    stats.set(STAT_LIFE, 500);
    stats.set(STAT_TP, 6);
    let mut f = Fighter::new(0, 1, "L".to_string(), 0, stats);
    assert_eq!(f.life, 500);
    assert_eq!(f.tp(), 6);
    f.use_tp(4);
    assert_eq!(f.tp(), 2);
    f.buff_stats.update(STAT_TP, 3);
    assert_eq!(f.tp(), 5);
}
