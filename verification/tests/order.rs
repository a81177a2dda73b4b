use leek_game::entity::Entity;
use leek_game::fight::Fight;
use leek_game::number::Real;
use leek_game::opening::{fight_start_order, start_order_seed};
use leek_game::order::{compute_start_order, DEFAULT_FREQUENCY};
use leek_game::rng::OfficialRng;

/// The weights of the teams: 10 to the power of a hundredth of the first
/// frequencies of the others.
fn weights(teams: &[Vec<(i64, i64)>]) -> Vec<Real> {
    let firsts: Vec<f64> = teams
        .iter()
        .map(|t| t.iter().map(|m| m.1).max().unwrap() as f64)
        .collect();
    let sum: f64 = firsts.iter().sum();
    firsts
        .iter()
        .map(|f| Real::from_bits(10f64.powf((sum - f) / 100.0).to_bits()).unwrap())
        .collect()
}

fn order_of(teams: &[Vec<(i64, i64)>], rng: &mut OfficialRng) -> Vec<i64> {
    compute_start_order(teams, &weights(teams), rng)
}


#[test]
fn one_v_one_equal_frequency() {
    let teams = vec![vec![(1, 100)], vec![(2, 100)]];
    let mut rng = OfficialRng::new(42);
    assert_eq!(order_of(&teams, &mut rng), vec![2, 1]);
    let mut rng = OfficialRng::new(1);
    assert_eq!(order_of(&teams, &mut rng), vec![2, 1]);
}

#[test]
fn two_v_two_mixed_frequencies() {
    let teams = vec![vec![(1, 100), (2, 300)], vec![(3, 200), (4, 50)]];
    let mut rng = OfficialRng::new(7);
    assert_eq!(order_of(&teams, &mut rng), vec![2, 3, 1, 4]);
}

#[test]
fn three_teams_uneven_sizes() {
    let teams = vec![vec![(1, 150)], vec![(2, 150), (3, 150)], vec![(4, 400)]];
    let mut rng = OfficialRng::new(12_345);
    assert_eq!(order_of(&teams, &mut rng), vec![4, 1, 2, 3]);
}

#[test]
fn three_v_two_equal_frequency() {
    let teams = vec![
        vec![(10, 100), (11, 100), (12, 100)],
        vec![(20, 100), (21, 100)],
    ];
    let mut rng = OfficialRng::new(99);
    assert_eq!(
        order_of(&teams, &mut rng),
        vec![20, 10, 21, 11, 12]
    );
}

fn duel(seed: u64) -> Fight {
    Fight::new(10, 10, 1)
        .with_seed(seed)
        .with_entity(Entity::new(1, "Bot".to_string(), 0, 0))
        .with_entity(Entity::new(2, "Foe".to_string(), 33, 1))
}

#[test]
fn fight_start_order_follows_the_seed() {
    let seeds = 1..=64;
    let opened_by_1 = seeds
        .clone()
        .filter(|&seed| fight_start_order(&duel(seed)).first() == Some(&1))
        .count();
    assert!(
        (16..=48).contains(&opened_by_1),
        "id 1 opened {opened_by_1} of 64 seeds"
    );
    let mut order = fight_start_order(&duel(7));
    order.sort_unstable();
    assert_eq!(order, vec![1, 2]);
}

#[test]
fn fight_start_order_matches_the_reference_draw() {
    let teams = vec![vec![(1, DEFAULT_FREQUENCY)], vec![(2, DEFAULT_FREQUENCY)]];
    for seed in [1_u64, 42, 1_000_003] {
        let mut rng = OfficialRng::new(start_order_seed(seed));
        assert_eq!(
            fight_start_order(&duel(seed)),
            order_of(&teams, &mut rng),
            "seed {seed}"
        );
    }
}

#[test]
fn fight_start_order_groups_by_team_and_skips_the_dead() {
    let fight = Fight::new(10, 10, 1)
        .with_seed(3)
        .with_entity(Entity::new(7, "Lead".to_string(), 0, 0))
        .with_entity(Entity::new(3, "Ally".to_string(), 1, 0))
        .with_entity(Entity::new(5, "Foe".to_string(), 33, 1))
        .with_entity(Entity::new(4, "Corpse".to_string(), 34, 1).with_life(0));
    let order = fight_start_order(&fight);
    assert_eq!(order.len(), 3);
    assert!(
        !order.contains(&4),
        "a dead fighter takes no slot: {order:?}"
    );
    let team0: Vec<i64> = order.iter().copied().filter(|id| *id != 5).collect();
    assert_eq!(team0, vec![7, 3], "team members keep setup order");
}
