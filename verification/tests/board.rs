use leek_game::map::{obstacle_size, GameMap};
use leek_game::mask::{generate_circle_mask, generate_mask, generate_square_mask, generate_x_mask};
use leek_game::rng::OfficialRng;

fn board() -> GameMap {
    GameMap::new(18, 18)
}

#[test]
fn distances_are_those_of_a_metric() {
    let map = board();
    let cells = [0, 17, 50, 306, 400, 612];
    for a in cells {
        assert_eq!(map.get_cell_distance(a, a), 0);
        for b in cells {
            assert_eq!(map.get_cell_distance(a, b), map.get_cell_distance(b, a));
            for c in cells {
                assert!(
                    map.get_cell_distance(a, c)
                        <= map.get_cell_distance(a, b) + map.get_cell_distance(b, c)
                );
            }
        }
    }
    assert_eq!(map.get_distance_sq(288, 324), 4);
    assert_eq!(map.get_cell_distance_to_set(306, &[288, 0, 324]), 1);
    assert_eq!(map.get_distance2_to_set(306, &[0, 342]), 4);
}

#[test]
fn cells_off_the_board_are_none() {
    let map = board();
    assert_eq!(map.get_cell(0), Some(0));
    assert_eq!(map.get_cell(612), Some(612));
    assert_eq!(map.get_cell(613), None);
    assert_eq!(map.get_cell(-1), None);
    assert_eq!(map.get_cell_xy(100, 0), None);
    assert_eq!(map.get_next_cell(306, 1, 0), Some(324));
    assert_eq!(map.get_next_cell(0, -1, 0), None);
}

#[test]
fn an_attack_reaches_its_range_in_its_directions() {
    let map = board();
    assert!(map.verify_range(306, 324, 1, 7, 1));
    assert!(!map.verify_range(306, 306, 1, 7, 1));
    assert!(!map.verify_range(306, 324, 2, 7, 1));
    let diagonal = map.get_cell_xy(18, 1).unwrap();
    assert!(!map.verify_range(306, diagonal, 1, 7, 1));
    assert!(map.verify_range(306, diagonal, 1, 7, 2));
    assert!(map.verify_range(306, diagonal, 1, 7, 7));
    let askew = map.get_cell_xy(19, 1).unwrap();
    assert!(map.verify_range(306, askew, 1, 7, 4));
    assert!(!map.verify_range(306, askew, 1, 7, 3));
}

#[test]
fn masks_hold_each_offset_once() {
    for mask in [
        generate_circle_mask(0, 3).unwrap(),
        generate_x_mask(2),
        generate_square_mask(2),
        generate_mask(7, 1, 4),
    ] {
        for (i, a) in mask.iter().enumerate() {
            assert!(!mask[..i].contains(a), "{a:?} twice");
        }
    }
    assert_eq!(generate_circle_mask(0, 3).unwrap().len(), 25);
    assert_eq!(generate_circle_mask(2, 2).unwrap().len(), 8);
    assert_eq!(generate_x_mask(2).len(), 9);
    assert_eq!(generate_square_mask(1).len(), 9);
    assert_eq!(generate_square_mask(2).len(), 25);
}

#[test]
fn neighbours_see_each_other() {
    let map = board();
    for cell in [0, 306, 612] {
        for next in map.cells_around(cell).into_iter().flatten() {
            assert!(map.verify_los(cell, next, true, &[cell]));
        }
    }
}

#[test]
fn whoever_stands_in_between_blocks_the_sight() {
    let mut map = board();
    assert!(map.verify_los(288, 324, true, &[288]));
    map.entity_cells.push(306);
    assert!(!map.verify_los(288, 324, true, &[288]));
    assert!(map.verify_los(288, 324, true, &[288, 306]));
    assert!(map.verify_los(288, 324, false, &[288]));
}

#[test]
fn a_path_is_as_short_as_the_distance_on_an_empty_board() {
    let map = board();
    for (a, b) in [(0, 612), (306, 17), (50, 400)] {
        let path = map.get_path_between(a, b, &[]).unwrap();
        assert_eq!(path.len() as i32, map.get_cell_distance(a, b));
        assert_eq!(*path.last().unwrap(), b);
    }
    assert_eq!(map.get_path_between(5, 5, &[]), None);
    assert_eq!(map.get_astar_path(5, &[], &[]), None);
    let path = map.get_astar_path_multi(306, &[0, 324, 612]).unwrap();
    assert_eq!(path, vec![324]);
}

#[test]
fn fleeing_leads_away() {
    let map = board();
    let path = map.get_path_away(306, &[288], 4).unwrap();
    assert!(!path.is_empty() && path.len() <= 4);
    let end = *path.last().unwrap();
    assert!(map.get_distance_sq(end, 288) > map.get_distance_sq(306, 288));
}

#[test]
fn who_is_pushed_slides_up_to_the_target() {
    let mut map = board();
    map.entity_cells.push(306);
    assert_eq!(map.push_last_available_cell(306, 342, 288), 342);
    assert_eq!(map.attract_last_available_cell(342, 306, 288), 324);
    map.entity_cells.push(342);
    assert_eq!(map.push_last_available_cell(306, 360, 288), 324);
    assert_eq!(map.repel_last_available_cell(306, 288, 3), 324);
}

#[test]
fn the_first_in_line_is_met() {
    let mut map = board();
    assert_eq!(map.get_first_entity(288, 342, 1, 7), None);
    map.entity_cells.push(324);
    assert_eq!(map.get_first_entity(288, 342, 1, 7), Some(324));
    assert_eq!(map.get_first_entity(288, 342, 1, 1), None);
    assert_eq!(map.get_first_entity_cell(288, 342, 1, 7), None);
}

#[test]
fn random_cells_are_free_ones() {
    let map = board();
    let mut rng = OfficialRng::new(3);
    for _ in 0..50 {
        let cell = map.get_random_cell(&mut rng).unwrap();
        assert!(map.cell_available(cell));
    }
    for _ in 0..50 {
        let cell = map.get_random_cell_in_part(&mut rng, 1).unwrap();
        assert!(map.cell_available(cell));
    }
}

#[test]
fn cast_cells_are_in_range_of_the_target() {
    let mut map = board();
    let cells = map.get_possible_cast_cells_for_target(2, 3, 7, true, 306, &[]);
    assert!(!cells.is_empty());
    for c in &cells {
        let d = map.get_cell_distance(*c, 306);
        assert!((2..=3).contains(&d));
    }
    assert!(map.get_valid_cells_around_obstacle(306).is_empty());
    map.cells[306].walkable = false;
    let mut around = map.get_valid_cells_around_obstacle(306);
    around.sort_unstable();
    assert_eq!(around, vec![288, 289, 323, 324]);
}

#[test]
fn obstacles_have_a_size() {
    assert_eq!(obstacle_size(-1), None);
    let sizes: Vec<i32> = (0..200).filter_map(obstacle_size).collect();
    assert!(!sizes.is_empty());
    assert!(sizes.iter().all(|s| (1..=5).contains(s)));
}

#[test]
fn a_random_cell_is_sought_in_as_many_draws_as_promised() {
    let mut map = board();
    for cell in &mut map.cells {
        cell.walkable = false;
    }
    let mut rng = OfficialRng::new(128);
    assert_eq!(map.get_random_cell(&mut rng), None);
    let mut other = OfficialRng::new(128);
    for _ in 0..64 {
        other.get_int(0, 613);
    }
    assert_eq!(rng.get_int(0, 1_000_000), other.get_int(0, 1_000_000));
}

#[test]
fn a_square_is_its_circle_and_its_corners() {
    for radius in 0..6 {
        let square = generate_square_mask(radius);
        let circle = generate_circle_mask(0, radius).unwrap();
        let side = 2 * radius as usize + 1;
        assert_eq!(square.len(), side * side);
        assert_eq!(square[..circle.len()], circle[..]);
        for x in -radius..=radius {
            for y in -radius..=radius {
                assert!(square.contains(&[x, y]));
            }
        }
    }
}

#[test]
fn a_flight_ends_on_the_furthest_cell_within_reach() {
    let mut map = board();
    map.cells[324].walkable = false;
    map.entity_cells.push(342);
    let bad = [288];
    for reach in 1..5 {
        let path = map.get_path_away(306, &bad, reach).unwrap();
        assert!(path.len() as i32 <= reach);
        let best = map.get_distance2_to_set(*path.last().unwrap(), &bad);
        assert!(best > map.get_distance2_to_set(306, &bad));
        for c in 0..map.cells.len() {
            let near = map
                .get_astar_path(306, &[c], &[])
                .is_some_and(|p| p.len() as i32 <= reach);
            if near && map.cell_available(c) {
                assert!(map.get_distance2_to_set(c, &bad) <= best);
            }
        }
    }
    assert_eq!(map.get_path_away(306, &bad, 0), None);
}

#[test]
fn every_cast_cell_can_cast() {
    let mut map = board();
    map.cells[342].walkable = false;
    map.entity_cells.push(288);
    for launch_type in [1, 2, 4, 7, 9] {
        for needs_los in [false, true] {
            let cells =
                map.get_possible_cast_cells_for_target(1, 4, launch_type, needs_los, 306, &[]);
            assert!(!cells.is_empty());
            for c in cells {
                assert!(map.verify_range(c, 306, 1, 4, launch_type));
                assert!(map.cell_available(c));
                assert!(map.verify_los(c, 306, needs_los, &[]));
            }
        }
    }
    assert!(map
        .get_possible_cast_cells_for_target(0, i32::MAX, 7, true, 342, &[])
        .is_empty());
}

#[test]
fn a_range_beyond_the_board_finds_what_the_longest_on_it_finds() {
    let mut map = board();
    map.cells[342].walkable = false;
    for launch_type in [0, 2, 4, 7, 9, 10] {
        let all = map.get_possible_cast_cells_for_target(2, 200, launch_type, true, 306, &[]);
        for max in [1000, i32::MAX] {
            let cells =
                map.get_possible_cast_cells_for_target(2, max, launch_type, true, 306, &[]);
            assert_eq!(cells, all);
        }
        assert!(map
            .get_possible_cast_cells_for_target(0, i32::MIN, launch_type, true, 306, &[])
            .is_empty());
    }
    let mask = generate_mask(7, 0, 34);
    let cells = map.get_possible_cast_cells_for_target(0, 34, 7, false, 306, &[]);
    let at = &map.cells[306];
    let named: Vec<usize> = mask
        .iter()
        .filter_map(|o| map.get_cell_xy(at.x + o[0], at.y + o[1]))
        .filter(|&c| map.cell_available(c))
        .collect();
    assert_eq!(cells, named);
}

#[test]
fn a_long_narrow_board_measures_its_corners() {
    let map = GameMap::new(1, 32768);
    assert_eq!(map.cells.len(), 32768);
    assert_eq!(map.get_distance_sq(0, 32767), 2 * 32767 * 32767);
    assert_eq!(map.get_cell_distance(0, 32767), 2 * 32767);
}

#[test]
fn no_cell_to_cast_from_is_missed() {
    let mut map = board();
    map.cells[342].walkable = false;
    map.entity_cells.push(288);
    for launch_type in 0..=10 {
        for needs_los in [false, true] {
            let cells =
                map.get_possible_cast_cells_for_target(1, 6, launch_type, needs_los, 306, &[]);
            for c in 0..613 {
                let casts = map.verify_range(c, 306, 1, 6, launch_type)
                    && map.cell_available(c)
                    && map.verify_los(c, 306, needs_los, &[]);
                assert_eq!(cells.contains(&c), casts);
            }
        }
    }
    let own = |launch_type, max| {
        map.get_possible_cast_cells_for_target(0, max, launch_type, true, 306, &[])
            .contains(&306)
    };
    assert!(own(1, 0) && own(2, 0) && own(7, 0));
    assert!(!own(4, 0) && own(4, 1));
    assert!(!own(8, 5));
}
