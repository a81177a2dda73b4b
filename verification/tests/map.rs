use leek_game::map::{GameMap, DIR_EAST, DIR_NORTH, DIR_SOUTH, DIR_WEST};
use leek_game::mapgen::generate_standard_map;
use leek_game::mask::{generate_circle_mask, generate_plus_mask};
use leek_game::rng::OfficialRng;


#[test]
fn cell_count_18x18() {
    let map = GameMap::new(18, 18);
    assert_eq!(map.nb_cells, 613, "18×18 map must have 613 cells");
}

#[test]
fn cell_coordinates_spot_check() {
    let map = GameMap::new(18, 18);
    assert_eq!((map.cells[0].x, map.cells[0].y), (0, 0));
    assert_eq!((map.cells[1].x, map.cells[1].y), (1, -1));
    assert_eq!((map.cells[17].x, map.cells[17].y), (17, -17));
    assert_eq!((map.cells[18].x, map.cells[18].y), (1, 0));
    assert_eq!((map.cells[35].x, map.cells[35].y), (1, 1));
    assert_eq!((map.cells[612].x, map.cells[612].y), (34, 0));
}

#[test]
fn neighbor_relations() {
    let map = GameMap::new(18, 18);
    assert_eq!(map.get_cell_by_dir(18, DIR_NORTH), Some(1));
    assert_eq!(map.get_cell_by_dir(18, DIR_EAST), Some(36));
    assert_eq!(map.get_cell_by_dir(18, DIR_SOUTH), Some(35));
    assert_eq!(map.get_cell_by_dir(18, DIR_WEST), Some(0));

    assert_eq!(map.get_cell_by_dir(0, DIR_NORTH), None);
    assert_eq!(map.get_cell_by_dir(0, DIR_SOUTH), None);
    assert_eq!(map.get_cell_by_dir(0, DIR_WEST), None);
    assert_eq!(map.get_cell_by_dir(0, DIR_EAST), Some(18));
}

#[test]
fn cells_around_order() {
    let map = GameMap::new(18, 18);
    assert_eq!(
        map.cells_around(306),
        [Some(323), Some(288), Some(289), Some(324)]
    );
}

#[test]
fn get_cell_xy_roundtrip() {
    let map = GameMap::new(18, 18);
    for c in &map.cells {
        assert_eq!(
            map.get_cell_xy(c.x, c.y),
            Some(c.id),
            "cell {} at ({},{}) must round-trip through get_cell_xy",
            c.id,
            c.x,
            c.y
        );
    }
}

#[test]
fn cell_distances_seed42() {
    let map = GameMap::new(18, 18);
    assert_eq!(map.get_cell_distance(0, 50), 30);
    assert_eq!(map.get_cell_distance(0, 100), 25);
    assert_eq!(map.get_cell_distance(0, 200), 15);
    assert_eq!(map.get_cell_distance(0, 300), 17);
    assert_eq!(map.get_cell_distance(0, 400), 30);
    assert_eq!(map.get_cell_distance(0, 500), 28);
    assert_eq!(map.get_cell_distance(0, 612), 34);
    assert_eq!(map.get_cell_distance(0, 284), 16);
    assert_eq!(map.get_cell_distance(0, 305), 17);
    assert_eq!(map.get_cell_distance(50, 100), 5);
    assert_eq!(map.get_cell_distance(50, 200), 15);
    assert_eq!(map.get_cell_distance(50, 300), 25);
    assert_eq!(map.get_cell_distance(50, 400), 20);
    assert_eq!(map.get_cell_distance(100, 200), 10);
    assert_eq!(map.get_cell_distance(200, 300), 10);
    assert_eq!(map.get_cell_distance(300, 284), 3);
    assert_eq!(map.get_cell_distance(284, 305), 7);
    assert_eq!(map.get_cell_distance(400, 612), 12);
    assert_eq!(map.get_cell_distance(500, 612), 14);
    assert_eq!(map.get_cell_distance(612, 284), 26);
}

#[test]
fn golden_seed42_map_generation() {
    let mut rng = OfficialRng::new(42);
    let (map, team0, team1) = generate_standard_map(&mut rng);

    assert_eq!(map.map_type, 4, "map type");
    assert_eq!(map.width, 18);
    assert_eq!(map.height, 18);
    assert_eq!(map.nb_cells, 613);

    let expected_obstacles: &[(usize, i32)] = &[
        (5, 2),
        (10, 2),
        (30, 2),
        (37, 1),
        (69, 1),
        (75, 1),
        (76, 2),
        (86, 2),
        (89, 2),
        (118, 2),
        (129, 2),
        (141, 1),
        (145, 1),
        (159, 2),
        (167, 1),
        (198, 2),
        (200, 2),
        (206, 1),
        (227, 1),
        (236, 1),
        (239, 1),
        (241, 1),
        (248, 1),
        (261, 2),
        (267, 1),
        (268, 1),
        (294, 1),
        (300, 2),
        (308, 2),
        (332, 1),
        (334, 1),
        (336, 2),
        (345, 1),
        (348, 1),
        (352, 1),
        (357, 2),
        (362, 2),
        (372, 1),
        (387, 1),
        (390, 2),
        (432, 1),
        (433, 1),
        (438, 2),
        (445, 1),
        (451, 1),
        (465, 2),
        (470, 1),
        (477, 2),
        (479, 2),
        (498, 2),
        (503, 2),
        (509, 1),
        (522, 1),
        (523, 2),
        (539, 1),
        (546, 1),
        (560, 1),
        (608, 1),
        (609, 1),
        (612, 1),
    ];

    let mut actual: Vec<(usize, i32)> = map
        .cells
        .iter()
        .filter(|c| !c.walkable && c.obstacle_size > 0)
        .map(|c| (c.id, c.obstacle_size))
        .collect();
    actual.sort_by_key(|&(id, _)| id);

    assert_eq!(
        actual, expected_obstacles,
        "obstacle list mismatch (seed 42)"
    );

    assert_eq!(team0, Some(284), "team0 entity cell");
    assert_eq!(team1, Some(505), "team1 entity cell");
}

#[test]
fn golden_seed7_map_generation() {
    let mut rng = OfficialRng::new(7);
    let (map, team0, team1) = generate_standard_map(&mut rng);

    assert_eq!(map.map_type, 1);

    let expected_obstacles: &[(usize, i32)] = &[
        (0, 1),
        (10, 1),
        (16, 2),
        (20, 2),
        (24, 2),
        (32, 1),
        (45, 2),
        (47, 1),
        (69, 1),
        (71, 2),
        (79, 2),
        (81, 1),
        (84, 1),
        (105, 1),
        (122, 1),
        (125, 2),
        (132, 2),
        (137, 2),
        (183, 2),
        (184, 1),
        (187, 1),
        (210, 1),
        (242, 2),
        (269, 1),
        (272, 2),
        (288, 1),
        (297, 1),
        (298, 2),
        (304, 1),
        (310, 1),
        (332, 1),
        (339, 2),
        (347, 1),
        (353, 1),
        (358, 1),
        (361, 1),
        (376, 1),
        (379, 2),
        (389, 1),
        (398, 2),
        (402, 1),
        (422, 1),
        (425, 2),
        (427, 2),
        (436, 2),
        (439, 2),
        (467, 1),
        (479, 1),
        (484, 2),
        (486, 2),
        (499, 1),
        (505, 2),
        (513, 2),
        (518, 1),
        (555, 2),
        (563, 2),
        (567, 1),
        (571, 1),
        (576, 2),
    ];

    let mut actual: Vec<(usize, i32)> = map
        .cells
        .iter()
        .filter(|c| !c.walkable && c.obstacle_size > 0)
        .map(|c| (c.id, c.obstacle_size))
        .collect();
    actual.sort_by_key(|&(id, _)| id);

    assert_eq!(
        actual, expected_obstacles,
        "obstacle list mismatch (seed 7)"
    );
    assert_eq!(team0, Some(491), "team0 entity cell (seed 7)");
    assert_eq!(team1, Some(49), "team1 entity cell (seed 7)");
}

#[test]
fn golden_seed12345_map_generation() {
    let mut rng = OfficialRng::new(12345);
    let (map, team0, team1) = generate_standard_map(&mut rng);

    assert_eq!(map.map_type, 4);

    let expected_obstacles: &[(usize, i32)] = &[
        (1, 1),
        (3, 1),
        (9, 2),
        (15, 2),
        (17, 1),
        (39, 1),
        (56, 1),
        (64, 1),
        (74, 1),
        (78, 1),
        (93, 2),
        (113, 1),
        (116, 2),
        (136, 1),
        (146, 1),
        (150, 1),
        (152, 1),
        (158, 2),
        (168, 1),
        (170, 1),
        (172, 2),
        (192, 1),
        (197, 1),
        (199, 2),
        (208, 1),
        (219, 2),
        (222, 2),
        (227, 1),
        (229, 1),
        (242, 2),
        (253, 1),
        (270, 1),
        (276, 1),
        (283, 2),
        (286, 1),
        (294, 1),
        (311, 2),
        (315, 1),
        (319, 1),
        (331, 1),
        (344, 1),
        (359, 1),
        (360, 1),
        (367, 1),
        (382, 2),
        (393, 1),
        (428, 1),
        (437, 1),
        (440, 1),
        (446, 1),
        (478, 1),
        (486, 1),
        (500, 2),
        (521, 2),
        (523, 1),
        (552, 2),
        (553, 1),
        (565, 1),
        (586, 1),
        (591, 1),
        (605, 1),
    ];

    let mut actual: Vec<(usize, i32)> = map
        .cells
        .iter()
        .filter(|c| !c.walkable && c.obstacle_size > 0)
        .map(|c| (c.id, c.obstacle_size))
        .collect();
    actual.sort_by_key(|&(id, _)| id);

    assert_eq!(
        actual, expected_obstacles,
        "obstacle list mismatch (seed 12345)"
    );
    assert_eq!(team0, Some(389), "team0 entity cell (seed 12345)");
    assert_eq!(team1, Some(296), "team1 entity cell (seed 12345)");
}

#[test]
fn golden_seed42_paths() {
    let mut rng = OfficialRng::new(42);
    let (map, _, _) = generate_standard_map(&mut rng);

    let p = map.get_path_between(0, 50, &[]);
    assert_eq!(
        p.as_deref(),
        Some(
            [
                18, 36, 54, 72, 90, 108, 126, 144, 162, 180, 163, 181, 199, 182, 165, 148, 131,
                114, 97, 80, 98, 116, 99, 82, 100, 83, 101, 84, 67, 50
            ]
            .as_ref()
        ),
        "path 0→50"
    );

    let p = map.get_path_between(50, 0, &[]);
    assert_eq!(
        p.as_deref(),
        Some(
            [
                67, 84, 66, 83, 100, 117, 134, 151, 133, 150, 132, 149, 166, 148, 165, 182,
                199, 181, 163, 180, 162, 144, 126, 108, 90, 72, 54, 36, 18, 0
            ]
            .as_ref()
        ),
        "path 50→0"
    );

    assert_eq!(
        map.get_path_between(0, 612, &[]),
        None,
        "path 0→612 unreachable"
    );

    assert_eq!(map.get_path_between(100, 500, &[]), None, "path 100→500");

    let p = map.get_path_between(200, 400, &[]);
    assert_eq!(
        p.as_deref(),
        Some(
            [
                183, 166, 184, 202, 220, 238, 256, 274, 292, 310, 328, 346, 364, 382, 400
            ]
            .as_ref()
        ),
        "path 200→400"
    );

    let p = map.get_path_between(284, 305, &[]);
    assert_eq!(
        p.as_deref(),
        Some([302, 285, 303, 321, 304, 287, 305].as_ref()),
        "path 284→305"
    );

    let p = map.get_path_between(0, 100, &[]);
    assert_eq!(
        p.as_deref(),
        Some(
            [
                18, 36, 54, 72, 90, 108, 126, 144, 162, 180, 163, 181, 199, 182, 165, 148, 131,
                114, 97, 80, 98, 116, 99, 82, 100
            ]
            .as_ref()
        ),
        "path 0→100"
    );

    let p = map.get_path_between(300, 600, &[]);
    assert_eq!(
        p.as_deref(),
        Some(
            [
                282, 299, 316, 333, 350, 368, 386, 404, 422, 440, 458, 475, 493, 511, 529, 547,
                564, 582, 600
            ]
            .as_ref()
        ),
        "path 300→600"
    );

    let p = map.get_path_between(150, 450, &[]);
    assert_eq!(
        p.as_deref(),
        Some(
            [
                168, 185, 202, 220, 237, 255, 273, 290, 307, 324, 342, 360, 378, 396, 414, 431,
                449, 467, 450
            ]
            .as_ref()
        ),
        "path 150→450"
    );

    assert_eq!(map.get_path_between(0, 200, &[]), None, "path 0→200");
}

#[test]
fn golden_seed7_paths() {
    let mut rng = OfficialRng::new(7);
    let (map, _, _) = generate_standard_map(&mut rng);

    let p = map.get_path_between(0, 50, &[]);
    assert_eq!(
        p.as_deref(),
        Some(
            [
                18, 36, 54, 72, 90, 108, 126, 144, 162, 180, 163, 181, 199, 217, 235, 253, 236,
                219, 202, 185, 203, 186, 169, 152, 135, 118, 101, 119, 102, 85, 67, 50
            ]
            .as_ref()
        ),
        "seed7 path 0→50"
    );

    assert_eq!(map.get_path_between(50, 0, &[]), None, "seed7 path 50→0");

    let p = map.get_path_between(100, 500, &[]);
    assert_eq!(
        p.as_deref(),
        Some(
            [
                117, 134, 152, 169, 186, 203, 220, 237, 255, 273, 291, 308, 325, 342, 359, 377,
                394, 411, 428, 446, 464, 482, 500
            ]
            .as_ref()
        ),
        "seed7 path 100→500"
    );

    let p = map.get_path_between(284, 305, &[]);
    assert_eq!(
        p.as_deref(),
        Some([267, 250, 233, 251, 234, 252, 270, 287, 305].as_ref()),
        "seed7 path 284→305"
    );

    let p = map.get_path_between(300, 600, &[]);
    assert_eq!(
        p.as_deref(),
        Some(
            [
                317, 334, 352, 369, 387, 405, 423, 441, 459, 477, 494, 512, 529, 546, 564, 582,
                600
            ]
            .as_ref()
        ),
        "seed7 path 300→600"
    );

    let p = map.get_path_between(150, 450, &[]);
    assert_eq!(
        p.as_deref(),
        Some(
            [
                168, 185, 202, 219, 237, 255, 273, 291, 309, 327, 345, 363, 381, 399, 417, 434,
                451, 468, 450
            ]
            .as_ref()
        ),
        "seed7 path 150→450"
    );
}

#[test]
fn golden_seed12345_paths() {
    let mut rng = OfficialRng::new(12345);
    let (map, _, _) = generate_standard_map(&mut rng);

    assert_eq!(
        map.get_path_between(0, 50, &[]),
        None,
        "seed12345 path 0→50"
    );

    let p = map.get_path_between(50, 0, &[]);
    assert_eq!(
        p.as_deref(),
        Some(
            [
                67, 84, 66, 48, 65, 82, 99, 81, 63, 45, 62, 79, 61, 43, 60, 77, 94, 76, 58, 75,
                92, 109, 91, 73, 55, 37, 19, 36, 18, 0
            ]
            .as_ref()
        ),
        "seed12345 path 50→0"
    );

    let p = map.get_path_between(0, 612, &[]);
    assert_eq!(
        p.as_deref(),
        Some(
            [
                18, 36, 54, 72, 90, 108, 126, 144, 162, 180, 198, 215, 233, 251, 269, 287, 305,
                323, 341, 324, 342, 325, 343, 361, 379, 397, 415, 433, 451, 469, 487, 504, 522,
                540, 558, 576, 594, 612
            ]
            .as_ref()
        ),
        "seed12345 path 0→612"
    );

    let p = map.get_path_between(284, 305, &[]);
    assert_eq!(
        p.as_deref(),
        Some([302, 320, 338, 321, 339, 322, 305].as_ref()),
        "seed12345 path 284→305"
    );

    let p = map.get_path_between(0, 100, &[]);
    assert_eq!(
        p.as_deref(),
        Some(
            [
                18, 36, 19, 37, 55, 73, 91, 109, 92, 75, 58, 76, 94, 112, 130, 148, 131, 114,
                132, 115, 98, 81, 99, 117, 100
            ]
            .as_ref()
        ),
        "seed12345 path 0→100"
    );

    let p = map.get_path_between(300, 600, &[]);
    assert_eq!(
        p.as_deref(),
        Some(
            [
                317, 334, 351, 369, 387, 404, 421, 438, 456, 474, 492, 510, 528, 546, 564, 582,
                600
            ]
            .as_ref()
        ),
        "seed12345 path 300→600"
    );

    let p = map.get_path_between(150, 450, &[]);
    assert_eq!(
        p.as_deref(),
        Some(
            [
                167, 185, 203, 221, 238, 256, 274, 292, 310, 327, 345, 362, 379, 397, 414, 432,
                450
            ]
            .as_ref()
        ),
        "seed12345 path 150→450"
    );

    let p = map.get_path_between(0, 200, &[]);
    assert_eq!(
        p.as_deref(),
        Some(
            [
                18, 36, 19, 37, 55, 73, 91, 109, 127, 145, 163, 181, 164, 182, 200
            ]
            .as_ref()
        ),
        "seed12345 path 0→200"
    );
}

#[test]
fn golden_seed42_los() {
    let mut rng = OfficialRng::new(42);
    let (map, _, _) = generate_standard_map(&mut rng);

    assert!(!map.verify_los(0, 50, true, &[0]));
    assert!(!map.verify_los(100, 200, true, &[100]));
    assert!(!map.verify_los(300, 400, true, &[300]));
    assert!(!map.verify_los(0, 612, true, &[0]));
    assert!(!map.verify_los(50, 612, true, &[50]));
    assert!(!map.verify_los(100, 500, true, &[100]));
    assert!(!map.verify_los(200, 400, true, &[200]));
    assert!(map.verify_los(284, 305, true, &[284]));
    assert!(!map.verify_los(0, 300, true, &[0]));
    assert!(!map.verify_los(150, 450, true, &[150]));
}

#[test]
fn golden_seed7_los_284_305() {
    let mut rng = OfficialRng::new(7);
    let (map, _, _) = generate_standard_map(&mut rng);
    assert!(!map.verify_los(284, 305, true, &[284]));
}

#[test]
fn golden_seed42_composantes() {
    let mut rng = OfficialRng::new(42);
    let (map, _, _) = generate_standard_map(&mut rng);

    assert_eq!(map.cells[0].composante, map.cells[284].composante);
    assert_eq!(map.cells[284].composante, map.cells[505].composante);
    assert_ne!(map.cells[0].composante, map.cells[612].composante);
}

#[test]
fn circle_mask_min0_max1() {
    let mask = generate_circle_mask(0, 1).unwrap();
    assert_eq!(mask.len(), 5);
    assert_eq!(mask[0], [0, 0]);
    assert_eq!(mask[1], [1, 0]);
    assert_eq!(mask[2], [0, -1]);
    assert_eq!(mask[3], [-1, 0]);
    assert_eq!(mask[4], [0, 1]);
}

#[test]
fn circle_mask_min_gt_max() {
    assert!(generate_circle_mask(5, 3).is_none());
}

#[test]
fn plus_mask_radius2() {
    let mask = generate_plus_mask(2);
    assert_eq!(mask.len(), 9);
    assert_eq!(mask[0], [0, 0]);
    assert_eq!(mask[1], [1, 0]);
    assert_eq!(mask[2], [0, -1]);
    assert_eq!(mask[3], [-1, 0]);
    assert_eq!(mask[4], [0, 1]);
    assert_eq!(mask[5], [2, 0]);
    assert_eq!(mask[6], [0, -2]);
    assert_eq!(mask[7], [-2, 0]);
    assert_eq!(mask[8], [0, 2]);
}

#[test]
fn in_line_same_x() {
    let map = GameMap::new(18, 18);
    assert!(!map.in_line(0, 35));
    assert!(map.in_line(18, 0));
    assert!(map.in_line(0, 612));
}
