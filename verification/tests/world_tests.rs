use creative_zone::grid::{
    forward_neighbors, has_path, minimum_lateral_moves, reachable_columns_at_lane,
    reachable_tiles, run_is_open, section_has_crossing,
};
use creative_zone::masks::{columns_mask, count_ones, mask_difference, mirror_mask};
use creative_zone::world::{
    contains_column, Environment, ForestSectionKind, Lane, LaneKind, Section, SectionKind,
};

fn forest(obstacles: Vec<usize>) -> Lane {
    Lane {
        environment: Environment::Forest,
        section_kind: SectionKind::Forest(ForestSectionKind::Grove),
        section_id: 0,
        kind: LaneKind::Grass,
        obstacle_columns: obstacles,
        platform_columns: Vec::new(),
    }
}

fn river(platforms: Vec<usize>) -> Lane {
    Lane {
        environment: Environment::River,
        section_kind: SectionKind::River,
        section_id: 1,
        kind: LaneKind::Water,
        obstacle_columns: Vec::new(),
        platform_columns: platforms,
    }
}

#[test]
fn obstacle_mask_sets_one_bit_per_column() {
    assert_eq!(forest(vec![0, 2, 6]).obstacle_mask(), 0b100_0101);
    assert_eq!(forest(Vec::new()).obstacle_mask(), 0);
}

#[test]
fn layout_mask_reads_platforms_on_a_river() {
    assert_eq!(river(vec![1, 2]).layout_mask(), 0b110);
    assert_eq!(forest(vec![3]).layout_mask(), 0b1000);
}

#[test]
fn obstacles_block_and_water_drowns() {
    let trees = forest(vec![2]);
    assert!(trees.blocks_movement(2));
    assert!(!trees.supports_player(2));
    assert!(trees.supports_player(3));
    let water = river(vec![4, 5]);
    assert!(!water.blocks_movement(0));
    assert!(!water.supports_player(0));
    assert!(water.supports_player(4));
}

#[test]
fn section_signature_lists_lane_masks() {
    let section = Section::new(vec![forest(vec![0]), forest(vec![1, 2])], SectionKind::Forest(ForestSectionKind::Grove));
    assert_eq!(section.signature.lane_masks, vec![0b1, 0b110]);
    assert_eq!(section.signature.kind, SectionKind::Forest(ForestSectionKind::Grove));
    assert_eq!(section.lanes.len(), 2);
}

#[test]
fn masks_count_mirror_and_compare() {
    assert_eq!(columns_mask(&vec![0, 3]), 0b1001);
    assert_eq!(count_ones(0b1011), 3);
    assert_eq!(count_ones(0xFF), 8);
    assert_eq!(mirror_mask(0b000_0001), 0b100_0000);
    assert_eq!(mirror_mask(0b000_0110), 0b011_0000);
    assert_eq!(mirror_mask(mirror_mask(0b010_1101)), 0b010_1101);
    assert_eq!(mask_difference(&[0b101], &[0b011]), 2);
    assert_eq!(mask_difference(&[1, 2], &[1]), 0);
    assert_eq!(mask_difference(&[0b111, 0b1], &[0b111, 0b1]), 0);
}

#[test]
fn contains_column_finds_listed_columns() {
    assert!(contains_column(&vec![1, 4], 4));
    assert!(!contains_column(&vec![1, 4], 2));
    assert!(!contains_column(&Vec::new(), 0));
}

#[test]
fn forward_neighbors_step_ahead_or_sideways_on_the_board() {
    assert_eq!(forward_neighbors(2, 3), vec![(1, 3), (2, 2), (2, 4)]);
    assert_eq!(forward_neighbors(3, 0), vec![(2, 0), (3, 1)]);
    assert_eq!(forward_neighbors(0, 6), vec![(0, 5)]);
}

#[test]
fn runs_are_open_only_without_obstacles() {
    let lane = forest(vec![4]);
    assert!(run_is_open(&lane, 0, 3));
    assert!(run_is_open(&lane, 3, 0));
    assert!(!run_is_open(&lane, 2, 5));
    assert!(!run_is_open(&lane, 5, 7));
}

#[test]
fn a_single_gap_needs_lateral_moves() {
    let lanes = vec![forest(vec![0, 1, 2, 3, 4, 5]), forest(Vec::new()), forest(Vec::new())];
    assert_eq!(reachable_columns_at_lane(&lanes, 2, 3, 0), vec![6]);
    assert!(has_path(&lanes, 2, 3, 0));
    assert_eq!(minimum_lateral_moves(&lanes, 2, 3, 0), Some(3));
    assert_eq!(minimum_lateral_moves(&lanes, 2, 3, 2), Some(0));
    let visited = reachable_tiles(&lanes, 2, 3);
    assert_eq!(visited.len(), 3);
    assert!(visited[1].iter().all(|v| *v));
    assert_eq!(visited[0], vec![false, false, false, false, false, false, true]);
}

#[test]
fn a_wall_blocks_every_path() {
    let lanes = vec![forest(Vec::new()), forest(vec![0, 1, 2, 3, 4, 5, 6]), forest(Vec::new())];
    assert!(!has_path(&lanes, 2, 3, 0));
    assert!(reachable_columns_at_lane(&lanes, 2, 3, 0).is_empty());
    assert_eq!(minimum_lateral_moves(&lanes, 2, 3, 0), None);
}

#[test]
fn an_unsupported_start_reaches_nothing() {
    let lanes = vec![forest(Vec::new()), river(vec![0, 1])];
    let visited = reachable_tiles(&lanes, 1, 3);
    assert!(visited.iter().all(|row| row.iter().all(|v| !*v)));
    assert_eq!(minimum_lateral_moves(&lanes, 1, 3, 0), None);
    assert!(reachable_columns_at_lane(&lanes, 0, 0, 5).is_empty());
}

#[test]
fn paths_cannot_step_back() {
    let lanes = vec![forest(Vec::new()), forest(Vec::new())];
    assert!(!has_path(&lanes, 0, 3, 1));
}

#[test]
fn sections_can_or_cannot_be_crossed() {
    assert!(section_has_crossing(&[forest(vec![0, 1]), forest(vec![5, 6])]));
    assert!(!section_has_crossing(&[forest(Vec::new()), forest(vec![0, 1, 2, 3, 4, 5, 6])]));
    assert!(section_has_crossing(&[river(vec![2, 3]), river(vec![3, 4])]));
    assert!(!section_has_crossing(&[river(vec![0, 1]), river(vec![5, 6])]));
}
