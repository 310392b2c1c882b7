use creative_zone::game::{Game, Move, LANE_COUNT, RECENT_SECTION_LIMIT};
use creative_zone::grid::{has_path, minimum_lateral_moves, reachable_columns_at_lane};
use creative_zone::random::Random;
use creative_zone::world::{Environment, ForestSectionKind, LaneKind, SectionKind};

#[test]
fn initial_board_has_a_path_that_requires_lateral_movement() {
    for seed in 0..100 {
        let game = Game::with_seed(seed);
        let lateral_moves =
            minimum_lateral_moves(&game.lanes, game.player_lane, game.player_column, 0).unwrap();
        assert!(lateral_moves >= 2, "seed {seed} only required {lateral_moves}");
    }
}

#[test]
fn initial_board_has_a_safe_start_and_a_visible_river() {
    let game = Game::with_seed(99);
    assert_eq!(game.lanes[game.player_lane].environment, Environment::Forest);
    assert!(game.lanes[game.player_lane].supports_player(game.player_column));
    assert!(game.lanes.iter().any(|lane| lane.environment == Environment::River));
    for lane in &game.lanes {
        match lane.environment {
            Environment::Forest => {
                assert!(
                    lane.obstacle_columns.is_empty()
                        || (3..=4).contains(&lane.obstacle_columns.len())
                )
            }
            Environment::River => {
                assert!((3..=4).contains(&lane.platform_columns.len()))
            }
        }
    }

    let mut completed = Vec::new();
    let mut previous = None;
    for lane in &game.lanes {
        if previous != Some(lane.section_id) {
            assert!(!completed.contains(&lane.section_id));
            if let Some(section_id) = previous {
                completed.push(section_id);
            }
            previous = Some(lane.section_id);
        }
    }
}

#[test]
fn forest_sections_never_exceed_four_obstacles() {
    let mut game = Game::with_seed(12);
    let clearing = game.generate_section_candidate(100, ForestSectionKind::Clearing);
    let thicket = game.generate_section_candidate(101, ForestSectionKind::Thicket);
    assert!(clearing.lanes.iter().any(|lane| lane.obstacle_columns.len() == 3));
    assert!(thicket.lanes.iter().all(|lane| lane.obstacle_columns.len() == 4));
    assert!(clearing
        .lanes
        .iter()
        .chain(&thicket.lanes)
        .all(|lane| lane.obstacle_columns.len() <= 4));
}

#[test]
fn clearings_sometimes_include_one_fully_open_lane() {
    let mut game = Game::with_seed(44);
    let mut sections_with_open_lane = 0;
    for section_id in 0..100 {
        let section = game.generate_section_candidate(section_id, ForestSectionKind::Clearing);
        let open_lanes = section
            .lanes
            .iter()
            .filter(|lane| lane.obstacle_columns.is_empty())
            .count();
        assert!(open_lanes <= 1);
        sections_with_open_lane += usize::from(open_lanes == 1);
    }
    assert!((20..=50).contains(&sections_with_open_lane));
}

#[test]
fn initial_board_exposes_multiple_routes() {
    for seed in 0..100 {
        let game = Game::with_seed(seed);
        let exits = reachable_columns_at_lane(&game.lanes, game.player_lane, game.player_column, 0);
        assert!(exits.len() >= 2, "seed {seed} only exposed {exits:?}");
    }
}

#[test]
fn equal_seeds_produce_equal_world_layouts() {
    let first = Game::with_seed(123);
    let second = Game::with_seed(123);
    for (first_lane, second_lane) in first.lanes.iter().zip(&second.lanes) {
        assert_eq!(first_lane.section_kind, second_lane.section_kind);
        assert_eq!(first_lane.obstacle_columns, second_lane.obstacle_columns);
        assert_eq!(first_lane.platform_columns, second_lane.platform_columns);
    }
}

#[test]
fn recent_section_memory_stays_bounded() {
    let mut game = Game::with_seed(31);
    for _ in 0..20 {
        game.generate_forest_section();
    }
    assert_eq!(game.recent_sections.len(), RECENT_SECTION_LIMIT);
}

#[test]
fn player_can_move_to_an_empty_tile() {
    let mut game = Game::with_seed(1);
    game.player_column = 3;
    game.lanes[game.player_lane]
        .obstacle_columns
        .retain(|column| *column != 2);
    assert!(game.try_move(Move::Left));
    assert_eq!(game.player_column, 2);
}

#[test]
fn player_cannot_enter_an_obstacle() {
    let mut game = Game::with_seed(1);
    game.player_column = 3;
    game.lanes[game.player_lane].obstacle_columns = vec![2];
    assert!(!game.try_move(Move::Left));
    assert_eq!(game.player_column, 3);
}

#[test]
fn paused_game_blocks_player_movement() {
    let mut game = Game::with_seed(1);
    let initial_column = game.player_column;
    game.toggle_pause();
    assert!(!game.try_move(Move::Left));
    assert_eq!(game.player_column, initial_column);
}

#[test]
fn moving_forward_adds_a_point() {
    let mut game = Game::with_seed(5);
    let target_lane = game.player_lane - 1;
    let player_column = game.player_column;
    match game.lanes[target_lane].environment {
        Environment::Forest => game.lanes[target_lane]
            .obstacle_columns
            .retain(|column| *column != player_column),
        Environment::River => {
            if !game.lanes[target_lane].platform_columns.contains(&player_column) {
                game.lanes[target_lane].platform_columns.push(player_column);
            }
        }
    }
    assert!(game.try_move(Move::Forward));
    assert_eq!(game.score, 1);
}

#[test]
fn entering_river_without_a_log_ends_the_run() {
    let mut game = Game::with_seed(18);
    let target_lane = game.player_lane - 1;
    let player_column = game.player_column;
    let mut river = game.generate_river_lane(900, 3);
    river.platform_columns.retain(|column| *column != player_column);
    game.lanes[target_lane] = river;

    assert!(game.try_move(Move::Forward));
    assert!(game.game_over);
    assert_eq!(game.score, 0);
    assert_eq!(game.player_lane, target_lane);
}

#[test]
fn a_static_log_supports_the_player() {
    let mut game = Game::with_seed(21);
    let target_lane = game.player_lane - 1;
    let player_column = game.player_column;
    let mut river = game.generate_river_lane(901, 3);
    if !river.platform_columns.contains(&player_column) {
        river.platform_columns[0] = player_column;
        river.platform_columns.sort_unstable();
        river.platform_columns.dedup();
    }
    game.lanes[target_lane] = river;

    assert!(game.try_move(Move::Forward));
    assert!(!game.game_over);
    assert_eq!(game.player_lane, target_lane);
}

#[test]
fn many_recycled_boards_remain_solvable() {
    for seed in 0..100 {
        let mut game = Game::with_seed(seed);
        for step in 0..20 {
            game.recycle_front_lane();
            assert!(
                has_path(&game.lanes, game.player_lane, game.player_column, 0),
                "seed {seed} failed after recycle {step}"
            );
            assert!(
                reachable_columns_at_lane(&game.lanes, game.player_lane, game.player_column, 0)
                    .len()
                    >= 2,
                "seed {seed} exposed only one route after recycle {step}"
            );

            let next_lane = game.player_lane - 1;
            let reachable =
                reachable_columns_at_lane(&game.lanes, game.player_lane, game.player_column, next_lane);
            game.player_column = reachable
                .into_iter()
                .find(|column| has_path(&game.lanes, next_lane, *column, 0))
                .unwrap();
            game.player_lane = next_lane;
        }
    }
}

#[test]
fn speed_increases_at_the_requested_score_thresholds() {
    let mut game = Game::with_seed(7);
    let mut speeds = Vec::new();
    for score in [0, 10, 20, 35, 50] {
        game.score = score;
        speeds.push(game.cycle_millis());
    }
    assert!(speeds.windows(2).all(|pair| pair[1] < pair[0]));
}

#[test]
fn reset_restores_the_initial_state() {
    let mut game = Game::with_seed(4);
    game.score = 25;
    game.game_over = true;
    game.reset(4);
    assert_eq!(game.score, 0);
    assert!(!game.game_over);
    assert!(!game.paused);
    assert_eq!(game.player_lane, LANE_COUNT - 3);
}

#[test]
fn cycle_lengths_match_the_score_bands() {
    let mut game = Game::with_seed(7);
    let expected = [(0, 1250), (9, 1250), (10, 1050), (19, 1050), (20, 880), (34, 880), (35, 720), (49, 720), (50, 580), (1000, 580)];
    for (score, millis) in expected {
        game.score = score;
        assert_eq!(game.cycle_millis(), millis, "score {score}");
    }
}

#[test]
fn new_run_starts_in_the_middle_three_lanes_from_the_back() {
    let game = Game::with_seed(77);
    assert_eq!(game.player_column, 3);
    assert_eq!(game.player_lane, 4);
    assert_eq!(game.lanes.len(), LANE_COUNT);
    assert!(has_path(&game.lanes, game.player_lane, game.player_column, 0));
}

#[test]
fn moves_off_the_board_are_refused() {
    let mut game = Game::with_seed(2);
    game.player_column = 0;
    assert!(!game.try_move(Move::Left));
    game.player_column = 6;
    assert!(!game.try_move(Move::Right));
    game.player_lane = LANE_COUNT - 1;
    assert!(!game.try_move(Move::Backward));
    assert_eq!(game.player_lane, LANE_COUNT - 1);
}

#[test]
fn stepping_back_scores_nothing() {
    let mut game = Game::with_seed(5);
    let behind = game.player_lane + 1;
    let column = game.player_column;
    game.lanes[behind] = game.lanes[game.player_lane].clone();
    game.lanes[behind].environment = Environment::Forest;
    game.lanes[behind].obstacle_columns.retain(|c| *c != column);
    assert!(game.try_move(Move::Backward));
    assert_eq!(game.player_lane, behind);
    assert_eq!(game.score, 0);
}

#[test]
fn a_finished_run_refuses_moves() {
    let mut game = Game::with_seed(9);
    game.game_over = true;
    let before = (game.player_lane, game.player_column);
    assert!(!game.try_move(Move::Forward));
    assert_eq!((game.player_lane, game.player_column), before);
}

#[test]
fn pausing_twice_resumes() {
    let mut game = Game::with_seed(3);
    game.toggle_pause();
    assert!(game.paused);
    game.toggle_pause();
    assert!(!game.paused);
}

#[test]
fn recycling_on_the_last_lane_ends_the_run() {
    let mut game = Game::with_seed(6);
    game.player_lane = LANE_COUNT - 1;
    game.recycle_front_lane();
    assert_eq!(game.player_lane, LANE_COUNT - 1);
    assert!(game.game_over);
    assert_eq!(game.lanes.len(), LANE_COUNT);
}

#[test]
fn recycling_shifts_the_board_one_lane_back() {
    let mut game = Game::with_seed(8);
    let before: Vec<Vec<usize>> = game.lanes.iter().map(|l| l.obstacle_columns.clone()).collect();
    let lane = game.player_lane;
    game.recycle_front_lane();
    assert_eq!(game.player_lane, lane + 1);
    for i in 1..LANE_COUNT {
        assert_eq!(game.lanes[i].obstacle_columns, before[i - 1]);
    }
}

#[test]
fn no_two_rivers_follow_each_other() {
    let mut game = Game::with_seed(10);
    let mut previous_was_river = false;
    for _ in 0..200 {
        let section = game.generate_next_section();
        let is_river = section.signature.kind == SectionKind::River;
        assert!(!(previous_was_river && is_river));
        previous_was_river = is_river;
    }
}

#[test]
fn forest_kinds_change_from_section_to_section() {
    let mut game = Game::with_seed(11);
    let mut previous = None;
    for _ in 0..50 {
        let kind = game.choose_forest_kind();
        let section = game.generate_section_candidate(0, kind);
        game.accept_section(&section.signature);
        assert_ne!(Some(kind), previous);
        previous = Some(kind);
    }
}

#[test]
fn a_section_is_too_similar_to_itself_and_its_mirror() {
    let mut game = Game::with_seed(12);
    game.recent_sections.clear();
    let section = game.generate_section_candidate(0, ForestSectionKind::Grove);
    assert!(!game.section_is_too_similar(&section.signature));
    game.accept_section(&section.signature);
    assert!(game.section_is_too_similar(&section.signature));
    let mut mirrored = section.signature.clone();
    mirrored.lane_masks = mirrored.lane_masks.iter().map(|m| creative_zone::masks::mirror_mask(*m)).collect();
    assert!(game.section_is_too_similar(&mirrored));
}

#[test]
fn emergency_lane_is_an_open_clearing() {
    let mut game = Game::with_seed(13);
    let id = game.next_section_id;
    let lane = game.generate_emergency_lane();
    assert!(lane.obstacle_columns.is_empty());
    assert_eq!(lane.section_kind, SectionKind::Forest(ForestSectionKind::Clearing));
    assert_eq!(lane.section_id, id);
    assert_eq!(game.next_section_id, id + 1);
}

#[test]
fn emergency_window_keeps_the_player_column_open() {
    let mut game = Game::with_seed(14);
    let lanes = game.emergency_forest_window();
    assert_eq!(lanes.len(), LANE_COUNT);
    for (i, lane) in lanes.iter().enumerate() {
        assert!(!lane.obstacle_columns.contains(&game.player_column));
        assert_eq!(lane.obstacle_columns.len(), 3 + i % 2);
    }
}

fn ids_never_grow(ids: &[usize]) -> bool {
    ids.windows(2).all(|pair| pair[1] <= pair[0])
}

#[test]
fn new_boards_keep_sections_in_order_with_forest_near_and_a_river_in_sight() {
    for seed in 0..50 {
        let game = Game::with_seed(seed);
        let ids: Vec<usize> = game.lanes.iter().map(|lane| lane.section_id).collect();
        assert!(ids_never_grow(&ids), "seed {seed}: {ids:?}");
        for lane in &game.lanes[LANE_COUNT - 3..] {
            assert_eq!(lane.environment, Environment::Forest);
        }
        assert!(game.lanes.iter().any(|lane| lane.environment == Environment::River));
        let queued: Vec<usize> = game.pending_lanes.iter().map(|lane| lane.section_id).collect();
        assert!(queued.windows(2).all(|pair| pair[0] <= pair[1]));
        assert!(queued.iter().all(|id| *id >= ids[0] && *id < game.next_section_id));
    }
}

#[test]
fn recycled_boards_keep_sections_in_order() {
    for seed in 0..30 {
        let mut game = Game::with_seed(seed);
        for _ in 0..15 {
            game.recycle_front_lane();
            let ids: Vec<usize> = game.lanes.iter().map(|lane| lane.section_id).collect();
            assert!(ids_never_grow(&ids), "seed {seed}: {ids:?}");
            if game.player_lane + 1 >= LANE_COUNT {
                break;
            }
        }
    }
}

#[test]
fn lanes_follow_the_generator_draws() {
    let mut game = Game::with_seed(1);
    game.random = Random::new(0);
    let lane = game.generate_forest_lane(7, ForestSectionKind::Grove, 3, None);
    assert_eq!(lane.obstacle_columns, vec![3, 4, 5]);
    assert_eq!(lane.kind, LaneKind::Grass);
    assert_eq!(lane.section_id, 7);
    game.random = Random::new(1);
    let lane = game.generate_forest_lane(7, ForestSectionKind::Grove, 4, Some(3));
    assert_eq!(lane.obstacle_columns, vec![0, 2, 5, 6]);
    game.random = Random::new(42);
    let river = game.generate_river_lane(8, 4);
    assert_eq!(river.platform_columns, vec![1, 3, 4, 5]);
    game.random = Random::new(0);
    let river = game.generate_river_lane(8, 3);
    assert_eq!(river.platform_columns, vec![3, 4, 5]);
}

#[test]
fn an_emergency_lane_draws_only_its_ground() {
    let mut game = Game::with_seed(1);
    game.random = Random::new(5);
    let lane = game.generate_emergency_lane();
    assert!(lane.obstacle_columns.is_empty());
    let mut expected = Random::new(5);
    expected.range(7);
    assert_eq!(game.random.range(1000), expected.range(1000));
}

fn same_lanes(first: &Game, second: &Game) -> bool {
    first.lanes.len() == second.lanes.len()
        && first.lanes.iter().zip(&second.lanes).all(|(a, b)| {
            a.environment == b.environment
                && a.section_kind == b.section_kind
                && a.section_id == b.section_id
                && a.kind == b.kind
                && a.obstacle_columns == b.obstacle_columns
                && a.platform_columns == b.platform_columns
        })
}

#[test]
fn equal_seeds_recycle_equal_lanes() {
    let mut first = Game::with_seed(2024);
    let mut second = Game::with_seed(2024);
    for _ in 0..30 {
        first.recycle_front_lane();
        second.recycle_front_lane();
        assert!(same_lanes(&first, &second));
        assert_eq!(first.next_section_id, second.next_section_id);
        assert_eq!(first.player_lane, second.player_lane);
    }
}

#[test]
fn reset_draws_the_board_of_a_new_game_with_that_seed() {
    let mut game = Game::with_seed(5);
    game.recycle_front_lane();
    game.score = 12;
    game.reset(8);
    let fresh = Game::with_seed(8);
    assert!(same_lanes(&game, &fresh));
    assert_eq!(game.next_section_id, fresh.next_section_id);
    assert_eq!(game.player_column, fresh.player_column);
}

#[test]
fn status_text_follows_the_run() {
    let mut game = Game::with_seed(3);
    assert_eq!(game.status_text(), "jugando");
    game.toggle_pause();
    assert_eq!(game.status_text(), "PAUSA: A/D rotar, W/S zoom");
    game.game_over = true;
    assert_eq!(game.status_text(), "FIN - presiona R");
}
