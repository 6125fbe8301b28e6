use dorfromantik::board::{get_neighbor_pos, Board, FulfillmentStatus};
use dorfromantik::env::Action;
use dorfromantik::game_config::{GroupType, SegmentType};
use dorfromantik::generator::{filter_for_turn, quest_check_seed, quest_seed, tile_seed, TileGenFilter};
use dorfromantik::quest_manager::{initialize_active_quest_tile, QuestManager};
use dorfromantik::score_manager::{PlacementScoreBreakdown, ScoreManager};
use dorfromantik::tile::{BaseTile, EqualityComparison, GeneratedTile, QuestTileData, SegmentData};
use dorfromantik::unity_random::UnityRandom;

fn quest_tile(id: usize, quest_type: &str, target_count: usize, equality: EqualityComparison) -> GeneratedTile {
    GeneratedTile::Quest {
        base_tile: BaseTile::new(id, 12345, "QuestTile"),
        quest_data: QuestTileData {
            seed: 12345,
            quest_type: quest_type.to_string(),
            target_count,
            equality,
            level: 0,
            quest_id: Some(id),
            stack_quest_id: None,
        },
    }
}

fn village_tile(id: usize, shape: SegmentType, rotation: usize) -> GeneratedTile {
    GeneratedTile::Normal {
        base_tile: BaseTile::new(id, 54321, "NormalTile"),
        segments: vec![SegmentData {
            index: 0,
            group_type: GroupType::Village,
            segment_type: shape,
            occupied_edges: vec![],
            rotation,
            is_hybrid: false,
        }],
    }
}

fn plain_tile(id: usize) -> GeneratedTile {
    GeneratedTile::Normal { base_tile: BaseTile::new(id, 100, "PlainTile"), segments: vec![] }
}

fn water_tile(id: usize) -> GeneratedTile {
    GeneratedTile::Normal {
        base_tile: BaseTile::new(id, 7, "WaterTile"),
        segments: vec![SegmentData {
            index: 0,
            group_type: GroupType::Water,
            segment_type: SegmentType::ST1A,
            occupied_edges: vec![0],
            rotation: 0,
            is_hybrid: false,
        }],
    }
}

#[test]
fn refused_placements_change_nothing() {
    let mut board = Board::new();
    assert!(board.place_tile(0, 0, plain_tile(1), 0));
    let tiles = board.placed_tiles.len();
    let groups = board.groups.len();
    assert!(!board.place_tile(0, 0, plain_tile(2), 0));
    assert!(!board.place_tile(5, 5, plain_tile(3), 0));
    assert_eq!(board.placed_tiles.len(), tiles);
    assert_eq!(board.groups.len(), groups);
    assert!(board.can_place_tile(0, 1, &plain_tile(4), 0));
    assert!(!board.can_place_tile(0, 1, &water_tile(5), 3));
    assert!(board.can_place_tile(0, 1, &water_tile(5), 0));
}

#[test]
fn groups_merge_and_count() {
    let mut board = Board::new();
    assert!(board.place_tile(0, 0, village_tile(1, SegmentType::ST1A, 0), 0));
    assert_eq!(board.groups.len(), 1);
    assert_eq!(board.reference_group_count(GroupType::Village), 1);
    assert!(board.place_tile(0, 1, village_tile(2, SegmentType::ST2C, 0), 0));
    assert_eq!(board.groups.len(), 1);
    assert_eq!(board.groups[0].total_element_count, 4);
    assert_eq!(board.groups[0].total_segment_count, 2);
    assert_eq!(board.reference_group_count(GroupType::Village), 4);
    assert_eq!(board.reference_group_count(GroupType::TrainTracks), 0);
    assert_eq!(board.get_group_ids_for_tile((0, 0), GroupType::Village).len(), 1);
    assert_eq!(board.get_group_ids_for_tile((0, 0), GroupType::Forest).len(), 0);
    assert_eq!(board.get_group_ids_for_tile((7, 7), GroupType::Village).len(), 0);
}

#[test]
fn next_valid_rotation_cycles_over_valid_turns() {
    let mut board = Board::new();
    assert!(board.place_tile(0, 0, water_tile(1), 0));
    let w = water_tile(2);
    assert_eq!(board.get_next_valid_rotation(0, 1, &w, 0, true), 3);
    assert_eq!(board.get_next_valid_rotation(0, 1, &w, 3, true), 3);
    assert_eq!(board.get_next_valid_rotation(0, 1, &w, 3, false), 3);
    let p = plain_tile(3);
    assert_eq!(board.get_next_valid_rotation(0, 1, &p, 2, true), 3);
    assert_eq!(board.get_next_valid_rotation(0, -1, &p, 2, true), 3);
    assert_eq!(board.get_next_valid_rotation(0, -1, &p, 0, false), 5);
    assert_eq!(board.get_next_valid_rotation(3, 3, &p, 4, true), 5);
    assert_eq!(board.get_next_valid_rotation(3, 3, &p, 4, false), 3);
}

#[test]
fn available_slots_surround_the_board() {
    let board = Board::new();
    let slots = board.get_available_placement_slots(&plain_tile(1));
    assert_eq!(slots, vec![((0, 0), true)]);
    let mut board = Board::new();
    assert!(board.place_tile(0, 0, water_tile(1), 0));
    let slots = board.get_available_placement_slots(&plain_tile(2));
    assert_eq!(slots.len(), 6);
    for d in 0..6 {
        let n = get_neighbor_pos(0, 0, d);
        let entry = slots.iter().find(|s| s.0 == n).unwrap();
        assert_eq!(entry.1, d != 0);
    }
}

#[test]
fn evaluating_twice_decides_nothing_new() {
    let mut board = Board::new();
    assert!(board.place_tile(0, 0, quest_tile(1, "QuestTile_Village_1AV", 2, EqualityComparison::Exactly), 0));
    assert!(board.place_tile(0, 1, village_tile(2, SegmentType::ST1A, 3), 0));
    assert_eq!(board.evaluate_all_active_quests(None), (1, 1));
    assert_eq!(board.evaluate_all_active_quests(None), (0, 0));
    assert_eq!(board.active_quest_count(), 0);
    assert_eq!(board.fulfilled_quest_count(), 1);
}

#[test]
fn open_quests_are_counted() {
    let mut board = Board::new();
    assert!(board.place_tile(0, 0, quest_tile(1, "QuestTile_Village_1AV", 5, EqualityComparison::MoreThan), 0));
    assert_eq!(board.active_quest_count(), 1);
    assert_eq!(board.active_quest_group_count_on_board(), 1);
    assert_eq!(board.get_quest_remaining_target((0, 0)), 4);
    assert_eq!(board.get_quest_remaining_target((3, 3)), 0);
    assert_eq!(board.count_group_open_edges((0, 0), GroupType::Village), 1);
    assert!(board.place_tile(0, 1, village_tile(2, SegmentType::ST2A, 3), 0));
    assert_eq!(board.get_quest_external_count((0, 0), GroupType::Village), 2);
    assert_eq!(board.get_quest_remaining_target((0, 0)), 2);
    assert_eq!(board.count_group_open_edges((0, 0), GroupType::Village), 1);
    assert_eq!(board.evaluate_all_active_quests(None), (0, 0));
    let i = board.find_tile((0, 0)).unwrap();
    assert_eq!(board.placed_tiles[i].quest_status, Some(FulfillmentStatus::Incomplete));
}

#[test]
fn manager_follows_placements() {
    let mut board = Board::new();
    let mut qm = QuestManager::new();
    let id = qm.add_quest("QuestTile_Village_1AV");
    assert_eq!(id, 1);
    assert_eq!(qm.active_quest_count(), 1);
    let (ok, succeeded) = board.place_tile_with_manager(
        0,
        0,
        quest_tile(1, "QuestTile_Village_1AV", 2, EqualityComparison::Exactly),
        0,
        Some(&mut qm),
    );
    assert!(ok);
    assert_eq!(succeeded, 0);
    assert_eq!(qm.last_computed_count, 2);
    let (ok, succeeded) = board.place_tile_with_manager(0, 1, village_tile(2, SegmentType::ST1A, 3), 0, Some(&mut qm));
    assert!(ok);
    assert_eq!(succeeded, 1);
    assert_eq!(qm.level, 1);
    assert_eq!(qm.active_quests.len(), 0);
    assert_eq!(qm.last_computed_count, 0);
    assert_eq!(qm.upcoming_quest_counts.iter().copied().collect::<Vec<i32>>(), vec![0, 0, 0, 2, 0]);
    let (ok, succeeded) = board.place_tile_with_manager(0, 1, plain_tile(3), 0, Some(&mut qm));
    assert!(!ok);
    assert_eq!(succeeded, 0);
    assert_eq!(qm.upcoming_quest_counts.len(), 5);
    let (ok, _) = board.place_tile_with_manager(1, 0, plain_tile(4), 0, None);
    assert!(ok);
}

#[test]
fn quest_manager_bookkeeping() {
    let mut qm = QuestManager::new();
    assert_eq!(qm.pop_next_active_quest_count(), 0);
    assert_eq!(qm.pop_next_active_quest_count(), 0);
    assert_eq!(qm.pop_next_active_quest_count(), 0);
    assert_eq!(qm.pop_next_active_quest_count(), 0);
    qm.update_after_placement(true, 0);
    qm.update_after_placement(false, 0);
    qm.update_after_placement(false, 5);
    assert_eq!(qm.pop_next_active_quest_count(), 2);
    assert_eq!(qm.pop_next_active_quest_count(), 1);
    assert_eq!(qm.pop_next_active_quest_count(), 0);
    assert!(QuestManager::counts_towards_quest_limit("QuestTile_Village_1AV"));
    assert!(!QuestManager::counts_towards_quest_limit("QuestTile_UNLOCK_Boat"));
    assert!(!QuestManager::counts_towards_quest_limit("Challenge_Forest"));
    assert!(!QuestManager::counts_towards_quest_limit("crown_3AV"));
    let a = qm.add_quest("QuestTile_Forest_1AF");
    let b = qm.add_quest("QuestTile_Unlock_Special");
    assert_eq!(qm.active_quest_count(), 1);
    assert_eq!(qm.active_quests.len(), 2);
    qm.remove_quest(b);
    qm.remove_quest(b);
    assert_eq!(qm.active_quests.len(), 1);
    assert_eq!(qm.active_quests[0].quest_id, a);
    qm.gain_levels(3);
    assert_eq!(qm.level, 3);
    qm.clear();
    assert_eq!(qm.active_quests.len(), 0);
    assert_eq!(qm.reference_group_count(GroupType::Water), 1);
}

#[test]
fn quest_targets() {
    let qm = QuestManager::new();
    let data = QuestTileData {
        seed: 1,
        quest_type: "QuestTile_Village_6AV".to_string(),
        target_count: 0,
        equality: EqualityComparison::MoreThan,
        level: 0,
        quest_id: None,
        stack_quest_id: None,
    };
    assert_eq!(qm.calculate_target_value(&data, 7, 3, 2), 12);
    assert_eq!(qm.calculate_target_value(&data, 0, 3, 0), 4);

    let board = Board::new();
    let mut qm = QuestManager::new();
    qm.level = 9;
    let mut front = quest_tile(1, "QuestTile_Village_1AV", 0, EqualityComparison::MoreThan);
    initialize_active_quest_tile(&mut front, &board, &mut qm, (EqualityComparison::Exactly, 2), 0);
    match &front {
        GeneratedTile::Quest { quest_data, .. } => {
            assert_eq!(quest_data.target_count, 3);
            assert_eq!(quest_data.equality, EqualityComparison::Exactly);
        },
        _ => panic!("not a quest tile"),
    }
    assert_eq!(qm.level, 0);
    qm.level = 9;
    initialize_active_quest_tile(&mut front, &board, &mut qm, (EqualityComparison::MoreThan, 5), 4);
    assert_eq!(qm.level, 9);
    match &front {
        GeneratedTile::Quest { quest_data, .. } => assert_eq!(quest_data.target_count, 3),
        _ => panic!("not a quest tile"),
    }
}

#[test]
fn preview_matches_the_placement() {
    let mut board = Board::new();
    assert!(board.place_tile(0, 0, quest_tile(1, "QuestTile_Village_1AV", 2, EqualityComparison::Exactly), 0));
    let hover = village_tile(2, SegmentType::ST1A, 3);
    let preview = board.preview_quest_counts(0, 1, &hover, 0);
    assert_eq!(preview, vec![((0, 0), (0, FulfillmentStatus::Success))]);
    let nowhere = board.preview_quest_counts(0, 0, &hover, 0);
    assert!(nowhere.is_empty());
    let away = board.preview_quest_counts(0, -1, &hover, 0);
    assert!(away.is_empty());
    assert!(board.place_tile(0, 1, hover, 0));
    assert_eq!(board.evaluate_all_active_quests(None), (1, 1));

    let mut board = Board::new();
    assert!(board.place_tile(0, 0, village_tile(1, SegmentType::ST1A, 0), 0));
    let hover_quest = quest_tile(2, "QuestTile_Village_1AV", 2, EqualityComparison::Exactly);
    let preview = board.preview_quest_counts(0, 1, &hover_quest, 3);
    assert_eq!(preview, vec![((0, 1), (0, FulfillmentStatus::Success))]);
    let preview = board.preview_quest_counts(1, 0, &hover_quest, 0);
    assert_eq!(preview, vec![((1, 0), (1, FulfillmentStatus::Incomplete))]);

    let mut board = Board::new();
    assert!(board.place_tile(0, 0, quest_tile(1, "QuestTile_Village_1AV", 2, EqualityComparison::Exactly), 0));
    let hover_quest = quest_tile(2, "QuestTile_Village_1AV", 2, EqualityComparison::Exactly);
    let preview = board.preview_quest_counts(0, 1, &hover_quest, 3);
    assert_eq!(
        preview,
        vec![((0, 0), (0, FulfillmentStatus::Success)), ((0, 1), (0, FulfillmentStatus::Success))]
    );
}

#[test]
fn perfect_placement_scores() {
    let mut board = Board::new();
    assert!(board.place_tile(0, 0, plain_tile(0), 0));
    let mut last = (0, 0);
    for d in 0..6 {
        let n = get_neighbor_pos(0, 0, d);
        assert!(board.place_tile(n.0, n.1, plain_tile(1 + d), 0));
        last = n;
    }
    let mut sm = ScoreManager::new(10);
    assert_eq!(sm.count_matching_edges(&board, 0, 0), (6, 6));
    assert_eq!(sm.count_matching_edges(&board, last.0, last.1), (3, 3));
    assert_eq!(sm.count_matching_edges(&board, 9, 9), (0, 0));
    let bd = sm.on_tile_placed(&board, last.0, last.1, 0, 0);
    assert_eq!(bd.matching_edges, 3);
    assert_eq!(bd.fit_score, 30);
    assert_eq!(bd.perfect_count, 1);
    assert_eq!(bd.perfect_score, 60);
    assert_eq!(bd.bonus_tiles_gained, 1);
    assert_eq!(bd.total_score_gained, 90);
    assert_eq!(sm.total_score, 90);
    assert_eq!(sm.remaining_tiles, 10);
    assert_eq!(sm.consecutive_perfects, 1);
    assert_eq!(sm.placed_tiles_count, 1);
}

#[test]
fn quests_reward_points_and_tiles() {
    let mut board = Board::new();
    assert!(board.place_tile(0, 0, plain_tile(0), 0));
    let mut sm = ScoreManager::new(3);
    let bd = sm.on_tile_placed(&board, 0, 0, 1, 2);
    assert_eq!(bd.bubble_quest_score, 100);
    assert_eq!(bd.flag_quest_score, 100);
    assert_eq!(bd.bonus_tiles_gained, 5);
    assert_eq!(bd.total_score_gained, 200);
    assert_eq!(sm.remaining_tiles, 7);
    assert_eq!(sm.consecutive_perfects, 0);
}

#[test]
fn empty_stack_ends_the_game() {
    let mut board = Board::new();
    assert!(board.place_tile(0, 0, plain_tile(0), 0));
    let mut sm = ScoreManager::new(1);
    let bd = sm.on_tile_placed(&board, 0, 0, 0, 0);
    assert_eq!(bd.total_score_gained, 0);
    assert!(sm.is_game_over);
    assert_eq!(sm.remaining_tiles, 0);
    let bd = sm.on_tile_placed(&board, 0, 0, 3, 0);
    assert_eq!(bd, PlacementScoreBreakdown::default());
    assert_eq!(sm.placed_tiles_count, 1);
    let d = ScoreManager::default();
    assert_eq!(d.remaining_tiles, 10);
    assert_eq!(d.quest_bubble_tile_reward, 5);
}

#[test]
fn random_numbers_follow_the_engine() {
    let r = UnityRandom::init_state(0);
    assert_eq!((r.s0, r.s1, r.s2, r.s3), (0, 1, 1812433254, 1900727103));
    let mut r = UnityRandom::init_state(42);
    assert_eq!((r.s0, r.s1, r.s2, r.s3), (42, 3107752595, 1225807616, 4076950273));
    assert_eq!(r.next_u32(), 4076870683);
    let mut r = UnityRandom::init_state(42);
    assert_eq!(r.range_i32(-100000, 100000), -29317);
    let mut r = UnityRandom::init_state(-1);
    assert_eq!(r.range_i32(-100000, 100000), -28696);
    let mut r = UnityRandom::init_state(0);
    assert_eq!(r.range_i32(5, 5), 5);
    assert_eq!(r.s3, 1900727103);
    assert_eq!(r.range_usize(0, 6), 1900725526 % 6);
    for seed in 0..50 {
        let mut r = UnityRandom::init_state(seed);
        let v = r.range_i32(-3, 4);
        assert!(-3 <= v && v < 4);
        let u = r.range_usize(2, 9);
        assert!(2 <= u && u < 9);
    }
}

#[test]
fn generation_seeds_and_filters() {
    assert_eq!(filter_for_turn(3, 3), TileGenFilter::AtLeastTwoEmptyEdges);
    assert_eq!(filter_for_turn(4, 3), TileGenFilter::NoFilter);
    assert!(TileGenFilter::AtLeastTwoEmptyEdges.allows(4));
    assert!(!TileGenFilter::AtLeastTwoEmptyEdges.allows(5));
    assert!(TileGenFilter::NoFilter.allows(6));
    assert_eq!(tile_seed(100, 5, 2, 7), 121);
    assert_eq!(tile_seed(i32::MAX, 1, 0, 1), i32::MIN);
    assert_eq!(quest_check_seed(100, 5, -3), 85);
    assert_eq!(quest_seed(10, 2, i32::MAX), 10i32.wrapping_add(2i32.wrapping_mul(i32::MAX)));
    let a = Action { q: 1, r: -2, rotation: 4 };
    assert_eq!(a, Action { q: 1, r: -2, rotation: 4 });
}

#[test]
fn preview_counts_every_segment_of_the_hovered_tile() {
    let mut board = Board::new();
    assert!(board.place_tile(0, 0, quest_tile(1, "QuestTile_Village_6AV", 12, EqualityComparison::MoreThan), 0));
    let multi = GeneratedTile::Normal {
        base_tile: BaseTile::new(2, 20, "2AV_Tile"),
        segments: vec![
            SegmentData {
                index: 0,
                group_type: GroupType::Village,
                segment_type: SegmentType::ST1A,
                occupied_edges: vec![3],
                rotation: 3,
                is_hybrid: false,
            },
            SegmentData {
                index: 1,
                group_type: GroupType::Village,
                segment_type: SegmentType::ST1A,
                occupied_edges: vec![1],
                rotation: 1,
                is_hybrid: false,
            },
        ],
    };
    let preview = board.preview_quest_counts(0, 1, &multi, 0);
    assert_eq!(preview, vec![((0, 0), (3, FulfillmentStatus::Incomplete))]);
    assert!(board.place_tile(0, 1, multi, 0));
    assert_eq!(board.get_quest_remaining_target((0, 0)), 4);
}

#[test]
fn groups_hold_every_placed_segment() {
    let mut board = Board::new();
    assert!(board.place_tile(0, 0, village_tile(1, SegmentType::ST2C, 0), 0));
    assert!(board.place_tile(0, 1, village_tile(2, SegmentType::ST1A, 3), 0));
    assert!(board.place_tile(0, -1, village_tile(3, SegmentType::ST3A, 0), 0));
    assert!(board.place_tile(1, 0, water_tile(4), 1));
    let elements: usize = board.groups.iter().map(|g| g.total_element_count).sum();
    let segments: usize = board.groups.iter().map(|g| g.total_segment_count).sum();
    let mut want_elements = 0;
    let mut want_segments = 0;
    for pt in &board.placed_tiles {
        let segs = pt.tile.get_segments(pt.rotation);
        want_segments += segs.len();
        want_elements += segs.iter().map(|s| s.element_count).sum::<usize>();
    }
    assert_eq!(elements, want_elements);
    assert_eq!(segments, want_segments);
    assert_eq!(segments, 4);
}

#[test]
fn quests_count_from_lowercase() {
    let l = |s: &str| s.chars().collect::<Vec<char>>();
    assert!(dorfromantik::quest_manager::counts_towards_limit_from(&l("questtile_village_1av")));
    assert!(!dorfromantik::quest_manager::counts_towards_limit_from(&l("questtile_unlock_boat")));
    assert!(!dorfromantik::quest_manager::counts_towards_limit_from(&l("crown")));
}
