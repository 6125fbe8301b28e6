use dorfromantik::board::{get_neighbor_pos, Board, FulfillmentStatus};
use dorfromantik::game_config::{GroupType, SegmentType};
use dorfromantik::tile::{BaseTile, EqualityComparison, GeneratedTile, QuestTileData, SegmentData};

fn create_test_quest_tile(id: usize, quest_type: &str, target_count: usize, equality: EqualityComparison) -> GeneratedTile {
    GeneratedTile::Quest {
        base_tile: BaseTile::new(id, 12345, "QuestTile"),
        quest_data: QuestTileData {
            seed: 12345,
            quest_type: quest_type.to_string(),
            target_count,
            equality,
            level: 0,
            quest_id: Some(id),
            stack_quest_id: None,
        },
    }
}

fn status_at(board: &Board, pos: (i32, i32)) -> Option<FulfillmentStatus> {
    let i = board.find_tile(pos).unwrap();
    board.placed_tiles[i].quest_status
}

fn finalized_at(board: &Board, pos: (i32, i32)) -> bool {
    let i = board.find_tile(pos).unwrap();
    board.placed_tiles[i].quest_finalized
}

#[test]
fn test_quest_exactly_exceeded_fails() {
    let mut board = Board::new();
    let quest_tile = create_test_quest_tile(1, "QuestTile_Village_1AV", 2, EqualityComparison::Exactly);
    assert!(board.place_tile(0, 0, quest_tile, 0));

    let (resolved, succeeded) = board.evaluate_all_active_quests(None);
    assert_eq!(resolved, 0);
    assert_eq!(succeeded, 0);

    let village_tile = GeneratedTile::Normal {
        base_tile: BaseTile::new(2, 54321, "NormalTile"),
        segments: vec![SegmentData {
            index: 0,
            group_type: GroupType::Village,
            segment_type: SegmentType::ST3A,
            occupied_edges: vec![0, 1, 2],
            rotation: 3,
            is_hybrid: false,
        }],
    };
    assert!(board.place_tile(0, 1, village_tile, 0));

    let (resolved, succeeded) = board.evaluate_all_active_quests(None);
    assert_eq!(resolved, 1);
    assert_eq!(succeeded, 0);
    assert_eq!(status_at(&board, (0, 0)), Some(FulfillmentStatus::Failed));
}

#[test]
fn test_quest_blocked_prematurely_fails() {
    let mut board = Board::new();
    let quest_tile = create_test_quest_tile(1, "QuestTile_Forest_1AF", 6, EqualityComparison::MoreThan);
    assert!(board.place_tile(0, 0, quest_tile, 0));

    for dir in 0..6 {
        let n_pos = get_neighbor_pos(0, 0, dir);
        let plain_tile = GeneratedTile::Normal {
            base_tile: BaseTile::new(10 + dir, 100, "PlainTile"),
            segments: vec![],
        };
        board.place_tile(n_pos.0, n_pos.1, plain_tile, 0);
    }

    let (resolved, succeeded) = board.evaluate_all_active_quests(None);
    assert_eq!(resolved, 1);
    assert_eq!(succeeded, 0);
    assert_eq!(status_at(&board, (0, 0)), Some(FulfillmentStatus::Failed));
}

#[test]
fn test_quest_completed_then_closed_stays_success() {
    let mut board = Board::new();
    let quest_tile = create_test_quest_tile(1, "QuestTile_Village_1AV", 2, EqualityComparison::Exactly);
    assert!(board.place_tile(0, 0, quest_tile, 0));

    let village_tile = GeneratedTile::Normal {
        base_tile: BaseTile::new(2, 54321, "NormalTile"),
        segments: vec![SegmentData {
            index: 0,
            group_type: GroupType::Village,
            segment_type: SegmentType::ST1A,
            occupied_edges: vec![0],
            rotation: 3,
            is_hybrid: false,
        }],
    };
    assert!(board.place_tile(0, 1, village_tile, 0));

    let (resolved, succeeded) = board.evaluate_all_active_quests(None);
    assert_eq!(resolved, 1);
    assert_eq!(succeeded, 1);
    assert_eq!(status_at(&board, (0, 0)), Some(FulfillmentStatus::Success));
    assert!(finalized_at(&board, (0, 0)));

    for dir in 1..6 {
        let n_pos = get_neighbor_pos(0, 0, dir);
        let plain_tile = GeneratedTile::Normal {
            base_tile: BaseTile::new(10 + dir, 100, "PlainTile"),
            segments: vec![],
        };
        board.place_tile(n_pos.0, n_pos.1, plain_tile, 0);
    }

    assert_eq!(status_at(&board, (0, 0)), Some(FulfillmentStatus::Success));
}

#[test]
fn test_quest_with_unconnected_multi_segment_tile() {
    let mut board = Board::new();
    let quest_tile = create_test_quest_tile(1, "QuestTile_Village_6AV", 12, EqualityComparison::MoreThan);
    assert!(board.place_tile(0, 0, quest_tile, 0));

    let multi_seg_tile = GeneratedTile::Normal {
        base_tile: BaseTile::new(2, 20, "2AV_Tile"),
        segments: vec![
            SegmentData {
                index: 0,
                group_type: GroupType::Village,
                segment_type: SegmentType::ST1A,
                occupied_edges: vec![3],
                rotation: 3,
                is_hybrid: false,
            },
            SegmentData {
                index: 1,
                group_type: GroupType::Village,
                segment_type: SegmentType::ST1A,
                occupied_edges: vec![1],
                rotation: 1,
                is_hybrid: false,
            },
        ],
    };
    assert!(board.place_tile(0, 1, multi_seg_tile, 0));

    let ext_count = board.get_quest_external_count((0, 0), GroupType::Village);
    assert_eq!(ext_count, 1);

    let remaining = board.get_quest_remaining_target((0, 0));
    assert_eq!(remaining, 4);
}
