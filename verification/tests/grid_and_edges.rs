use dorfromantik::board::{get_neighbor_pos, opposite_direction};
use dorfromantik::game_config::{get_quest_prefab_min_target_count, get_segment_element_count, parse_segments, GroupType, SegmentType};
use dorfromantik::score_manager::is_matching_edge;
use dorfromantik::tile::{
    is_segment_code_from, is_station_from, parse_segment_code, parse_segment_code_from, primary_group_from,
    quest_name_fits_check, BaseTile, EdgeType, GeneratedTile, HexEdgeConfig, SegmentData,
};

const ALL_EDGES: [EdgeType; 8] = [
    EdgeType::Plain,
    EdgeType::Agriculture,
    EdgeType::Forest,
    EdgeType::Village,
    EdgeType::Water,
    EdgeType::TrainTracks,
    EdgeType::FlexibleWater,
    EdgeType::WaterTrainStation,
];

const ALL_SHAPES: [SegmentType; 13] = [
    SegmentType::ST1A,
    SegmentType::ST2A,
    SegmentType::ST2B,
    SegmentType::ST2C,
    SegmentType::ST3A,
    SegmentType::ST3B,
    SegmentType::ST3C,
    SegmentType::ST3D,
    SegmentType::ST4A,
    SegmentType::ST4B,
    SegmentType::ST4C,
    SegmentType::ST5A,
    SegmentType::ST6A,
];

const ALL_GROUPS: [GroupType; 5] =
    [GroupType::Village, GroupType::Forest, GroupType::Agriculture, GroupType::TrainTracks, GroupType::Water];

#[test]
fn opposite_directions_pair_up() {
    assert_eq!(opposite_direction(0), 3);
    assert_eq!(opposite_direction(1), 4);
    assert_eq!(opposite_direction(2), 5);
    assert_eq!(opposite_direction(4), 1);
    for d in 0..6 {
        assert_eq!(opposite_direction(opposite_direction(d)), d);
        assert_ne!(opposite_direction(d), d);
    }
}

#[test]
fn neighbours_follow_column_parity() {
    assert_eq!(get_neighbor_pos(0, 0, 0), (0, 1));
    assert_eq!(get_neighbor_pos(0, 0, 1), (1, 1));
    assert_eq!(get_neighbor_pos(0, 0, 2), (1, 0));
    assert_eq!(get_neighbor_pos(0, 0, 3), (0, -1));
    assert_eq!(get_neighbor_pos(0, 0, 4), (-1, 0));
    assert_eq!(get_neighbor_pos(0, 0, 5), (-1, 1));
    assert_eq!(get_neighbor_pos(1, 0, 1), (2, 0));
    assert_eq!(get_neighbor_pos(1, 0, 2), (2, -1));
    assert_eq!(get_neighbor_pos(1, 0, 4), (0, -1));
    assert_eq!(get_neighbor_pos(-1, 0, 5), (-2, 0));
    assert_eq!(get_neighbor_pos(0, 0, 7), (1, 1));
}

#[test]
fn neighbour_and_back_returns_home() {
    for q in -4..5 {
        for r in -4..5 {
            for d in 0..6 {
                let n = get_neighbor_pos(q, r, d);
                assert_eq!(get_neighbor_pos(n.0, n.1, opposite_direction(d)), (q, r));
                for d2 in 0..6 {
                    if d2 != d {
                        assert_ne!(get_neighbor_pos(q, r, d2), n);
                    }
                }
                assert_ne!(n, (q, r));
            }
        }
    }
}

#[test]
fn edge_rules_are_symmetric() {
    for a in ALL_EDGES {
        assert!(is_matching_edge(a, a));
        for b in ALL_EDGES {
            assert_eq!(a.is_compatible_with(b), b.is_compatible_with(a));
            assert_eq!(is_matching_edge(a, b), is_matching_edge(b, a));
        }
    }
}

#[test]
fn placement_rule_values() {
    assert!(EdgeType::Water.is_compatible_with(EdgeType::FlexibleWater));
    assert!(EdgeType::Water.is_compatible_with(EdgeType::WaterTrainStation));
    assert!(!EdgeType::Water.is_compatible_with(EdgeType::Plain));
    assert!(EdgeType::TrainTracks.is_compatible_with(EdgeType::WaterTrainStation));
    assert!(!EdgeType::TrainTracks.is_compatible_with(EdgeType::Forest));
    assert!(!EdgeType::FlexibleWater.is_compatible_with(EdgeType::TrainTracks));
    assert!(EdgeType::Forest.is_compatible_with(EdgeType::Village));
    assert!(!EdgeType::Plain.is_compatible_with(EdgeType::Water));
    assert_eq!(EdgeType::FlexibleWater.to_group_type(), Some(GroupType::Water));
    assert_eq!(EdgeType::WaterTrainStation.to_group_type(), None);
    assert_eq!(EdgeType::Plain.to_group_type(), None);
}

#[test]
fn turning_composes_and_full_turn_is_identity() {
    let edges = [
        EdgeType::Plain,
        EdgeType::Forest,
        EdgeType::Village,
        EdgeType::Water,
        EdgeType::TrainTracks,
        EdgeType::Agriculture,
    ];
    for a in 0..8 {
        for b in 0..8 {
            let mut two = HexEdgeConfig::new(edges);
            two.rotate(a);
            two.rotate(b);
            let mut one = HexEdgeConfig::new(edges);
            one.rotate(a + b);
            assert_eq!(two.edges, one.edges);
        }
    }
    let mut full = HexEdgeConfig::new(edges);
    full.rotate(6);
    assert_eq!(full.edges, edges);
    let mut one = HexEdgeConfig::new(edges);
    one.rotate(1);
    assert_eq!(one.edges[1], EdgeType::Plain);
    assert_eq!(one.edges[0], EdgeType::Agriculture);
    let cfg = HexEdgeConfig::new(edges);
    assert_eq!(cfg.edge_at(1, 1), EdgeType::Plain);
    assert_eq!(cfg.edge_at(0, 2), EdgeType::TrainTracks);
}

#[test]
fn segment_codes_read_back() {
    for st in ALL_SHAPES {
        for gt in ALL_GROUPS {
            let seg = SegmentData {
                index: 0,
                group_type: gt,
                segment_type: st,
                occupied_edges: vec![],
                rotation: 0,
                is_hybrid: false,
            };
            let code = seg.config_code();
            let parsed = parse_segment_code(&code).unwrap();
            assert_eq!(parsed.0, st);
            assert_eq!(parsed.1, gt);
            assert_eq!(parsed.2, gt == GroupType::Water && st == SegmentType::ST6A);
        }
    }
}

#[test]
fn segment_code_forms() {
    assert_eq!(parse_segment_code("3AV"), Some((SegmentType::ST3A, GroupType::Village, false)));
    assert_eq!(parse_segment_code("h2BW"), Some((SegmentType::ST2B, GroupType::Water, false)));
    assert_eq!(parse_segment_code("4A_HybridW"), Some((SegmentType::ST4A, GroupType::Water, true)));
    assert_eq!(parse_segment_code("6AW"), Some((SegmentType::ST6A, GroupType::Water, true)));
    assert_eq!(parse_segment_code("2CT"), Some((SegmentType::ST2C, GroupType::TrainTracks, false)));
    assert_eq!(parse_segment_code("7AV"), None);
    assert_eq!(parse_segment_code("3AX"), None);
    assert_eq!(parse_segment_code(""), None);
    assert_eq!(parse_segment_code("Hybrid"), None);
}

#[test]
fn segment_tables() {
    assert_eq!(get_segment_element_count(GroupType::Forest, SegmentType::ST6A), 33);
    assert_eq!(get_segment_element_count(GroupType::Village, SegmentType::ST5A), 7);
    assert_eq!(get_segment_element_count(GroupType::Agriculture, SegmentType::ST3D), 3);
    assert_eq!(get_segment_element_count(GroupType::Water, SegmentType::ST4B), 1);
    assert_eq!(SegmentType::ST3D.base_edges(), &[0, 2, 4]);
    assert_eq!(SegmentType::ST4C.edge_count(), 4);
    assert!(SegmentType::ST5A.is_lake_shape());
    assert!(!SegmentType::ST2B.is_lake_shape());
    assert_eq!(SegmentType::ST2C.shape_code(), "2C");
    assert_eq!(GroupType::TrainTracks.letter(), 'T');
    assert_eq!(parse_segments("3A_2B_x_6A"), vec![SegmentType::ST3A, SegmentType::ST2B, SegmentType::ST6A]);
    assert_eq!(parse_segments(""), Vec::<SegmentType>::new());
}

#[test]
fn quest_minimum_targets() {
    assert_eq!(get_quest_prefab_min_target_count("QuestTile_Village_6AV"), 7);
    assert_eq!(get_quest_prefab_min_target_count("QuestTile_Village_6AV(Clone)"), 7);
    assert_eq!(get_quest_prefab_min_target_count("QuestTile_Village_6AV_Tower"), 6);
    assert_eq!(get_quest_prefab_min_target_count("Village_5AV_1AF_Fox"), 5);
    assert_eq!(get_quest_prefab_min_target_count("QuestTile_Forest_1AF"), 0);
}

#[test]
fn base_tile_names_and_periods() {
    let base = BaseTile::new(5, 1, "Stacked Tile");
    assert_eq!(base.name, "Stacked Tile 5");
    assert_eq!(base.id, 5);
    assert!(!base.is_generated);
    let plain = GeneratedTile::Normal { base_tile: BaseTile::new(0, 0, "P"), segments: vec![] };
    assert_eq!(plain.rotation_symmetry_period(), 1);
    assert_eq!(plain.tile_preset_string(), "Plain");
    let station = GeneratedTile::new_reward_station(3, 9);
    assert_eq!(station.tile_preset_string(), "6AW 6AT");
    assert_eq!(station.base_tile().id, 3);
    let two = GeneratedTile::Normal {
        base_tile: BaseTile::new(1, 0, "T"),
        segments: vec![SegmentData {
            index: 0,
            group_type: GroupType::Forest,
            segment_type: SegmentType::ST3D,
            occupied_edges: vec![0, 2, 4],
            rotation: 0,
            is_hybrid: false,
        }],
    };
    assert_eq!(two.rotation_symmetry_period(), 2);
    assert_eq!(two.tile_preset_string(), "3DF");
    let lopsided = GeneratedTile::Normal {
        base_tile: BaseTile::new(2, 0, "L"),
        segments: vec![SegmentData {
            index: 0,
            group_type: GroupType::Village,
            segment_type: SegmentType::ST1A,
            occupied_edges: vec![0],
            rotation: 0,
            is_hybrid: false,
        }],
    };
    assert_eq!(lopsided.rotation_symmetry_period(), 6);
}

#[test]
fn lowercase_given_parts() {
    let cs = |s: &str| s.chars().collect::<Vec<char>>();
    assert!(is_segment_code_from(&cs("3AV"), &cs("3av")));
    assert!(is_segment_code_from(&cs("Hybrid"), &cs("hybrid")));
    assert!(!is_segment_code_from(&cs("Village"), &cs("village")));
    assert!(!is_segment_code_from(&cs("A3"), &cs("a3")));
    assert_eq!(
        parse_segment_code_from(&cs("4A_HybridW"), &cs("4a_hybridw")),
        Some((SegmentType::ST4A, GroupType::Water, true))
    );
    assert_eq!(parse_segment_code_from(&cs("2BW"), &cs("2bw")), Some((SegmentType::ST2B, GroupType::Water, false)));
    assert_eq!(parse_segment_code_from(&cs("2BW"), &cs("hybrid")), Some((SegmentType::ST2B, GroupType::Water, true)));
    assert_eq!(parse_segment_code_from(&cs(""), &cs("")), None);
    assert_eq!(primary_group_from(&cs("QuestTile_Forest_1AF"), &cs("questtile_forest_1af")), GroupType::Forest);
    assert_eq!(primary_group_from(&cs("QuestTile_Train_2CT"), &cs("questtile_train_2ct")), GroupType::TrainTracks);
    assert_eq!(primary_group_from(&cs("QuestTile_X_2CT"), &cs("questtile_x_2ct")), GroupType::TrainTracks);
    assert!(is_station_from(&cs("questtile_watertrainstation_6aw_6at")));
    assert!(!is_station_from(&cs("questtile_water_6aw")));
}

#[test]
fn quest_names_that_fit() {
    assert!(quest_name_fits_check("QuestTile_Village_6AV"));
    assert!(quest_name_fits_check("QuestTile_Water_4A_HybridW_2AF"));
    assert!(quest_name_fits_check(""));
}

#[test]
fn preset_names_read_back() {
    assert_eq!(parse_segments("0A"), Vec::<SegmentType>::new());
    assert_eq!(parse_segments("2A_1A_1A"), vec![SegmentType::ST2A, SegmentType::ST1A, SegmentType::ST1A]);
    for a in ALL_SHAPES {
        for b in ALL_SHAPES {
            let name = format!("{}_{}_{}", a.shape_code(), b.shape_code(), a.shape_code());
            assert_eq!(parse_segments(&name), vec![a, b, a]);
        }
    }
}

#[test]
fn turning_shifts_segments() {
    for st in ALL_SHAPES {
        let tile = GeneratedTile::Normal {
            base_tile: BaseTile::new(0, 0, "T"),
            segments: vec![SegmentData {
                index: 0,
                group_type: GroupType::Forest,
                segment_type: st,
                occupied_edges: vec![],
                rotation: 1,
                is_hybrid: false,
            }],
        };
        let a = tile.get_segments(0);
        for p in 0..8 {
            let b = tile.get_segments(p);
            assert_eq!(a.len(), b.len());
            assert_eq!(b[0].element_count, get_segment_element_count(GroupType::Forest, st));
            let mut shifted: Vec<usize> = a[0].edges.iter().map(|e| (e + p) % 6).collect();
            let mut got = b[0].edges.clone();
            shifted.sort();
            got.sort();
            assert_eq!(got, shifted);
        }
    }
}
