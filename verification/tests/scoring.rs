use dorfromantik::score_manager::is_matching_edge;
use dorfromantik::tile::EdgeType;

#[test]
fn test_is_matching_edge_rules() {
    assert!(is_matching_edge(EdgeType::Plain, EdgeType::Plain));
    assert!(is_matching_edge(EdgeType::Plain, EdgeType::FlexibleWater));
    assert!(is_matching_edge(EdgeType::Plain, EdgeType::WaterTrainStation));
    assert!(!is_matching_edge(EdgeType::Plain, EdgeType::Forest));
    assert!(!is_matching_edge(EdgeType::Plain, EdgeType::Water));

    assert!(is_matching_edge(EdgeType::FlexibleWater, EdgeType::Plain));
    assert!(is_matching_edge(EdgeType::FlexibleWater, EdgeType::Water));
    assert!(is_matching_edge(EdgeType::FlexibleWater, EdgeType::FlexibleWater));
    assert!(is_matching_edge(EdgeType::FlexibleWater, EdgeType::WaterTrainStation));
    assert!(!is_matching_edge(EdgeType::FlexibleWater, EdgeType::Forest));

    assert!(is_matching_edge(EdgeType::WaterTrainStation, EdgeType::Plain));
    assert!(is_matching_edge(EdgeType::WaterTrainStation, EdgeType::Water));
    assert!(is_matching_edge(EdgeType::WaterTrainStation, EdgeType::TrainTracks));
    assert!(is_matching_edge(EdgeType::WaterTrainStation, EdgeType::FlexibleWater));
    assert!(is_matching_edge(EdgeType::WaterTrainStation, EdgeType::WaterTrainStation));
    assert!(!is_matching_edge(EdgeType::WaterTrainStation, EdgeType::Village));
}
