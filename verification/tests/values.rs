use street_engine::base::container::path_network::NodeId;
use street_engine::base::generator::id_generator::IdGenerator;
use street_engine::base::Stage;
use street_engine::system::numeric::Stage as NodeStage;
use street_engine::system::path::factor::pathtype::PathType;
use street_engine::system::path::numeric::Stage as PathStage;
use street_engine::traits::TerrainType;

#[test]
fn id_generator_counts_from_zero() {
    let mut generator = IdGenerator::new();
    assert!(generator.can_generate());
    assert_eq!(generator.generate_id(), 0);
    assert_eq!(generator.generate_id(), 1);
    assert_eq!(generator.generate_id(), 2);
}

#[test]
fn stages_count_up() {
    assert_eq!(Stage::new(4).incremented().get(), 5);
    assert_eq!(Stage::new(0).get(), 0);
    assert_eq!(NodeStage::from_num(7).incremented().get_num(), 8);
    assert_eq!(PathStage::initial().get_num(), 0);
    assert_eq!(PathStage::from_num(2).incremented(), PathStage::from_num(3));
    assert!(PathStage::from_num(1) < PathStage::from_num(2));
}

#[test]
fn path_types() {
    assert!(PathType::Bridge.is_bridge());
    assert!(!PathType::Bridge.is_normal());
    assert!(PathType::Normal.is_normal());
    assert!(PathType::Impossible.is_impossible());
    assert!(PathType::Normal.can_create_intersection());
    assert!(!PathType::Bridge.can_create_intersection());
    assert!(!PathType::Impossible.can_create_intersection());
}

#[test]
fn terrain_types() {
    assert!(TerrainType::Land.is_land());
    assert!(!TerrainType::Water.is_land());
    assert!(!TerrainType::Void.is_land());
}

#[test]
fn stages_and_ids_are_ordered_by_number() {
    assert!(Stage::new(1) < Stage::new(3));
    assert!(Stage::new(3) >= Stage::new(3));
    assert_eq!(Stage::new(2).partial_cmp(&Stage::new(9)), Some(std::cmp::Ordering::Less));
    assert_eq!(Stage::new(2).cmp(&Stage::new(9)), std::cmp::Ordering::Less);
    assert!(NodeStage::from_num(5) > NodeStage::from_num(4));
    assert_eq!(
        NodeStage::from_num(4).partial_cmp(&NodeStage::from_num(4)),
        Some(std::cmp::Ordering::Equal)
    );
    assert!(PathStage::from_num(0) <= PathStage::initial());
    assert!(NodeId::new(2) < NodeId::new(10));
    assert_eq!(NodeId::new(10).partial_cmp(&NodeId::new(2)), Some(std::cmp::Ordering::Greater));
}

#[test]
fn the_later_stage_has_the_larger_number() {
    assert_eq!(NodeStage::from_num(2).later(NodeStage::from_num(6)).get_num(), 6);
    assert_eq!(NodeStage::from_num(6).later(NodeStage::from_num(2)).get_num(), 6);
    assert_eq!(NodeStage::from_num(3).later(NodeStage::from_num(3)).get_num(), 3);
}
