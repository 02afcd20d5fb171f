use steiner_graph::{Cost, Edge, Position};

#[test]
fn position_ids_round_trip() {
    let p = Position(17, 10);
    assert_eq!(p.id(), 17 * 256 + 10);
    assert_eq!(Position::from_id(p.id()), Some(p));
    assert_eq!(Position(0, 0).id(), 0);
    assert_eq!(Position(255, 255).id(), 65535);
    assert_eq!(Position::from_id(65536), None);
}

#[test]
fn costs_have_values() {
    assert_eq!(Cost::Zero.value(), 0);
    assert_eq!(Cost::One.value(), 1);
    assert_eq!(Cost::Two.value(), 2);
    assert_eq!(Cost::Two.add_to(5), 7);
    let e = Edge { cost: Cost::One };
    assert_eq!(e.cost.add_to(0), 1);
}
