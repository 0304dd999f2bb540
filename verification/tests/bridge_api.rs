use lau_bridge_pattern_math::bridge_api::{plan_event, EventAction, EventData};

fn data(
    source: Option<usize>,
    target: Option<usize>,
    has_weight: bool,
    venue_id: Option<usize>,
    has_mass: bool,
) -> EventData {
    EventData { source, target, has_weight, venue_id, has_mass }
}

#[test]
fn edge_event_adds_an_edge() {
    let t = String::from("edge_added");
    let a = plan_event(&t, &data(Some(0), Some(1), true, None, false), 3);
    assert_eq!(a, EventAction::AddEdge { source: 0, target: 1 });
}

#[test]
fn edge_event_without_weight_is_ignored() {
    let t = String::from("edge_added");
    assert_eq!(plan_event(&t, &data(Some(0), Some(1), false, None, false), 3), EventAction::Ignore);
    assert_eq!(plan_event(&t, &data(None, Some(1), true, None, false), 3), EventAction::Ignore);
}

#[test]
fn venue_event_sets_the_mass() {
    let t = String::from("venue_updated");
    assert_eq!(
        plan_event(&t, &data(None, None, false, Some(0), true), 3),
        EventAction::SetMass { venue: 0 }
    );
}

#[test]
fn venue_event_out_of_range_is_ignored() {
    let t = String::from("venue_updated");
    assert_eq!(plan_event(&t, &data(None, None, false, Some(3), true), 3), EventAction::Ignore);
    assert_eq!(plan_event(&t, &data(None, None, false, Some(1), false), 3), EventAction::Ignore);
}

#[test]
fn other_event_types_are_unknown() {
    let t = String::from("unknown_event");
    assert_eq!(plan_event(&t, &data(None, None, false, None, false), 3), EventAction::Unknown);
    let near = String::from("edge_added ");
    assert_eq!(plan_event(&near, &data(Some(0), Some(1), true, None, false), 3), EventAction::Unknown);
}
