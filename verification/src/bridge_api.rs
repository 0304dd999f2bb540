//! The decisions of the bridge API: what a Grand Pattern event asks the
//! bridge to do to its state.

use vstd::prelude::*;

verus! {

/// What the bridge does with an event.
#[derive(Debug, Clone, Copy, PartialEq, Eq, Structural)]
pub enum EventAction {
    /// Add a weighted edge between two venues of the cellular graph.
    AddEdge { source: usize, target: usize },
    /// Set the mass of a venue of the pattern state.
    SetMass { venue: usize },
    /// A known event whose data is incomplete or out of range: nothing changes.
    Ignore,
    /// An event type the bridge does not know: nothing changes and a warning is
    /// reported.
    Unknown,
}

/// What the bridge reads from the data of an event: the source, target and
/// venue indices it holds, and whether it holds a weight and a mass.
#[derive(Debug, Clone, Copy, PartialEq, Eq, Structural)]
pub struct EventData {
    pub source: Option<usize>,
    pub target: Option<usize>,
    pub has_weight: bool,
    pub venue_id: Option<usize>,
    pub has_mass: bool,
}

/// The action an event calls for. An `"edge_added"` event adds an edge when its
/// data gives a source, a target and a weight; a `"venue_updated"` event sets a
/// mass when its data gives a venue id below `n_venues` and a mass; any other
/// event type is unknown.
pub open spec fn event_action_spec(event_type: Seq<char>, data: EventData, n_venues: usize) -> EventAction {
    if event_type == "edge_added"@ {
        match (data.source, data.target) {
            (Some(i), Some(j)) => if data.has_weight {
                EventAction::AddEdge { source: i, target: j }
            } else {
                EventAction::Ignore
            },
            _ => EventAction::Ignore,
        }
    } else if event_type == "venue_updated"@ {
        match data.venue_id {
            Some(id) => if data.has_mass && id < n_venues {
                EventAction::SetMass { venue: id }
            } else {
                EventAction::Ignore
            },
            None => EventAction::Ignore,
        }
    } else {
        EventAction::Unknown
    }
}

/// Decide what an event does, from its type and from what its data holds.
pub fn plan_event(event_type: &String, data: &EventData, n_venues: usize) -> (action: EventAction)
    ensures
        action == event_action_spec(event_type@, *data, n_venues),
        // Every edge event with both endpoints and a weight adds that edge, in any order.
        forall|i: usize, j: usize|
            event_type@ == "edge_added"@ && data.source == Some(i) && data.target == Some(j) && data.has_weight
                ==> action == (EventAction::AddEdge { source: i, target: j }),
        event_type@ == "edge_added"@ && (data.source is None || data.target is None || !data.has_weight)
            ==> action == EventAction::Ignore,
        // Every venue below n_venues with a mass has its mass set; nothing else does.
        forall|id: usize|
            event_type@ == "venue_updated"@ && data.venue_id == Some(id) && data.has_mass && id < n_venues
                ==> action == (EventAction::SetMass { venue: id }),
        event_type@ == "venue_updated"@ && (data.venue_id is None || !data.has_mass || data.venue_id->0 >= n_venues)
            ==> action == EventAction::Ignore,
        event_type@ != "edge_added"@ && event_type@ != "venue_updated"@ ==> action == EventAction::Unknown,
        action is AddEdge ==> event_type@ == "edge_added"@,
        action is SetMass ==> event_type@ == "venue_updated"@,
{
    proof {
        reveal_strlit("edge_added");
        reveal_strlit("venue_updated");
        assert("edge_added"@ != "venue_updated"@) by {
            assert("edge_added"@.len() != "venue_updated"@.len());
        }
    }
    let edge_added = String::from_str("edge_added");
    let venue_updated = String::from_str("venue_updated");
    if *event_type == edge_added {
        match (data.source, data.target) {
            (Some(i), Some(j)) => if data.has_weight {
                EventAction::AddEdge { source: i, target: j }
            } else {
                EventAction::Ignore
            },
            _ => EventAction::Ignore,
        }
    } else if *event_type == venue_updated {
        match data.venue_id {
            Some(id) => if data.has_mass && id < n_venues {
                EventAction::SetMass { venue: id }
            } else {
                EventAction::Ignore
            },
            None => EventAction::Ignore,
        }
    } else {
        EventAction::Unknown
    }
}

} // verus!
