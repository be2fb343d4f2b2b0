use simulation_runner_lib::events::{ISQPEvent, ISQPEventAction, TopologyUpdate};
use simulation_runner_lib::schedule::{PrecalculatedReconnect, ProactiveISQPEvent, TopologyUpdateList};

fn detach(parent_id: u64, child_id: u64) -> ISQPEvent {
    ISQPEvent { parent_id, child_id, action: ISQPEventAction::Remove }
}

fn attach(parent_id: u64, child_id: u64) -> ISQPEvent {
    ISQPEvent { parent_id, child_id, action: ISQPEventAction::Add }
}

fn offsets(updates: &[TopologyUpdate]) -> Vec<u64> {
    updates.iter().map(|u| u.timestamp_ms).collect()
}

#[test]
fn two_reconnects_at_one_offset_share_a_slot() {
    let mut list = TopologyUpdateList::new();
    list.add_reconnect(5000, 7, 1, 2);
    list.add_reconnect(5000, 9, 1, 3);
    let updates = list.into_updates();
    assert_eq!(updates.len(), 1);
    assert_eq!(updates[0].timestamp_ms, 5000);
    assert_eq!(updates[0].events, vec![detach(1, 7), attach(2, 7), detach(1, 9), attach(3, 9)]);
    assert!(updates[0].predictions.is_empty());
}

#[test]
fn slots_come_out_in_ascending_offset_order() {
    let mut list = TopologyUpdateList::new();
    list.add(3000, attach(1, 5));
    list.add_reconnect(1000, 6, 2, 3);
    list.add(2000, attach(4, 8));
    list.add(1000, attach(9, 9));
    list.add_initial_connect(10, 2);
    list.add(3000, detach(1, 5));
    let updates = list.into_updates();
    assert_eq!(offsets(&updates), vec![0, 1000, 2000, 3000]);
    assert_eq!(updates[0].events, vec![attach(2, 10)]);
    assert_eq!(updates[1].events, vec![detach(2, 6), attach(3, 6), attach(9, 9)]);
    assert_eq!(updates[2].events, vec![attach(4, 8)]);
    assert_eq!(updates[3].events, vec![attach(1, 5), detach(1, 5)]);
}

#[test]
fn reconnect_at_offset_zero_joins_initial_events() {
    let mut list = TopologyUpdateList::default();
    list.add_initial_event(attach(1, 4));
    list.add_reconnect(0, 4, 1, 2);
    let updates = list.into_updates();
    assert_eq!(updates.len(), 1);
    assert_eq!(updates[0].events, vec![attach(1, 4), detach(1, 4), attach(2, 4)]);
}

#[test]
fn predictions_copy_the_next_slot() {
    let mut list = TopologyUpdateList::new();
    list.add_reconnect(2000, 1, 10, 11);
    list.add_reconnect(1000, 2, 10, 12);
    list.add_reconnect(3000, 3, 11, 12);
    list.addPredictions();
    let updates = list.into_updates();
    assert_eq!(offsets(&updates), vec![1000, 2000, 3000]);
    assert_eq!(updates[0].predictions, updates[1].events);
    assert_eq!(updates[1].predictions, updates[2].events);
    assert!(updates[2].predictions.is_empty());
    assert_eq!(updates[0].events, vec![detach(10, 2), attach(12, 2)]);
}

#[test]
fn adding_predictions_twice_changes_nothing() {
    let mut once = TopologyUpdateList::new();
    let mut twice = TopologyUpdateList::new();
    for list in [&mut once, &mut twice] {
        list.add(40, attach(1, 2));
        list.add(20, attach(3, 4));
        list.add(30, detach(5, 6));
    }
    once.addPredictions();
    twice.addPredictions();
    twice.addPredictions();
    let a = once.into_updates();
    let b = twice.into_updates();
    assert_eq!(a.len(), b.len());
    for (x, y) in a.iter().zip(b.iter()) {
        assert_eq!(x.timestamp_ms, y.timestamp_ms);
        assert_eq!(x.events, y.events);
        assert_eq!(x.predictions, y.predictions);
    }
}

#[test]
fn predictions_before_later_slots_are_stale() {
    let mut list = TopologyUpdateList::new();
    list.add(10, attach(1, 2));
    list.addPredictions();
    list.add(20, attach(3, 4));
    let updates = list.into_updates();
    assert!(updates[0].predictions.is_empty());
    assert!(updates[1].predictions.is_empty());
}

#[test]
fn single_slot_predicts_nothing() {
    let mut list = TopologyUpdateList::new();
    list.add(10, attach(1, 2));
    list.addPredictions();
    let updates = list.into_updates();
    assert_eq!(updates.len(), 1);
    assert!(updates[0].predictions.is_empty());
}

#[test]
fn empty_schedule_converts_to_nothing() {
    let mut list = TopologyUpdateList::new();
    list.addPredictions();
    assert!(list.into_updates().is_empty());
}

#[test]
fn new_slot_is_empty() {
    let slot = ProactiveISQPEvent::new();
    assert!(slot.events.is_empty());
    assert!(slot.predicted.is_empty());
}

#[test]
fn updates_clone_field_by_field() {
    let update = TopologyUpdate { timestamp_ms: 7, predictions: vec![attach(1, 2)], events: vec![detach(3, 4)] };
    let copy = update.clone();
    assert_eq!(copy.timestamp_ms, 7);
    assert_eq!(copy.predictions, vec![attach(1, 2)]);
    assert_eq!(copy.events, vec![detach(3, 4)]);
}

#[test]
fn precalculated_reconnects_chain_parents_and_stop_at_runtime() {
    let mut list = TopologyUpdateList::new();
    let reconnects = vec![
        PrecalculatedReconnect { parent_id: 4, offset_ms: 0 },
        PrecalculatedReconnect { parent_id: 5, offset_ms: 1000 },
        PrecalculatedReconnect { parent_id: 6, offset_ms: 5000 },
        PrecalculatedReconnect { parent_id: 7, offset_ms: 9000 },
        PrecalculatedReconnect { parent_id: 8, offset_ms: 2000 },
    ];
    let taken = list.add_precalculated_reconnects(20, &reconnects, 40_000, 45_000);
    assert_eq!(taken, 3);
    let updates = list.into_updates();
    assert_eq!(offsets(&updates), vec![0, 41_000, 45_000]);
    assert_eq!(updates[0].events, vec![detach(1, 20), attach(4, 20)]);
    assert_eq!(updates[1].events, vec![detach(4, 20), attach(5, 20)]);
    assert_eq!(updates[2].events, vec![detach(5, 20), attach(6, 20)]);
}

#[test]
fn precalculated_reconnects_past_u64_stop() {
    let mut list = TopologyUpdateList::new();
    let reconnects = vec![PrecalculatedReconnect { parent_id: 4, offset_ms: u64::MAX }];
    assert_eq!(list.add_precalculated_reconnects(20, &reconnects, 1, u64::MAX), 0);
    assert!(list.into_updates().is_empty());
}
