use simulation_runner_lib::dispatch::{DispatchError, DispatchPhase, REST_topology_updater, ReplayAction};
use simulation_runner_lib::events::{ISQPEvent, ISQPEventAction, TopologyUpdate};

fn slot(timestamp_ms: u64, child_id: u64) -> TopologyUpdate {
    TopologyUpdate {
        timestamp_ms,
        predictions: vec![],
        events: vec![ISQPEvent { parent_id: 2, child_id, action: ISQPEventAction::Add }],
    }
}

fn schedule(n: u64) -> Vec<TopologyUpdate> {
    (0..n).map(|i| slot(i * 1000, 100 + i)).collect()
}

/// Runs a replay against a simulated clock that jumps to each requested wake-up time and
/// a network that rejects slot `fail_at` (counted from 0); returns the slots sent and the
/// dispatch times.
fn run(mut replay: REST_topology_updater, fail_at: Option<usize>) -> (Vec<usize>, Vec<u64>) {
    let mut now: u64 = 1_000_000;
    let mut sent = vec![];
    loop {
        match replay.poll(now) {
            ReplayAction::Sleep { millis } => now += millis,
            ReplayAction::Send { slot } => {
                sent.push(slot);
                replay.record_send(Some(slot) != fail_at, now);
                now += 3;
            }
            ReplayAction::Finish => break,
        }
    }
    (sent, replay.into_dispatch_times())
}

#[test]
fn failure_on_a_slot_stops_the_replay() {
    let mut replay = REST_topology_updater::new(schedule(5), 1_000_000, 10, vec![], 0);
    assert!(replay.start(true).is_ok());
    let (sent, times) = run(replay, Some(2));
    assert_eq!(sent, vec![0, 1, 2]);
    assert_eq!(times, vec![1_000_000, 1_001_000]);
}

#[test]
fn failure_on_first_slot_keeps_no_time() {
    let mut replay = REST_topology_updater::new(schedule(3), 1_000_000, 10, vec![], 0);
    replay.start(true).unwrap();
    let (sent, times) = run(replay, Some(0));
    assert_eq!(sent, vec![0]);
    assert!(times.is_empty());
}

#[test]
fn all_slots_sent_at_their_deadlines() {
    let mut replay = REST_topology_updater::new(schedule(3), 1_000_000, 10, vec![], 0);
    replay.start(true).unwrap();
    let (sent, times) = run(replay, None);
    assert_eq!(sent, vec![0, 1, 2]);
    assert_eq!(times, vec![1_000_000, 1_001_000, 1_002_000]);
}

#[test]
fn completed_replay_reports_completion() {
    let mut replay = REST_topology_updater::new(schedule(1), 5000, 10, vec![], 0);
    replay.start(true).unwrap();
    assert_eq!(replay.poll(5000), ReplayAction::Send { slot: 0 });
    replay.record_send(true, 5000);
    assert_eq!(replay.poll(5001), ReplayAction::Finish);
    assert_eq!(replay.phase(), DispatchPhase::Completed);
}

#[test]
fn failed_bootstrap_never_sends() {
    let mut replay = REST_topology_updater::new(schedule(3), 0, 10, vec![(2, 7)], 0);
    assert_eq!(replay.phase(), DispatchPhase::Constructed);
    assert_eq!(replay.start(false), Err(DispatchError::BootstrapFailure));
    assert_eq!(replay.phase(), DispatchPhase::Aborted);
    assert_eq!(replay.poll(u64::MAX), ReplayAction::Finish);
    assert!(replay.into_dispatch_times().is_empty());
}

#[test]
fn deadlines_are_brought_forward_by_the_skew() {
    let replay = REST_topology_updater::new(vec![slot(500, 1), slot(3000, 2)], 10_000, 10, vec![], 1000);
    assert_eq!(replay.slot_count(), 2);
    assert_eq!(replay.deadline_ms(0), 9500);
    assert_eq!(replay.deadline_ms(1), 12_000);
    let early = REST_topology_updater::new(vec![slot(0, 1)], 200, 10, vec![], 1000);
    assert_eq!(early.deadline_ms(0), 0);
    assert_eq!(replay.slot(1).timestamp_ms, 3000);
    assert_eq!(replay.interval_ms(), 10);
}

#[test]
fn poll_sleeps_until_the_deadline() {
    let mut replay = REST_topology_updater::new(vec![slot(2000, 1)], 10_000, 10, vec![], 0);
    replay.start(true).unwrap();
    assert_eq!(replay.poll(11_250), ReplayAction::Sleep { millis: 750 });
    assert_eq!(replay.poll(12_000), ReplayAction::Send { slot: 0 });
}

#[test]
fn late_slot_is_sent_at_once() {
    let mut replay = REST_topology_updater::new(vec![slot(2000, 1)], 10_000, 10, vec![], 0);
    replay.start(true).unwrap();
    assert_eq!(replay.poll(50_000), ReplayAction::Send { slot: 0 });
}

#[test]
fn shutdown_stops_before_the_next_slot() {
    let mut replay = REST_topology_updater::new(schedule(3), 0, 10, vec![], 0);
    replay.start(true).unwrap();
    assert_eq!(replay.poll(0), ReplayAction::Send { slot: 0 });
    replay.record_send(true, 0);
    replay.request_shutdown();
    assert_eq!(replay.phase(), DispatchPhase::Aborted);
    assert_eq!(replay.poll(5000), ReplayAction::Finish);
    assert_eq!(replay.into_dispatch_times(), vec![0]);
}

#[test]
fn bootstrap_skips_links_to_the_root() {
    let replay = REST_topology_updater::new(vec![], 0, 10, vec![(1, 5), (2, 6), (3, 7)], 0);
    let requests = replay.bootstrap_requests();
    assert_eq!(
        requests,
        vec![
            ISQPEvent { parent_id: 2, child_id: 6, action: ISQPEventAction::Add },
            ISQPEvent { parent_id: 1, child_id: 6, action: ISQPEventAction::Remove },
            ISQPEvent { parent_id: 3, child_id: 7, action: ISQPEventAction::Add },
            ISQPEvent { parent_id: 1, child_id: 7, action: ISQPEventAction::Remove },
        ]
    );
}
