use simulation_runner_lib::events::{ISQPEvent, ISQPEventAction};
use simulation_runner_lib::rotation::{ConfigurationError, MobileDeviceQuadrants, QuadrantConfig};

fn detach(parent_id: u64, child_id: u64) -> ISQPEvent {
    ISQPEvent { parent_id, child_id, action: ISQPEventAction::Remove }
}

fn attach(parent_id: u64, child_id: u64) -> ISQPEvent {
    ISQPEvent { parent_id, child_id, action: ISQPEventAction::Add }
}

fn layout(q: &MobileDeviceQuadrants) -> Vec<(u64, Vec<u64>)> {
    (0..q.zone_count()).map(|i| (q.zone(i).id, q.zone(i).devices.clone())).collect()
}

fn zone_of(q: &MobileDeviceQuadrants, device: u64) -> u64 {
    layout(q).into_iter().find(|(_, d)| d.contains(&device)).unwrap().0
}

#[test]
fn populate_assigns_contiguous_ids() {
    let q = MobileDeviceQuadrants::populate(4, 3, 1, 100).unwrap();
    assert_eq!(
        layout(&q),
        vec![
            (1, vec![100, 101, 102]),
            (2, vec![103, 104, 105]),
            (3, vec![106, 107, 108]),
            (4, vec![109, 110, 111]),
        ]
    );
}

#[test]
fn one_tick_moves_front_devices_down() {
    let mut q = MobileDeviceQuadrants::populate(4, 3, 1, 100).unwrap();
    let events = q.rotate_devices();
    assert_eq!(
        events,
        vec![
            detach(4, 109),
            attach(3, 109),
            detach(3, 106),
            attach(2, 106),
            detach(2, 103),
            attach(1, 103),
            detach(1, 100),
            attach(4, 100),
        ]
    );
    assert_eq!(
        layout(&q),
        vec![
            (1, vec![101, 102, 103]),
            (2, vec![104, 105, 106]),
            (3, vec![107, 108, 109]),
            (4, vec![110, 111, 100]),
        ]
    );
}

#[test]
fn tick_emits_one_pair_per_zone() {
    for zones in 2..7usize {
        let mut q = MobileDeviceQuadrants::populate(zones, 2, 1, 1000).unwrap();
        let events = q.rotate_devices();
        assert_eq!(events.len(), 2 * zones);
        let detaches = events.iter().filter(|e| e.action == ISQPEventAction::Remove).count();
        assert_eq!(detaches, zones);
        let mut moved: Vec<u64> = vec![];
        for pair in events.chunks(2) {
            assert_eq!(pair[0].action, ISQPEventAction::Remove);
            assert_eq!(pair[1].action, ISQPEventAction::Add);
            assert_eq!(pair[0].child_id, pair[1].child_id);
            assert!(!moved.contains(&pair[0].child_id));
            moved.push(pair[0].child_id);
        }
    }
}

#[test]
fn single_device_zones_return_after_zone_count_ticks() {
    let start = MobileDeviceQuadrants::populate(5, 1, 1, 10).unwrap();
    let before = layout(&start);
    let mut q = start;
    for _ in 0..5 {
        q.rotate_devices();
    }
    assert_eq!(layout(&q), before);
}

#[test]
fn full_layout_returns_after_all_devices_have_cycled() {
    let start = MobileDeviceQuadrants::populate(4, 3, 1, 100).unwrap();
    let before = layout(&start);
    let mut q = start;
    for _ in 0..12 {
        q.rotate_devices();
    }
    assert_eq!(layout(&q), before);
}

#[test]
fn zone_count_ticks_do_not_close_the_cycle_with_several_devices_per_zone() {
    let mut q = MobileDeviceQuadrants::populate(4, 3, 1, 100).unwrap();
    for _ in 0..4 {
        q.rotate_devices();
    }
    assert_eq!(zone_of(&q, 101), 4);
}

#[test]
fn single_zone_keeps_its_devices() {
    let mut q = MobileDeviceQuadrants::populate(1, 3, 1, 10).unwrap();
    let events = q.rotate_devices();
    assert_eq!(events, vec![detach(1, 10), attach(1, 10)]);
    assert_eq!(layout(&q), vec![(1, vec![11, 12, 10])]);
}

#[test]
fn zones_without_devices_emit_nothing() {
    let mut q = MobileDeviceQuadrants::populate(3, 0, 1, 1).unwrap();
    assert!(q.rotate_devices().is_empty());
    let mut empty = MobileDeviceQuadrants::new();
    assert!(empty.rotate_devices().is_empty());
    assert_eq!(empty.zone_count(), 0);
}

#[test]
fn overlapping_id_ranges_are_rejected() {
    assert!(matches!(MobileDeviceQuadrants::populate(4, 3, 1, 3), Err(ConfigurationError::IdRangesOverlap)));
    assert!(matches!(MobileDeviceQuadrants::populate(4, 3, 105, 100), Err(ConfigurationError::IdRangesOverlap)));
    assert!(MobileDeviceQuadrants::populate(4, 3, 112, 100).is_ok());
    assert!(MobileDeviceQuadrants::populate(4, 3, 1, 5).is_ok());
}

#[test]
fn ids_beyond_u64_are_rejected() {
    assert!(matches!(MobileDeviceQuadrants::populate(2, 1, u64::MAX, 0), Err(ConfigurationError::IdRangeTooLarge)));
    assert!(matches!(MobileDeviceQuadrants::populate(2, 2, 0, u64::MAX - 2), Err(ConfigurationError::IdRangeTooLarge)));
    let q = MobileDeviceQuadrants::populate(1, 2, 0, u64::MAX - 1).unwrap();
    assert_eq!(layout(&q), vec![(0, vec![u64::MAX - 1, u64::MAX])]);
}

#[test]
fn from_config_builds_the_layout() {
    let config = QuadrantConfig { num_quadrants: 2, devices_per_quadrant: 2, quadrant_start_id: 2, mobile_start_id: 50 };
    let q = MobileDeviceQuadrants::from_config(&config).unwrap();
    assert_eq!(layout(&q), vec![(2, vec![50, 51]), (3, vec![52, 53])]);
}

#[test]
fn update_vector_starts_with_bootstrap_batch() {
    let q = MobileDeviceQuadrants::populate(2, 2, 2, 50).unwrap();
    let updates = q.get_update_vector(3, 2000, 500);
    assert_eq!(updates.len(), 4);
    assert_eq!(updates[0].timestamp_ms, 0);
    assert_eq!(
        updates[0].events,
        vec![
            detach(1, 50),
            attach(2, 50),
            detach(1, 51),
            attach(2, 51),
            detach(1, 52),
            attach(3, 52),
            detach(1, 53),
            attach(3, 53),
        ]
    );
    let times: Vec<u64> = updates.iter().map(|u| u.timestamp_ms).collect();
    assert_eq!(times, vec![0, 500, 2500, 4500]);
    assert_eq!(updates[1].events, vec![detach(3, 52), attach(2, 52), detach(2, 50), attach(3, 50)]);
    assert_eq!(updates[2].events, vec![detach(3, 53), attach(2, 53), detach(2, 51), attach(3, 51)]);
    assert!(updates.iter().all(|u| u.predictions.is_empty()));
}

#[test]
fn bootstrap_batch_has_two_events_per_device() {
    let q = MobileDeviceQuadrants::populate(4, 3, 1, 100).unwrap();
    let updates = q.get_update_vector(0, 1000, 0);
    assert_eq!(updates.len(), 1);
    assert_eq!(updates[0].events.len(), 24);
    for (n, pair) in updates[0].events.chunks(2).enumerate() {
        let device = 100 + n as u64;
        assert_eq!(pair[0], detach(1, device));
        assert_eq!(pair[1], attach(1 + n as u64 / 3, device));
    }
}

#[test]
fn update_vector_is_deterministic() {
    let a = MobileDeviceQuadrants::populate(3, 2, 1, 10).unwrap().get_update_vector(7, 100, 40);
    let b = MobileDeviceQuadrants::populate(3, 2, 1, 10).unwrap().get_update_vector(7, 100, 40);
    assert_eq!(a.len(), b.len());
    for (x, y) in a.iter().zip(b.iter()) {
        assert_eq!(x.timestamp_ms, y.timestamp_ms);
        assert_eq!(x.events, y.events);
    }
}
