use vstd::prelude::*;

use vstd::arithmetic::div_mod::{
    lemma_add_mod_noop, lemma_fundamental_div_mod, lemma_fundamental_div_mod_converse,
    lemma_mod_add_multiples_vanish, lemma_mod_multiples_vanish, lemma_mod_pos_bound, lemma_mod_self_0,
    lemma_mod_twice, lemma_small_mod,
};

use crate::events::{ISQPEvent, ISQPEventAction, TopologyUpdate, attach_event, detach_event, move_events};

verus! {

/// One zone: its id and the devices attached to it, front first.
pub struct Zone {
    pub id: u64,
    pub devices: Vec<u64>,
}

/// The size and the first ids of a zone layout.
#[derive(Clone, Copy, Debug)]
pub struct QuadrantConfig {
    pub num_quadrants: usize,
    pub devices_per_quadrant: usize,
    pub quadrant_start_id: u64,
    pub mobile_start_id: u64,
}

/// The abstract quadrant mobility model: zones in ascending id order, each holding a
/// first-in first-out queue of devices.
pub struct MobileDeviceQuadrants {
    zones: Vec<Zone>,
    devices_per_zone: usize,
}

/// A zone as a pair of its id and its device queue.
pub type ZoneView = (u64, Seq<u64>);

/// Zone ids strictly ascending.
pub open spec fn ids_ascending(zs: Seq<ZoneView>) -> bool {
    forall|i: int, j: int| 0 <= i < j < zs.len() ==> zs[i].0 < zs[j].0
}

/// Every zone holds exactly `k` devices.
pub open spec fn uniform(zs: Seq<ZoneView>, k: nat) -> bool {
    forall|i: int| 0 <= i < zs.len() ==> #[trigger] zs[i].1.len() == k
}

/// No device is held twice, in one zone or in two.
pub open spec fn devices_distinct(zs: Seq<ZoneView>) -> bool {
    forall|i1: int, p1: int, i2: int, p2: int|
        0 <= i1 < zs.len() && 0 <= i2 < zs.len() && 0 <= p1 < zs[i1].1.len() && 0 <= p2
            < zs[i2].1.len() && (i1 != i2 || p1 != p2) ==> #[trigger] zs[i1].1[p1]
            != #[trigger] zs[i2].1[p2]
}

/// The layout invariant: ascending ids, `k` devices in every zone, no device twice.
pub open spec fn zones_wf(zs: Seq<ZoneView>, k: nat) -> bool {
    &&& ids_ascending(zs)
    &&& uniform(zs, k)
    &&& devices_distinct(zs)
}

/// The zone that receives the front device of zone `i` on a tick: the next lower
/// one, and the highest one for the lowest.
pub open spec fn receiving_zone(n: int, i: int) -> int {
    if i == 0 {
        n - 1
    } else {
        i - 1
    }
}

/// The zones after one tick: each zone gives up its front device and receives the
/// front device of the next higher zone (the lowest zone's goes to the highest).
pub open spec fn tick_zones(zs: Seq<ZoneView>) -> Seq<ZoneView> {
    Seq::new(
        zs.len(),
        |i: int|
            if zs[i].1.len() == 0 {
                zs[i]
            } else {
                (zs[i].0, zs[i].1.drop_first().push(zs[(i + 1) % (zs.len() as int)].1[0]))
            },
    )
}

/// The events of one tick: zones are taken from the highest id down; the front device
/// of each is detached from it and attached to the receiving zone.
pub open spec fn tick_events(zs: Seq<ZoneView>) -> Seq<ISQPEvent> {
    let n = zs.len() as int;
    if n == 0 || zs[0].1.len() == 0 {
        Seq::empty()
    } else {
        Seq::new(
            (2 * n) as nat,
            |j: int|
                {
                    let src = n - 1 - j / 2;
                    let device = zs[src].1[0];
                    if j % 2 == 0 {
                        detach_event(zs[src].0, device)
                    } else {
                        attach_event(zs[receiving_zone(n, src)].0, device)
                    }
                },
        )
    }
}

/// The zones after `t` ticks.
pub open spec fn ticked(zs: Seq<ZoneView>, t: nat) -> Seq<ZoneView>
    decreases t,
{
    if t == 0 {
        zs
    } else {
        tick_zones(ticked(zs, (t - 1) as nat))
    }
}

/// The parent that every device is detached from when the experiment starts.
pub const ROOT_ZONE_ID: u64 = 1;

/// Why a zone layout cannot be built.
#[derive(Clone, Copy, Debug, PartialEq, Eq, Structural)]
pub enum ConfigurationError {
    /// A zone id or a device id would not fit in a `u64`.
    IdRangeTooLarge,
    /// Some id would name both a zone and a device.
    IdRangesOverlap,
}

/// Both id ranges fit in a `u64`.
pub open spec fn id_ranges_fit(zone_count: nat, per_zone: nat, first_zone: nat, first_device: nat) -> bool {
    &&& first_zone + zone_count <= u64::MAX + 1
    &&& first_device + zone_count * per_zone <= u64::MAX + 1
}

/// The zone ids `first_zone ..` and the device ids `first_device ..` share an id.
pub open spec fn id_ranges_overlap(zone_count: nat, per_zone: nat, first_zone: nat, first_device: nat) -> bool {
    &&& zone_count * per_zone > 0
    &&& first_zone < first_device + zone_count * per_zone
    &&& first_device < first_zone + zone_count
}

/// The initial layout: zone `i` has id `first_zone + i` and holds, in order, the devices
/// `first_device + i * per_zone + p` for `p < per_zone`.
pub open spec fn populated(zone_count: nat, per_zone: nat, first_zone: nat, first_device: nat) -> Seq<ZoneView> {
    Seq::new(
        zone_count,
        |i: int|
            (
                (first_zone + i) as u64,
                Seq::new(per_zone, |p: int| (first_device + i * per_zone + p) as u64),
            ),
    )
}

/// What building a layout gives: an error when an id would not fit in a `u64`, else an
/// error when the id ranges overlap, else the populated layout.
pub open spec fn populate_outcome(
    zone_count: nat,
    per_zone: nat,
    first_zone: nat,
    first_device: nat,
    r: Result<MobileDeviceQuadrants, ConfigurationError>,
) -> bool {
    &&& !id_ranges_fit(zone_count, per_zone, first_zone, first_device) <==> r == Err::<
        MobileDeviceQuadrants,
        ConfigurationError,
    >(ConfigurationError::IdRangeTooLarge)
    &&& id_ranges_fit(zone_count, per_zone, first_zone, first_device) && id_ranges_overlap(
        zone_count,
        per_zone,
        first_zone,
        first_device,
    ) <==> r == Err::<MobileDeviceQuadrants, ConfigurationError>(ConfigurationError::IdRangesOverlap)
    &&& id_ranges_fit(zone_count, per_zone, first_zone, first_device) && !id_ranges_overlap(
        zone_count,
        per_zone,
        first_zone,
        first_device,
    ) <==> r is Ok
    &&& r matches Ok(q) ==> {
        &&& q.wf()
        &&& q.per_zone() == per_zone
        &&& q@ == populated(zone_count, per_zone, first_zone, first_device)
    }
}

/// The initial attachment of one zone's devices: each is detached from the root and
/// attached to the zone.
pub open spec fn zone_bootstrap(z: ZoneView) -> Seq<ISQPEvent> {
    Seq::new(
        2 * z.1.len(),
        |j: int|
            if j % 2 == 0 {
                detach_event(ROOT_ZONE_ID, z.1[j / 2])
            } else {
                attach_event(z.0, z.1[j / 2])
            },
    )
}

/// The initial attachment of all devices, zone by zone in ascending id order.
pub open spec fn bootstrap_events(zs: Seq<ZoneView>) -> Seq<ISQPEvent>
    decreases zs.len(),
{
    if zs.len() == 0 {
        Seq::empty()
    } else {
        bootstrap_events(zs.drop_last()) + zone_bootstrap(zs.last())
    }
}

/// Row-major positions are distinct: `i * k + p` determines `i` and `p` when `p < k`.
pub proof fn lemma_row_major_unique(i1: int, p1: int, i2: int, p2: int, k: int)
    requires
        0 <= i1,
        0 <= i2,
        0 <= p1 < k,
        0 <= p2 < k,
        i1 * k + p1 == i2 * k + p2,
    ensures
        i1 == i2,
        p1 == p2,
{
    if i1 < i2 {
        assert(i1 * k + k <= i2 * k) by (nonlinear_arith)
            requires
                i1 < i2,
                0 < k,
        ;
    } else if i2 < i1 {
        assert(i2 * k + k <= i1 * k) by (nonlinear_arith)
            requires
                i2 < i1,
                0 < k,
        ;
    }
}

/// A row-major position within `n` rows of `k` stays below `n * k`.
pub proof fn lemma_row_major_bound(i: int, p: int, n: int, k: int)
    requires
        0 <= i < n,
        0 <= p < k,
    ensures
        0 <= i * k + p < n * k,
        i * k + k <= n * k,
{
    assert(0 <= i * k + p < n * k && i * k + k <= n * k) by (nonlinear_arith)
        requires
            0 <= i < n,
            0 <= p < k,
    ;
}

/// The index after `i` in a cycle of `n`.
pub proof fn lemma_next_index(i: int, n: int)
    requires
        0 <= i < n,
    ensures
        (i + 1) % n == if i + 1 == n { 0 } else { i + 1 },
{
    if i + 1 == n {
        lemma_mod_self_0(n);
    } else {
        lemma_small_mod((i + 1) as nat, n as nat);
    }
}

/// A tick keeps the zone ids, the number of devices per zone and their distinctness.
pub proof fn lemma_tick_preserves_wf(zs: Seq<ZoneView>, k: nat)
    requires
        zones_wf(zs, k),
    ensures
        zones_wf(tick_zones(zs), k),
        tick_zones(zs).len() == zs.len(),
        forall|i: int| 0 <= i < zs.len() ==> #[trigger] tick_zones(zs)[i].0 == zs[i].0,
{
    let n = zs.len() as int;
    let t = tick_zones(zs);
    if k > 0 {
        assert forall|i1: int, p1: int, i2: int, p2: int|
            0 <= i1 < n && 0 <= i2 < n && 0 <= p1 < t[i1].1.len() && 0 <= p2 < t[i2].1.len()
                && (i1 != i2 || p1 != p2) implies #[trigger] t[i1].1[p1] != #[trigger] t[i2].1[p2] by {
            let (a1, b1) = if p1 < k - 1 { (i1, p1 + 1) } else { ((i1 + 1) % n, 0) };
            let (a2, b2) = if p2 < k - 1 { (i2, p2 + 1) } else { ((i2 + 1) % n, 0) };
            assert(t[i1].1[p1] == zs[a1].1[b1]);
            assert(t[i2].1[p2] == zs[a2].1[b2]);
            if p1 == k - 1 && p2 == k - 1 {
                assert(i1 != i2);
                lemma_next_index(i1, n);
                lemma_next_index(i2, n);
            }
        }
    }
}

impl View for Zone {
    type V = ZoneView;

    open spec fn view(&self) -> ZoneView {
        (self.id, self.devices@)
    }
}

impl View for MobileDeviceQuadrants {
    type V = Seq<ZoneView>;

    closed spec fn view(&self) -> Seq<ZoneView> {
        self.zones@.map_values(|z: Zone| z@)
    }
}

impl MobileDeviceQuadrants {
    /// The number of devices that each zone holds.
    pub closed spec fn per_zone(&self) -> nat {
        self.devices_per_zone as nat
    }

    pub closed spec fn wf(&self) -> bool {
        zones_wf(self@, self.devices_per_zone as nat)
    }

    /// A model with no zones.
    pub fn new() -> (r: MobileDeviceQuadrants)
        ensures
            r.wf(),
            r@.len() == 0,
    {
        let r = MobileDeviceQuadrants { zones: Vec::new(), devices_per_zone: 0 };
        assert(r@ =~= Seq::<ZoneView>::empty());
        r
    }

    /// Builds the model that `config` describes.
    pub fn from_config(config: &QuadrantConfig) -> (r: Result<MobileDeviceQuadrants, ConfigurationError>)
        ensures
            populate_outcome(
                config.num_quadrants as nat,
                config.devices_per_quadrant as nat,
                config.quadrant_start_id as nat,
                config.mobile_start_id as nat,
                r,
            ),
    {
        Self::populate(
            config.num_quadrants,
            config.devices_per_quadrant,
            config.quadrant_start_id,
            config.mobile_start_id,
        )
    }

    /// The number of zones.
    pub fn zone_count(&self) -> (r: usize)
        ensures
            r == self@.len(),
    {
        self.zones.len()
    }

    /// The zone at position `index` in ascending id order.
    pub fn zone(&self, index: usize) -> (r: &Zone)
        requires
            index < self@.len(),
        ensures
            r@ == self@[index as int],
    {
        &self.zones[index]
    }

    /// Builds `zone_count` zones with ids from `first_zone_id`, each holding
    /// `devices_per_zone` devices with consecutive ids from `first_device_id`.
    pub fn populate(
        zone_count: usize,
        devices_per_zone: usize,
        first_zone_id: u64,
        first_device_id: u64,
    ) -> (r: Result<MobileDeviceQuadrants, ConfigurationError>)
        ensures
            populate_outcome(zone_count as nat, devices_per_zone as nat, first_zone_id as nat, first_device_id as nat, r),
    {
        let ghost zc = zone_count as nat;
        let ghost k = devices_per_zone as nat;
        let zone_count_wide = zone_count as u128;
        let per_zone_wide = devices_per_zone as u128;
        assert(zone_count_wide * per_zone_wide <= u64::MAX as u128 * u64::MAX as u128) by (nonlinear_arith)
            requires
                zone_count_wide <= u64::MAX,
                per_zone_wide <= u64::MAX,
        ;
        let device_count = zone_count_wide * per_zone_wide;
        let id_limit = u64::MAX as u128 + 1;
        if first_zone_id as u128 + zone_count_wide > id_limit || first_device_id as u128 + device_count > id_limit {
            return Err(ConfigurationError::IdRangeTooLarge);
        }
        if device_count > 0 && (first_zone_id as u128) < first_device_id as u128 + device_count
            && (first_device_id as u128) < first_zone_id as u128 + zone_count_wide
        {
            return Err(ConfigurationError::IdRangesOverlap);
        }
        let ghost target = populated(zc, k, first_zone_id as nat, first_device_id as nat);
        let mut zones: Vec<Zone> = Vec::new();
        let mut i: usize = 0;
        while i < zone_count
            invariant
                i <= zone_count,
                zc == zone_count,
                k == devices_per_zone,
                device_count == zc * k,
                first_zone_id + zc <= u64::MAX + 1,
                first_device_id + zc * k <= u64::MAX + 1,
                target == populated(zc, k, first_zone_id as nat, first_device_id as nat),
                zones@.len() == i,
                forall|j: int| 0 <= j < i ==> #[trigger] zones@[j]@ == target[j],
            decreases zone_count - i,
        {
            let mut devices: Vec<u64> = Vec::new();
            let mut p: usize = 0;
            while p < devices_per_zone
                invariant
                    i < zone_count,
                    p <= devices_per_zone,
                    zc == zone_count,
                    k == devices_per_zone,
                    first_device_id + zc * k <= u64::MAX + 1,
                    target == populated(zc, k, first_zone_id as nat, first_device_id as nat),
                    devices@ =~= target[i as int].1.subrange(0, p as int),
                decreases devices_per_zone - p,
            {
                proof {
                    lemma_row_major_bound(i as int, p as int, zc as int, k as int);
                }
                let offset = (i as u64) * (devices_per_zone as u64) + p as u64;
                devices.push(first_device_id + offset);
                p = p + 1;
            }
            zones.push(Zone { id: first_zone_id + i as u64, devices });
            proof {
                assert(zones@[i as int]@.1 =~= target[i as int].1);
            }
            i = i + 1;
        }
        let q = MobileDeviceQuadrants { zones, devices_per_zone };
        proof {
            assert(q@ =~= target);
            assert forall|i1: int, p1: int, i2: int, p2: int|
                0 <= i1 < zc && 0 <= i2 < zc && 0 <= p1 < k && 0 <= p2 < k && (i1 != i2 || p1 != p2)
                    implies #[trigger] target[i1].1[p1] != #[trigger] target[i2].1[p2] by {
                lemma_row_major_bound(i1, p1, zc as int, k as int);
                lemma_row_major_bound(i2, p2, zc as int, k as int);
                if i1 * k + p1 == i2 * k + p2 {
                    lemma_row_major_unique(i1, p1, i2, p2, k as int);
                }
            }
        }
        Ok(q)
    }

    /// The initial attachment batch: for every device, zone by zone in ascending id
    /// order, a detach from the root and an attach to its zone.
    fn initial_events(&self) -> (events: Vec<ISQPEvent>)
        ensures
            events@ == bootstrap_events(self@),
    {
        let mut events: Vec<ISQPEvent> = Vec::new();
        let mut i: usize = 0;
        while i < self.zones.len()
            invariant
                i <= self.zones@.len(),
                events@ == bootstrap_events(self@.subrange(0, i as int)),
            decreases self.zones@.len() - i,
        {
            let zone = &self.zones[i];
            let ghost z = zone@;
            assert(z == self@[i as int]);
            let ghost prefix = events@;
            let mut p: usize = 0;
            while p < zone.devices.len()
                invariant
                    p <= z.1.len(),
                    z == zone@,
                    events@ == prefix + zone_bootstrap(z).subrange(0, 2 * p),
                decreases z.1.len() - p,
            {
                let device = zone.devices[p];
                events.push(ISQPEvent::detach(ROOT_ZONE_ID, device));
                events.push(ISQPEvent::attach(zone.id, device));
                proof {
                    assert((2 * p) / 2 == p && (2 * p) % 2 == 0);
                    assert((2 * p + 1) / 2 == p && (2 * p + 1) % 2 == 1);
                    assert(zone_bootstrap(z).subrange(0, 2 * p + 2) =~= zone_bootstrap(z).subrange(0, 2 * p).push(
                        detach_event(ROOT_ZONE_ID, device)).push(attach_event(z.0, device)));
                }
                p = p + 1;
            }
            proof {
                assert(zone_bootstrap(z).subrange(0, 2 * p) =~= zone_bootstrap(z));
                assert(self@.subrange(0, i + 1).drop_last() =~= self@.subrange(0, i as int));
            }
            i = i + 1;
        }
        proof {
            assert(self@.subrange(0, i as int) =~= self@);
        }
        events
    }

    /// The schedule of the rotation model: a bootstrap batch at offset 0, then the
    /// events of tick `t` (for `t` from 1 to `tick_count`) at
    /// `start_offset_ms + (t - 1) * interval_ms`.
    pub fn get_update_vector(self, tick_count: usize, interval_ms: u64, start_offset_ms: u64) -> (r: Vec<TopologyUpdate>)
        requires
            self.wf(),
            tick_count == 0 || start_offset_ms + (tick_count - 1) * interval_ms <= u64::MAX,
        ensures
            r@.len() == tick_count + 1,
            r@[0].timestamp_ms == 0,
            r@[0].events@ == bootstrap_events(self@),
            r@[0].predictions@.len() == 0,
            forall|t: int|
                1 <= t <= tick_count ==> {
                    &&& (#[trigger] r@[t]).timestamp_ms == start_offset_ms + (t - 1) * interval_ms
                    &&& r@[t].events@ == tick_events(ticked(self@, (t - 1) as nat))
                    &&& r@[t].predictions@.len() == 0
                },
    {
        let ghost zs = self@;
        let mut model = self;
        let mut updates: Vec<TopologyUpdate> = Vec::new();
        updates.push(TopologyUpdate { timestamp_ms: 0, predictions: Vec::new(), events: model.initial_events() });
        let mut timestamp: u64 = start_offset_ms;
        let mut t: usize = 0;
        while t < tick_count
            invariant
                t <= tick_count,
                model.wf(),
                model@ == ticked(zs, t as nat),
                tick_count == 0 || start_offset_ms + (tick_count - 1) * interval_ms <= u64::MAX,
                t < tick_count ==> timestamp == start_offset_ms + t * interval_ms,
                updates@.len() == t + 1,
                updates@[0].timestamp_ms == 0,
                updates@[0].events@ == bootstrap_events(zs),
                updates@[0].predictions@.len() == 0,
                forall|u: int|
                    1 <= u <= t ==> {
                        &&& (#[trigger] updates@[u]).timestamp_ms == start_offset_ms + (u - 1) * interval_ms
                        &&& updates@[u].events@ == tick_events(ticked(zs, (u - 1) as nat))
                        &&& updates@[u].predictions@.len() == 0
                    },
            decreases tick_count - t,
        {
            let events = model.rotate_devices();
            updates.push(TopologyUpdate { timestamp_ms: timestamp, predictions: Vec::new(), events });
            if t + 1 < tick_count {
                proof {
                    assert(start_offset_ms + (t + 1) * interval_ms <= start_offset_ms + (tick_count - 1) * interval_ms) by (nonlinear_arith)
                        requires
                            t + 1 <= tick_count - 1,
                    ;
                    assert((t + 1) * interval_ms == t * interval_ms + interval_ms) by (nonlinear_arith);
                }
                timestamp = timestamp + interval_ms;
            }
            t = t + 1;
        }
        updates
    }

    /// Runs one tick: every zone's front device moves to the next lower zone, the
    /// lowest zone's to the highest. Returns the events of the tick.
    pub fn rotate_devices(&mut self) -> (events: Vec<ISQPEvent>)
        requires
            old(self).wf(),
        ensures
            final(self).wf(),
            final(self).per_zone() == old(self).per_zone(),
            final(self)@ == tick_zones(old(self)@),
            events@ == tick_events(old(self)@),
    {
        let ghost zs = self@;
        let n = self.zones.len();
        assert(forall|j: int| 0 <= j < n ==> #[trigger] self.zones@[j]@ == zs[j]);
        let mut events: Vec<ISQPEvent> = Vec::new();
        if n == 0 || self.devices_per_zone == 0 {
            proof {
                assert(self@ =~= tick_zones(zs));
            }
            return events;
        }
        proof {
            lemma_tick_preserves_wf(zs, self.devices_per_zone as nat);
        }
        let mut moving_device: Option<(u64, u64)> = None;
        let mut i: usize = n;
        while i > 0
            invariant
                n == zs.len(),
                n > 0,
                self.devices_per_zone > 0,
                zones_wf(zs, self.devices_per_zone as nat),
                i <= n,
                self.zones.len() == n,
                forall|j: int| 0 <= j < i ==> #[trigger] self.zones@[j]@ == zs[j],
                forall|j: int|
                    i <= j < n - 1 ==> #[trigger] self.zones@[j]@ == tick_zones(zs)[j],
                i < n ==> self.zones@[n - 1]@ == (zs[n - 1].0, zs[n - 1].1.drop_first()),
                moving_device == if i < n {
                    Some((zs[i as int].0, zs[i as int].1[0]))
                } else {
                    None::<(u64, u64)>
                },
                events@.len() == if i < n { 2 * (n - 1 - i) } else { 0 },
                forall|j: int| 0 <= j < events@.len() ==> events@[j] == tick_events(zs)[j],
            decreases i,
        {
            i = i - 1;
            let zone_id = self.zones[i].id;
            let ghost before = events@;
            assert(self.zones@[i as int]@ == zs[i as int]);
            assert(zs[i as int].1.len() == self.devices_per_zone);
            Self::rotate_single_device(&mut events, &mut moving_device, zone_id, &mut self.zones[i].devices);
            let device = self.zones[i].devices.remove(0);
            moving_device = Some((zone_id, device));
            proof {
                if i + 1 < n {
                    let m = 2 * (n - 2 - i);
                    assert(before.len() == m);
                    assert forall|j: int| 0 <= j < events@.len() implies events@[j] == tick_events(zs)[j] by {
                        if j >= m {
                            assert(j / 2 == n - 2 - i);
                        }
                    }
                    lemma_next_index(i as int, n as int);
                    assert(self.zones@[i as int]@.1 =~= tick_zones(zs)[i as int].1);
                } else {
                    assert(self.zones@[i as int]@ =~= (zs[n - 1].0, zs[n - 1].1.drop_first()));
                }
            }
        }
        let last = n - 1;
        let last_id = self.zones[last].id;
        let ghost before = events@;
        Self::rotate_single_device(&mut events, &mut moving_device, last_id, &mut self.zones[last].devices);
        proof {
            assert forall|j: int| 0 <= j < events@.len() implies events@[j] == tick_events(zs)[j] by {
                if j >= before.len() {
                    assert(j / 2 == n - 1);
                }
            }
            assert(events@ =~= tick_events(zs));
            lemma_next_index(n - 1, n as int);
            assert(self.zones@[n - 1]@.1 =~= tick_zones(zs)[n - 1].1);
            assert forall|j: int| 0 <= j < n implies #[trigger] self@[j] == tick_zones(zs)[j] by {
                assert(self@[j] == self.zones@[j]@);
            }
            assert(self@ =~= tick_zones(zs));
        }
        events
    }

    /// Moves the device in flight, if any, from its zone to `zone_id`: emits the detach
    /// and attach events and appends the device to the back of `devices`.
    fn rotate_single_device(
        events: &mut Vec<ISQPEvent>,
        moving_device: &mut Option<(u64, u64)>,
        zone_id: u64,
        devices: &mut Vec<u64>,
    )
        ensures
            *final(moving_device) == None::<(u64, u64)>,
            match *old(moving_device) {
                None => final(events)@ == old(events)@ && final(devices)@ == old(devices)@,
                Some((old_zone, device)) => {
                    &&& final(events)@ == old(events)@ + move_events(device, old_zone, zone_id)
                    &&& final(devices)@ == old(devices)@.push(device)
                },
            },
    {
        if let Some((old_zone, device)) = moving_device.take() {
            events.push(ISQPEvent::detach(old_zone, device));
            events.push(ISQPEvent::attach(zone_id, device));
            devices.push(device);
        }
    }
}


/// Where a uniform layout puts device `p` of zone `i` in the bootstrap batch.
proof fn lemma_bootstrap_layout(zs: Seq<ZoneView>, k: nat)
    requires
        uniform(zs, k),
    ensures
        bootstrap_events(zs).len() == 2 * (zs.len() * k),
        forall|i: int, p: int|
            0 <= i < zs.len() && 0 <= p < k ==> {
                &&& #[trigger] bootstrap_events(zs)[2 * (i * k + p)] == detach_event(ROOT_ZONE_ID, zs[i].1[p])
                &&& bootstrap_events(zs)[2 * (i * k + p) + 1] == attach_event(zs[i].0, zs[i].1[p])
            },
    decreases zs.len(),
{
    if zs.len() > 0 {
        let init = zs.drop_last();
        let n = zs.len() as int;
        assert(uniform(init, k));
        lemma_bootstrap_layout(init, k);
        let b = bootstrap_events(zs);
        let last = zone_bootstrap(zs.last());
        assert(zs.last().1.len() == k);
        assert((n - 1) * k + k == n * k) by (nonlinear_arith);
        assert forall|i: int, p: int| 0 <= i < n && 0 <= p < k implies {
            &&& #[trigger] b[2 * (i * k + p)] == detach_event(ROOT_ZONE_ID, zs[i].1[p])
            &&& b[2 * (i * k + p) + 1] == attach_event(zs[i].0, zs[i].1[p])
        } by {
            lemma_row_major_bound(i, p, n, k as int);
            if i < n - 1 {
                lemma_row_major_bound(i, p, n - 1, k as int);
                assert(init[i] == zs[i]);
            } else {
                assert(2 * (i * k + p) - 2 * ((n - 1) * k) == 2 * p);
                assert((2 * p) / 2 == p && (2 * p) % 2 == 0);
                assert((2 * p + 1) / 2 == p && (2 * p + 1) % 2 == 1);
                assert(last[2 * p] == detach_event(ROOT_ZONE_ID, zs[i].1[p]));
                assert(last[2 * p + 1] == attach_event(zs[i].0, zs[i].1[p]));
            }
        }
    }
}

/// The bootstrap batch holds exactly two events per device: for device `p` of zone `i`,
/// at positions `2 * (i * per_zone + p)` and the next, a detach from the root followed
/// by an attach to zone `i`.
pub proof fn lemma_bootstrap_one_pair_per_device(q: MobileDeviceQuadrants)
    requires
        q.wf(),
    ensures
        bootstrap_events(q@).len() == 2 * (q@.len() * q.per_zone()),
        forall|i: int, p: int|
            0 <= i < q@.len() && 0 <= p < q.per_zone() ==> {
                &&& #[trigger] bootstrap_events(q@)[2 * (i * q.per_zone() + p)] == detach_event(ROOT_ZONE_ID, q@[i].1[p])
                &&& bootstrap_events(q@)[2 * (i * q.per_zone() + p) + 1] == attach_event(q@[i].0, q@[i].1[p])
            },
{
    lemma_bootstrap_layout(q@, q.per_zone());
}

/// A tick of at least two zones that hold devices emits `2 * zone_count` events in
/// detach/attach pairs: pair `t` moves the front device of zone `zone_count - 1 - t` from
/// that zone to the receiving zone, and no device is moved by two pairs.
pub proof fn lemma_tick_one_pair_per_device(q: MobileDeviceQuadrants)
    requires
        q.wf(),
        q@.len() >= 2,
        q.per_zone() > 0,
    ensures
        tick_events(q@).len() == 2 * q@.len(),
        forall|j: int|
            0 <= j < 2 * q@.len() ==> (#[trigger] tick_events(q@)[j]).action == if j % 2 == 0 {
                ISQPEventAction::Remove
            } else {
                ISQPEventAction::Add
            },
        forall|t: int|
            0 <= t < q@.len() ==> {
                let src = q@.len() - 1 - t;
                &&& #[trigger] tick_events(q@)[2 * t] == detach_event(q@[src].0, q@[src].1[0])
                &&& tick_events(q@)[2 * t + 1] == attach_event(q@[receiving_zone(q@.len() as int, src)].0, q@[src].1[0])
            },
        forall|t1: int, t2: int|
            0 <= t1 < q@.len() && 0 <= t2 < q@.len() && t1 != t2 ==> (#[trigger] tick_events(q@)[2 * t1]).child_id
                != (#[trigger] tick_events(q@)[2 * t2]).child_id,
{
    let zs = q@;
    let n = zs.len() as int;
    assert(zs[0].1.len() == q.per_zone());
    let ev = tick_events(zs);
    assert forall|t: int| 0 <= t < n implies {
        let src = n - 1 - t;
        &&& #[trigger] ev[2 * t] == detach_event(zs[src].0, zs[src].1[0])
        &&& ev[2 * t + 1] == attach_event(zs[receiving_zone(n, src)].0, zs[src].1[0])
    } by {
        assert((2 * t) / 2 == t && (2 * t) % 2 == 0);
        assert((2 * t + 1) / 2 == t && (2 * t + 1) % 2 == 1);
    }
    assert forall|t1: int, t2: int| 0 <= t1 < n && 0 <= t2 < n && t1 != t2 implies (#[trigger] ev[2
        * t1]).child_id != (#[trigger] ev[2 * t2]).child_id by {
        let s1 = n - 1 - t1;
        let s2 = n - 1 - t2;
        assert(zs[s1].1.len() == q.per_zone() && zs[s2].1.len() == q.per_zone());
        assert(zs[s1].1[0] != zs[s2].1[0]);
    }
}


/// The device at row-major position `x` of a layout with `k` devices per zone.
spec fn cell(zs: Seq<ZoneView>, k: nat, x: int) -> u64 {
    zs[x / (k as int)].1[x % (k as int)]
}

/// After `t` ticks the ids and sizes are kept, and device `p` of zone `i` is the one that
/// started at row-major position `i * k + p + t`, counted round the cycle of all devices.
proof fn lemma_ticked_closed_form(zs: Seq<ZoneView>, k: nat, t: nat)
    requires
        zones_wf(zs, k),
        zs.len() > 0,
        k > 0,
    ensures
        zones_wf(ticked(zs, t), k),
        ticked(zs, t).len() == zs.len(),
        forall|i: int| 0 <= i < zs.len() ==> #[trigger] ticked(zs, t)[i].0 == zs[i].0,
        forall|i: int, p: int|
            0 <= i < zs.len() && 0 <= p < k ==> #[trigger] ticked(zs, t)[i].1[p] == cell(
                zs,
                k,
                (i * k + p + t) % (zs.len() * k) as int,
            ),
    decreases t,
{
    let n = zs.len() as int;
    let total = n * k;
    if t == 0 {
        assert forall|i: int, p: int| 0 <= i < n && 0 <= p < k implies #[trigger] ticked(zs, t)[i].1[p] == cell(
            zs,
            k,
            (i * k + p + t) % total,
        ) by {
            lemma_row_major_bound(i, p, n, k as int);
            lemma_small_mod((i * k + p) as nat, total as nat);
            lemma_fundamental_div_mod_converse(i * k + p, k as int, i, p);
        }
    } else {
        let prev = ticked(zs, (t - 1) as nat);
        lemma_ticked_closed_form(zs, k, (t - 1) as nat);
        lemma_tick_preserves_wf(prev, k);
        let cur = ticked(zs, t);
        assert(cur == tick_zones(prev));
        assert forall|i: int, p: int| 0 <= i < n && 0 <= p < k implies #[trigger] cur[i].1[p] == cell(
            zs,
            k,
            (i * k + p + t) % total,
        ) by {
            assert(prev[i].1.len() == k);
            if p < k - 1 {
                assert(cur[i].1[p] == prev[i].1[p + 1]);
                assert(i * k + (p + 1) + (t - 1) == i * k + p + t);
            } else {
                lemma_next_index(i, n);
                let next = (i + 1) % n;
                assert(cur[i].1[p] == prev[next].1[0]);
                assert(i * k + p + t == (i + 1) * k + (t - 1) + 0) by (nonlinear_arith)
                    requires
                        p == k - 1,
                ;
                if i + 1 == n {
                    assert((i + 1) * k == total) by (nonlinear_arith)
                        requires
                            i + 1 == n,
                            total == n * k,
                    ;
                    lemma_mod_add_multiples_vanish(0 * k + (t - 1), total);
                    assert(next * k + 0 + (t - 1) == 0 * k + (t - 1)) by (nonlinear_arith)
                        requires
                            next == 0,
                    ;
                }
            }
        }
    }
}

/// With no devices, a tick changes nothing.
proof fn lemma_ticked_empty_zones(zs: Seq<ZoneView>, t: nat)
    requires
        uniform(zs, 0),
    ensures
        ticked(zs, t) == zs,
    decreases t,
{
    if t > 0 {
        lemma_ticked_empty_zones(zs, (t - 1) as nat);
        assert(tick_zones(zs) =~= zs);
    }
}

/// After a number of ticks that is a multiple of the zone count, every zone holds the
/// devices it held before, when each zone holds at most one device, when there is a
/// single zone, or when the number of ticks is also a multiple of the number of devices.
/// (With two or more zones of two or more devices each, a device takes
/// `zone_count * per_zone` ticks to come round.)
pub proof fn lemma_cycle_closure(q: MobileDeviceQuadrants, tick_count: nat)
    requires
        q.wf(),
        tick_count % q@.len() == 0,
        q@.len() == 1 || q.per_zone() <= 1 || tick_count % (q@.len() * q.per_zone()) == 0,
    ensures
        ticked(q@, tick_count).len() == q@.len(),
        forall|i: int| 0 <= i < q@.len() ==> #[trigger] ticked(q@, tick_count)[i].0 == q@[i].0,
        forall|i: int, d: u64|
            0 <= i < q@.len() ==> (#[trigger] ticked(q@, tick_count)[i].1.contains(d) <==> q@[i].1.contains(d)),
{
    let zs = q@;
    let k = q.per_zone();
    let n = zs.len() as int;
    let t = tick_count;
    if k == 0 {
        lemma_ticked_empty_zones(zs, t);
        return;
    }
    if n == 0 {
        assert(ticked(zs, t).len() == 0) by {
            lemma_ticked_empty_zones(zs, t);
        }
        return;
    }
    lemma_ticked_closed_form(zs, k, t);
    let after = ticked(zs, t);
    let total = n * k;
    assert(total > 0) by (nonlinear_arith)
        requires
            n > 0,
            k > 0,
            total == n * k,
    ;
    if t % (total as nat) == 0 || k == 1 {
        assert forall|i: int| 0 <= i < n implies #[trigger] after[i].1 =~= zs[i].1 by {
            assert forall|p: int| 0 <= p < k implies after[i].1[p] == zs[i].1[p] by {
                let x = i * k + p;
                lemma_row_major_bound(i, p, n, k as int);
                lemma_add_mod_noop(x, t as int, total);
                lemma_small_mod(x as nat, total as nat);
                assert(n * 1 == n);
                lemma_mod_twice(x, total);
                lemma_fundamental_div_mod_converse(x, k as int, i, p);
            }
        }
    } else {
        assert(n == 1);
        assert(total == k) by (nonlinear_arith)
            requires
                n == 1,
                total == n * k,
        ;
        assert forall|d: u64| #[trigger] after[0].1.contains(d) <==> zs[0].1.contains(d) by {
            if after[0].1.contains(d) {
                let p = choose|p: int| 0 <= p < after[0].1.len() && after[0].1[p] == d;
                let x = p + t;
                lemma_mod_pos_bound(x, k as int);
                lemma_fundamental_div_mod_converse(x % (k as int), k as int, 0, x % (k as int));
                assert(0 * k + p == p);
                assert(zs[0].1[x % (k as int)] == d);
            }
            if zs[0].1.contains(d) {
                let q0 = choose|q0: int| 0 <= q0 < zs[0].1.len() && zs[0].1[q0] == d;
                let ki = k as int;
                lemma_fundamental_div_mod(t as int, ki);
                lemma_mod_pos_bound(t as int, ki);
                let p = (q0 + ki - (t as int) % ki) % ki;
                lemma_mod_pos_bound(q0 + ki - (t as int) % ki, ki);
                lemma_add_mod_noop(q0 + ki - (t as int) % ki, t as int, ki);
                lemma_add_mod_noop(p, t as int, ki);
                lemma_mod_twice(q0 + ki - (t as int) % ki, ki);
                assert(q0 + ki - (t as int) % ki + t == ki * (1 + (t as int) / ki) + q0) by (nonlinear_arith)
                    requires
                        t == ki * ((t as int) / ki) + (t as int) % ki,
                ;
                lemma_mod_multiples_vanish(1 + (t as int) / ki, q0, ki);
                lemma_small_mod(q0 as nat, ki as nat);
                assert((p + t) % ki == q0);
                lemma_fundamental_div_mod_converse(q0, ki, 0, q0);
                assert(0 * k + p == p);
                assert(after[0].1[p] == d);
            }
        }
    }
}

} // verus!
