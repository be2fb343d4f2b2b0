use vstd::prelude::*;

use crate::events::{ISQPEvent, TopologyUpdate, attach_event, detach_event};
use crate::rotation::ROOT_ZONE_ID;

verus! {

/// Where a replay stands.
#[derive(Clone, Copy, Debug, PartialEq, Eq, Structural)]
pub enum DispatchPhase {
    /// Built; the initial links are not submitted yet.
    Constructed,
    /// Bootstrapped; slots are being sent.
    Running,
    /// Every slot was sent.
    Completed,
    /// Stopped early: bootstrap failed, a send failed, or a shutdown was requested.
    Aborted,
}

/// Why a replay did not run to completion.
#[derive(Clone, Copy, Debug, PartialEq, Eq, Structural)]
pub enum DispatchError {
    /// The initial links were rejected; no slot was sent.
    BootstrapFailure,
}

/// What the driver of a replay is to do next.
#[derive(Clone, Copy, Debug, PartialEq, Eq, Structural)]
pub enum ReplayAction {
    /// Sleep this many milliseconds, then read the clock and ask again.
    Sleep { millis: u64 },
    /// Submit this slot (its events and predictions) as one request, then report the outcome.
    Send { slot: usize },
    /// The replay is over.
    Finish,
}

/// The progress of a replay: its phase, the index of the next slot to send, and the
/// clock readings at which slots were sent.
pub type ReplayView = (DispatchPhase, nat, Seq<u64>);

/// The deadline of a slot: start time plus offset, less the latency skew, kept within `u64`.
pub open spec fn deadline_of(start_ms: u64, offset_ms: u64, skew_ms: u64) -> u64 {
    let d = start_ms + offset_ms - skew_ms;
    if d < 0 {
        0
    } else if d > u64::MAX {
        u64::MAX
    } else {
        d as u64
    }
}

/// What to do when the clock reads `now_ms`, given the slots' deadlines.
pub open spec fn poll_action(v: ReplayView, deadlines: Seq<u64>, now_ms: u64) -> ReplayAction {
    if v.0 != DispatchPhase::Running || v.1 >= deadlines.len() {
        ReplayAction::Finish
    } else if now_ms < deadlines[v.1 as int] {
        ReplayAction::Sleep { millis: (deadlines[v.1 as int] - now_ms) as u64 }
    } else {
        ReplayAction::Send { slot: v.1 as usize }
    }
}

/// The progress after a poll: a running replay with no slot left completes.
pub open spec fn after_poll(v: ReplayView, deadlines: Seq<u64>) -> ReplayView {
    if v.0 == DispatchPhase::Running && v.1 >= deadlines.len() {
        (DispatchPhase::Completed, v.1, v.2)
    } else {
        v
    }
}

/// The progress after a send of the next slot at `at_ms`: on success its time is kept and
/// the next slot is due; on failure the replay stops.
pub open spec fn after_send(v: ReplayView, success: bool, at_ms: u64) -> ReplayView {
    if success {
        (v.0, v.1 + 1, v.2.push(at_ms))
    } else {
        (DispatchPhase::Aborted, v.1, v.2)
    }
}

/// The link requests of the bootstrap: for every initial `(parent, child)` link whose
/// parent is not the root, attach the child to the parent, then detach it from the root.
pub open spec fn bootstrap_link_events(links: Seq<(u64, u64)>) -> Seq<ISQPEvent>
    decreases links.len(),
{
    if links.len() == 0 {
        Seq::empty()
    } else {
        let (parent, child) = links.last();
        bootstrap_link_events(links.drop_last()) + if parent == ROOT_ZONE_ID {
            Seq::empty()
        } else {
            seq![attach_event(parent, child), detach_event(ROOT_ZONE_ID, child)]
        }
    }
}

/// Replays a schedule against the topology endpoint: decides, from the clock readings and
/// the outcomes of the requests that its driver reports, when each slot is sent.
#[allow(non_camel_case_types)]
pub struct REST_topology_updater {
    topology_updates: Vec<TopologyUpdate>,
    initial_updates: Vec<(u64, u64)>,
    start_time_ms: u64,
    interval_ms: u64,
    skew_ms: u64,
    phase: DispatchPhase,
    next_slot: usize,
    actual_calls: Vec<u64>,
}

impl View for REST_topology_updater {
    type V = ReplayView;

    closed spec fn view(&self) -> ReplayView {
        (self.phase, self.next_slot as nat, self.actual_calls@)
    }
}

impl REST_topology_updater {
    /// The deadline of each slot.
    pub closed spec fn deadlines(&self) -> Seq<u64> {
        Seq::new(
            self.topology_updates@.len(),
            |i: int| deadline_of(self.start_time_ms, self.topology_updates@[i].timestamp_ms, self.skew_ms),
        )
    }

    /// The slots, in the order they are sent.
    pub closed spec fn updates(&self) -> Seq<TopologyUpdate> {
        self.topology_updates@
    }

    /// The polling interval, in milliseconds.
    pub closed spec fn poll_interval(&self) -> u64 {
        self.interval_ms
    }

    /// The initial links.
    pub closed spec fn initial_links(&self) -> Seq<(u64, u64)> {
        self.initial_updates@
    }

    pub closed spec fn wf(&self) -> bool {
        self.next_slot <= self.topology_updates@.len()
    }

    /// A replay of `topology_updates`, due from `start_time_ms` (milliseconds since the
    /// epoch), that first establishes `initial_updates`. Each deadline is brought forward
    /// by `skew_ms` to make up for the latency of the request.
    pub fn new(
        topology_updates: Vec<TopologyUpdate>,
        start_time_ms: u64,
        interval_ms: u64,
        initial_updates: Vec<(u64, u64)>,
        skew_ms: u64,
    ) -> (r: REST_topology_updater)
        ensures
            r.wf(),
            r@ == (DispatchPhase::Constructed, 0nat, Seq::<u64>::empty()),
            r.deadlines() == Seq::new(
                topology_updates@.len(),
                |i: int| deadline_of(start_time_ms, topology_updates@[i].timestamp_ms, skew_ms),
            ),
            r.initial_links() == initial_updates@,
            r.updates() == topology_updates@,
            r.poll_interval() == interval_ms,
    {
        let r = REST_topology_updater {
            topology_updates,
            initial_updates,
            start_time_ms,
            interval_ms,
            skew_ms,
            phase: DispatchPhase::Constructed,
            next_slot: 0,
            actual_calls: Vec::new(),
        };
        assert(r@.2 =~= Seq::<u64>::empty());
        r
    }

    /// The polling interval the replay was configured with, in milliseconds.
    pub fn interval_ms(&self) -> (r: u64)
        ensures
            r == self.poll_interval(),
    {
        self.interval_ms
    }

    /// The number of slots.
    pub fn slot_count(&self) -> (r: usize)
        ensures
            r == self.deadlines().len(),
    {
        self.topology_updates.len()
    }

    /// The slot to submit for `ReplayAction::Send { slot }`.
    pub fn slot(&self, slot: usize) -> (r: &TopologyUpdate)
        requires
            slot < self.deadlines().len(),
        ensures
            *r == self.updates()[slot as int],
    {
        &self.topology_updates[slot]
    }

    /// The deadline of slot `slot`, in milliseconds since the epoch.
    pub fn deadline_ms(&self, slot: usize) -> (r: u64)
        requires
            slot < self.deadlines().len(),
        ensures
            r == self.deadlines()[slot as int],
    {
        let d = self.start_time_ms as u128 + self.topology_updates[slot].timestamp_ms as u128;
        let skew = self.skew_ms as u128;
        if d < skew {
            0
        } else if d - skew > u64::MAX as u128 {
            u64::MAX
        } else {
            (d - skew) as u64
        }
    }

    /// The phase of the replay.
    pub fn phase(&self) -> (r: DispatchPhase)
        ensures
            r == self@.0,
    {
        self.phase
    }

    /// The link requests that bootstrap the replay, in order.
    pub fn bootstrap_requests(&self) -> (r: Vec<ISQPEvent>)
        ensures
            r@ == bootstrap_link_events(self.initial_links()),
    {
        let mut r: Vec<ISQPEvent> = Vec::new();
        let mut i: usize = 0;
        while i < self.initial_updates.len()
            invariant
                i <= self.initial_updates@.len(),
                r@ == bootstrap_link_events(self.initial_updates@.subrange(0, i as int)),
            decreases self.initial_updates@.len() - i,
        {
            let (parent_id, child_id) = self.initial_updates[i];
            if parent_id != ROOT_ZONE_ID {
                r.push(ISQPEvent::attach(parent_id, child_id));
                r.push(ISQPEvent::detach(ROOT_ZONE_ID, child_id));
            }
            proof {
                let links = self.initial_updates@.subrange(0, i + 1);
                assert(links.drop_last() =~= self.initial_updates@.subrange(0, i as int));
                assert(links.last() == (parent_id, child_id));
                if parent_id == ROOT_ZONE_ID {
                    assert(r@ =~= bootstrap_link_events(links));
                } else {
                    assert(r@ =~= bootstrap_link_events(links));
                }
            }
            i = i + 1;
        }
        proof {
            assert(self.initial_updates@.subrange(0, i as int) =~= self.initial_updates@);
        }
        r
    }

    /// Reports the outcome of the bootstrap. On success the replay runs; on failure it is
    /// aborted before any slot is sent.
    pub fn start(&mut self, bootstrap_succeeded: bool) -> (r: Result<(), DispatchError>)
        requires
            old(self).wf(),
            old(self)@.0 == DispatchPhase::Constructed,
        ensures
            final(self).wf(),
            final(self).deadlines() == old(self).deadlines(),
            bootstrap_succeeded ==> r is Ok && final(self)@ == (DispatchPhase::Running, old(self)@.1, old(self)@.2),
            !bootstrap_succeeded ==> r == Err::<(), DispatchError>(DispatchError::BootstrapFailure)
                && final(self)@ == (DispatchPhase::Aborted, old(self)@.1, old(self)@.2),
    {
        if bootstrap_succeeded {
            self.phase = DispatchPhase::Running;
            Ok(())
        } else {
            self.phase = DispatchPhase::Aborted;
            Err(DispatchError::BootstrapFailure)
        }
    }

    /// Decides what to do when the clock reads `now_ms`: sleep until the next slot's
    /// deadline, send the next slot once its deadline is reached (at once when it has
    /// passed), or finish.
    pub fn poll(&mut self, now_ms: u64) -> (r: ReplayAction)
        requires
            old(self).wf(),
        ensures
            final(self).wf(),
            final(self).deadlines() == old(self).deadlines(),
            r == poll_action(old(self)@, old(self).deadlines(), now_ms),
            final(self)@ == after_poll(old(self)@, old(self).deadlines()),
    {
        if self.phase != DispatchPhase::Running {
            return ReplayAction::Finish;
        }
        if self.next_slot >= self.topology_updates.len() {
            self.phase = DispatchPhase::Completed;
            return ReplayAction::Finish;
        }
        let deadline = self.deadline_ms(self.next_slot);
        if now_ms < deadline {
            ReplayAction::Sleep { millis: deadline - now_ms }
        } else {
            ReplayAction::Send { slot: self.next_slot }
        }
    }

    /// Reports the outcome of sending the next slot, sent when the clock read `sent_at_ms`.
    pub fn record_send(&mut self, success: bool, sent_at_ms: u64)
        requires
            old(self).wf(),
            old(self)@.0 == DispatchPhase::Running,
            old(self)@.1 < old(self).deadlines().len(),
        ensures
            final(self).wf(),
            final(self).deadlines() == old(self).deadlines(),
            final(self)@ == after_send(old(self)@, success, sent_at_ms),
    {
        assert(self.next_slot < self.topology_updates.len());
        if success {
            self.actual_calls.push(sent_at_ms);
            self.next_slot = self.next_slot + 1;
        } else {
            self.phase = DispatchPhase::Aborted;
        }
    }

    /// Stops a running replay before its next slot.
    pub fn request_shutdown(&mut self)
        requires
            old(self).wf(),
        ensures
            final(self).wf(),
            final(self).deadlines() == old(self).deadlines(),
            old(self)@.0 == DispatchPhase::Running ==> final(self)@ == (DispatchPhase::Aborted, old(self)@.1, old(self)@.2),
            old(self)@.0 != DispatchPhase::Running ==> final(self)@ == old(self)@,
    {
        if self.phase == DispatchPhase::Running {
            self.phase = DispatchPhase::Aborted;
        }
    }

    /// The clock readings at which slots were sent, one per successfully sent slot.
    pub fn into_dispatch_times(self) -> (r: Vec<u64>)
        ensures
            r@ == self@.2,
    {
        self.actual_calls
    }
}


/// A replay driven against a network whose answer to slot `i` is `network(i)`: one poll
/// per clock reading in `clock`, and whenever a poll says so, a send of that slot and its
/// outcome. Returns the final progress and the slots sent, in order.
pub open spec fn drive(
    v: ReplayView,
    deadlines: Seq<u64>,
    clock: Seq<u64>,
    network: spec_fn(nat) -> bool,
) -> (ReplayView, Seq<nat>)
    decreases clock.len(),
{
    if clock.len() == 0 {
        (v, Seq::empty())
    } else {
        let now = clock[0];
        let polled = after_poll(v, deadlines);
        match poll_action(v, deadlines, now) {
            ReplayAction::Send { slot } => {
                let rest = drive(
                    after_send(polled, network(slot as nat), now),
                    deadlines,
                    clock.drop_first(),
                    network,
                );
                (rest.0, seq![slot as nat] + rest.1)
            },
            _ => drive(polled, deadlines, clock.drop_first(), network),
        }
    }
}

/// The number of sends a replay has attempted.
spec fn attempts(v: ReplayView) -> nat {
    if v.0 == DispatchPhase::Aborted {
        v.1 + 1
    } else {
        v.1
    }
}

/// The states a replay passes through against a network that fails first on slot `k - 1`.
spec fn fail_fast_inv(v: ReplayView, k: nat) -> bool {
    ||| v.0 == DispatchPhase::Running && v.1 < k && v.2.len() == v.1
    ||| v.0 == DispatchPhase::Aborted && v.1 == k - 1 && v.2.len() == k - 1
}

proof fn lemma_drive_fail_fast(
    v: ReplayView,
    deadlines: Seq<u64>,
    clock: Seq<u64>,
    network: spec_fn(nat) -> bool,
    k: nat,
)
    requires
        1 <= k <= deadlines.len() <= usize::MAX,
        forall|i: nat| i < k - 1 ==> #[trigger] network(i),
        !network((k - 1) as nat),
        fail_fast_inv(v, k),
    ensures
        fail_fast_inv(drive(v, deadlines, clock, network).0, k),
        drive(v, deadlines, clock, network).1.len() == attempts(drive(v, deadlines, clock, network).0) - attempts(v),
        forall|i: int|
            0 <= i < drive(v, deadlines, clock, network).1.len() ==> #[trigger] drive(
                v,
                deadlines,
                clock,
                network,
            ).1[i] == v.1 + i,
    decreases clock.len(),
{
    if clock.len() > 0 {
        let now = clock[0];
        let polled = after_poll(v, deadlines);
        assert(polled == v);
        match poll_action(v, deadlines, now) {
            ReplayAction::Send { slot } => {
                assert(slot == v.1);
                let next = after_send(polled, network(slot as nat), now);
                lemma_drive_fail_fast(next, deadlines, clock.drop_first(), network, k);
                let rest = drive(next, deadlines, clock.drop_first(), network);
                assert forall|i: int| 0 <= i < rest.1.len() + 1 implies #[trigger] (seq![slot as nat] + rest.1)[i]
                    == v.1 + i by {
                    if i > 0 {
                        assert((seq![slot as nat] + rest.1)[i] == rest.1[i - 1]);
                    }
                }
            },
            _ => {
                lemma_drive_fail_fast(polled, deadlines, clock.drop_first(), network, k);
            },
        }
    }
}

/// Fail fast: against a network that accepts slots `0 .. k - 1` and rejects slot `k - 1`
/// (the `k`-th), a replay started on a schedule of at least `k` slots sends slots in order,
/// never more than `k` of them whatever the clock does, keeps at most `k - 1` dispatch
/// times, and once it stops it has sent exactly `k` slots and kept exactly `k - 1` times.
pub proof fn lemma_fail_fast(deadlines: Seq<u64>, clock: Seq<u64>, network: spec_fn(nat) -> bool, k: nat)
    requires
        1 <= k <= deadlines.len() <= usize::MAX,
        forall|i: nat| i < k - 1 ==> #[trigger] network(i),
        !network((k - 1) as nat),
    ensures
        ({
            let (last, sent) = drive((DispatchPhase::Running, 0, Seq::empty()), deadlines, clock, network);
            &&& sent.len() <= k
            &&& forall|i: int| 0 <= i < sent.len() ==> #[trigger] sent[i] == i
            &&& last.2.len() <= k - 1
            &&& last.0 != DispatchPhase::Running ==> {
                &&& last.0 == DispatchPhase::Aborted
                &&& sent.len() == k
                &&& last.2.len() == k - 1
            }
        }),
{
    let start: ReplayView = (DispatchPhase::Running, 0, Seq::empty());
    lemma_drive_fail_fast(start, deadlines, clock, network, k);
}

} // verus!
