use vstd::prelude::*;

use crate::events::{ISQPEvent, TopologyUpdate, attach_event, copy_events, move_events};
use crate::rotation::ROOT_ZONE_ID;

verus! {

/// The events due at one offset, and the look-ahead copied from the next offset.
pub struct ProactiveISQPEvent {
    pub predicted: Vec<ISQPEvent>,
    pub events: Vec<ISQPEvent>,
}

/// A slot as a pair of its events and its predicted events.
pub type SlotView = (Seq<ISQPEvent>, Seq<ISQPEvent>);

/// A schedule entry: an offset in milliseconds and its slot.
pub type EntryView = (u64, SlotView);

impl View for ProactiveISQPEvent {
    type V = SlotView;

    open spec fn view(&self) -> SlotView {
        (self.events@, self.predicted@)
    }
}

impl ProactiveISQPEvent {
    /// An empty slot.
    pub fn new() -> (r: ProactiveISQPEvent)
        ensures
            r@ == (Seq::<ISQPEvent>::empty(), Seq::<ISQPEvent>::empty()),
    {
        let r = ProactiveISQPEvent { predicted: Vec::new(), events: Vec::new() };
        assert(r@.0 =~= Seq::<ISQPEvent>::empty() && r@.1 =~= Seq::<ISQPEvent>::empty());
        r
    }
}

/// Offsets strictly ascending.
pub open spec fn offsets_ascending(s: Seq<EntryView>) -> bool {
    forall|i: int, j: int| 0 <= i < j < s.len() ==> s[i].0 < s[j].0
}

/// The schedule invariant: offsets strictly ascending, and the last slot predicts nothing.
pub open spec fn schedule_wf(s: Seq<EntryView>) -> bool {
    &&& offsets_ascending(s)
    &&& s.len() > 0 ==> s.last().1.1.len() == 0
}

/// Some entry of `s` has offset `t`.
pub open spec fn has_offset(s: Seq<EntryView>, t: u64) -> bool {
    exists|i: int| 0 <= i < s.len() && s[i].0 == t
}

/// The position of the entry with offset `t`.
pub open spec fn offset_index(s: Seq<EntryView>, t: u64) -> int {
    choose|i: int| 0 <= i < s.len() && s[i].0 == t
}

/// The number of entries with an offset below `t`: where an entry for `t` goes.
pub open spec fn count_below(s: Seq<EntryView>, t: u64) -> int
    decreases s.len(),
{
    if s.len() == 0 {
        0
    } else {
        count_below(s.drop_last(), t) + if s.last().0 < t {
            1int
        } else {
            0int
        }
    }
}

/// `s` with `evs` appended to the events at offset `t`: to the slot that is there, or
/// to a new slot, with no prediction, placed after the entries with lower offsets.
pub open spec fn append_at(s: Seq<EntryView>, t: u64, evs: Seq<ISQPEvent>) -> Seq<EntryView> {
    if has_offset(s, t) {
        let i = offset_index(s, t);
        s.update(i, (t, (s[i].1.0 + evs, s[i].1.1)))
    } else {
        s.insert(count_below(s, t), (t, (evs, Seq::empty())))
    }
}

/// In a sorted schedule, the entries below `t` are the first `i` when those before `i`
/// are below `t` and the others are not.
pub proof fn lemma_count_below(s: Seq<EntryView>, t: u64, i: int)
    requires
        0 <= i <= s.len(),
        forall|j: int| 0 <= j < i ==> s[j].0 < t,
        forall|j: int| i <= j < s.len() ==> s[j].0 >= t,
    ensures
        count_below(s, t) == i,
    decreases s.len(),
{
    if s.len() > 0 {
        if i == s.len() {
            lemma_count_below(s.drop_last(), t, i - 1);
        } else {
            lemma_count_below(s.drop_last(), t, i);
        }
    }
}

/// At most every entry is below `t`.
pub proof fn lemma_count_below_range(s: Seq<EntryView>, t: u64)
    ensures
        0 <= count_below(s, t) <= s.len(),
    decreases s.len(),
{
    if s.len() > 0 {
        lemma_count_below_range(s.drop_last(), t);
    }
}

/// Appending twice at one offset appends both lists, in order.
pub proof fn lemma_append_twice(s: Seq<EntryView>, t: u64, a: Seq<ISQPEvent>, b: Seq<ISQPEvent>)
    requires
        schedule_wf(s),
    ensures
        append_at(append_at(s, t, a), t, b) == append_at(s, t, a + b),
{
    let s1 = append_at(s, t, a);
    if has_offset(s, t) {
        let i = offset_index(s, t);
        assert(s1[i].0 == t);
        assert(has_offset(s1, t));
        let i1 = offset_index(s1, t);
        assert(i1 == i) by {
            if i1 < i {
                assert(s[i1].0 < s[i].0);
            } else if i1 > i {
                assert(s[i].0 < s[i1].0);
            }
        }
        assert(s[i].1.0 + a + b =~= s[i].1.0 + (a + b));
        assert(append_at(s1, t, b) =~= append_at(s, t, a + b));
    } else {
        let p = count_below(s, t);
        lemma_count_below_range(s, t);
        assert(s1[p].0 == t);
        assert(has_offset(s1, t));
        let i1 = offset_index(s1, t);
        assert(i1 == p) by {
            if i1 != p {
                if i1 < p {
                    assert(s1[i1] == s[i1]);
                } else {
                    assert(s1[i1] == s[i1 - 1]);
                }
            }
        }
        assert(Seq::<ISQPEvent>::empty() + a + b =~= a + b);
        assert(append_at(s1, t, b) =~= append_at(s, t, a + b));
    }
}

/// Each slot but the last predicts the events of the next slot; the last is kept.
pub open spec fn with_predictions(s: Seq<EntryView>) -> Seq<EntryView> {
    Seq::new(
        s.len(),
        |i: int|
            if i + 1 < s.len() {
                (s[i].0, (s[i].1.0, s[i + 1].1.0))
            } else {
                s[i]
            },
    )
}

/// A precalculated reconnect of one device: from `offset_ms` on it is attached to `parent_id`.
#[derive(Clone, Copy, Debug, PartialEq, Eq, Structural)]
pub struct PrecalculatedReconnect {
    pub parent_id: u64,
    pub offset_ms: u64,
}

/// The offset at which a reconnect is scheduled: offsets other than 0 are delayed by `delay_ms`.
pub open spec fn delayed_offset(offset_ms: u64, delay_ms: u64) -> int {
    if offset_ms == 0 {
        0
    } else {
        offset_ms + delay_ms
    }
}

/// The parent a device has before its reconnect number `i`: the root before the first.
pub open spec fn parent_before(rs: Seq<PrecalculatedReconnect>, i: int) -> u64 {
    if i == 0 {
        ROOT_ZONE_ID
    } else {
        rs[i - 1].parent_id
    }
}

/// `s` after the first `n` reconnects of `device_id` are added, each moving the device from
/// its previous parent to the new one at its delayed offset.
pub open spec fn with_reconnects(
    s: Seq<EntryView>,
    device_id: u64,
    rs: Seq<PrecalculatedReconnect>,
    delay_ms: u64,
    n: nat,
) -> Seq<EntryView>
    decreases n,
{
    if n == 0 {
        s
    } else {
        let i = n - 1;
        append_at(
            with_reconnects(s, device_id, rs, delay_ms, (n - 1) as nat),
            delayed_offset(rs[i].offset_ms, delay_ms) as u64,
            move_events(device_id, parent_before(rs, i), rs[i].parent_id),
        )
    }
}

/// Reconnect events aggregated by offset (milliseconds after the start of the
/// experiment), kept in ascending offset order.
pub struct TopologyUpdateList {
    offsets: Vec<u64>,
    slots: Vec<ProactiveISQPEvent>,
}

impl View for TopologyUpdateList {
    type V = Seq<EntryView>;

    closed spec fn view(&self) -> Seq<EntryView> {
        Seq::new(self.offsets@.len(), |i: int| (self.offsets@[i], self.slots@[i]@))
    }
}

impl TopologyUpdateList {
    pub closed spec fn wf(&self) -> bool {
        &&& self.offsets@.len() == self.slots@.len()
        &&& schedule_wf(self@)
    }

    /// An empty schedule.
    pub fn new() -> (r: TopologyUpdateList)
        ensures
            r.wf(),
            r@.len() == 0,
    {
        TopologyUpdateList { offsets: Vec::new(), slots: Vec::new() }
    }

    /// Appends `event` to the slot at `timestamp_ms`, creating the slot if there is none.
    pub fn add(&mut self, timestamp_ms: u64, event: ISQPEvent)
        requires
            old(self).wf(),
        ensures
            final(self).wf(),
            final(self)@ == append_at(old(self)@, timestamp_ms, seq![event]),
    {
        let ghost s = self@;
        let n = self.offsets.len();
        let mut i: usize = 0;
        while i < n && self.offsets[i] < timestamp_ms
            invariant
                n == self.offsets@.len(),
                i <= n,
                forall|j: int| 0 <= j < i ==> self.offsets@[j] < timestamp_ms,
            decreases n - i,
        {
            i = i + 1;
        }
        if i < n && self.offsets[i] == timestamp_ms {
            self.slots[i].events.push(event);
            proof {
                assert(s[i as int].0 == timestamp_ms);
                assert(has_offset(s, timestamp_ms));
                let k = offset_index(s, timestamp_ms);
                assert(k == i) by {
                    if k < i {
                        assert(s[k].0 < s[i as int].0);
                    } else if k > i {
                        assert(s[i as int].0 < s[k].0);
                    }
                }
                let expected = s.update(i as int, (timestamp_ms, (s[i as int].1.0 + seq![event], s[i as int].1.1)));
                assert(self.slots@[i as int].events@ =~= s[i as int].1.0 + seq![event]);
                assert(self@[i as int] == expected[i as int]);
                assert(self@ =~= expected);
            }
        } else {
            let mut slot = ProactiveISQPEvent::new();
            slot.events.push(event);
            self.offsets.insert(i, timestamp_ms);
            self.slots.insert(i, slot);
            proof {
                let entry = (timestamp_ms, (seq![event], Seq::<ISQPEvent>::empty()));
                assert(slot@.0 =~= seq![event]);
                assert(self@ =~= s.insert(i as int, entry));
                assert(!has_offset(s, timestamp_ms)) by {
                    assert forall|j: int| 0 <= j < s.len() implies s[j].0 != timestamp_ms by {
                        if j > i {
                            assert(s[i as int].0 < s[j].0);
                        }
                    }
                }
                assert forall|j: int| i <= j < s.len() implies s[j].0 >= timestamp_ms by {
                    if j > i {
                        assert(s[i as int].0 < s[j].0);
                    }
                }
                lemma_count_below(s, timestamp_ms, i as int);
            }
        }
    }

    /// Copies into every slot but the last the events of the slot that follows it. Call
    /// it once all events are added: slots added later are not predicted.
    #[allow(non_snake_case)]
    pub fn addPredictions(&mut self)
        requires
            old(self).wf(),
        ensures
            final(self).wf(),
            final(self)@ == with_predictions(old(self)@),
    {
        let ghost s = self@;
        let n = self.slots.len();
        let mut i: usize = 0;
        while n > 0 && i < n - 1
            invariant
                n == s.len(),
                self.offsets@.len() == n,
                self.slots@.len() == n,
                i <= n,
                n == 0 || i <= n - 1,
                forall|j: int| 0 <= j < n ==> #[trigger] self.offsets@[j] == s[j].0,
                forall|j: int| 0 <= j < n ==> (#[trigger] self.slots@[j])@.0 == s[j].1.0,
                forall|j: int| 0 <= j < i ==> (#[trigger] self.slots@[j])@.1 == s[j + 1].1.0,
                forall|j: int| i <= j < n ==> (#[trigger] self.slots@[j])@.1 == s[j].1.1,
            decreases n - i,
        {
            let next = copy_events(&self.slots[i + 1].events);
            self.slots[i].predicted = next;
            i = i + 1;
        }
        proof {
            assert forall|j: int| 0 <= j < n implies #[trigger] self@[j] == with_predictions(s)[j] by {
                assert(self@[j] == (self.offsets@[j], self.slots@[j]@));
                let w = with_predictions(s)[j];
                assert(self.slots@[j]@.0 == w.1.0);
                assert(self.slots@[j]@.1 == w.1.1);
                assert(self.offsets@[j] == w.0);
                if j + 1 < n {
                    assert(j < i);
                    assert(with_predictions(s)[j] == (s[j].0, (s[j].1.0, s[j + 1].1.0)));
                } else {
                    assert(with_predictions(s)[j] == s[j]);
                }
            }
            assert(self@ =~= with_predictions(s));
        }
    }

    /// The schedule as a list of updates in ascending offset order.
    pub fn into_updates(self) -> (r: Vec<TopologyUpdate>)
        requires
            self.wf(),
        ensures
            r@.len() == self@.len(),
            forall|i: int|
                0 <= i < r@.len() ==> {
                    &&& (#[trigger] r@[i]).timestamp_ms == self@[i].0
                    &&& r@[i].events@ == self@[i].1.0
                    &&& r@[i].predictions@ == self@[i].1.1
                },
            forall|i: int, j: int| 0 <= i < j < r@.len() ==> r@[i].timestamp_ms < r@[j].timestamp_ms,
    {
        let mut updates: Vec<TopologyUpdate> = Vec::new();
        let mut i: usize = 0;
        while i < self.offsets.len()
            invariant
                self.wf(),
                i <= self@.len(),
                updates@.len() == i,
                forall|j: int|
                    0 <= j < i ==> {
                        &&& (#[trigger] updates@[j]).timestamp_ms == self@[j].0
                        &&& updates@[j].events@ == self@[j].1.0
                        &&& updates@[j].predictions@ == self@[j].1.1
                    },
            decreases self@.len() - i,
        {
            let slot = &self.slots[i];
            updates.push(
                TopologyUpdate {
                    timestamp_ms: self.offsets[i],
                    predictions: copy_events(&slot.predicted),
                    events: copy_events(&slot.events),
                },
            );
            i = i + 1;
        }
        updates
    }

    /// Adds the reconnects of `device_id` in order, starting from the root, each at its
    /// offset delayed by `delay_ms` (an offset of 0 is kept), and stops at the first whose
    /// delayed offset is past `runtime_ms`. Returns how many were added.
    pub fn add_precalculated_reconnects(
        &mut self,
        device_id: u64,
        reconnects: &Vec<PrecalculatedReconnect>,
        delay_ms: u64,
        runtime_ms: u64,
    ) -> (taken: usize)
        requires
            old(self).wf(),
        ensures
            final(self).wf(),
            taken <= reconnects@.len(),
            forall|i: int| 0 <= i < taken ==> delayed_offset(#[trigger] reconnects@[i].offset_ms, delay_ms) <= runtime_ms,
            taken < reconnects@.len() ==> delayed_offset(reconnects@[taken as int].offset_ms, delay_ms) > runtime_ms,
            final(self)@ == with_reconnects(old(self)@, device_id, reconnects@, delay_ms, taken as nat),
    {
        let ghost s0 = self@;
        let mut previous_parent_id: u64 = ROOT_ZONE_ID;
        let mut i: usize = 0;
        while i < reconnects.len()
            invariant
                self.wf(),
                s0 == old(self)@,
                i <= reconnects@.len(),
                previous_parent_id == parent_before(reconnects@, i as int),
                forall|j: int| 0 <= j < i ==> delayed_offset(#[trigger] reconnects@[j].offset_ms, delay_ms) <= runtime_ms,
                self@ == with_reconnects(s0, device_id, reconnects@, delay_ms, i as nat),
            decreases reconnects@.len() - i,
        {
            let reconnect = reconnects[i];
            if reconnect.offset_ms != 0 && (reconnect.offset_ms as u128 + delay_ms as u128 > runtime_ms as u128) {
                return i;
            }
            let offset = if reconnect.offset_ms == 0 {
                0
            } else {
                reconnect.offset_ms + delay_ms
            };
            self.add_reconnect(offset, device_id, previous_parent_id, reconnect.parent_id);
            previous_parent_id = reconnect.parent_id;
            i = i + 1;
        }
        i
    }

    /// Appends `event` to the slot at offset 0.
    pub fn add_initial_event(&mut self, event: ISQPEvent)
        requires
            old(self).wf(),
        ensures
            final(self).wf(),
            final(self)@ == append_at(old(self)@, 0, seq![event]),
    {
        self.add(0, event);
    }

    /// Appends, at offset 0, the event that attaches `child_id` to `parent_id`.
    pub fn add_initial_connect(&mut self, child_id: u64, parent_id: u64)
        requires
            old(self).wf(),
        ensures
            final(self).wf(),
            final(self)@ == append_at(old(self)@, 0, seq![attach_event(parent_id, child_id)]),
    {
        self.add_initial_event(ISQPEvent::attach(parent_id, child_id));
    }

    /// Appends, at `timestamp_ms`, the detach of `child_id` from `old_parent_id` followed by
    /// its attach to `new_parent_id`.
    pub fn add_reconnect(&mut self, timestamp_ms: u64, child_id: u64, old_parent_id: u64, new_parent_id: u64)
        requires
            old(self).wf(),
        ensures
            final(self).wf(),
            final(self)@ == append_at(old(self)@, timestamp_ms, move_events(child_id, old_parent_id, new_parent_id)),
    {
        let ghost s0 = self@;
        let detach = ISQPEvent::detach(old_parent_id, child_id);
        let attach = ISQPEvent::attach(new_parent_id, child_id);
        self.add(timestamp_ms, detach);
        self.add(timestamp_ms, attach);
        proof {
            lemma_append_twice(s0, timestamp_ms, seq![detach], seq![attach]);
            assert(seq![detach] + seq![attach] =~= move_events(child_id, old_parent_id, new_parent_id));
        }
    }
}

impl Default for TopologyUpdateList {
    fn default() -> (r: TopologyUpdateList)
        ensures
            r.wf(),
            r@.len() == 0,
    {
        TopologyUpdateList::new()
    }
}

/// Adding predictions a second time changes nothing.
pub proof fn lemma_predictions_idempotent(s: Seq<EntryView>)
    ensures
        with_predictions(with_predictions(s)) == with_predictions(s),
{
    assert(with_predictions(with_predictions(s)) =~= with_predictions(s));
}

/// After predictions are added to a valid schedule, the last slot predicts nothing and
/// every other slot predicts exactly the events of the slot with the next offset; offsets
/// and events are unchanged.
pub proof fn lemma_predictions_look_one_slot_ahead(s: Seq<EntryView>)
    requires
        schedule_wf(s),
    ensures
        schedule_wf(with_predictions(s)),
        with_predictions(s).len() == s.len(),
        s.len() > 0 ==> with_predictions(s).last().1.1.len() == 0,
        forall|i: int|
            0 <= i < s.len() ==> (#[trigger] with_predictions(s)[i]).0 == s[i].0 && with_predictions(s)[i].1.0
                == s[i].1.0,
        forall|i: int| 0 <= i < s.len() - 1 ==> (#[trigger] with_predictions(s)[i]).1.1 == s[i + 1].1.0,
{
}

} // verus!
