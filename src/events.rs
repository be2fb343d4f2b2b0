use vstd::prelude::*;

verus! {

/// Whether an event attaches a device to a parent or detaches it.
#[derive(Clone, Copy, Debug, PartialEq, Eq, Structural)]
pub enum ISQPEventAction {
    Add,
    Remove,
}

/// One topology mutation: `child_id` is attached to or detached from `parent_id`.
#[derive(Clone, Copy, Debug, PartialEq, Eq, Structural)]
pub struct ISQPEvent {
    pub parent_id: u64,
    pub child_id: u64,
    pub action: ISQPEventAction,
}

/// The event that attaches `child_id` to `parent_id`.
pub open spec fn attach_event(parent_id: u64, child_id: u64) -> ISQPEvent {
    ISQPEvent { parent_id, child_id, action: ISQPEventAction::Add }
}

/// The event that detaches `child_id` from `parent_id`.
pub open spec fn detach_event(parent_id: u64, child_id: u64) -> ISQPEvent {
    ISQPEvent { parent_id, child_id, action: ISQPEventAction::Remove }
}

/// The two events of one move: detach from the old parent, then attach to the new one.
pub open spec fn move_events(child_id: u64, old_parent: u64, new_parent: u64) -> Seq<ISQPEvent> {
    seq![detach_event(old_parent, child_id), attach_event(new_parent, child_id)]
}

impl ISQPEvent {
    /// The event that attaches `child_id` to `parent_id`.
    pub fn attach(parent_id: u64, child_id: u64) -> (r: ISQPEvent)
        ensures
            r == attach_event(parent_id, child_id),
    {
        ISQPEvent { parent_id, child_id, action: ISQPEventAction::Add }
    }

    /// The event that detaches `child_id` from `parent_id`.
    pub fn detach(parent_id: u64, child_id: u64) -> (r: ISQPEvent)
        ensures
            r == detach_event(parent_id, child_id),
    {
        ISQPEvent { parent_id, child_id, action: ISQPEventAction::Remove }
    }
}

/// Copies a list of events element by element.
pub fn copy_events(v: &Vec<ISQPEvent>) -> (r: Vec<ISQPEvent>)
    ensures
        r@ == v@,
{
    let mut r: Vec<ISQPEvent> = Vec::new();
    let mut i: usize = 0;
    while i < v.len()
        invariant
            i <= v.len(),
            r@ == v@.subrange(0, i as int),
        decreases v.len() - i,
    {
        r.push(v[i]);
        i = i + 1;
    }
    assert(r@ =~= v@);
    r
}

/// One entry of a schedule: the events due at `timestamp_ms` (milliseconds after the
/// start of the experiment), and the events of the next entry as a look-ahead.
#[derive(Debug)]
pub struct TopologyUpdate {
    pub timestamp_ms: u64,
    pub predictions: Vec<ISQPEvent>,
    pub events: Vec<ISQPEvent>,
}

impl Clone for TopologyUpdate {
    fn clone(&self) -> (r: TopologyUpdate)
        ensures
            r.timestamp_ms == self.timestamp_ms,
            r.predictions@ == self.predictions@,
            r.events@ == self.events@,
    {
        TopologyUpdate {
            timestamp_ms: self.timestamp_ms,
            predictions: copy_events(&self.predictions),
            events: copy_events(&self.events),
        }
    }
}

} // verus!
