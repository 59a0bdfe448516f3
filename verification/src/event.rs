use vstd::prelude::*;

verus! {

/// One entry of a file's history: the file was created, changed or deleted
/// at the given time (seconds since the Unix epoch).
#[derive(Debug, Clone, Copy, PartialEq, Eq, Hash, Structural)]
pub enum Event {
    Create(i32),
    Change(i32),
    Delete(i32),
}

impl Event {
    /// The time stamp that every kind of event carries.
    pub open spec fn timestamp(self) -> i32 {
        match self {
            Event::Create(t) => t,
            Event::Change(t) => t,
            Event::Delete(t) => t,
        }
    }

    /// Whether the event records a deletion.
    pub open spec fn is_delete(self) -> bool {
        self is Delete
    }

    /// The time stamp of the event, whatever its kind.
    pub fn get_timestamp(&self) -> (t: i32)
        ensures
            t == self.timestamp(),
    {
        match *self {
            Event::Create(t) => t,
            Event::Change(t) => t,
            Event::Delete(t) => t,
        }
    }

    /// Whether the event records a deletion.
    pub fn is_deletion(&self) -> (b: bool)
        ensures
            b == self.is_delete(),
    {
        match *self {
            Event::Delete(_) => true,
            _ => false,
        }
    }
}

} // verus!

verus! {

/// What an `im::Vector` of events holds, front first. A file's history keeps
/// its latest event at the front.
pub uninterp spec fn event_list(v: im::Vector<Event>) -> Seq<Event>;

/// `im::Vector::new`: the empty vector.
#[verifier::external_body]
pub(crate) fn event_list_new() -> (v: im::Vector<Event>)
    ensures
        event_list(v) == Seq::<Event>::empty(),
{
    im::Vector::new()
}

/// `im::Vector::push_front`: the event is put before all others.
#[verifier::external_body]
pub(crate) fn event_list_push_front(v: &mut im::Vector<Event>, e: Event)
    ensures
        event_list(*final(v)) == seq![e] + event_list(*old(v)),
{
    v.push_front(e)
}

/// `im::Vector::front`: the first event, `None` for an empty vector.
#[verifier::external_body]
pub(crate) fn event_list_front(v: &im::Vector<Event>) -> (r: Option<Event>)
    ensures
        event_list(*v).len() == 0 ==> r is None,
        event_list(*v).len() > 0 ==> r == Some(event_list(*v)[0]),
{
    v.front().copied()
}

/// `Clone` of `im::Vector`: a vector with the same events.
#[verifier::external_body]
pub(crate) fn event_list_clone(v: &im::Vector<Event>) -> (r: im::Vector<Event>)
    ensures
        event_list(r) == event_list(*v),
{
    v.clone()
}

} // verus!
