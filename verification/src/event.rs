//! A double-buffered queue of events.
//!
//! Events stay in the queue for two frames, so that systems that run once per frame always
//! see them: each frame, [`Events::update`] drops the events sent before the previous
//! frame started. Every event has an id, counted from the first event ever sent.

use vstd::prelude::*;
use std::collections::VecDeque;
use std::marker::PhantomData;

verus! {

/// The id of an event of type `T`: the number of events sent before it.
pub struct EventId<T>(pub usize, pub PhantomData<T>);

impl<T> Clone for EventId<T> {
    fn clone(&self) -> (r: Self)
        ensures
            r.0 == self.0,
    {
        EventId(self.0, PhantomData)
    }
}

impl<T> Copy for EventId<T> {

}

/// A double-buffered queue of events of type `T`.
pub struct Events<T> {
    events: VecDeque<T>,
    first_id: usize,
    frame_start_id: usize,
}

impl<T> Events<T> {
    /// The events in the queue, oldest first.
    pub closed spec fn events(&self) -> Seq<T> {
        self.events@
    }

    /// The id of the oldest event in the queue.
    pub closed spec fn first_id(&self) -> int {
        self.first_id as int
    }

    /// The id of the first event sent in the current frame.
    pub closed spec fn frame_start_id(&self) -> int {
        self.frame_start_id as int
    }

    /// The current frame starts within the queue or right after it.
    pub open spec fn wf(&self) -> bool {
        self.first_id() <= self.frame_start_id() <= self.first_id() + self.events().len()
    }

    /// An empty queue.
    pub fn new() -> (r: Self)
        ensures
            r.wf(),
            r.events() == Seq::<T>::empty(),
            r.first_id() == 0,
            r.frame_start_id() == 0,
    {
        Events { events: VecDeque::new(), first_id: 0, frame_start_id: 0 }
    }

    /// The event sent last, if any.
    pub fn last(&self) -> (r: Option<&T>)
        ensures
            self.events().len() == 0 ==> r is None,
            self.events().len() > 0 ==> r == Some(&self.events().last()),
    {
        let len = self.events.len();
        if len == 0 {
            None
        } else {
            Some(&self.events[len - 1])
        }
    }

    /// Sends one event.
    pub fn send(&mut self, event: T)
        ensures
            final(self).events() == old(self).events().push(event),
            final(self).first_id() == old(self).first_id(),
            final(self).frame_start_id() == old(self).frame_start_id(),
            old(self).wf() ==> final(self).wf(),
    {
        self.events.push_back(event);
    }

    /// Sends the events of `events`, in order.
    pub fn send_batch(&mut self, events: Vec<T>)
        ensures
            final(self).events() == old(self).events() + events@,
            final(self).first_id() == old(self).first_id(),
            final(self).frame_start_id() == old(self).frame_start_id(),
            old(self).wf() ==> final(self).wf(),
    {
        let mut events = events;
        let ghost all = events@;
        let mut rest: Vec<T> = Vec::new();
        // take the events from the back, then send them from the front
        while events.len() > 0
            invariant
                all == events@ + rest@.reverse(),
                self.events@ == old(self).events@,
                self.first_id == old(self).first_id,
                self.frame_start_id == old(self).frame_start_id,
            decreases events@.len(),
        {
            let ghost e0 = events@;
            let ghost r0 = rest@;
            let x = events.pop().unwrap();
            rest.push(x);
            proof {
                assert(events@ =~= e0.drop_last());
                assert(rest@.reverse() =~= seq![x] + r0.reverse());
                assert(all =~= events@ + rest@.reverse());
            }
        }
        let ghost total = rest@.len();
        while rest.len() > 0
            invariant
                all == self.events@.subrange(
                    old(self).events@.len() as int,
                    self.events@.len() as int,
                ) + rest@.reverse(),
                self.events@.len() >= old(self).events@.len(),
                self.events@.subrange(0, old(self).events@.len() as int) == old(self).events@,
                self.first_id == old(self).first_id,
                self.frame_start_id == old(self).frame_start_id,
            decreases rest@.len(),
        {
            let ghost s0 = self.events@;
            let ghost r0 = rest@;
            let x = rest.pop().unwrap();
            self.events.push_back(x);
            proof {
                assert(rest@ =~= r0.drop_last());
                assert(r0.reverse() =~= seq![x] + rest@.reverse());
                assert(self.events@.subrange(0, old(self).events@.len() as int) =~= s0.subrange(
                    0,
                    old(self).events@.len() as int,
                ));
                assert(self.events@.subrange(old(self).events@.len() as int, self.events@.len() as int)
                    =~= s0.subrange(old(self).events@.len() as int, s0.len() as int).push(x));
            }
        }
        proof {
            assert(rest@.reverse() =~= Seq::<T>::empty());
            assert(self.events@ =~= old(self).events@ + all);
        }
    }

    /// Sends the events of `events`, in order.
    pub fn extend(&mut self, events: Vec<T>)
        ensures
            final(self).events() == old(self).events() + events@,
            final(self).first_id() == old(self).first_id(),
            final(self).frame_start_id() == old(self).frame_start_id(),
            old(self).wf() ==> final(self).wf(),
    {
        self.send_batch(events)
    }

    /// Drops every event; ids continue after the dropped ones, and a new frame starts.
    pub fn clear(&mut self)
        requires
            old(self).first_id() + old(self).events().len() <= usize::MAX,
        ensures
            final(self).events() == Seq::<T>::empty(),
            final(self).first_id() == old(self).first_id() + old(self).events().len(),
            final(self).frame_start_id() == final(self).first_id(),
            final(self).wf(),
    {
        let next_id = self.first_id + self.events.len();
        self.first_id = next_id;
        self.frame_start_id = next_id;
        self.events.clear();
    }

    /// The id that the next event sent gets, when it fits in a `usize`.
    pub fn end_id(&self) -> (r: Option<usize>)
        ensures
            r == (if self.first_id() + self.events().len() <= usize::MAX {
                Some((self.first_id() + self.events().len()) as usize)
            } else {
                None::<usize>
            }),
    {
        self.first_id.checked_add(self.events.len())
    }

    /// The number of events in the queue.
    pub fn len(&self) -> (r: usize)
        ensures
            r == self.events().len(),
    {
        self.events.len()
    }

    /// The event at position `i` of the queue, oldest first; its id is `first_id() + i`.
    pub fn get(&self, i: usize) -> (r: &T)
        requires
            i < self.events().len(),
        ensures
            *r == self.events()[i as int],
    {
        &self.events[i]
    }

    /// A read by a subscriber whose read cursor is `next_id` (the id of the first event it
    /// has not read): returns the position in the queue of the first event to deliver, so
    /// that the events from there on are delivered, and moves the cursor past the newest
    /// event. A cursor never passes the newest event.
    pub fn read_unread(&self, next_id: &mut usize) -> (offset: usize)
        requires
            self.first_id() + self.events().len() <= usize::MAX,
            *old(next_id) <= self.first_id() + self.events().len(),
        ensures
            offset == unread_offset(*self, *old(next_id) as int),
            offset <= self.events().len(),
            *final(next_id) == self.first_id() + self.events().len(),
    {
        let offset = if *next_id > self.first_id {
            *next_id - self.first_id
        } else {
            0
        };
        *next_id = self.first_id + self.events.len();
        offset
    }

    /// Whether the queue holds no event.
    pub fn is_empty(&self) -> (r: bool)
        ensures
            r == (self.events().len() == 0),
    {
        self.events.len() == 0
    }

    /// Starts a new frame: the events sent before the current frame are dropped, and the
    /// events of the current frame become those of the previous one.
    pub fn update(&mut self)
        requires
            old(self).wf(),
            old(self).first_id() + old(self).events().len() <= usize::MAX,
        ensures
            final(self).wf(),
            updated(*old(self), *final(self)),
            forall|id: int|
                old(self).frame_start_id() <= id < old(self).first_id() + old(self).events().len()
                    ==> #[trigger] holds_id(*final(self), id) && event_with_id(*final(self), id)
                    == event_with_id(*old(self), id),
            forall|id: int| #[trigger]
                holds_id(*final(self), id) ==> holds_id(*old(self), id) && old(self).frame_start_id()
                    <= id,
    {
        while self.first_id != self.frame_start_id
            invariant
                self.first_id <= self.frame_start_id,
                self.frame_start_id == old(self).frame_start_id,
                old(self).first_id <= self.first_id,
                self.events@ == old(self).events@.subrange(
                    self.first_id - old(self).first_id,
                    old(self).events@.len() as int,
                ),
                old(self).frame_start_id <= old(self).first_id + old(self).events@.len(),
            decreases self.frame_start_id - self.first_id,
        {
            self.first_id += 1;
            self.events.pop_front();
        }
        self.frame_start_id = self.first_id + self.events.len();
    }
}

/// The position in the queue of the first event that a subscriber with read cursor `cursor`
/// has not read: events older than the queue's oldest are gone.
pub open spec fn unread_offset<T>(q: Events<T>, cursor: int) -> int {
    if cursor > q.first_id() {
        cursor - q.first_id()
    } else {
        0
    }
}

/// The ids of the events that a read with cursor `cursor` delivers.
pub open spec fn delivered_ids<T>(q: Events<T>, cursor: int) -> Set<int> {
    Set::new(|id: int| q.first_id() + unread_offset(q, cursor) <= id < q.first_id() + q.events().len())
}

/// Events reach a subscriber once: after a read of queue `a`, the next read, of whatever
/// the queue has become by then (`b`), delivers none of the events that the first
/// delivered, and delivers nothing at all when no event was sent in between.
pub proof fn lemma_events_delivered_once<T>(a: Events<T>, b: Events<T>, cursor: int)
    ensures
        delivered_ids(a, cursor).disjoint(
            delivered_ids(b, a.first_id() + a.events().len()),
        ),
        b.first_id() + b.events().len() == a.first_id() + a.events().len() ==> delivered_ids(
            b,
            a.first_id() + a.events().len(),
        ) == Set::<int>::empty(),
{
    assert(delivered_ids(b, a.first_id() + a.events().len()) =~= Set::<int>::empty() <== (
    b.first_id() + b.events().len() == a.first_id() + a.events().len()));
}

/// `b` is `a` after [`Events::update`].
pub open spec fn updated<T>(a: Events<T>, b: Events<T>) -> bool {
    &&& b.events() == a.events().subrange(a.frame_start_id() - a.first_id(), a.events().len() as int)
    &&& b.first_id() == a.frame_start_id()
    &&& b.frame_start_id() == a.first_id() + a.events().len()
}

/// Events are kept for two frames: two updates with no event sent in between leave the
/// queue empty, while the ids go on.
pub proof fn lemma_events_two_frames<T>(a: Events<T>, b: Events<T>, c: Events<T>)
    requires
        a.wf(),
        updated(a, b),
        updated(b, c),
    ensures
        c.events().len() == 0,
        c.first_id() == a.first_id() + a.events().len(),
{
}

/// An event sent in a frame survives the next update, as the last event.
pub proof fn lemma_sent_event_survives_update<T>(a: Events<T>, b: Events<T>, c: Events<T>, x: T)
    requires
        a.wf(),
        b.events() == a.events().push(x),
        b.first_id() == a.first_id(),
        b.frame_start_id() == a.frame_start_id(),
        updated(b, c),
    ensures
        c.events().len() > 0,
        c.events().last() == x,
{
}

/// Whether the queue holds the event with id `id`.
pub open spec fn holds_id<T>(q: Events<T>, id: int) -> bool {
    q.first_id() <= id < q.first_id() + q.events().len()
}

/// The event with id `id` in the queue.
pub open spec fn event_with_id<T>(q: Events<T>, id: int) -> T {
    q.events()[id - q.first_id()]
}

/// An update keeps every event sent since the previous frame started, under its id, and
/// drops every older one: the events of the frame that ends are still there for one more
/// frame, however many were sent in it. The next event sent still gets the same id.
pub proof fn lemma_update_keeps_two_frames<T>(a: Events<T>, b: Events<T>)
    requires
        a.wf(),
        updated(a, b),
    ensures
        forall|id: int|
            a.frame_start_id() <= id < a.first_id() + a.events().len() ==> #[trigger] holds_id(b, id)
                && event_with_id(b, id) == event_with_id(a, id),
        forall|id: int| #[trigger] holds_id(b, id) ==> holds_id(a, id) && a.frame_start_id() <= id,
        b.first_id() + b.events().len() == a.first_id() + a.events().len(),
        b.frame_start_id() == a.first_id() + a.events().len(),
{
}

impl<T> Default for Events<T> {
    fn default() -> (r: Self)
        ensures
            r.wf(),
            r.events() == Seq::<T>::empty(),
            r.first_id() == 0,
            r.frame_start_id() == 0,
    {
        Self::new()
    }
}

} // verus!
