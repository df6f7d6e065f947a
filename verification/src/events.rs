//! Buffered events and the cursors that read them.
//!
//! An [`Events`] buffer keeps the events of the current and the previous update in two
//! sequences; an [`EventCursor`] remembers how many events of the whole stream it has seen.
//! The iterators below hand out the events that a cursor has not seen yet, oldest first,
//! and advance the cursor as they go.
use core::marker::PhantomData;
use core::ops::Range;
use vstd::prelude::*;
use vstd::slice::slice_subrange;

verus! {

/// Identifies an event by its position in the stream of all events ever sent.
pub struct EventId<E> {
    pub id: usize,
    pub marker: PhantomData<E>,
}

impl<E> EventId<E> {
    /// The identifier of the `id`-th event of the stream.
    pub fn new(id: usize) -> (r: Self)
        ensures
            r.id == id,
    {
        EventId { id, marker: PhantomData }
    }
}

/// An event together with its identifier.
pub struct EventInstance<E> {
    pub event_id: EventId<E>,
    pub event: E,
}

/// A run of consecutive events of the stream, starting with the event numbered `start_event_count`.
pub struct EventSequence<E> {
    pub events: Vec<EventInstance<E>>,
    pub start_event_count: usize,
}

impl<E> EventSequence<E> {
    pub open spec fn ids_follow(self) -> bool {
        forall|i: int|
            0 <= i < self.events@.len() ==> (#[trigger] self.events@[i]).event_id.id
                == self.start_event_count + i
    }
}

/// A double buffer of events: `events_a` holds the older run, `events_b` the newer one.
pub struct Events<E> {
    pub events_a: EventSequence<E>,
    pub events_b: EventSequence<E>,
    pub event_count: usize,
}

impl<E> Events<E> {
    /// The two runs are adjacent, `event_count` is one past the last event, and every
    /// event carries its own number.
    pub open spec fn wf(&self) -> bool {
        &&& self.events_b.start_event_count == self.events_a.start_event_count
            + self.events_a.events@.len()
        &&& self.event_count == self.events_b.start_event_count + self.events_b.events@.len()
        &&& self.events_a.ids_follow()
        &&& self.events_b.ids_follow()
    }

    /// An empty buffer.
    pub fn new() -> (r: Self)
        ensures
            r.wf(),
            r.event_count == 0,
            r.events_a.events@.len() == 0,
            r.events_b.events@.len() == 0,
    {
        Events {
            events_a: EventSequence { events: Vec::new(), start_event_count: 0 },
            events_b: EventSequence { events: Vec::new(), start_event_count: 0 },
            event_count: 0,
        }
    }

    /// Appends `event` to the newer run and returns its identifier.
    pub fn send(&mut self, event: E) -> (id: EventId<E>)
        requires
            old(self).wf(),
            old(self).event_count < usize::MAX,
        ensures
            final(self).wf(),
            id.id == old(self).event_count,
            final(self).event_count == old(self).event_count + 1,
            final(self).events_a == old(self).events_a,
            final(self).events_b.start_event_count == old(self).events_b.start_event_count,
            final(self).events_b.events@.len() == old(self).events_b.events@.len() + 1,
            final(self).events_b.events@.drop_last() == old(self).events_b.events@,
            final(self).events_b.events@.last().event == event,
    {
        let id = self.event_count;
        self.events_b.events.push(EventInstance { event_id: EventId::new(id), event });
        self.event_count = id + 1;
        assert(self.events_b.events@.drop_last() =~= old(self).events_b.events@);
        EventId::new(id)
    }

    /// Ends an update: the newer run becomes the older one and a new, empty run starts.
    /// The events of the former older run are dropped.
    pub fn update(&mut self)
        requires
            old(self).wf(),
        ensures
            final(self).wf(),
            final(self).event_count == old(self).event_count,
            final(self).events_a == old(self).events_b,
            final(self).events_b.events@.len() == 0,
            final(self).events_b.start_event_count == old(self).event_count,
    {
        core::mem::swap(&mut self.events_a, &mut self.events_b);
        self.events_b.events.clear();
        self.events_b.start_event_count = self.event_count;
    }
}

/// Remembers how many events of the stream a reader has already seen.
pub struct EventCursor<E> {
    pub last_event_count: usize,
    pub marker: PhantomData<E>,
}

impl<E> EventCursor<E> {
    /// A cursor that has seen nothing yet.
    pub fn new() -> (r: Self)
        ensures
            r.last_event_count == 0,
    {
        EventCursor { last_event_count: 0, marker: PhantomData }
    }
}

/// The events of `run` that a cursor which has seen `last` events has not seen yet.
pub open spec fn unseen_in<E>(run: EventSequence<E>, last: int) -> Seq<EventInstance<E>> {
    let skip = if last <= run.start_event_count {
        0
    } else {
        last - run.start_event_count
    };
    if skip <= run.events@.len() {
        run.events@.subrange(skip, run.events@.len() as int)
    } else {
        Seq::empty()
    }
}

/// The unseen events of both runs, oldest first.
pub open spec fn unseen_events<E>(events: Events<E>, last: int) -> Seq<EventInstance<E>> {
    unseen_in(events.events_a, last) + unseen_in(events.events_b, last)
}

/// The number of the first event that a cursor which has seen `last` events gets: `last`,
/// but no earlier than the oldest event kept and no later than the end of the stream.
pub open spec fn first_unseen<E>(events: Events<E>, last: int) -> int {
    if last < events.events_a.start_event_count {
        events.events_a.start_event_count as int
    } else if last > events.event_count {
        events.event_count as int
    } else {
        last
    }
}

/// A read gives back what was sent: after `event` is sent, a cursor that had not read past
/// the end of the stream reads what it would have read before, then `event`.
pub proof fn lemma_read_gives_back_sent<E>(before: Events<E>, after: Events<E>, event: E, last: int)
    requires
        before.wf(),
        after.wf(),
        last <= before.event_count,
        after.event_count == before.event_count + 1,
        after.events_a == before.events_a,
        after.events_b.start_event_count == before.events_b.start_event_count,
        after.events_b.events@.drop_last() == before.events_b.events@,
        after.events_b.events@.len() == before.events_b.events@.len() + 1,
        after.events_b.events@.last().event == event,
    ensures
        unseen_events(after, last).len() == unseen_events(before, last).len() + 1,
        unseen_events(after, last).drop_last() == unseen_events(before, last),
        unseen_events(after, last).last().event == event,
{
    let a = after.events_b;
    let b = before.events_b;
    let skip = if last <= b.start_event_count { 0 } else { last - b.start_event_count };
    assert(a.events@ =~= b.events@.push(a.events@.last()));
    if skip <= b.events@.len() {
        assert(unseen_in(a, last) =~= unseen_in(b, last).push(a.events@.last()));
    }
    assert(unseen_events(after, last) =~= unseen_events(before, last).push(a.events@.last()));
}

/// What a cursor reads: the unseen events are exactly the kept events numbered from
/// [`first_unseen`] up to the end of the stream, each once and in the order they were sent.
/// In particular a cursor that has seen the whole stream reads nothing, and the number of
/// events handed out is the end of the stream minus the first unseen number.
pub proof fn lemma_unseen_events<E>(events: Events<E>, last: int)
    requires
        events.wf(),
    ensures
        unseen_events(events, last).len() == events.event_count - first_unseen(events, last),
        forall|i: int|
            0 <= i < unseen_events(events, last).len() ==> (#[trigger] unseen_events(
                events,
                last,
            )[i]).event_id.id == first_unseen(events, last) + i,
{
    let a = unseen_in(events.events_a, last);
    let b = unseen_in(events.events_b, last);
    let f = first_unseen(events, last);
    let sa = events.events_a.start_event_count as int;
    let sb = events.events_b.start_event_count as int;
    assert forall|i: int| 0 <= i < a.len() implies (#[trigger] a[i]).event_id.id == f + i by {
        let skip = if last <= sa { 0 } else { last - sa };
        assert(a[i] == events.events_a.events@[skip + i]);
    }
    assert forall|i: int| 0 <= i < b.len() implies (#[trigger] b[i]).event_id.id == f + a.len() + i by {
        let skip = if last <= sb { 0 } else { last - sb };
        assert(b[i] == events.events_b.events@[skip + i]);
    }
    let s = unseen_events(events, last);
    assert forall|i: int| 0 <= i < s.len() implies (#[trigger] s[i]).event_id.id == f + i by {
        if i < a.len() {
            assert(s[i] == a[i]);
        } else {
            assert(s[i] == b[i - a.len()]);
        }
    }
}

/// The slice of `run` that a cursor at `last` has not seen yet.
fn unseen_slice<'a, E>(run: &'a EventSequence<E>, last: usize) -> (s: &'a [EventInstance<E>])
    ensures
        s@ == unseen_in(*run, last as int),
{
    let index = last.saturating_sub(run.start_event_count);
    let len = run.events.len();
    let lo = if index <= len {
        index
    } else {
        len
    };
    let r = slice_subrange(run.events.as_slice(), lo, len);
    proof {
        if index > len {
            assert(r@ =~= Seq::<EventInstance<E>>::empty());
        }
    }
    r
}

/// Takes the unseen events of `events` for `reader` and moves the reader to the end of the
/// stream minus the events that are handed out.
fn take_unseen<'a, E>(reader: &mut EventCursor<E>, events: &'a Events<E>) -> (r: (
    &'a [EventInstance<E>],
    &'a [EventInstance<E>],
))
    requires
        events.wf(),
    ensures
        r.0@ == unseen_in(events.events_a, old(reader).last_event_count as int),
        r.1@ == unseen_in(events.events_b, old(reader).last_event_count as int),
        r.0@.len() + r.1@.len() <= events.event_count,
        final(reader).last_event_count == events.event_count - r.0@.len() - r.1@.len(),
{
    let a = unseen_slice(&events.events_a, reader.last_event_count);
    let b = unseen_slice(&events.events_b, reader.last_event_count);
    let unread_count = a.len() + b.len();
    reader.last_event_count = events.event_count - unread_count;
    (a, b)
}

/// An iterator that yields the unread events (and their IDs) of an [`Events`] buffer.
pub struct EventIteratorWithId<'a, E> {
    reader: &'a mut EventCursor<E>,
    a: &'a [EventInstance<E>],
    b: &'a [EventInstance<E>],
    pos: usize,
    unread: usize,
    total: Ghost<nat>,
}

impl<'a, E> EventIteratorWithId<'a, E> {
    /// The cursor that this iterator advances.
    pub closed spec fn reader(&self) -> &'a mut EventCursor<E> {
        self.reader
    }

    /// The events that are still to come, oldest first.
    pub closed spec fn remaining(&self) -> Seq<EventInstance<E>> {
        (self.a@ + self.b@).subrange(self.pos as int, (self.a@.len() + self.b@.len()) as int)
    }

    /// The number of events in the stream when the iterator was made.
    pub closed spec fn stream_len(&self) -> nat {
        self.total@
    }

    /// The cursor stands before exactly the remaining events of the stream.
    pub closed spec fn wf(&self) -> bool {
        &&& self.pos <= self.a@.len() + self.b@.len()
        &&& self.unread == self.a@.len() + self.b@.len() - self.pos
        &&& self.reader.last_event_count + self.unread == self.total@
        &&& self.a@.len() + self.b@.len() <= self.total@ <= usize::MAX
    }

    /// Creates a new iterator that yields any `events` that have not yet been seen by `reader`.
    pub fn new(reader: &'a mut EventCursor<E>, events: &'a Events<E>) -> (r: Self)
        requires
            events.wf(),
        ensures
            r.wf(),
            r.remaining() == unseen_events(*events, old(reader).last_event_count as int),
            r.stream_len() == events.event_count,
            r.reader().last_event_count == events.event_count - r.remaining().len(),
            *final(reader) == *final(r.reader()),
    {
        let (a, b) = take_unseen(reader, events);
        let unread = a.len() + b.len();
        let r = EventIteratorWithId {
            reader,
            a,
            b,
            pos: 0,
            unread,
            total: Ghost(events.event_count as nat),
        };
        assert(r.remaining() =~= a@ + b@);
        r
    }

    /// Iterate over only the events.
    pub fn without_id(self) -> (r: EventIterator<'a, E>)
        ensures
            r.inner() == self,
    {
        EventIterator { iter: self }
    }

    /// The number of events still to come.
    pub fn len(&self) -> (n: usize)
        requires
            self.wf(),
        ensures
            n == self.remaining().len(),
            self.reader().last_event_count + n == self.stream_len(),
    {
        self.unread
    }

    /// Lower and upper bound of the number of events still to come; both are exact.
    pub fn size_hint(&self) -> (r: (usize, Option<usize>))
        requires
            self.wf(),
        ensures
            r.0 == self.remaining().len(),
            r.1 == Some(self.remaining().len() as usize),
    {
        (self.unread, Some(self.unread))
    }

    /// The event at position `i` of the chain of both slices.
    fn at(&self, i: usize) -> (r: &'a EventInstance<E>)
        requires
            i < self.a@.len() + self.b@.len(),
        ensures
            *r == (self.a@ + self.b@)[i as int],
    {
        if i < self.a.len() {
            &self.a[i]
        } else {
            &self.b[i - self.a.len()]
        }
    }

    /// Yields the oldest unread event and its ID, and moves the cursor past it.
    pub fn next(&mut self) -> (r: Option<(&'a E, EventId<E>)>)
        requires
            old(self).wf(),
        ensures
            final(self).wf(),
            final(self).stream_len() == old(self).stream_len(),
            final(self).reader().last_event_count + final(self).remaining().len() == final(self).stream_len(),
            *final(final(self).reader()) == *final(old(self).reader()),
            old(self).remaining().len() == 0 ==> r.is_none() && final(self).remaining()
                == old(self).remaining() && final(self).reader() == old(self).reader(),
            old(self).remaining().len() > 0 ==> {
                &&& r.is_some()
                &&& *r.unwrap().0 == old(self).remaining()[0].event
                &&& r.unwrap().1 == old(self).remaining()[0].event_id
                &&& final(self).remaining() == old(self).remaining().drop_first()
                &&& final(self).reader().last_event_count == old(self).reader().last_event_count + 1
            },
    {
        if self.pos < self.a.len() + self.b.len() {
            let instance = self.at(self.pos);
            self.pos = self.pos + 1;
            self.reader.last_event_count = self.reader.last_event_count + 1;
            self.unread = self.unread - 1;
            proof {
                assert(self.remaining() =~= old(self).remaining().drop_first());
            }
            Some((&instance.event, EventId { id: instance.event_id.id, marker: instance.event_id.marker }))
        } else {
            None
        }
    }

    /// Consumes the iterator, marks every remaining event as read and returns how many there were.
    pub fn count(self) -> (n: usize)
        requires
            self.wf(),
        ensures
            n == self.remaining().len(),
            final(self.reader()).last_event_count == self.stream_len(),
    {
        self.reader.last_event_count = self.reader.last_event_count + self.unread;
        self.unread
    }

    /// Consumes the iterator, marks every remaining event as read and returns the newest one.
    pub fn last(self) -> (r: Option<(&'a E, EventId<E>)>)
        requires
            self.wf(),
        ensures
            final(self.reader()).last_event_count == self.stream_len(),
            self.remaining().len() == 0 ==> r.is_none(),
            self.remaining().len() > 0 ==> r.is_some() && *r.unwrap().0
                == self.remaining().last().event && r.unwrap().1.id
                == self.remaining().last().event_id.id,
    {
        let len = self.a.len() + self.b.len();
        if self.pos == len {
            return None;
        }
        let instance = self.at(len - 1);
        self.reader.last_event_count = self.reader.last_event_count + self.unread;
        Some((&instance.event, EventId { id: instance.event_id.id, marker: instance.event_id.marker }))
    }

    /// Skips `n` events and yields the one after them; every event up to it counts as read.
    /// Where fewer than `n + 1` events remain, all of them count as read and nothing is yielded.
    pub fn nth(&mut self, n: usize) -> (r: Option<(&'a E, EventId<E>)>)
        requires
            old(self).wf(),
        ensures
            final(self).wf(),
            final(self).stream_len() == old(self).stream_len(),
            final(self).reader().last_event_count + final(self).remaining().len() == final(self).stream_len(),
            *final(final(self).reader()) == *final(old(self).reader()),
            n < old(self).remaining().len() ==> {
                &&& r.is_some()
                &&& *r.unwrap().0 == old(self).remaining()[n as int].event
                &&& r.unwrap().1.id == old(self).remaining()[n as int].event_id.id
                &&& final(self).remaining() == old(self).remaining().skip(n + 1)
                &&& final(self).reader().last_event_count == old(self).reader().last_event_count + n + 1
            },
            n >= old(self).remaining().len() ==> {
                &&& r.is_none()
                &&& final(self).remaining().len() == 0
                &&& final(self).reader().last_event_count == old(self).stream_len()
                &&& final(self).reader().last_event_count == old(self).reader().last_event_count + old(self).remaining().len()
            },
    {
        let len = self.a.len() + self.b.len();
        if n < len - self.pos {
            let instance = self.at(self.pos + n);
            self.pos = self.pos + n + 1;
            self.reader.last_event_count = self.reader.last_event_count + n + 1;
            self.unread = self.unread - (n + 1);
            proof {
                assert(self.remaining() =~= old(self).remaining().skip(n + 1));
            }
            Some((&instance.event, EventId { id: instance.event_id.id, marker: instance.event_id.marker }))
        } else {
            self.pos = len;
            self.reader.last_event_count = self.reader.last_event_count + self.unread;
            self.unread = 0;
            proof {
                assert(self.remaining() =~= Seq::<EventInstance<E>>::empty());
            }
            None
        }
    }
}

/// An iterator that yields the unread events of an [`Events`] buffer.
pub struct EventIterator<'a, E> {
    iter: EventIteratorWithId<'a, E>,
}

impl<'a, E> EventIterator<'a, E> {
    /// The iterator with IDs that this one wraps.
    pub closed spec fn inner(&self) -> EventIteratorWithId<'a, E> {
        self.iter
    }

    /// Yields the oldest unread event and moves the cursor past it.
    pub fn next(&mut self) -> (r: Option<&'a E>)
        requires
            old(self).inner().wf(),
        ensures
            final(self).inner().wf(),
            final(self).inner().stream_len() == old(self).inner().stream_len(),
            final(self).inner().reader().last_event_count + final(self).inner().remaining().len() == final(self).inner().stream_len(),
            *final(final(self).inner().reader()) == *final(old(self).inner().reader()),
            old(self).inner().remaining().len() == 0 ==> r.is_none() && final(self).inner().remaining() == old(self).inner().remaining() && final(self).inner().reader() == old(self).inner().reader(),
            old(self).inner().remaining().len() > 0 ==> {
                &&& r.is_some()
                &&& *r.unwrap() == old(self).inner().remaining()[0].event
                &&& final(self).inner().remaining() == old(self).inner().remaining().drop_first()
                &&& final(self).inner().reader().last_event_count == old(self).inner().reader().last_event_count + 1
            },
    {
        match self.iter.next() {
            Some((event, _)) => Some(event),
            None => None,
        }
    }

    /// The number of events still to come.
    pub fn len(&self) -> (n: usize)
        requires
            self.inner().wf(),
        ensures
            n == self.inner().remaining().len(),
            self.inner().reader().last_event_count + n == self.inner().stream_len(),
    {
        self.iter.len()
    }

    /// Lower and upper bound of the number of events still to come; both are exact.
    pub fn size_hint(&self) -> (r: (usize, Option<usize>))
        requires
            self.inner().wf(),
        ensures
            r.0 == self.inner().remaining().len(),
            r.1 == Some(self.inner().remaining().len() as usize),
    {
        self.iter.size_hint()
    }

    /// Consumes the iterator, marks every remaining event as read and returns how many there were.
    pub fn count(self) -> (n: usize)
        requires
            self.inner().wf(),
        ensures
            n == self.inner().remaining().len(),
            final(self.inner().reader()).last_event_count == self.inner().stream_len(),
    {
        self.iter.count()
    }

    /// Consumes the iterator, marks every remaining event as read and returns the newest one.
    pub fn last(self) -> (r: Option<&'a E>)
        requires
            self.inner().wf(),
        ensures
            final(self.inner().reader()).last_event_count == self.inner().stream_len(),
            self.inner().remaining().len() == 0 ==> r.is_none(),
            self.inner().remaining().len() > 0 ==> r.is_some() && *r.unwrap()
                == self.inner().remaining().last().event,
    {
        match self.iter.last() {
            Some((event, _)) => Some(event),
            None => None,
        }
    }

    /// Skips `n` events and yields the one after them, as [`EventIteratorWithId::nth`] does.
    pub fn nth(&mut self, n: usize) -> (r: Option<&'a E>)
        requires
            old(self).inner().wf(),
        ensures
            final(self).inner().wf(),
            final(self).inner().stream_len() == old(self).inner().stream_len(),
            final(self).inner().reader().last_event_count + final(self).inner().remaining().len() == final(self).inner().stream_len(),
            *final(final(self).inner().reader()) == *final(old(self).inner().reader()),
            n < old(self).inner().remaining().len() ==> {
                &&& r.is_some()
                &&& *r.unwrap() == old(self).inner().remaining()[n as int].event
                &&& final(self).inner().remaining() == old(self).inner().remaining().skip(n + 1)
                &&& final(self).inner().reader().last_event_count == old(self).inner().reader().last_event_count + n + 1
            },
            n >= old(self).inner().remaining().len() ==> {
                &&& r.is_none()
                &&& final(self).inner().remaining().len() == 0
                &&& final(self).inner().reader().last_event_count == old(self).inner().stream_len()
                &&& final(self).inner().reader().last_event_count == old(self).inner().reader().last_event_count + old(self).inner().remaining().len()
            },
    {
        match self.iter.nth(n) {
            Some((event, _)) => Some(event),
            None => None,
        }
    }
}

/// The cursor and the iterator agree: the events the cursor has counted and the events still
/// to come make up the stream.
pub proof fn lemma_cursor_counts_stream<'a, E>(it: EventIteratorWithId<'a, E>)
    requires
        it.wf(),
    ensures
        it.reader().last_event_count + it.remaining().len() == it.stream_len(),
{
}

/// One call of [`EventIteratorWithId::next`] took `before` to `after` and returned `r`, as
/// its contract states.
pub open spec fn next_step<'a, E>(
    before: EventIteratorWithId<'a, E>,
    after: EventIteratorWithId<'a, E>,
    r: Option<(&'a E, EventId<E>)>,
) -> bool {
    &&& after.wf()
    &&& after.stream_len() == before.stream_len()
    &&& before.remaining().len() == 0 ==> r.is_none() && after.remaining() == before.remaining()
        && after.reader() == before.reader()
    &&& before.remaining().len() > 0 ==> {
        &&& r.is_some()
        &&& *r.unwrap().0 == before.remaining()[0].event
        &&& r.unwrap().1.id == before.remaining()[0].event_id.id
        &&& after.remaining() == before.remaining().drop_first()
        &&& after.reader().last_event_count == before.reader().last_event_count + 1
    }
}

/// One call of [`EventIterator::next`] took `before` to `after` and returned `r`, as its
/// contract states.
pub open spec fn plain_next_step<'a, E>(before: EventIterator<'a, E>, after: EventIterator<'a, E>, r: Option<&'a E>) -> bool {
    &&& after.inner().wf()
    &&& after.inner().stream_len() == before.inner().stream_len()
    &&& before.inner().remaining().len() == 0 ==> r.is_none() && after.inner().remaining()
        == before.inner().remaining() && after.inner().reader() == before.inner().reader()
    &&& before.inner().remaining().len() > 0 ==> {
        &&& r.is_some()
        &&& *r.unwrap() == before.inner().remaining()[0].event
        &&& after.inner().remaining() == before.inner().remaining().drop_first()
        &&& after.inner().reader().last_event_count == before.inner().reader().last_event_count + 1
    }
}

/// The smaller of `a` and `b`.
pub open spec fn min_nat(a: nat, b: nat) -> nat {
    if a <= b { a } else { b }
}

/// Reading through a run of calls of `next`: call `i` yields an event exactly while events
/// remain, and then the `i`-th of the events that were to come, in the order they were sent;
/// after `j` calls the cursor has moved past the first `min(j, n)` of the `n` events that were
/// to come, the rest are still to come, and the cursor and the iterator still agree.
pub proof fn lemma_read_run<'a, E>(its: Seq<EventIteratorWithId<'a, E>>, outs: Seq<Option<(&'a E, EventId<E>)>>)
    requires
        its.len() == outs.len() + 1,
        its[0].wf(),
        forall|i: int| 0 <= i < outs.len() ==> next_step(#[trigger] its[i], its[i + 1], outs[i]),
    ensures
        forall|i: int| 0 <= i < outs.len() ==> (#[trigger] outs[i]).is_some() == (i < its[0].remaining().len()),
        forall|i: int| 0 <= i < outs.len() && i < its[0].remaining().len() ==> {
            &&& *(#[trigger] outs[i]).unwrap().0 == its[0].remaining()[i].event
            &&& outs[i].unwrap().1.id == its[0].remaining()[i].event_id.id
        },
        forall|j: int| 0 <= j < its.len() ==> {
            &&& (#[trigger] its[j]).wf()
            &&& its[j].stream_len() == its[0].stream_len()
            &&& its[j].remaining() == its[0].remaining().skip(min_nat(j as nat, its[0].remaining().len()) as int)
            &&& its[j].reader().last_event_count == its[0].reader().last_event_count + min_nat(j as nat, its[0].remaining().len())
        },
    decreases outs.len(),
{
    if outs.len() > 0 {
        let m = outs.len() - 1;
        lemma_read_run(its.take(m + 1), outs.take(m));
        let n = its[0].remaining().len();
        assert(its.take(m + 1)[m] == its[m]);
        assert(its.take(m + 1)[0] == its[0]);
        assert(next_step(its[m], its[m + 1], outs[m]));
        assert forall|i: int| 0 <= i < outs.len() implies (#[trigger] outs[i]).is_some() == (i < n) by {
            if i < m {
                assert(outs.take(m)[i] == outs[i]);
            }
        }
        assert forall|i: int| 0 <= i < outs.len() && i < n implies {
            &&& *(#[trigger] outs[i]).unwrap().0 == its[0].remaining()[i].event
            &&& outs[i].unwrap().1.id == its[0].remaining()[i].event_id.id
        } by {
            if i < m {
                assert(outs.take(m)[i] == outs[i]);
            } else {
                assert(its[m].remaining() == its[0].remaining().skip(m));
            }
        }
        assert forall|j: int| 0 <= j < its.len() implies {
            &&& (#[trigger] its[j]).wf()
            &&& its[j].stream_len() == its[0].stream_len()
            &&& its[j].remaining() == its[0].remaining().skip(min_nat(j as nat, n) as int)
            &&& its[j].reader().last_event_count == its[0].reader().last_event_count + min_nat(j as nat, n)
        } by {
            if j <= m {
                assert(its.take(m + 1)[j] == its[j]);
            } else {
                assert(its[m].remaining() == its[0].remaining().skip(min_nat(m as nat, n) as int));
                if m < n {
                    assert(its[0].remaining().skip(m).drop_first() =~= its[0].remaining().skip(m + 1));
                }
            }
        }
    }
}

/// Reading through a run of calls of [`EventIterator::next`] yields the events that the
/// iterator with IDs it wraps would have yielded, without their IDs: call `i` yields exactly
/// while events remain, and then the event of the `i`-th that was to come; the cursor moves as
/// it would.
pub proof fn lemma_plain_read_run<'a, E>(its: Seq<EventIterator<'a, E>>, outs: Seq<Option<&'a E>>)
    requires
        its.len() == outs.len() + 1,
        its[0].inner().wf(),
        forall|i: int| 0 <= i < outs.len() ==> plain_next_step(#[trigger] its[i], its[i + 1], outs[i]),
    ensures
        forall|i: int| 0 <= i < outs.len() ==> (#[trigger] outs[i]).is_some() == (i < its[0].inner().remaining().len()),
        forall|i: int| 0 <= i < outs.len() && i < its[0].inner().remaining().len()
            ==> *(#[trigger] outs[i]).unwrap() == its[0].inner().remaining()[i].event,
        forall|j: int| 0 <= j < its.len() ==> {
            &&& (#[trigger] its[j]).inner().wf()
            &&& its[j].inner().stream_len() == its[0].inner().stream_len()
            &&& its[j].inner().remaining() == its[0].inner().remaining().skip(min_nat(j as nat, its[0].inner().remaining().len()) as int)
            &&& its[j].inner().reader().last_event_count == its[0].inner().reader().last_event_count
                + min_nat(j as nat, its[0].inner().remaining().len())
        },
    decreases outs.len(),
{
    if outs.len() > 0 {
        let m = outs.len() - 1;
        lemma_plain_read_run(its.take(m + 1), outs.take(m));
        let n = its[0].inner().remaining().len();
        assert(its.take(m + 1)[m] == its[m]);
        assert(its.take(m + 1)[0] == its[0]);
        assert(plain_next_step(its[m], its[m + 1], outs[m]));
        assert forall|i: int| 0 <= i < outs.len() implies (#[trigger] outs[i]).is_some() == (i < n) by {
            if i < m {
                assert(outs.take(m)[i] == outs[i]);
            }
        }
        assert forall|i: int| 0 <= i < outs.len() && i < n implies *(#[trigger] outs[i]).unwrap() == its[0].inner().remaining()[i].event by {
            if i < m {
                assert(outs.take(m)[i] == outs[i]);
            } else {
                assert(its[m].inner().remaining() == its[0].inner().remaining().skip(m));
            }
        }
        assert forall|j: int| 0 <= j < its.len() implies {
            &&& (#[trigger] its[j]).inner().wf()
            &&& its[j].inner().stream_len() == its[0].inner().stream_len()
            &&& its[j].inner().remaining() == its[0].inner().remaining().skip(min_nat(j as nat, n) as int)
            &&& its[j].inner().reader().last_event_count == its[0].inner().reader().last_event_count + min_nat(j as nat, n)
        } by {
            if j <= m {
                assert(its.take(m + 1)[j] == its[j]);
            } else {
                assert(its[m].inner().remaining() == its[0].inner().remaining().skip(min_nat(m as nat, n) as int));
                if m < n {
                    assert(its[0].inner().remaining().skip(m).drop_first() =~= its[0].inner().remaining().skip(m + 1));
                }
            }
        }
    }
}

/// How a parallel iteration splits its items into batches.
pub struct BatchingStrategy {
    /// The smallest and (one past) the largest batch size allowed.
    pub batch_size_limits: Range<usize>,
    /// How many batches each thread should get.
    pub batches_per_thread: usize,
}

impl BatchingStrategy {
    /// Batches of any size from one item up, one batch per thread.
    pub fn new() -> (r: Self)
        ensures
            r.batch_size_limits.start == 1,
            r.batch_size_limits.end == usize::MAX,
            r.batches_per_thread == 1,
    {
        BatchingStrategy { batch_size_limits: 1..usize::MAX, batches_per_thread: 1 }
    }

    /// Batches of exactly `batch_size` items.
    pub fn fixed(batch_size: usize) -> (r: Self)
        ensures
            r.batch_size_limits.start == batch_size,
            r.batch_size_limits.end == batch_size,
            r.batches_per_thread == 1,
    {
        BatchingStrategy { batch_size_limits: batch_size..batch_size, batches_per_thread: 1 }
    }

    /// The batch size for `max_items` items spread over `thread_count` threads: the items
    /// divided by the number of batches, rounded up, then clamped to the limits. Where the
    /// limits hold no size at all, their start.
    pub open spec fn spec_batch_size(self, max_items: nat, thread_count: nat) -> nat {
        let lo = self.batch_size_limits.start;
        let hi = self.batch_size_limits.end;
        if hi <= lo {
            lo as nat
        } else {
            let batches: nat = thread_count * (self.batches_per_thread as nat);
            let size: nat = if max_items % batches == 0 {
                max_items / batches
            } else {
                max_items / batches + 1
            };
            if size < lo {
                lo as nat
            } else if size > hi {
                hi as nat
            } else {
                size
            }
        }
    }

    /// Computes the batch size for `max_items` items spread over `thread_count` threads.
    pub fn calc_batch_size(&self, max_items: usize, thread_count: usize) -> (r: usize)
        requires
            thread_count > 0,
            self.batches_per_thread > 0,
            thread_count * self.batches_per_thread <= usize::MAX,
        ensures
            r == self.spec_batch_size(max_items as nat, thread_count as nat),
    {
        let lo = self.batch_size_limits.start;
        let hi = self.batch_size_limits.end;
        if hi <= lo {
            return lo;
        }
        let batches = thread_count * self.batches_per_thread;
        assert(batches > 0) by (nonlinear_arith)
            requires
                thread_count > 0,
                self.batches_per_thread > 0,
                batches == thread_count * self.batches_per_thread,
        ;
        let size = if max_items % batches == 0 {
            max_items / batches
        } else {
            assert(max_items / batches < usize::MAX) by (nonlinear_arith)
                requires
                    batches > 0,
                    max_items % batches != 0,
                    max_items <= usize::MAX,
            ;
            max_items / batches + 1
        };
        if size < lo {
            lo
        } else if size > hi {
            hi
        } else {
            size
        }
    }
}

impl Default for BatchingStrategy {
    fn default() -> (r: Self)
        ensures
            r.batch_size_limits.start == 1,
            r.batch_size_limits.end == usize::MAX,
            r.batches_per_thread == 1,
    {
        Self::new()
    }
}

/// A batch of a parallel iteration: the events `start..end` of the run `run` of unread
/// events (0 for the older run, 1 for the newer one).
#[derive(PartialEq, Eq, Structural, Clone, Copy, Debug)]
pub struct EventBatch {
    pub run: usize,
    pub start: usize,
    pub end: usize,
}

/// The batches of runs of `l0` and `l1` events cut into batches of `s`: the whole batches
/// of the first run, those of the second, then what is left of the first run and what is
/// left of the second (either of which may be empty).
pub open spec fn batch_plan(l0: nat, l1: nat, s: nat) -> Seq<EventBatch> {
    let c0 = l0 / s;
    let c1 = l1 / s;
    Seq::new(
        c0 + c1 + 2,
        |i: int|
            if i < c0 {
                EventBatch { run: 0, start: (i * s) as usize, end: ((i + 1) * s) as usize }
            } else if i < c0 + c1 {
                EventBatch { run: 1, start: ((i - c0) * s) as usize, end: ((i - c0 + 1) * s) as usize }
            } else if i == c0 + c1 {
                EventBatch { run: 0, start: (c0 * s) as usize, end: l0 as usize }
            } else {
                EventBatch { run: 1, start: (c1 * s) as usize, end: l1 as usize }
            },
    )
}

/// Whole batches of `s` fit in a run of `l` events: the `k`-th of them ends within it.
proof fn lemma_whole_batch_fits(l: nat, s: nat, k: nat)
    requires
        s > 0,
        k < l / s,
    ensures
        (k + 1) * s <= (l / s) * s <= l,
{
    vstd::arithmetic::div_mod::lemma_fundamental_div_mod(l as int, s as int);
    vstd::arithmetic::mul::lemma_mul_inequality((k + 1) as int, (l / s) as int, s as int);
    assert((l / s) * s == s * (l / s)) by (nonlinear_arith);
}

/// The batches for runs of `l0` and `l1` events cut into batches of `batch_size`, in the
/// order in which they are handed out.
pub fn batch_ranges(l0: usize, l1: usize, batch_size: usize) -> (r: Vec<EventBatch>)
    requires
        batch_size > 0,
    ensures
        r@ == batch_plan(l0 as nat, l1 as nat, batch_size as nat),
{
    let ghost plan = batch_plan(l0 as nat, l1 as nat, batch_size as nat);
    let c0 = l0 / batch_size;
    let c1 = l1 / batch_size;
    let mut out: Vec<EventBatch> = Vec::new();
    let mut k: usize = 0;
    while k < c0
        invariant
            batch_size > 0,
            c0 == l0 / batch_size,
            c1 == l1 / batch_size,
            plan == batch_plan(l0 as nat, l1 as nat, batch_size as nat),
            k <= c0,
            out@.len() == k,
            forall|i: int| 0 <= i < k ==> out@[i] == plan[i],
        decreases c0 - k,
    {
        proof {
            lemma_whole_batch_fits(l0 as nat, batch_size as nat, k as nat);
            assert(k * batch_size <= (k + 1) * batch_size) by (nonlinear_arith);
        }
        out.push(EventBatch { run: 0, start: k * batch_size, end: (k + 1) * batch_size });
        k = k + 1;
    }
    let mut m: usize = 0;
    while m < c1
        invariant
            batch_size > 0,
            c0 == l0 / batch_size,
            c1 == l1 / batch_size,
            plan == batch_plan(l0 as nat, l1 as nat, batch_size as nat),
            m <= c1,
            out@.len() == c0 + m,
            forall|i: int| 0 <= i < c0 + m ==> out@[i] == plan[i],
        decreases c1 - m,
    {
        proof {
            lemma_whole_batch_fits(l1 as nat, batch_size as nat, m as nat);
            assert(m * batch_size <= (m + 1) * batch_size) by (nonlinear_arith);
            assert((c0 + m) - c0 == m);
        }
        out.push(EventBatch { run: 1, start: m * batch_size, end: (m + 1) * batch_size });
        m = m + 1;
    }
    proof {
        vstd::arithmetic::div_mod::lemma_fundamental_div_mod(l0 as int, batch_size as int);
        vstd::arithmetic::div_mod::lemma_fundamental_div_mod(l1 as int, batch_size as int);
        assert(c0 * batch_size <= l0) by (nonlinear_arith)
            requires
                l0 == batch_size * c0 + l0 % batch_size,
                l0 % batch_size >= 0,
        ;
        assert(c1 * batch_size <= l1) by (nonlinear_arith)
            requires
                l1 == batch_size * c1 + l1 % batch_size,
                l1 % batch_size >= 0,
        ;
    }
    out.push(EventBatch { run: 0, start: c0 * batch_size, end: l0 });
    out.push(EventBatch { run: 1, start: c1 * batch_size, end: l1 });
    assert(out@ =~= plan);
    out
}

/// The batches cover each run once: every event of a run lies in exactly one batch of that
/// run.
pub proof fn lemma_batches_cover_runs(l0: nat, l1: nat, s: nat, run: nat, p: nat)
    requires
        s > 0,
        l0 <= usize::MAX,
        l1 <= usize::MAX,
        run < 2,
        p < (if run == 0 { l0 } else { l1 }),
    ensures
        exists|i: int| 0 <= i < batch_plan(l0, l1, s).len() && #[trigger] batch_plan(l0, l1, s)[i].run == run
            && batch_plan(l0, l1, s)[i].start <= p < batch_plan(l0, l1, s)[i].end,
        forall|i: int, j: int|
            0 <= i < batch_plan(l0, l1, s).len() && 0 <= j < batch_plan(l0, l1, s).len()
            && #[trigger] batch_plan(l0, l1, s)[i].run == run && batch_plan(l0, l1, s)[i].start <= p < batch_plan(l0, l1, s)[i].end
            && #[trigger] batch_plan(l0, l1, s)[j].run == run && batch_plan(l0, l1, s)[j].start <= p < batch_plan(l0, l1, s)[j].end
            ==> i == j,
{
    let plan = batch_plan(l0, l1, s);
    let l = if run == 0 { l0 } else { l1 };
    let c0 = l0 / s;
    let c1 = l1 / s;
    let c = l / s;
    let base: int = if run == 0 { 0 } else { c0 as int };
    let rest: int = if run == 0 { (c0 + c1) as int } else { (c0 + c1 + 1) as int };
    vstd::arithmetic::div_mod::lemma_fundamental_div_mod(l as int, s as int);
    vstd::arithmetic::div_mod::lemma_fundamental_div_mod(p as int, s as int);
    vstd::arithmetic::div_mod::lemma_mod_pos_bound(p as int, s as int);
    vstd::arithmetic::div_mod::lemma_mod_pos_bound(l as int, s as int);
    assert(c * s <= l) by (nonlinear_arith)
        requires
            l == s * c + l % s,
            l % s >= 0,
    ;
    // where a batch of the run holds `p`, it is the batch `p / s` or what is left
    assert forall|i: int| 0 <= i < plan.len() && #[trigger] plan[i].run == run && plan[i].start <= p < plan[i].end
        implies (if p < c * s { i == base + p / s } else { i == rest }) by {
        if base <= i < base + c {
            let k = i - base;
            lemma_whole_batch_fits(l, s, k as nat);
            assert(k * s <= (k + 1) * s) by (nonlinear_arith);
            assert(plan[i].start == k * s);
            assert(plan[i].end == (k + 1) * s);
            assert((k + 1) * s == k * s + s) by (nonlinear_arith);
            vstd::arithmetic::div_mod::lemma_fundamental_div_mod_converse(p as int, s as int, k, p - k * s);
            assert((k + 1) * s <= c * s) by (nonlinear_arith)
                requires
                    k < c,
                    s > 0,
            ;
        } else {
            assert(i == rest);
            assert(plan[i].start == c * s);
        }
    }
    if p < c * s {
        let k = p / s;
        assert(k < c) by (nonlinear_arith)
            requires
                p < c * s,
                p == s * k + p % s,
                p % s >= 0,
                s > 0,
        ;
        lemma_whole_batch_fits(l, s, k as nat);
        assert(k * s <= (k + 1) * s) by (nonlinear_arith);
        let i = base + k;
        assert(plan[i].run == run && plan[i].start <= p < plan[i].end) by {
            let r = p % s;
            assert(p < (k + 1) * s) by (nonlinear_arith)
                requires
                    p == s * k + r,
                    r < s,
            ;
            assert(k * s <= p) by (nonlinear_arith)
                requires
                    p == s * k + p % s,
                    p % s >= 0,
            ;
        }
    } else {
        assert(plan[rest].run == run && plan[rest].start <= p < plan[rest].end);
    }
}

/// A parallel iterator over the unread events of an [`Events`] buffer.
pub struct EventParIter<'a, E> {
    reader: &'a mut EventCursor<E>,
    a: &'a [EventInstance<E>],
    b: &'a [EventInstance<E>],
    batching_strategy: BatchingStrategy,
    unread: usize,
    total: Ghost<nat>,
}

impl<'a, E> EventParIter<'a, E> {
    /// The cursor that this iterator advances.
    pub closed spec fn reader(&self) -> &'a mut EventCursor<E> {
        self.reader
    }

    /// The unread events, oldest first.
    pub closed spec fn remaining(&self) -> Seq<EventInstance<E>> {
        self.a@ + self.b@
    }

    /// The older and the newer run of unread events.
    pub closed spec fn runs(&self) -> (Seq<EventInstance<E>>, Seq<EventInstance<E>>) {
        (self.a@, self.b@)
    }

    /// The number of events in the stream when the iterator was made.
    pub closed spec fn stream_len(&self) -> nat {
        self.total@
    }

    /// The strategy used to cut the events into batches.
    pub closed spec fn strategy(&self) -> BatchingStrategy {
        self.batching_strategy
    }

    /// The cursor stands before exactly the unread events of the stream.
    pub closed spec fn wf(&self) -> bool {
        &&& self.unread == self.a@.len() + self.b@.len()
        &&& self.reader.last_event_count + self.unread == self.total@
        &&& self.total@ <= usize::MAX
    }

    /// Creates a new parallel iterator over `events` that have not yet been seen by `reader`.
    pub fn new(reader: &'a mut EventCursor<E>, events: &'a Events<E>) -> (r: Self)
        requires
            events.wf(),
        ensures
            r.wf(),
            r.runs() == (
                unseen_in(events.events_a, old(reader).last_event_count as int),
                unseen_in(events.events_b, old(reader).last_event_count as int),
            ),
            r.remaining() == unseen_events(*events, old(reader).last_event_count as int),
            r.stream_len() == events.event_count,
            r.reader().last_event_count == events.event_count - r.remaining().len(),
            r.strategy().batch_size_limits.start == 1,
            r.strategy().batch_size_limits.end == usize::MAX,
            r.strategy().batches_per_thread == 1,
            *final(reader) == *final(r.reader()),
    {
        let (a, b) = take_unseen(reader, events);
        let unread = a.len() + b.len();
        EventParIter {
            reader,
            a,
            b,
            batching_strategy: BatchingStrategy::default(),
            unread,
            total: Ghost(events.event_count as nat),
        }
    }

    /// Changes the batching strategy used when iterating.
    pub fn batching_strategy(self, strategy: BatchingStrategy) -> (r: Self)
        ensures
            r.strategy() == strategy,
            r.remaining() == self.remaining(),
            r.runs() == self.runs(),
            r.stream_len() == self.stream_len(),
            r.reader() == self.reader(),
            self.wf() ==> r.wf(),
    {
        let mut s = self;
        s.batching_strategy = strategy;
        s
    }

    /// Returns the number of events to be iterated.
    pub fn len(&self) -> (n: usize)
        requires
            self.wf(),
        ensures
            n == self.remaining().len(),
    {
        self.a.len() + self.b.len()
    }

    /// Returns `true` if there are no events remaining in this iterator.
    pub fn is_empty(&self) -> (b: bool)
        ensures
            b == (self.remaining().len() == 0),
    {
        self.a.len() == 0 && self.b.len() == 0
    }

    /// Turns the parallel iterator into a sequential one over the same events.
    pub fn into_iter(self) -> (r: EventIteratorWithId<'a, E>)
        requires
            self.wf(),
        ensures
            r.wf(),
            r.remaining() == self.remaining(),
            r.stream_len() == self.stream_len(),
            *r.reader() == *self.reader(),
            *final(r.reader()) == *final(self.reader()),
    {
        let unread = self.a.len() + self.b.len();
        let r = EventIteratorWithId {
            reader: self.reader,
            a: self.a,
            b: self.b,
            pos: 0,
            unread,
            total: self.total,
        };
        assert(r.remaining() =~= self.a@ + self.b@);
        r
    }

    /// The batches that the unread events are cut into for `thread_count` threads: whole
    /// batches of the size that the batching strategy gives, then what is left of each run.
    pub fn batches(&self, thread_count: usize) -> (r: Vec<EventBatch>)
        requires
            self.wf(),
            thread_count > 0,
            self.strategy().batches_per_thread > 0,
            thread_count * self.strategy().batches_per_thread <= usize::MAX,
            self.strategy().spec_batch_size(self.remaining().len(), thread_count as nat) > 0,
        ensures
            r@ == batch_plan(
                self.runs().0.len(),
                self.runs().1.len(),
                self.strategy().spec_batch_size(self.remaining().len(), thread_count as nat),
            ),
    {
        let size = self.batching_strategy.calc_batch_size(self.a.len() + self.b.len(), thread_count);
        batch_ranges(self.a.len(), self.b.len(), size)
    }

    /// Runs `func` on each unread event and its ID, oldest first, and marks them all as read.
    pub fn for_each_with_id<F: Fn(&'a E, EventId<E>)>(self, func: F)
        requires
            self.wf(),
            forall|e: &'a E, id: EventId<E>| func.requires((e, id)),
        ensures
            final(self.reader()).last_event_count == self.stream_len(),
            forall|i: int| 0 <= i < self.remaining().len()
                ==> call_ensures(func, (&#[trigger] self.remaining()[i].event, self.remaining()[i].event_id), ()),
    {
        let ghost all = self.remaining();
        let mut iter = self.into_iter();
        let ghost mut k: int = 0;
        loop
            invariant
                iter.wf(),
                iter.stream_len() == self.stream_len(),
                *final(iter.reader()) == *final(self.reader()),
                forall|e: &'a E, id: EventId<E>| func.requires((e, id)),
                all == self.remaining(),
                0 <= k <= all.len(),
                iter.remaining() == all.skip(k),
                forall|i: int| 0 <= i < k ==> call_ensures(func, (&#[trigger] all[i].event, all[i].event_id), ()),
            ensures
                k == all.len(),
            decreases iter.remaining().len(),
        {
            match iter.next() {
                Some((e, id)) => {
                    func(e, id);
                    proof {
                        assert(all.skip(k)[0] == all[k]);
                        assert(all.skip(k).drop_first() =~= all.skip(k + 1));
                        k = k + 1;
                    }
                },
                None => {
                    break ;
                },
            }
        }
        iter.count();
    }

    /// Runs `func` on each unread event, oldest first, and marks them all as read.
    pub fn for_each<F: Fn(&'a E)>(self, func: F)
        requires
            self.wf(),
            forall|e: &'a E| func.requires((e,)),
        ensures
            final(self.reader()).last_event_count == self.stream_len(),
            forall|i: int| 0 <= i < self.remaining().len() ==> call_ensures(func, (&#[trigger] self.remaining()[i].event,), ()),
    {
        let ghost all = self.remaining();
        let mut iter = self.into_iter();
        let ghost mut k: int = 0;
        loop
            invariant
                iter.wf(),
                iter.stream_len() == self.stream_len(),
                *final(iter.reader()) == *final(self.reader()),
                forall|e: &'a E| func.requires((e,)),
                all == self.remaining(),
                0 <= k <= all.len(),
                iter.remaining() == all.skip(k),
                forall|i: int| 0 <= i < k ==> call_ensures(func, (&#[trigger] all[i].event,), ()),
            ensures
                k == all.len(),
            decreases iter.remaining().len(),
        {
            match iter.next() {
                Some((e, _)) => {
                    func(e);
                    proof {
                        assert(all.skip(k)[0] == all[k]);
                        assert(all.skip(k).drop_first() =~= all.skip(k + 1));
                        k = k + 1;
                    }
                },
                None => {
                    break ;
                },
            }
        }
        iter.count();
    }
}

} // verus!
