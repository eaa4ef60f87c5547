use vstd::prelude::*;
use crate::key::{Key, literal_key};

verus! {

/// One item of the input stream.
#[derive(Debug)]
pub enum Event {
    /// A keystroke that is already decoded.
    KeyPress(Key),
    /// A byte from the terminal that is not decoded yet; it reads as a
    /// literal character.
    RawByte(u8),
    /// The terminal's answer to the query with the given identifier.
    QueryResponse(u32, Vec<u8>),
    /// End of input.
    Eof,
    /// A marker that a commit point was reached.
    CheckpointMarker,
}

/// The key an event stands for, if it stands for one.
pub open spec fn key_of(e: Event) -> Option<Key> {
    match e {
        Event::KeyPress(k) => Some(k),
        Event::RawByte(b) => Some(literal_key(b)),
        _ => None,
    }
}

impl Event {
    /// The key this event stands for, if it stands for one.
    pub fn key(&self) -> (r: Option<Key>)
        ensures
            r == key_of(*self),
    {
        match self {
            Event::KeyPress(k) => Some(*k),
            Event::RawByte(b) => Some(Key::from_byte(*b)),
            _ => None,
        }
    }
}

/// The run of keys that starts at position `start` of `events` and ends at
/// the first event that is not a key, or at the end.
pub open spec fn key_run(events: Seq<Event>, start: int) -> Seq<Key>
    decreases events.len() - start,
{
    if start < 0 || start >= events.len() {
        Seq::empty()
    } else {
        match key_of(events[start]) {
            Some(k) => seq![k] + key_run(events, start + 1),
            None => Seq::empty(),
        }
    }
}

/// Every key of `events` in order, the other events left out.
pub open spec fn keys_of(events: Seq<Event>) -> Seq<Key>
    decreases events.len(),
{
    if events.len() == 0 {
        Seq::empty()
    } else {
        match key_of(events[0]) {
            Some(k) => seq![k] + keys_of(events.drop_first()),
            None => keys_of(events.drop_first()),
        }
    }
}

/// A buffer of pending events with two cursors: everything before `commit`
/// has been consumed, and `peek` marks how far the current resolution attempt
/// has looked ahead without consuming.
pub struct EventQueue {
    events: Vec<Event>,
    commit: usize,
    peek: usize,
}

/// The abstract state of an event queue.
pub struct QueueView {
    pub events: Seq<Event>,
    pub commit: nat,
    pub peek: nat,
}

impl QueueView {
    /// The cursors are in order and within the buffer.
    pub open spec fn wf(self) -> bool {
        self.commit <= self.peek <= self.events.len()
    }

    /// The queue with its peek cursor moved back to the commit cursor.
    pub open spec fn restarted(self) -> QueueView {
        QueueView { events: self.events, commit: self.commit, peek: self.commit }
    }

    /// The queue with its peek cursor moved `n` events ahead.
    pub open spec fn advanced(self, n: nat) -> QueueView {
        QueueView { events: self.events, commit: self.commit, peek: self.peek + n }
    }

    /// The queue with everything up to the peek cursor consumed.
    pub open spec fn committed(self) -> QueueView {
        QueueView { events: self.events, commit: self.peek, peek: self.peek }
    }
}

impl View for EventQueue {
    type V = QueueView;

    closed spec fn view(&self) -> QueueView {
        QueueView { events: self.events@, commit: self.commit as nat, peek: self.peek as nat }
    }
}

impl EventQueue {
    pub open spec fn wf(&self) -> bool {
        self@.wf()
    }

    /// An empty queue.
    pub fn new() -> (r: EventQueue)
        ensures
            r.wf(),
            r@.events.len() == 0,
            r@.commit == 0,
            r@.peek == 0,
    {
        EventQueue { events: Vec::new(), commit: 0, peek: 0 }
    }

    /// Appends an event at the tail; the cursors stay where they are.
    pub fn push(&mut self, e: Event)
        requires
            old(self).wf(),
        ensures
            final(self).wf(),
            final(self)@.events == old(self)@.events.push(e),
            final(self)@.commit == old(self)@.commit,
            final(self)@.peek == old(self)@.peek,
    {
        self.events.push(e);
    }

    /// The number of events held, consumed ones included.
    pub fn len(&self) -> (r: usize)
        ensures
            r == self@.events.len(),
    {
        self.events.len()
    }

    /// Position of the commit cursor.
    pub fn commit_cursor(&self) -> (r: usize)
        ensures
            r == self@.commit,
    {
        self.commit
    }

    /// Position of the peek cursor.
    pub fn peek_cursor(&self) -> (r: usize)
        ensures
            r == self@.peek,
    {
        self.peek
    }

    /// The event `offset` places after the peek cursor, without moving it;
    /// `None` when that event has not arrived yet.
    pub fn peek_at(&self, offset: usize) -> (r: Option<&Event>)
        requires
            self.wf(),
        ensures
            self@.peek + offset < self@.events.len() ==> r == Some(
                &self@.events[self@.peek + offset],
            ),
            self@.peek + offset >= self@.events.len() ==> r is None,
    {
        if offset < self.events.len() - self.peek {
            Some(&self.events[self.peek + offset])
        } else {
            None
        }
    }

    /// The event at absolute position `i` of the buffer.
    pub fn peek_event(&self, i: usize) -> (r: &Event)
        requires
            i < self@.events.len(),
        ensures
            *r == self@.events[i as int],
    {
        &self.events[i]
    }

    /// Moves the peek cursor `n` events ahead without consuming them.
    pub fn advance_peek(&mut self, n: usize)
        requires
            old(self).wf(),
            old(self)@.peek + n <= old(self)@.events.len(),
        ensures
            final(self)@ == old(self)@.advanced(n as nat),
            final(self).wf(),
    {
        let _len = self.events.len();
        self.peek = self.peek + n;
    }

    /// Consumes every event before the peek cursor.
    pub fn commit(&mut self)
        requires
            old(self).wf(),
        ensures
            final(self)@ == old(self)@.committed(),
            final(self).wf(),
    {
        self.commit = self.peek;
    }

    /// Takes the event at position `i`, which is not consumed yet, out of the
    /// queue; the events after it move up by one and the peek cursor goes back
    /// to the commit cursor.
    pub fn remove_at(&mut self, i: usize) -> (r: Event)
        requires
            old(self).wf(),
            old(self)@.commit <= i < old(self)@.events.len(),
        ensures
            final(self).wf(),
            r == old(self)@.events[i as int],
            final(self)@.events == old(self)@.events.remove(i as int),
            final(self)@.commit == old(self)@.commit,
            final(self)@.peek == old(self)@.commit,
    {
        self.peek = self.commit;
        self.events.remove(i)
    }

    /// Frees the consumed events: those before the commit cursor are dropped
    /// and both cursors move back by as many.
    pub fn discard_committed(&mut self)
        requires
            old(self).wf(),
        ensures
            final(self).wf(),
            final(self)@.events == old(self)@.events.skip(old(self)@.commit as int),
            final(self)@.commit == 0,
            final(self)@.peek == old(self)@.peek - old(self)@.commit,
    {
        let n = self.commit;
        let ghost ev = self.events@;
        let mut k: usize = 0;
        while k < n
            invariant
                k <= n,
                n <= ev.len(),
                self.events@ == ev.skip(k as int),
                self.commit == n,
                self.peek == old(self).peek,
                self.peek <= ev.len(),
                n <= self.peek,
            decreases n - k,
        {
            self.events.remove(0);
            assert(ev.skip(k as int).remove(0) =~= ev.skip(k as int + 1));
            k = k + 1;
        }
        self.peek = self.peek - n;
        self.commit = 0;
    }

    /// Moves the peek cursor back to the commit cursor, so that the events
    /// looked at since the last commit are seen again.
    pub fn restart(&mut self)
        requires
            old(self).wf(),
        ensures
            final(self)@ == old(self)@.restarted(),
            final(self).wf(),
    {
        self.peek = self.commit;
    }
}

} // verus!
