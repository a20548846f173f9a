//! Events that the interpreter emits for a user interface, and the queue
//! that holds them until they are taken.
use vstd::prelude::*;

verus! {

/// An event for the user interface.
#[derive(Debug, Clone, PartialEq)]
pub enum InterpreterEvent {
    /// Text to display.
    Output(String),
    /// A request for input into a variable.
    Input(String),
    /// The program has finished.
    Finished,
    /// A runtime error.
    Error(String),
    /// Debug information (changes of the current line, and the like).
    Debug(String),
}

/// The mathematical value of an event.
pub enum EventV {
    Output(Seq<char>),
    Input(Seq<char>),
    Finished,
    Error(Seq<char>),
    Debug(Seq<char>),
}

impl View for InterpreterEvent {
    type V = EventV;

    open spec fn view(&self) -> EventV {
        match self {
            InterpreterEvent::Output(s) => EventV::Output(s@),
            InterpreterEvent::Input(s) => EventV::Input(s@),
            InterpreterEvent::Finished => EventV::Finished,
            InterpreterEvent::Error(s) => EventV::Error(s@),
            InterpreterEvent::Debug(s) => EventV::Debug(s@),
        }
    }
}

/// The views of a list of events.
pub open spec fn events_view(es: Seq<InterpreterEvent>) -> Seq<EventV> {
    es.map_values(|e: InterpreterEvent| e@)
}

/// A queue of events, oldest first.
#[derive(Debug)]
pub struct EventQueue {
    events: Vec<InterpreterEvent>,
}

impl View for EventQueue {
    type V = Seq<EventV>;

    closed spec fn view(&self) -> Seq<EventV> {
        events_view(self.events@)
    }
}

impl EventQueue {
    /// An empty queue.
    pub fn new() -> (q: Self)
        ensures
            q@ == Seq::<EventV>::empty(),
    {
        let q = EventQueue { events: Vec::new() };
        assert(q@ =~= Seq::<EventV>::empty());
        q
    }

    /// Adds an event at the end of the queue.
    pub fn push(&mut self, event: InterpreterEvent)
        ensures
            final(self)@ == old(self)@.push(event@),
    {
        self.events.push(event);
        assert(final(self)@ =~= old(self)@.push(event@));
    }

    /// Takes all events, oldest first, and leaves the queue empty.
    pub fn take_events(&mut self) -> (r: Vec<InterpreterEvent>)
        ensures
            events_view(r@) == old(self)@,
            final(self)@ == Seq::<EventV>::empty(),
    {
        let mut taken: Vec<InterpreterEvent> = Vec::new();
        std::mem::swap(&mut taken, &mut self.events);
        assert(final(self)@ =~= Seq::<EventV>::empty());
        taken
    }

    /// Whether there are any events.
    pub fn has_events(&self) -> (b: bool)
        ensures
            b == (self@.len() > 0),
    {
        !self.events.is_empty()
    }

    /// The number of pending events.
    pub fn len(&self) -> (n: usize)
        ensures
            n == self@.len(),
    {
        self.events.len()
    }

    /// Whether the queue is empty.
    pub fn is_empty(&self) -> (b: bool)
        ensures
            b == (self@.len() == 0),
    {
        self.events.is_empty()
    }
}

impl Default for EventQueue {
    fn default() -> (q: Self)
        ensures
            q@ == Seq::<EventV>::empty(),
    {
        EventQueue::new()
    }
}

} // verus!
