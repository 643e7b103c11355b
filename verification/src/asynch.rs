//! Values shared with the asynchronous event loop of the embedder.

use std::sync::mpsc::Sender;
use vstd::prelude::*;

verus! {

/// The sending half of std's channel.
#[verifier::external_type_specification]
#[verifier::external_body]
#[verifier::reject_recursive_types(T)]
pub struct ExSender<T>(Sender<T>);

/// Error indicating a yield command when all event producers and timers had
/// exited
#[derive(Debug, Clone, Copy, PartialEq, Eq)]
pub struct InfiniteBlock;

impl InfiniteBlock {
    /// The message shown to the user
    pub fn describe(&self) -> (r: &'static str)
        ensures
            r@ == "User code yielded, but there are no timers or event producers to wake it up in the future"@,
    {
        "User code yielded, but there are no timers or event producers to wake it up in the future"
    }
}

/// A thread-safe handle that can be used to send events to the event loop.
/// The embedder picks the message type; the event loop's own port carries
/// boxed values of any type and dispatches them by type ID.
#[verifier::reject_recursive_types(M)]
pub struct MessagePort<M>(pub Sender<M>);

/// Calls std's `Sender::send`. The message is lost if the receiving end has
/// been dropped; nothing is promised of its delivery.
#[verifier::external_body]
fn channel_send<M>(port: &Sender<M>, message: M) {
    let _ = port.send(message);
}

impl<M> MessagePort<M> {
    /// Send an event. If the event loop has already exited, the event is
    /// dropped.
    pub fn send(&mut self, message: M)
        ensures
            *final(self) == *old(self),
    {
        channel_send(&self.0, message)
    }
}

/// What the event loop's poller hands back when asked for the next thing to
/// do.
pub enum PollEvent<X, M> {
    /// A one-shot timer fired with this continuation
    Once(X),
    /// A recurring timer fired with this continuation
    Recurring(X),
    /// A message arrived from another thread
    Event(M),
}

/// What a yield does next.
pub enum YieldStep<X, M> {
    /// Continue with this expression
    Resume(X),
    /// Hand the message to its handler and report what the handler produced
    /// with [Microtasks::handled]
    Dispatch(M),
    /// Nothing can wake the program any more: the yield fails with
    /// [InfiniteBlock]
    Block,
}

/// The decision after polling; `None` means that the poller has no timers
/// and no event producers left.
pub open spec fn spec_after_poll<X, M>(ev: Option<PollEvent<X, M>>) -> YieldStep<X, M> {
    match ev {
        None => YieldStep::Block,
        Some(PollEvent::Once(x)) => YieldStep::Resume(x),
        Some(PollEvent::Recurring(x)) => YieldStep::Resume(x),
        Some(PollEvent::Event(m)) => YieldStep::Dispatch(m),
    }
}

/// Decide what a yield does with what the poller handed back.
pub fn after_poll<X, M>(ev: Option<PollEvent<X, M>>) -> (r: YieldStep<X, M>)
    ensures
        r == spec_after_poll(ev),
{
    match ev {
        None => YieldStep::Block,
        Some(PollEvent::Once(x)) => YieldStep::Resume(x),
        Some(PollEvent::Recurring(x)) => YieldStep::Resume(x),
        Some(PollEvent::Event(m)) => YieldStep::Dispatch(m),
    }
}

/// Expressions a message handler produced, waiting to run one per yield in
/// the order they were produced.
pub struct Microtasks<X> {
    queue: Vec<X>,
}

impl<X> View for Microtasks<X> {
    type V = Seq<X>;

    closed spec fn view(&self) -> Seq<X> {
        self.queue@
    }
}

impl<X> Microtasks<X> {
    /// No microtasks
    pub fn new() -> (r: Self)
        ensures
            r@ == Seq::<X>::empty(),
    {
        Microtasks { queue: Vec::new() }
    }

    /// The start of a yield: the first waiting microtask runs, if there is
    /// one; otherwise the event loop is polled.
    pub fn start(&mut self) -> (r: Option<X>)
        ensures
            old(self)@.len() > 0 ==> r == Some(old(self)@[0]) && final(self)@ == old(self)@.drop_first(),
            old(self)@.len() == 0 ==> r is None && final(self)@ == old(self)@,
    {
        if self.queue.len() > 0 {
            Some(self.queue.remove(0))
        } else {
            None
        }
    }

    /// A message handler produced `events`. Where there are some, they become
    /// the microtasks and the yield ends to run them (`true`); where there
    /// are none, polling goes on (`false`).
    pub fn handled(&mut self, events: Vec<X>) -> (r: bool)
        ensures
            r == (events@.len() > 0),
            r ==> final(self)@ == events@,
            !r ==> final(self)@ == old(self)@,
    {
        if events.len() > 0 {
            self.queue = events;
            true
        } else {
            false
        }
    }
}

} // verus!
