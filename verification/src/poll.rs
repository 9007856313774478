//! What a balancer and its host say to each other.
use crate::error::Error;
use vstd::prelude::*;

verus! {

/// Whether something that was polled is there yet.
#[derive(Debug, PartialEq, Eq)]
pub enum Async<T> {
    /// It is there.
    Ready(T),
    /// It is not, and has to be polled again later.
    NotReady,
}

/// The result of a poll.
pub type Poll<T, E> = Result<Async<T>, E>;

impl<T> Async<T> {
    /// Returns true iff this is `Ready`.
    pub fn is_ready(&self) -> (ready: bool)
        ensures
            ready == (*self is Ready),
    {
        match self {
            Async::Ready(_) => true,
            Async::NotReady => false,
        }
    }
}

/// A change in the set of services.
#[derive(Debug, Clone, Copy, PartialEq, Eq)]
pub enum Change {
    /// A service was added under a key. It takes the place of any service with that key.
    Insert(u64, u64),
    /// The service with this key is gone.
    Remove(u64),
}

/// What the host has to do before the balancer can go on.
#[derive(Debug, Clone, Copy, PartialEq, Eq)]
pub enum Request {
    /// Poll the source of services. If the last change ejected a service, it may be dropped.
    PollDiscover {
        ejected: Option<u64>,
    },
    /// Poll this service for readiness.
    PollReady(u64),
    /// Tell which of these two services carries less load.
    CompareLoads(u64, u64),
    /// Let this service make progress.
    PollService(u64),
}

/// What came of a [`Request`].
#[derive(Debug, PartialEq, Eq)]
pub enum Reply<T, U> {
    /// The source of services was polled.
    Discover(Poll<Change, U>),
    /// The service was polled for readiness.
    Ready(Poll<(), T>),
    /// The loads were compared: the first service carries no more load than the second.
    FirstNoHeavier(bool),
}

/// Where a balancer stands after a reply.
#[derive(Debug, PartialEq, Eq)]
pub enum Step<T, U> {
    /// It needs something more from the host.
    Ask(Request),
    /// It is done.
    Done(Poll<(), Error<T, U>>),
}

} // verus!
