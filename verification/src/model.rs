//! What a balancer does, as a state machine over sequences of endpoints.
use crate::chooser::Choice;
use crate::endpoints::{
    distinct, has_key, inserted, lemma_entry, lemma_inserted, lemma_removed, lemma_swap_removed,
    position, removed, service_of, swap_removed,
};
use crate::error::Error;
use crate::poll::{Async, Change, Poll, Reply, Request, Step};
use vstd::prelude::*;

verus! {

/// What a balancer is waiting for.
#[derive(Debug, Clone, Copy, PartialEq, Eq)]
pub enum Stage {
    /// Nothing.
    Idle,
    /// The readiness of the service that got the last request, at this index of the ready services.
    Dispatched(usize),
    /// A change in the set of services.
    Discovering,
    /// The readiness of the service at this index of the services that are not ready.
    Promoting(usize),
    /// The loads of the services at these two indices of the ready services.
    Comparing(usize, usize),
    /// The readiness of the service at this index of the ready services.
    Choosing(usize),
    /// The progress of the service at this index of the ready services, or of the others.
    Serving {
        ready: bool,
        index: usize,
        any_not_ready: bool,
    },
}

/// How a balancer goes on.
pub enum Turn<T, U> {
    /// It needs something from the host.
    Ask(Request),
    /// It has to choose among two or more ready services.
    Choose,
    /// It is done.
    Done(Poll<(), Error<T, U>>),
}

/// How a balancer goes on that said `step`.
pub open spec fn turn_of<T, U>(step: Step<T, U>) -> Turn<T, U> {
    match step {
        Step::Ask(request) => Turn::Ask(request),
        Step::Done(result) => Turn::Done(result),
    }
}

/// The state of a balancer. An endpoint is a key and a service.
pub struct State {
    /// The endpoints that are considered to be ready.
    pub ready: Seq<(u64, u64)>,
    /// The endpoints that have not yet become ready.
    pub not_ready: Seq<(u64, u64)>,
    /// The index into `ready` of the service that gets the next request.
    pub chosen: Option<usize>,
    /// The index into `ready` of the service that got the last request.
    pub dispatched: Option<usize>,
    /// What the balancer is waiting for.
    pub stage: Stage,
}

impl State {
    /// A balancer that knows of no service.
    pub open spec fn fresh() -> State {
        State {
            ready: Seq::empty(),
            not_ready: Seq::empty(),
            chosen: None,
            dispatched: None,
            stage: Stage::Idle,
        }
    }

    /// All endpoints, the ready ones first.
    pub open spec fn endpoints(self) -> Seq<(u64, u64)> {
        self.ready + self.not_ready
    }

    /// The service under each key.
    pub open spec fn directory(self) -> Map<u64, u64> {
        Map::new(
            |key: u64| has_key(self.ready, key) || has_key(self.not_ready, key),
            |key: u64|
                match service_of(self.ready, key) {
                    Some(service) => service,
                    None => service_of(self.not_ready, key)->0,
                },
        )
    }

    /// No key occurs twice, be it among the ready endpoints, among the others or across the two.
    pub open spec fn sound(self) -> bool {
        &&& self.ready.len() <= usize::MAX
        &&& self.not_ready.len() <= usize::MAX
        &&& distinct(self.ready)
        &&& distinct(self.not_ready)
        &&& forall|key: u64| has_key(self.ready, key) ==> !#[trigger] has_key(self.not_ready, key)
    }

    /// Each index that is held is one of a ready service, and there is at most one: a service has
    /// been chosen for the next request, or one got the last request.
    pub open spec fn indexed(self) -> bool {
        &&& self.chosen matches Some(index) ==> index < self.ready.len()
        &&& self.dispatched matches Some(index) ==> index < self.ready.len()
        &&& self.chosen is None || self.dispatched is None
    }

    /// No key occurs twice, and no index that is held or waited for is out of range. While
    /// readiness is being polled no service is chosen, and none counts as dispatched.
    pub open spec fn wf(self) -> bool {
        &&& self.sound()
        &&& self.indexed()
        &&& self.polling() ==> self.chosen is None && self.dispatched is None
        &&& match self.stage {
            Stage::Idle | Stage::Discovering => true,
            Stage::Dispatched(index) | Stage::Choosing(index) => index < self.ready.len(),
            Stage::Promoting(index) => index < self.not_ready.len(),
            Stage::Comparing(first, second) => first < self.ready.len() && second
                < self.ready.len(),
            Stage::Serving { ready: true, index, .. } => index < self.ready.len(),
            Stage::Serving { ready: false, index, .. } => index < self.not_ready.len(),
        }
    }

    /// The balancer is in the middle of polling for readiness.
    pub open spec fn polling(self) -> bool {
        !(self.stage is Idle) && !(self.stage is Serving)
    }

    /// The reply is one to what the balancer is waiting for.
    pub open spec fn expects<T, U>(self, reply: Reply<T, U>) -> bool {
        match reply {
            Reply::Discover(_) => self.stage is Discovering,
            Reply::Ready(_) => self.stage is Dispatched || self.stage is Promoting
                || self.stage is Choosing,
            Reply::FirstNoHeavier(_) => self.stage is Comparing,
        }
    }

    /// The ready endpoint at `index` has become not ready.
    pub open spec fn demoted(self, index: usize) -> State {
        let (key, service) = self.ready[index as int];
        State {
            ready: swap_removed(self.ready, index as int),
            not_ready: inserted(self.not_ready, key, service),
            ..self
        }
    }

    /// The endpoint at `index` that was not ready has become ready.
    pub open spec fn promoted(self, index: usize) -> State {
        let (key, service) = self.not_ready[index as int];
        State {
            ready: inserted(self.ready, key, service),
            not_ready: swap_removed(self.not_ready, index as int),
            ..self
        }
    }

    /// The set of services has changed. A service that is inserted starts out not ready.
    pub open spec fn changed(self, change: Change) -> State {
        match change {
            Change::Insert(key, service) => State {
                ready: removed(self.ready, key),
                not_ready: inserted(self.not_ready, key, service),
                ..self
            },
            Change::Remove(key) => if has_key(self.ready, key) {
                State { ready: removed(self.ready, key), ..self }
            } else {
                State { not_ready: removed(self.not_ready, key), ..self }
            },
        }
    }

    /// The service that a change in the set of services drops.
    pub open spec fn ejected(self, change: Change) -> Option<u64> {
        let key = match change {
            Change::Insert(key, _) => key,
            Change::Remove(key) => key,
        };
        if has_key(self.ready, key) {
            service_of(self.ready, key)
        } else {
            service_of(self.not_ready, key)
        }
    }

    /// The state in which `stage` is waited for.
    pub open spec fn at(self, stage: Stage) -> State {
        State { stage, ..self }
    }

    /// The chosen service gets a request.
    pub open spec fn called(self) -> State {
        State { chosen: None, dispatched: self.chosen, ..self }
    }

    /// The balancer is asked for its readiness. The service that got the last request is polled
    /// first, before the order of the ready services can change.
    pub open spec fn begun(self) -> (State, Request) {
        let cleared = State { chosen: None, dispatched: None, ..self };
        match self.dispatched {
            Some(index) => (
                cleared.at(Stage::Dispatched(index)),
                Request::PollReady(self.ready[index as int].1),
            ),
            None => (cleared.at(Stage::Discovering), Request::PollDiscover { ejected: None }),
        }
    }

    /// The first `count` endpoints that are not ready are still to be polled, from right to left.
    pub open spec fn promoting<T, U>(self, count: int) -> (State, Turn<T, U>) {
        if count == 0 {
            self.choosing()
        } else {
            (
                self.at(Stage::Promoting((count - 1) as usize)),
                Turn::Ask(Request::PollReady(self.not_ready[count - 1].1)),
            )
        }
    }

    /// A ready service is to be chosen.
    pub open spec fn choosing<T, U>(self) -> (State, Turn<T, U>) {
        if self.ready.len() == 0 {
            (self.at(Stage::Idle), Turn::Done(Ok(Async::NotReady)))
        } else if self.ready.len() == 1 {
            let (state, request) = self.picked(0);
            (state, Turn::Ask(request))
        } else {
            (self.at(Stage::Idle), Turn::Choose)
        }
    }

    /// The ready service at `index` is to be polled.
    pub open spec fn picked(self, index: usize) -> (State, Request) {
        (self.at(Stage::Choosing(index)), Request::PollReady(self.ready[index as int].1))
    }

    /// A choice among the ready services was made.
    pub open spec fn chose(self, choice: Choice) -> (State, Request) {
        match choice {
            Choice::One(index) => self.picked(index),
            Choice::LighterOf(first, second) => (
                self.at(Stage::Comparing(first, second)),
                Request::CompareLoads(self.ready[first as int].1, self.ready[second as int].1),
            ),
        }
    }

    /// The host has replied.
    pub open spec fn advanced<T, U>(self, reply: Reply<T, U>) -> (State, Turn<T, U>) {
        match (self.stage, reply) {
            (_, Reply::Ready(Err(why))) => (
                self.at(Stage::Idle),
                Turn::Done(Err(Error::Inner(why))),
            ),
            (_, Reply::Discover(Err(why))) => (
                self.at(Stage::Idle),
                Turn::Done(Err(Error::Balance(why))),
            ),
            (Stage::Dispatched(index), Reply::Ready(Ok(polled))) => {
                let state = if polled is Ready {
                    self
                } else {
                    self.demoted(index)
                };
                (
                    state.at(Stage::Discovering),
                    Turn::Ask(Request::PollDiscover { ejected: None }),
                )
            },
            (Stage::Discovering, Reply::Discover(Ok(Async::Ready(change)))) => (
                self.changed(change),
                Turn::Ask(Request::PollDiscover { ejected: self.ejected(change) }),
            ),
            (Stage::Discovering, Reply::Discover(Ok(Async::NotReady))) => self.promoting(
                self.not_ready.len() as int,
            ),
            (Stage::Promoting(index), Reply::Ready(Ok(polled))) => {
                let state = if polled is Ready {
                    self.promoted(index)
                } else {
                    self
                };
                state.promoting(index as int)
            },
            (Stage::Comparing(first, second), Reply::FirstNoHeavier(no_heavier)) => {
                let (state, request) = self.picked(
                    if no_heavier {
                        first
                    } else {
                        second
                    },
                );
                (state, Turn::Ask(request))
            },
            (Stage::Choosing(index), Reply::Ready(Ok(polled))) => if polled is Ready {
                (
                    State { chosen: Some(index), ..self }.at(Stage::Idle),
                    Turn::Done(Ok(Async::Ready(()))),
                )
            } else {
                self.demoted(index).choosing()
            },
            _ => arbitrary(),
        }
    }

    /// The services from `pos` on are still to make progress.
    pub open spec fn serving<T, U>(self, pos: int, any_not_ready: bool) -> (State, Turn<T, U>) {
        if pos < self.endpoints().len() {
            (
                self.at(
                    if pos < self.ready.len() {
                        Stage::Serving { ready: true, index: pos as usize, any_not_ready }
                    } else {
                        Stage::Serving {
                            ready: false,
                            index: (pos - self.ready.len()) as usize,
                            any_not_ready,
                        }
                    },
                ),
                Turn::Ask(Request::PollService(self.endpoints()[pos].1)),
            )
        } else {
            (
                self.at(Stage::Idle),
                Turn::Done(
                    Ok(
                        if any_not_ready {
                            Async::NotReady
                        } else {
                            Async::Ready(())
                        },
                    ),
                ),
            )
        }
    }

    /// A service has been polled for progress.
    pub open spec fn served<T, U>(self, polled: Poll<(), T>) -> (State, Turn<T, U>) {
        match (self.stage, polled) {
            (_, Err(why)) => (self.at(Stage::Idle), Turn::Done(Err(Error::Inner(why)))),
            (Stage::Serving { ready, index, any_not_ready }, Ok(polled)) => self.serving(
                (if ready {
                    0
                } else {
                    self.ready.len() as int
                }) + index + 1,
                any_not_ready || polled is NotReady,
            ),
            _ => arbitrary(),
        }
    }
}

/// An endpoint is the only one with its key.
pub proof fn lemma_same_key(s: State, i: int)
    requires
        s.sound(),
        0 <= i < s.endpoints().len(),
    ensures
        forall|j: int|
            0 <= j < s.endpoints().len() && (#[trigger] s.endpoints()[j]).0 == s.endpoints()[i].0
                ==> j == i,
{
    let all = s.endpoints();
    let n = s.ready.len();
    assert forall|j: int| 0 <= j < all.len() && (#[trigger] all[j]).0 == all[i].0 implies j
        == i by {
        if j < n {
            assert(has_key(s.ready, s.ready[j].0));
            lemma_entry(s.ready, j);
        } else {
            assert(has_key(s.not_ready, s.not_ready[j - n].0));
            lemma_entry(s.not_ready, j - n);
        }
        if i < n {
            assert(has_key(s.ready, s.ready[i].0));
            lemma_entry(s.ready, i);
        } else {
            assert(has_key(s.not_ready, s.not_ready[i - n].0));
            lemma_entry(s.not_ready, i - n);
        }
    }
}

/// An endpoint that stops being ready keeps its key and its service, and goes to the end.
pub proof fn lemma_demoted(s: State, index: usize)
    requires
        s.sound(),
        index < s.ready.len(),
    ensures
        s.demoted(index).not_ready == s.not_ready.push(s.ready[index as int]),
        s.not_ready.len() < usize::MAX ==> s.demoted(index).sound(),
        s.demoted(index).directory() == s.directory(),
{
    let (key, service) = s.ready[index as int];
    let t = s.demoted(index);
    lemma_entry(s.ready, index as int);
    lemma_swap_removed(s.ready, index as int);
    lemma_inserted(s.not_ready, key, service);
    assert(t.directory() =~= s.directory()) by {
        assert forall|k: u64| t.directory().dom().contains(k) == s.directory().dom().contains(
            k,
        ) && (s.directory().dom().contains(k) ==> t.directory()[k] == s.directory()[k]) by {
            assert(has_key(t.ready, k) <==> has_key(s.ready, k) && k != key);
            assert(has_key(t.not_ready, k) <==> has_key(s.not_ready, k) || k == key);
            assert(service_of(t.ready, k) is Some <==> has_key(t.ready, k));
            assert(service_of(t.not_ready, k) is Some <==> has_key(t.not_ready, k));
        }
    }
}

/// An endpoint that becomes ready keeps its key and its service, and goes to the end.
pub proof fn lemma_promoted(s: State, index: usize)
    requires
        s.sound(),
        index < s.not_ready.len(),
    ensures
        s.promoted(index).ready == s.ready.push(s.not_ready[index as int]),
        s.ready.len() < usize::MAX ==> s.promoted(index).sound(),
        s.promoted(index).directory() == s.directory(),
{
    let (key, service) = s.not_ready[index as int];
    let t = s.promoted(index);
    lemma_entry(s.not_ready, index as int);
    lemma_swap_removed(s.not_ready, index as int);
    lemma_inserted(s.ready, key, service);
    assert(t.directory() =~= s.directory()) by {
        assert forall|k: u64| t.directory().dom().contains(k) == s.directory().dom().contains(
            k,
        ) && (s.directory().dom().contains(k) ==> t.directory()[k] == s.directory()[k]) by {
            assert(has_key(t.ready, k) <==> has_key(s.ready, k) || k == key);
            assert(has_key(t.not_ready, k) <==> has_key(s.not_ready, k) && k != key);
            assert(service_of(t.ready, k) is Some <==> has_key(t.ready, k));
            assert(service_of(t.not_ready, k) is Some <==> has_key(t.not_ready, k));
            assert(service_of(s.ready, k) is Some <==> has_key(s.ready, k));
        }
    }
}

/// A change of the set of services is made under its key and under no other.
pub proof fn lemma_changed(s: State, change: Change)
    requires
        s.sound(),
    ensures
        s.changed(change).not_ready.len() <= usize::MAX ==> s.changed(change).sound(),
        s.changed(change).directory() == (match change {
            Change::Insert(key, service) => s.directory().insert(key, service),
            Change::Remove(key) => s.directory().remove(key),
        }),
        s.ejected(change) == (match change {
            Change::Insert(key, _) | Change::Remove(key) => if s.directory().dom().contains(key) {
                Some(s.directory()[key])
            } else {
                None
            },
        }),
{
    let t = s.changed(change);
    match change {
        Change::Insert(key, service) => {
            lemma_removed(s.ready, key);
            lemma_inserted(s.not_ready, key, service);
            assert(t.directory() =~= s.directory().insert(key, service)) by {
                assert forall|k: u64| #![auto]
                    t.directory().dom().contains(k) == s.directory().insert(
                        key,
                        service,
                    ).dom().contains(k) && (t.directory().dom().contains(k) ==> t.directory()[k]
                        == s.directory().insert(key, service)[k]) by {
                    assert(has_key(t.ready, k) <==> has_key(s.ready, k) && k != key);
                    assert(has_key(t.not_ready, k) <==> has_key(s.not_ready, k) || k == key);
                    assert(service_of(t.ready, k) is Some <==> has_key(t.ready, k));
                    assert(service_of(t.not_ready, k) is Some <==> has_key(t.not_ready, k));
                }
            }
        },
        Change::Remove(key) => {
            lemma_removed(s.ready, key);
            lemma_removed(s.not_ready, key);
            assert(t.directory() =~= s.directory().remove(key)) by {
                assert forall|k: u64| #![auto]
                    t.directory().dom().contains(k) == s.directory().remove(key).dom().contains(k)
                        && (t.directory().dom().contains(k) ==> t.directory()[k]
                        == s.directory().remove(key)[k]) by {
                    assert(service_of(t.ready, k) is Some <==> has_key(t.ready, k));
                    assert(service_of(t.not_ready, k) is Some <==> has_key(t.not_ready, k));
                    assert(service_of(s.ready, k) is Some <==> has_key(s.ready, k));
                    assert(has_key(removed(s.ready, key), k) <==> has_key(s.ready, k) && k != key);
                    assert(has_key(removed(s.not_ready, key), k) <==> has_key(s.not_ready, k) && k
                        != key);
                }
            }
        },
    }
}

/// The endpoints that were polled for their end and are not there yet, in their order.
pub open spec fn still_open<T>(s: Seq<(u64, u64)>, polled: Seq<Poll<(), T>>) -> Seq<(u64, u64)>
    decreases s.len(),
{
    if s.len() == 0 {
        Seq::empty()
    } else {
        let before = still_open(s.drop_last(), polled.drop_last());
        if polled.last() == Ok::<Async<()>, T>(Async::NotReady) {
            before.push(s.last())
        } else {
            before
        }
    }
}

/// The index in `after` of the endpoint that has this index in `before`, if it is still there.
pub open spec fn reindexed(
    before: Seq<(u64, u64)>,
    after: Seq<(u64, u64)>,
    index: Option<usize>,
) -> Option<usize> {
    match index {
        Some(index) => if has_key(after, before[index as int].0) {
            Some(position(after, before[index as int].0) as usize)
        } else {
            None
        },
        None => None,
    }
}

/// The balancer after its services have been polled for their end. The indices that it holds follow
/// their services, and are given up where those are gone.
pub open spec fn closed<T>(s: State, polled: Seq<Poll<(), T>>) -> State {
    let ready = still_open(s.ready, polled.take(s.ready.len() as int));
    State {
        ready,
        not_ready: still_open(s.not_ready, polled.skip(s.ready.len() as int)),
        chosen: reindexed(s.ready, ready, s.chosen),
        dispatched: reindexed(s.ready, ready, s.dispatched),
        stage: Stage::Idle,
    }
}

/// The last of the errors, if there is one.
pub open spec fn last_error<T>(polled: Seq<Poll<(), T>>) -> Option<T>
    decreases polled.len(),
{
    if polled.len() == 0 {
        None
    } else {
        match polled.last() {
            Err(why) => Some(why),
            Ok(_) => last_error(polled.drop_last()),
        }
    }
}

/// The endpoints that are still open are those whose keys are kept.
pub proof fn lemma_still_open<T>(s: Seq<(u64, u64)>, polled: Seq<Poll<(), T>>, kept: Set<u64>)
    requires
        s.len() == polled.len(),
        forall|i: int|
            0 <= i < s.len() ==> (kept.contains((#[trigger] s[i]).0) <==> polled[i] == Ok::<
                Async<()>,
                T,
            >(Async::NotReady)),
    ensures
        s.filter(|entry: (u64, u64)| kept.contains(entry.0)) == still_open(s, polled),
        still_open(s, polled).len() <= s.len(),
    decreases s.len(),
{
    reveal(Seq::filter);
    if s.len() > 0 {
        lemma_still_open(s.drop_last(), polled.drop_last(), kept);
        assert(s.last() == s[s.len() - 1]);
    }
}

/// What is still open was there before, and no key occurs twice in it where none did.
pub proof fn lemma_still_open_subset<T>(s: Seq<(u64, u64)>, polled: Seq<Poll<(), T>>)
    requires
        s.len() == polled.len(),
        distinct(s),
    ensures
        distinct(still_open(s, polled)),
        forall|key: u64| #[trigger] has_key(still_open(s, polled), key) ==> has_key(s, key),
    decreases s.len(),
{
    if s.len() > 0 {
        let r = still_open(s, polled);
        let before = still_open(s.drop_last(), polled.drop_last());
        lemma_still_open_subset(s.drop_last(), polled.drop_last());
        assert forall|key: u64| #[trigger] has_key(s.drop_last(), key) implies has_key(s, key)
            && key != s.last().0 by {
            let p = position(s.drop_last(), key);
            assert(s[p].0 == key);
            assert(s[p].0 != s[s.len() - 1].0);
        }
        assert forall|key: u64| #[trigger] has_key(r, key) implies has_key(s, key) by {
            let p = position(r, key);
            if p < before.len() {
                assert(before[p].0 == key);
                assert(has_key(before, key));
                assert(has_key(s.drop_last(), key));
            } else {
                assert(s[s.len() - 1].0 == key);
            }
        }
        assert forall|i: int, j: int| 0 <= i < j < r.len() implies (#[trigger] r[i]).0 != (
        #[trigger] r[j]).0 by {
            assert(before[i] == r[i]);
            assert(has_key(before, before[i].0));
            assert(has_key(s.drop_last(), before[i].0));
            if j < before.len() {
                assert(before[j] == r[j]);
            }
        }
    }
}

} // verus!
