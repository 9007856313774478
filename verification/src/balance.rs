//! The balancer.
use crate::chooser::{
    replicas, seed_from, seeds, Choice, Choose, PowerOfTwoChoices, RoundRobin, SeedError,
};
use crate::endpoints::{
    entries, has_key, position, table_default, table_get_index, table_get_index_of,
    table_insert, table_is_empty, table_len, table_remove, table_retain, table_swap_remove_index,
};
use crate::error::Error;
use crate::model::{
    closed, last_error, lemma_changed, lemma_demoted, lemma_promoted, lemma_same_key,
    lemma_still_open, lemma_still_open_subset, turn_of, Stage, State, Turn,
};
use crate::poll::{Async, Change, Poll, Reply, Request, Step};
use crate::steps::law_last_failure_counts;
use indexmap::IndexMap;
use rand::rngs::SmallRng;
use rand::Error as RngError;
use std::collections::HashSet;
use vstd::prelude::*;

verus! {

/// Balances requests across a set of inner services.
#[derive(Debug)]
pub struct Balance<D, C> {
    /// Provides endpoints from service discovery.
    discover: D,
    /// Determines which endpoint is ready to be used next.
    choose: C,
    /// Holds an index into `ready`, indicating the service that has been chosen to dispatch the
    /// next request.
    chosen_ready_index: Option<usize>,
    /// Holds an index into `ready`, indicating the service that dispatched the last request.
    dispatched_ready_index: Option<usize>,
    /// Holds all possibly-available endpoints (i.e. from `discover`).
    ready: IndexMap<u64, u64>,
    /// Newly-added endpoints that have not yet become ready.
    not_ready: IndexMap<u64, u64>,
    /// What the balancer is waiting for.
    stage: Stage,
}

impl<D, C> View for Balance<D, C> {
    type V = State;

    closed spec fn view(&self) -> State {
        State {
            ready: entries(self.ready),
            not_ready: entries(self.not_ready),
            chosen: self.chosen_ready_index,
            dispatched: self.dispatched_ready_index,
            stage: self.stage,
        }
    }
}

impl<D> Balance<D, PowerOfTwoChoices> {
    /// Chooses services using the [Power of Two Choices][p2c].
    ///
    /// This configuration is preferred when a load metric is known.
    ///
    /// Two services are picked at random from the set of ready endpoints, and the least loaded of
    /// the two is selected. By repeatedly using this strategy, we can expect a manageable upper
    /// bound on the maximum load of any server. The services are picked with `rng`, which its host
    /// has seeded.
    ///
    /// [p2c]: http://www.eecs.harvard.edu/~michaelm/postscripts/handbook2001.pdf
    pub fn p2c(discover: D, rng: SmallRng) -> (balance: Self)
        ensures
            balance@ == State::fresh(),
            balance@.wf(),
            balance.source() == discover,
            balance.strategy().rng() == rng,
    {
        Self::new(discover, PowerOfTwoChoices::new(rng))
    }

    /// Initializes a P2C load balancer from the provided randomization source.
    ///
    /// This may be preferable when an application instantiates many balancers.
    pub fn p2c_with_rng(discover: D, rng: &mut SmallRng) -> (balance: Result<Self, SeedError>)
        ensures
            balance matches Ok(balance) && {
                &&& balance@ == State::fresh()
                &&& balance@.wf()
                &&& balance.source() == discover
                &&& seeds(*old(rng), Ok(balance.strategy().rng()), *final(rng))
            },
    {
        Self::p2c_seeded(discover, seed_from(rng))
    }

    /// Initializes a P2C load balancer with the generator that was seeded for it, if it was.
    pub fn p2c_seeded(discover: D, seeded: Result<SmallRng, RngError>) -> (balance: Result<
        Self,
        SeedError,
    >)
        ensures
            match seeded {
                Ok(rng) => balance matches Ok(balance) && {
                    &&& balance@ == State::fresh()
                    &&& balance@.wf()
                    &&& balance.source() == discover
                    &&& balance.strategy().rng() == rng
                },
                Err(why) => balance == Err::<Self, SeedError>(SeedError(why)),
            },
    {
        match seeded {
            Ok(rng) => Ok(Self::p2c(discover, rng)),
            Err(why) => Err(SeedError(why)),
        }
    }
}

impl<D> Balance<D, RoundRobin> {
    /// Attempts to choose services sequentially.
    ///
    /// This configuration is preferred when no load metric is known.
    pub fn round_robin(discover: D) -> (balance: Self)
        ensures
            balance@ == State::fresh(),
            balance@.wf(),
            balance.source() == discover,
            balance.strategy().pos() == 0,
    {
        Self::new(discover, RoundRobin::default())
    }
}

impl<D, C> Balance<D, C> {
    /// The source of services.
    pub closed spec fn source(self) -> D {
        self.discover
    }

    /// The strategy for choosing services.
    pub closed spec fn strategy(self) -> C {
        self.choose
    }

    /// The source of services and the strategy are as they were in `before`.
    pub open spec fn keeps(self, before: Self) -> bool {
        self.source() == before.source() && self.strategy() == before.strategy()
    }

    /// Creates a new balancer.
    pub fn new(discover: D, choose: C) -> (balance: Self)
        ensures
            balance@ == State::fresh(),
            balance@.wf(),
            balance.source() == discover,
            balance.strategy() == choose,
    {
        Balance {
            discover,
            choose,
            chosen_ready_index: None,
            dispatched_ready_index: None,
            ready: table_default(),
            not_ready: table_default(),
            stage: Stage::Idle,
        }
    }

    /// The source of services, to be polled.
    pub fn discover_mut(&mut self) -> (discover: &mut D)
        ensures
            *discover == old(self).source(),
            final(self).source() == *final(discover),
            final(self).strategy() == old(self).strategy(),
            final(self)@ == old(self)@,
    {
        &mut self.discover
    }

    /// The index, among the ready services, of the one that gets the next request.
    pub fn chosen_ready_index(&self) -> (index: Option<usize>)
        ensures
            index == self@.chosen,
    {
        self.chosen_ready_index
    }

    /// The index, among the ready services, of the one that got the last request.
    pub fn dispatched_ready_index(&self) -> (index: Option<usize>)
        ensures
            index == self@.dispatched,
    {
        self.dispatched_ready_index
    }

    /// Returns true iff there are ready services.
    ///
    /// This is not authoritative and is only useful after `poll_ready` has been called.
    pub fn is_ready(&self) -> (ready: bool)
        ensures
            ready == (self@.ready.len() != 0),
    {
        !table_is_empty(&self.ready)
    }

    /// Returns true iff there are no ready services.
    ///
    /// This is not authoritative and is only useful after `poll_ready` has been called.
    pub fn is_not_ready(&self) -> (not_ready: bool)
        ensures
            not_ready == (self@.ready.len() == 0),
    {
        table_is_empty(&self.ready)
    }

    /// Counts the number of services considered to be ready.
    ///
    /// This is not authoritative and is only useful after `poll_ready` has been called.
    pub fn num_ready(&self) -> (count: usize)
        ensures
            count == self@.ready.len(),
    {
        table_len(&self.ready)
    }

    /// Counts the number of services not considered to be ready.
    ///
    /// This is not authoritative and is only useful after `poll_ready` has been called.
    pub fn num_not_ready(&self) -> (count: usize)
        ensures
            count == self@.not_ready.len(),
    {
        table_len(&self.not_ready)
    }

    /// Polls a `ready` service or moves it to `not_ready`, given what polling it returned.
    ///
    /// If the service exists in `ready` and does not poll as ready, it is moved to `not_ready`,
    /// potentially altering the order of `ready` and/or `not_ready`.
    fn poll_ready_index<T, U>(&mut self, index: usize, polled: Poll<(), T>) -> (result: Option<
        Poll<(), Error<T, U>>,
    >)
        ensures
            final(self).keeps(*old(self)),
            index >= old(self)@.ready.len() ==> result is None && final(self)@ == old(self)@,
            index < old(self)@.ready.len() ==> match polled {
                Ok(Async::Ready(_)) => result == Some(
                    Ok::<Async<()>, Error<T, U>>(Async::Ready(())),
                ) && final(self)@ == old(self)@,
                Ok(Async::NotReady) => result == Some(
                    Ok::<Async<()>, Error<T, U>>(Async::NotReady),
                ) && final(self)@ == old(self)@.demoted(index) && final(self)@.not_ready.len()
                    <= usize::MAX,
                Err(why) => result == Some(
                    Err::<Async<()>, Error<T, U>>(Error::Inner(why)),
                ) && final(self)@ == old(self)@,
            },
    {
        match table_get_index(&self.ready, index) {
            None => return None,
            Some(_) => match polled {
                Ok(Async::Ready(())) => return Some(Ok(Async::Ready(()))),
                Err(why) => return Some(Err(Error::Inner(why))),
                Ok(Async::NotReady) => {},
            },
        }
        let (key, service) = table_swap_remove_index(&mut self.ready, index).expect(
            "invalid ready index",
        );
        let _ = table_insert(&mut self.not_ready, key, service);
        Some(Ok(Async::NotReady))
    }

    /// Takes the chosen service for a request. The host has to dispatch the request to it.
    pub fn call(&mut self) -> (service: u64)
        requires
            old(self)@.wf(),
            old(self)@.chosen is Some,
        ensures
            final(self)@.wf(),
            final(self).keeps(*old(self)),
            final(self)@ == old(self)@.called(),
            service == old(self)@.ready[old(self)@.chosen->0 as int].1,
    {
        let index = self.chosen_ready_index.take().expect("not ready");
        let (_, service) = table_get_index(&self.ready, index).expect("invalid chosen ready index");
        self.dispatched_ready_index = Some(index);
        service
    }

    /// Asks for the progress of the service at `index` of `ready` or of `not_ready`, or of the next
    /// one after it, if there is any.
    fn serve_next<T, U>(&mut self, ready: bool, index: usize, any_not_ready: bool) -> (step: Step<
        T,
        U,
    >)
        requires
            old(self)@.sound(),
            old(self)@.indexed(),
            ready ==> index <= old(self)@.ready.len(),
            !ready ==> index <= old(self)@.not_ready.len(),
        ensures
            final(self)@.wf(),
            final(self).keeps(*old(self)),
            ({
                let pos = (if ready {
                    0
                } else {
                    old(self)@.ready.len() as int
                }) + index;
                let (state, turn) = old(self)@.serving::<T, U>(pos, any_not_ready);
                &&& final(self)@ == state
                &&& turn_of(step) == turn
            }),
    {
        let mut index = index;
        if ready {
            if let Some((_, service)) = table_get_index(&self.ready, index) {
                self.stage = Stage::Serving { ready: true, index, any_not_ready };
                return Step::Ask(Request::PollService(service));
            }
            index = 0;
        }
        if let Some((_, service)) = table_get_index(&self.not_ready, index) {
            self.stage = Stage::Serving { ready: false, index, any_not_ready };
            return Step::Ask(Request::PollService(service));
        }
        self.stage = Stage::Idle;
        if any_not_ready {
            Step::Done(Ok(Async::NotReady))
        } else {
            Step::Done(Ok(Async::Ready(())))
        }
    }

    /// Lets every service make progress, the ready ones first.
    ///
    /// Every service has to be polled by way of [`Balance::resume_service`] until that is done.
    pub fn poll_service<T, U>(&mut self) -> (step: Step<T, U>)
        requires
            old(self)@.wf(),
        ensures
            final(self)@.wf(),
            final(self).keeps(*old(self)),
            final(self)@ == old(self)@.serving::<T, U>(0, false).0,
            turn_of(step) == old(self)@.serving::<T, U>(0, false).1,
    {
        self.serve_next(true, 0, false)
    }

    /// Goes on with what [`Balance::poll_service`] began, given what polling the service returned.
    pub fn resume_service<T, U>(&mut self, polled: Poll<(), T>) -> (step: Step<T, U>)
        requires
            old(self)@.wf(),
            old(self)@.stage is Serving,
        ensures
            final(self)@.wf(),
            final(self).keeps(*old(self)),
            final(self)@ == old(self)@.served::<T, U>(polled).0,
            turn_of(step) == old(self)@.served::<T, U>(polled).1,
            polled matches Err(why) ==> step == Step::<T, U>::Done(Err(Error::Inner(why))),
    {
        match polled {
            Err(why) => {
                self.stage = Stage::Idle;
                Step::Done(Err(Error::Inner(why)))
            },
            Ok(polled) => match self.stage {
                Stage::Serving { ready, index, any_not_ready } => self.serve_next(
                    ready,
                    index + 1,
                    any_not_ready || !polled.is_ready(),
                ),
                _ => vstd::pervasive::unreached(),
            },
        }
    }

    /// All services, the ready ones first.
    pub fn services(&self) -> (services: Vec<u64>)
        ensures
            services@ == self@.endpoints().map_values(|entry: (u64, u64)| entry.1),
            services@.len() == self@.ready.len() + self@.not_ready.len(),
            forall|i: int|
                0 <= i < self@.ready.len() ==> #[trigger] services@[i] == self@.ready[i].1,
            forall|i: int|
                0 <= i < self@.not_ready.len() ==> services@[self@.ready.len() + i] == (
                #[trigger] self@.not_ready[i]).1,
    {
        let n = table_len(&self.ready);
        let m = table_len(&self.not_ready);
        let mut services: Vec<u64> = Vec::new();
        let ghost all = self@.endpoints().map_values(|entry: (u64, u64)| entry.1);
        for i in 0..n
            invariant
                n == self@.ready.len(),
                all == self@.endpoints().map_values(|entry: (u64, u64)| entry.1),
                services@ == all.take(i as int),
        {
            let (_, service) = table_get_index(&self.ready, i).expect("invalid ready index");
            services.push(service);
        }
        for i in 0..m
            invariant
                n == self@.ready.len(),
                m == self@.not_ready.len(),
                all == self@.endpoints().map_values(|entry: (u64, u64)| entry.1),
                services@ == all.take(n + i as int),
        {
            let (_, service) = table_get_index(&self.not_ready, i).expect(
                "invalid not_ready index",
            );
            services.push(service);
        }
        services
    }

    /// The key of the service at an index of `ready`.
    fn key_of_ready(&self, index: Option<usize>) -> (key: Option<u64>)
        requires
            index matches Some(index) ==> index < self@.ready.len(),
        ensures
            key == (match index {
                Some(index) => Some(self@.ready[index as int].0),
                None => None,
            }),
    {
        match index {
            Some(index) => {
                let (key, _) = table_get_index(&self.ready, index).expect("invalid ready index");
                Some(key)
            },
            None => None,
        }
    }

    /// The index into `ready` of the service with a key, if it is there.
    fn index_of_ready(&self, key: Option<u64>) -> (index: Option<usize>)
        ensures
            index == (match key {
                Some(key) => if has_key(self@.ready, key) {
                    Some(position(self@.ready, key) as usize)
                } else {
                    None
                },
                None => None,
            }),
    {
        match key {
            Some(key) => table_get_index_of(&self.ready, key),
            None => None,
        }
    }

    /// Given what polling every service for its end returned, in the order of
    /// [`Balance::services`], drops all services but those that are not there yet. A service that
    /// was chosen, or that got the last request, stays so if it is not dropped.
    pub fn poll_close<T, U>(&mut self, polled: Vec<Poll<(), T>>) -> (result: Poll<
        (),
        Error<T, U>,
    >)
        requires
            old(self)@.wf(),
            polled@.len() == old(self)@.endpoints().len(),
        ensures
            final(self)@.wf(),
            final(self).keeps(*old(self)),
            final(self)@ == closed(old(self)@, polled@),
            result == (match last_error(polled@) {
                Some(why) => Err::<Async<()>, Error<T, U>>(Error::Inner(why)),
                None => if final(self)@.endpoints().len() == 0 {
                    Ok(Async::Ready(()))
                } else {
                    Ok(Async::NotReady)
                },
            }),
            match result {
                Err(Error::Inner(why)) => exists|i: int|
                    {
                        &&& 0 <= i < polled@.len()
                        &&& #[trigger] polled@[i] == Err::<Async<()>, T>(why)
                        &&& forall|j: int| i < j < polled@.len() ==> (#[trigger] polled@[j]) is Ok
                    },
                Err(_) => false,
                Ok(end) => {
                    &&& forall|i: int| 0 <= i < polled@.len() ==> (#[trigger] polled@[i]) is Ok
                    &&& end is Ready <==> final(self)@.ready.len() == 0
                        && final(self)@.not_ready.len() == 0
                },
            },
    {
        broadcast use vstd::std_specs::hash::group_hash_axioms;

        let ghost all = self@.endpoints();
        let ghost before = polled@;
        let n = table_len(&self.ready);
        let mut polled = polled;
        let mut kept: HashSet<u64> = HashSet::new();
        let mut error: Option<T> = None;
        loop
            invariant
                self@ == old(self)@,
                self.keeps(*old(self)),
                all == self@.endpoints(),
                n == self@.ready.len(),
                before.len() == all.len(),
                polled@ == before.take(polled@.len() as int),
                polled@.len() <= before.len(),
                last_error(before) == (match error {
                    Some(why) => Some(why),
                    None => last_error(polled@),
                }),
                forall|key: u64| #[trigger]
                    kept@.contains(key) <==> open_under(all, before, polled@.len() as int, key),
            ensures
                polled@.len() == 0,
            decreases polled@.len(),
        {
            let ghost last = polled@;
            let ghost kept_before = kept@;
            match polled.pop() {
                None => break,
                Some(Ok(Async::Ready(()))) => {},
                Some(Ok(Async::NotReady)) => {
                    let i = polled.len();
                    let entry = if i < n {
                        table_get_index(&self.ready, i)
                    } else {
                        table_get_index(&self.not_ready, i - n)
                    };
                    let (key, _) = entry.expect("invalid index");
                    kept.insert(key);
                },
                Some(Err(why)) => {
                    if error.is_none() {
                        error = Some(why);
                    }
                },
            }
            proof {
                let i = polled@.len() as int;
                assert(last.drop_last() == polled@);
                assert(last.last() == before[i]);
                assert forall|key: u64| #[trigger] kept@.contains(key) <==> open_under(
                    all,
                    before,
                    i,
                    key,
                ) by {
                    let here = all[i].0 == key && before[i] == Ok::<Async<()>, T>(Async::NotReady);
                    assert(kept@.contains(key) <==> kept_before.contains(key) || here);
                    if open_under(all, before, i + 1, key) {
                        let j = choose|j: int|
                            i + 1 <= j < all.len() && (#[trigger] all[j]).0 == key && before[j]
                                == Ok::<Async<()>, T>(Async::NotReady);
                        assert(all[j].0 == key);
                    }
                }
            }
        }
        proof {
            let ready = old(self)@.ready;
            let not_ready = old(self)@.not_ready;
            assert forall|i: int| 0 <= i < all.len() implies (kept@.contains((#[trigger] all[i]).0)
                <==> before[i] == Ok::<Async<()>, T>(Async::NotReady)) by {
                lemma_same_key(old(self)@, i);
                if kept@.contains(all[i].0) {
                    let j = choose|j: int|
                        0 <= j < all.len() && (#[trigger] all[j]).0 == all[i].0 && before[j]
                            == Ok::<Async<()>, T>(Async::NotReady);
                    assert(j == i);
                }
            }
            assert forall|i: int| 0 <= i < ready.len() implies (kept@.contains(
                (#[trigger] ready[i]).0,
            ) <==> before.take(n as int)[i] == Ok::<Async<()>, T>(Async::NotReady)) by {
                assert(all[i] == ready[i]);
            }
            assert forall|i: int| 0 <= i < not_ready.len() implies (kept@.contains(
                (#[trigger] not_ready[i]).0,
            ) <==> before.skip(n as int)[i] == Ok::<Async<()>, T>(Async::NotReady)) by {
                assert(all[n + i] == not_ready[i]);
            }
            law_last_failure_counts(before);
            lemma_still_open(ready, before.take(n as int), kept@);
            lemma_still_open(not_ready, before.skip(n as int), kept@);
            lemma_still_open_subset(ready, before.take(n as int));
            lemma_still_open_subset(not_ready, before.skip(n as int));
        }
        let chosen = self.key_of_ready(self.chosen_ready_index);
        let dispatched = self.key_of_ready(self.dispatched_ready_index);
        self.stage = Stage::Idle;
        table_retain(&mut self.ready, &kept);
        table_retain(&mut self.not_ready, &kept);
        self.chosen_ready_index = self.index_of_ready(chosen);
        self.dispatched_ready_index = self.index_of_ready(dispatched);
        if let Some(why) = error {
            return Err(Error::Inner(why));
        }
        if table_is_empty(&self.ready) && table_is_empty(&self.not_ready) {
            Ok(Async::Ready(()))
        } else {
            Ok(Async::NotReady)
        }
    }
}

/// From `from` on, an endpoint with this key was polled for its end and is not there yet.
spec fn open_under<T>(
    all: Seq<(u64, u64)>,
    polled: Seq<Poll<(), T>>,
    from: int,
    key: u64,
) -> bool {
    exists|j: int|
        from <= j < all.len() && (#[trigger] all[j]).0 == key && polled[j] == Ok::<Async<()>, T>(
            Async::NotReady,
        )
}

impl<D, C: Choose> Balance<D, C> {
    /// The balancer has gone from a strategy `before` to its present state and said `step`, where
    /// it had come to `state` and was to go on with `turn`.
    pub open spec fn went<T, U>(
        self,
        before: C,
        state: State,
        turn: Turn<T, U>,
        step: Step<T, U>,
    ) -> bool {
        if turn is Choose {
            exists|choice: Choice|
                {
                    &&& #[trigger] C::chooses(before, state.ready, choice, self.strategy())
                    &&& choice.fits(state.ready.len())
                    &&& self@ == state.chose(choice).0
                    &&& step == Step::<T, U>::Ask(state.chose(choice).1)
                }
        } else {
            &&& self@ == state
            &&& self.strategy() == before
            &&& turn_of(step) == turn
        }
    }

    /// Asks for the readiness of the `ready` service at `index`.
    fn ask_chosen<T, U>(&mut self, index: usize) -> (step: Step<T, U>)
        requires
            index < old(self)@.ready.len(),
        ensures
            final(self).keeps(*old(self)),
            final(self)@ == old(self)@.picked(index).0,
            step == Step::<T, U>::Ask(old(self)@.picked(index).1),
    {
        let (_, service) = table_get_index(&self.ready, index).expect("invalid ready index");
        self.stage = Stage::Choosing(index);
        Step::Ask(Request::PollReady(service))
    }

    /// Chooses the next service to which a request will be dispatched.
    fn choose_and_poll_ready<T, U>(&mut self) -> (step: Step<T, U>)
        requires
            old(self)@.sound(),
            old(self)@.chosen is None,
            old(self)@.dispatched is None,
        ensures
            final(self)@.wf(),
            final(self).source() == old(self).source(),
            final(self).went(
                old(self).strategy(),
                old(self)@.choosing::<T, U>().0,
                old(self)@.choosing::<T, U>().1,
                step,
            ),
    {
        let n = table_len(&self.ready);
        if n == 0 {
            self.stage = Stage::Idle;
            return Step::Done(Ok(Async::NotReady));
        }
        if n == 1 {
            return self.ask_chosen(0);
        }
        let replicas = replicas(&self.ready).expect("too few replicas");
        let choice = self.choose.pick(&replicas);
        let step = match choice {
            Choice::One(index) => self.ask_chosen(index),
            Choice::LighterOf(first, second) => {
                let (_, a) = table_get_index(&self.ready, first).expect("invalid ready index");
                let (_, b) = table_get_index(&self.ready, second).expect("invalid ready index");
                self.stage = Stage::Comparing(first, second);
                Step::Ask(Request::CompareLoads(a, b))
            },
        };
        assert(C::chooses(
            old(self).strategy(),
            old(self)@.choosing::<T, U>().0.ready,
            choice,
            self.strategy(),
        ));
        step
    }

    /// Goes on polling services in `not_ready`, of which the first `count` are left.
    ///
    /// They are polled from right to left to prevent removals from reordering services in a way
    /// that could prevent a service from being polled.
    fn promote_next<T, U>(&mut self, count: usize) -> (step: Step<T, U>)
        requires
            old(self)@.sound(),
            old(self)@.chosen is None,
            old(self)@.dispatched is None,
            count <= old(self)@.not_ready.len(),
        ensures
            final(self)@.wf(),
            final(self).source() == old(self).source(),
            final(self).went(
                old(self).strategy(),
                old(self)@.promoting::<T, U>(count as int).0,
                old(self)@.promoting::<T, U>(count as int).1,
                step,
            ),
    {
        if count == 0 {
            return self.choose_and_poll_ready();
        }
        let index = count - 1;
        let (_, service) = table_get_index(&self.not_ready, index).expect(
            "invalid not_ready index",
        );
        self.stage = Stage::Promoting(index);
        Step::Ask(Request::PollReady(service))
    }

    /// Moves the service at `index` of `not_ready` to `ready` if it polled as ready, and goes on.
    ///
    /// When a service polls as ready, it is removed from `not_ready` and inserted into `ready`,
    /// potentially altering the order of `ready` and/or `not_ready`.
    fn promote_to_ready<T, U>(&mut self, index: usize, polled: Poll<(), T>) -> (step: Step<T, U>)
        requires
            old(self)@.wf(),
            old(self)@.stage == Stage::Promoting(index),
        ensures
            final(self)@.wf(),
            final(self).source() == old(self).source(),
            final(self).went(
                old(self).strategy(),
                old(self)@.advanced::<T, U>(Reply::Ready(polled)).0,
                old(self)@.advanced::<T, U>(Reply::Ready(polled)).1,
                step,
            ),
    {
        match polled {
            Err(why) => {
                self.stage = Stage::Idle;
                return Step::Done(Err(Error::Inner(why)));
            },
            Ok(Async::Ready(())) => {
                let (key, service) = table_swap_remove_index(&mut self.not_ready, index).expect(
                    "invalid not_ready index",
                );
                let _ = table_insert(&mut self.ready, key, service);
                proof {
                    lemma_promoted(old(self)@, index);
                }
            },
            Ok(Async::NotReady) => {},
        }
        self.promote_next(index)
    }

    /// Takes over a change in the set of services, adding new ones to `not_ready`.
    ///
    /// Removals may alter the order of either `ready` or `not_ready`.
    fn update_from_discover<T, U>(&mut self, polled: Poll<Change, U>) -> (step: Step<T, U>)
        requires
            old(self)@.wf(),
            old(self)@.stage is Discovering,
        ensures
            final(self)@.wf(),
            final(self).source() == old(self).source(),
            final(self).went(
                old(self).strategy(),
                old(self)@.advanced::<T, U>(Reply::Discover(polled)).0,
                old(self)@.advanced::<T, U>(Reply::Discover(polled)).1,
                step,
            ),
    {
        let change = match polled {
            Err(why) => {
                self.stage = Stage::Idle;
                return Step::Done(Err(Error::Balance(why)));
            },
            Ok(Async::NotReady) => {
                let n = table_len(&self.not_ready);
                return self.promote_next(n);
            },
            Ok(Async::Ready(change)) => change,
        };
        let ejected = match change {
            Change::Insert(key, service) => {
                // If the inserted service is a duplicate of a service already in the ready list,
                // the ready service is removed first. The new service is then inserted into the
                // not-ready list.
                let ready = table_remove(&mut self.ready, key);
                let not_ready = table_insert(&mut self.not_ready, key, service);
                match ready {
                    None => not_ready,
                    Some(service) => Some(service),
                }
            },
            Change::Remove(key) => match table_remove(&mut self.ready, key) {
                None => table_remove(&mut self.not_ready, key),
                Some(service) => Some(service),
            },
        };
        proof {
            lemma_changed(old(self)@, change);
            assert(self@ == old(self)@.changed(change));
        }
        Step::Ask(Request::PollDiscover { ejected })
    }

    /// Given the readiness of the service that got the last request, turns to the set of services.
    fn check_dispatched<T, U>(&mut self, index: usize, polled: Poll<(), T>) -> (step: Step<T, U>)
        requires
            old(self)@.wf(),
            old(self)@.stage == Stage::Dispatched(index),
        ensures
            final(self)@.wf(),
            final(self).source() == old(self).source(),
            final(self).went(
                old(self).strategy(),
                old(self)@.advanced::<T, U>(Reply::Ready(polled)).0,
                old(self)@.advanced::<T, U>(Reply::Ready(polled)).1,
                step,
            ),
    {
        match self.poll_ready_index(index, polled).expect("invalid dispatched ready key") {
            Err(why) => {
                self.stage = Stage::Idle;
                Step::Done(Err(why))
            },
            Ok(_) => {
                proof {
                    lemma_demoted(old(self)@, index);
                }
                self.stage = Stage::Discovering;
                Step::Ask(Request::PollDiscover { ejected: None })
            },
        }
    }

    /// Given the readiness of the service at `index` of `ready`, settles on it or chooses again.
    fn check_chosen<T, U>(&mut self, index: usize, polled: Poll<(), T>) -> (step: Step<T, U>)
        requires
            old(self)@.wf(),
            old(self)@.stage == Stage::Choosing(index),
        ensures
            final(self)@.wf(),
            final(self).source() == old(self).source(),
            final(self).went(
                old(self).strategy(),
                old(self)@.advanced::<T, U>(Reply::Ready(polled)).0,
                old(self)@.advanced::<T, U>(Reply::Ready(polled)).1,
                step,
            ),
    {
        match self.poll_ready_index(index, polled).expect("invalid ready index") {
            Err(why) => {
                self.stage = Stage::Idle;
                Step::Done(Err(why))
            },
            Ok(Async::Ready(())) => {
                self.chosen_ready_index = Some(index);
                self.stage = Stage::Idle;
                Step::Done(Ok(Async::Ready(())))
            },
            Ok(Async::NotReady) => {
                proof {
                    lemma_demoted(old(self)@, index);
                }
                self.choose_and_poll_ready()
            },
        }
    }

    /// Prepares the balancer to process a request.
    ///
    /// Every service has to be polled by way of [`Balance::resume`] until that is done. When it is
    /// done with `Async::Ready`, a service that is ready to dispatch a request has been chosen.
    pub fn poll_ready(&mut self) -> (request: Request)
        requires
            old(self)@.wf(),
        ensures
            final(self)@.wf(),
            final(self).keeps(*old(self)),
            final(self)@ == old(self)@.begun().0,
            request == old(self)@.begun().1,
    {
        // Clear before `ready` is altered.
        self.chosen_ready_index = None;
        // Before `ready` is altered, check the readiness of the last-used service, moving it to
        // `not_ready` if appropriate.
        if let Some(index) = self.dispatched_ready_index.take() {
            let (_, service) = table_get_index(&self.ready, index).expect(
                "invalid dispatched ready key",
            );
            self.stage = Stage::Dispatched(index);
            return Request::PollReady(service);
        }
        self.stage = Stage::Discovering;
        Request::PollDiscover { ejected: None }
    }

    /// Goes on with what [`Balance::poll_ready`] began, given what came of the last request.
    pub fn resume<T, U>(&mut self, reply: Reply<T, U>) -> (step: Step<T, U>)
        requires
            old(self)@.wf(),
            old(self)@.expects(reply),
        ensures
            final(self)@.wf(),
            final(self).source() == old(self).source(),
            final(self).went(
                old(self).strategy(),
                old(self)@.advanced(reply).0,
                old(self)@.advanced(reply).1,
                step,
            ),
            step matches Step::Done(Ok(Async::Ready(_))) ==> {
                &&& final(self)@.chosen is Some
                &&& final(self)@.dispatched is None
            },
            step matches Step::Done(Ok(Async::NotReady)) ==> final(self)@.ready.len() == 0,
    {
        match reply {
            Reply::Discover(polled) => self.update_from_discover(polled),
            Reply::FirstNoHeavier(no_heavier) => match self.stage {
                Stage::Comparing(first, second) => self.ask_chosen(
                    if no_heavier {
                        first
                    } else {
                        second
                    },
                ),
                _ => vstd::pervasive::unreached(),
            },
            Reply::Ready(polled) => match self.stage {
                Stage::Dispatched(index) => self.check_dispatched(index, polled),
                Stage::Promoting(index) => self.promote_to_ready(index, polled),
                Stage::Choosing(index) => self.check_chosen(index, polled),
                _ => vstd::pervasive::unreached(),
            },
        }
    }
}

} // verus!
