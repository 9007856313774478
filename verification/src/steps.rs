//! What each step of a balancer does to its services, and what the balancer says to it.
use crate::balance::Balance;
use crate::chooser::{Choice, Choose};
use crate::endpoints::{has_key, lemma_entry, position};
use crate::error::Error;
use crate::laws::{law_resume_is_a_step, stepped};
use crate::model::{
    closed, last_error, lemma_demoted, lemma_promoted, lemma_same_key, lemma_still_open, turn_of,
    Stage, State, Turn,
};
use crate::passes::{lemma_progress, progress, run, said};
use crate::poll::{Async, Change, Poll, Reply, Request, Step};
use vstd::prelude::*;

verus! {

/// `after` is `before` without its entry at `i`, whose place the last entry has taken.
pub open spec fn without(before: Seq<(u64, u64)>, i: int, after: Seq<(u64, u64)>) -> bool {
    &&& after.len() + 1 == before.len()
    &&& forall|j: int|
        0 <= j < after.len() ==> #[trigger] after[j] == (if j == i {
            before[before.len() - 1]
        } else {
            before[j]
        })
}

/// No entry has this key.
pub open spec fn lacks(s: Seq<(u64, u64)>, key: u64) -> bool {
    forall|i: int| 0 <= i < s.len() ==> (#[trigger] s[i]).0 != key
}

/// Both tables hold what they held, in the same order.
pub open spec fn same_tables(s: State, t: State) -> bool {
    t.ready == s.ready && t.not_ready == s.not_ready
}

/// The ready service at `i` has been put behind those that are not ready.
pub open spec fn set_back(s: State, i: int, t: State) -> bool {
    without(s.ready, i, t.ready) && t.not_ready == s.not_ready.push(s.ready[i])
}

/// No service is chosen, and none counts as dispatched.
pub open spec fn uncommitted(t: State) -> bool {
    t.chosen is None && t.dispatched is None
}

/// The search for a ready service has begun: it is over where there is none, asks the only one
/// where there is one, and does what the strategy chooses where there are more.
pub open spec fn searches<T, U>(t: State, choice: Choice, step: Step<T, U>) -> bool {
    if t.ready.len() == 0 {
        &&& step == Step::<T, U>::Done(Ok(Async::NotReady))
        &&& t.stage is Idle
    } else if t.ready.len() == 1 {
        &&& step == Step::<T, U>::Ask(Request::PollReady(t.ready[0].1))
        &&& t.stage == Stage::Choosing(0)
    } else {
        match choice {
            Choice::One(i) => {
                &&& step == Step::<T, U>::Ask(Request::PollReady(t.ready[i as int].1))
                &&& t.stage == Stage::Choosing(i)
            },
            Choice::LighterOf(i, j) => {
                &&& step == Step::<T, U>::Ask(
                    Request::CompareLoads(t.ready[i as int].1, t.ready[j as int].1),
                )
                &&& t.stage == Stage::Comparing(i, j)
            },
        }
    }
}

/// The reply leads to a search for a ready service: there is nothing more to be told by discovery
/// and no service left to be promoted, or the service that was chosen is not ready.
pub open spec fn leads_to_search<T, U>(s: State, reply: Reply<T, U>) -> bool {
    match reply {
        Reply::Discover(Ok(Async::NotReady)) => s.stage is Discovering && s.not_ready.len() == 0,
        Reply::Ready(Ok(polled)) => s.stage == Stage::Promoting(0) || (s.stage is Choosing
            && polled is NotReady),
        _ => false,
    }
}

/// A new balancer knows of no service, has chosen none, and waits for nothing.
pub proof fn law_new_balancer()
    ensures
        State::fresh().ready.len() == 0,
        State::fresh().not_ready.len() == 0,
        uncommitted(State::fresh()),
        State::fresh().stage is Idle,
{
}

/// A balancer keeps what it is made of iff it keeps its source of services and its strategy.
pub proof fn law_source_and_strategy_are_kept<D, C>(before: Balance<D, C>, after: Balance<D, C>)
    ensures
        after.keeps(before) <==> after.source() == before.source() && after.strategy()
            == before.strategy(),
{
}

/// The endpoints of a balancer are the ready ones and then the others.
pub proof fn law_ready_come_first(s: State)
    ensures
        s.endpoints() == s.ready + s.not_ready,
{
}

/// When a balancer is asked for its readiness, it gives up what it had chosen and moves no service.
/// It first asks for the readiness of the service that got the last request, and turns to discovery
/// at once where there is none.
pub proof fn law_poll_begins(s: State)
    requires
        s.wf(),
    ensures
        ({
            let (t, request) = s.begun();
            &&& same_tables(s, t)
            &&& uncommitted(t)
            &&& match s.dispatched {
                Some(i) => {
                    &&& request == Request::PollReady(s.ready[i as int].1)
                    &&& t.stage == Stage::Dispatched(i)
                },
                None => {
                    &&& request == Request::PollDiscover { ejected: None }
                    &&& t.stage is Discovering
                },
            }
        }),
{
}

/// A request goes to the chosen service, which counts as dispatched from then on and is chosen no
/// longer. No service is moved.
pub proof fn law_request_is_recorded(s: State)
    requires
        s.wf(),
    ensures
        ({
            let t = s.called();
            &&& same_tables(s, t)
            &&& t.chosen is None
            &&& t.dispatched == s.chosen
            &&& t.stage == s.stage
        }),
{
}

/// The service that got the last request is put behind those that are not ready if it answers that
/// it is not, however many services are ready, and stays where it is if it answers that it is. No
/// other service is touched, and discovery is next either way.
pub proof fn law_last_used_is_checked<T, U>(
    s: State,
    index: usize,
    polled: Async<()>,
    choice: Choice,
)
    requires
        s.wf(),
        s.stage == Stage::Dispatched(index),
    ensures
        ({
            let (t, step) = stepped::<T, U>(s, Reply::Ready(Ok(polled)), choice);
            &&& step == Step::<T, U>::Ask(Request::PollDiscover { ejected: None })
            &&& t.stage is Discovering
            &&& uncommitted(t)
            &&& match polled {
                Async::Ready(_) => same_tables(s, t),
                Async::NotReady => {
                    &&& set_back(s, index as int, t)
                    &&& !t.ready.contains(s.ready[index as int])
                    &&& t.not_ready.contains(s.ready[index as int])
                },
            }
        }),
{
    let (t, step) = stepped::<T, U>(s, Reply::Ready(Ok(polled)), choice);
    let entry = s.ready[index as int];
    lemma_demoted(s, index);
    if polled is NotReady {
        assert(t.not_ready[s.not_ready.len() as int] == entry);
        if t.ready.contains(entry) {
            let j = t.ready.index_of(entry);
            let k = if j == index {
                s.ready.len() - 1
            } else {
                j
            };
            assert(s.ready[k] == entry);
            lemma_entry(s.ready, k);
            lemma_entry(s.ready, index as int);
        }
    }
}

/// Whatever services a balancer has, a change that discovery tells of is answered by polling
/// discovery again, and the balancer goes on waiting for it. The change is made under its key and
/// under no other: a service that is inserted takes the place of one that is not ready and has its
/// key, or comes last among those that are not ready, and a ready service with its key is gone; a
/// service that is removed is gone. The service that had the key, if any, is named as ejected.
pub proof fn law_change_is_taken_over<T, U>(s: State, change: Change, choice: Choice)
    requires
        s.wf(),
        s.stage is Discovering,
    ensures
        ({
            let (t, step) = stepped::<T, U>(
                s,
                Reply::Discover(Ok(Async::Ready(change))),
                choice,
            );
            let key = match change {
                Change::Insert(key, _) => key,
                Change::Remove(key) => key,
            };
            &&& t.stage is Discovering
            &&& uncommitted(t)
            &&& step matches Step::Ask(Request::PollDiscover { ejected }) && {
                &&& forall|i: int|
                    0 <= i < s.ready.len() && (#[trigger] s.ready[i]).0 == key ==> ejected == Some(
                        s.ready[i].1,
                    )
                &&& forall|i: int|
                    0 <= i < s.not_ready.len() && (#[trigger] s.not_ready[i]).0 == key ==> ejected
                        == Some(s.not_ready[i].1)
                &&& lacks(s.ready, key) && lacks(s.not_ready, key) ==> ejected is None
            }
            &&& forall|i: int|
                0 <= i < s.ready.len() && (#[trigger] s.ready[i]).0 == key ==> without(
                    s.ready,
                    i,
                    t.ready,
                )
            &&& lacks(s.ready, key) ==> t.ready == s.ready
            &&& match change {
                Change::Insert(_, service) => {
                    &&& forall|i: int|
                        0 <= i < s.not_ready.len() && (#[trigger] s.not_ready[i]).0 == key
                            ==> t.not_ready == s.not_ready.update(i, (key, service))
                    &&& lacks(s.not_ready, key) ==> t.not_ready == s.not_ready.push((key, service))
                },
                Change::Remove(_) => {
                    &&& forall|i: int|
                        0 <= i < s.not_ready.len() && (#[trigger] s.not_ready[i]).0 == key
                            ==> without(s.not_ready, i, t.not_ready)
                    &&& lacks(s.not_ready, key) ==> t.not_ready == s.not_ready
                },
            }
        }),
{
    let key = match change {
        Change::Insert(key, _) => key,
        Change::Remove(key) => key,
    };
    assert forall|i: int| 0 <= i < s.ready.len() && (#[trigger] s.ready[i]).0 == key implies {
        &&& has_key(s.ready, key)
        &&& position(s.ready, key) == i
    } by {
        lemma_entry(s.ready, i);
    }
    assert forall|i: int|
        0 <= i < s.not_ready.len() && (#[trigger] s.not_ready[i]).0 == key implies {
        &&& has_key(s.not_ready, key)
        &&& position(s.not_ready, key) == i
    } by {
        lemma_entry(s.not_ready, i);
    }
    assert(lacks(s.ready, key) <==> !has_key(s.ready, key));
    assert(lacks(s.not_ready, key) <==> !has_key(s.not_ready, key));
}

/// However many changes discovery has to tell, the balancer goes on polling it, and does not turn
/// to its services before discovery has told that there are no more.
pub proof fn law_changes_are_all_taken_over<T, U>(s: State, replies: Seq<(Reply<T, U>, Choice)>)
    requires
        s.stage is Discovering,
        forall|i: int|
            0 <= i < replies.len() ==> (#[trigger] replies[i]).0 matches Reply::Discover(
                Ok(Async::Ready(_)),
            ),
    ensures
        run(s, replies).stage is Discovering,
        replies.len() > 0 ==> (said(s, replies) matches Step::Ask(Request::PollDiscover { .. })),
    decreases replies.len(),
{
    if replies.len() > 0 {
        let init = replies.drop_last();
        assert forall|i: int| 0 <= i < init.len() implies (
        #[trigger] init[i]).0 matches Reply::Discover(Ok(Async::Ready(_))) by {
            assert(init[i] == replies[i]);
        }
        law_changes_are_all_taken_over(s, init);
        assert(replies[replies.len() - 1] == replies.last());
    }
}

/// Once discovery has no more changes to tell, the last of the services that are not ready is asked
/// for its readiness. Where there is none, a ready service is searched for at once. No service is
/// moved by that.
pub proof fn law_discovery_ends<T, U>(s: State, choice: Choice)
    requires
        s.wf(),
        s.stage is Discovering,
    ensures
        ({
            let (t, step) = stepped::<T, U>(s, Reply::Discover(Ok(Async::NotReady)), choice);
            let n = s.not_ready.len();
            &&& same_tables(s, t)
            &&& uncommitted(t)
            &&& if n > 0 {
                &&& step == Step::<T, U>::Ask(Request::PollReady(s.not_ready[n - 1].1))
                &&& t.stage == Stage::Promoting((n - 1) as usize)
            } else {
                searches(t, choice, step)
            }
        }),
{
}

/// A service that was not ready comes last among the ready ones if it answers that it is ready, and
/// stays where it is if it answers that it is not. The service before it is asked next, which is
/// the one that was there all along; where there is none, a ready service is searched for.
pub proof fn law_promotion_goes_on<T, U>(
    s: State,
    index: usize,
    polled: Async<()>,
    choice: Choice,
)
    requires
        s.wf(),
        s.stage == Stage::Promoting(index),
    ensures
        ({
            let (t, step) = stepped::<T, U>(s, Reply::Ready(Ok(polled)), choice);
            &&& uncommitted(t)
            &&& match polled {
                Async::Ready(_) => {
                    &&& t.ready == s.ready.push(s.not_ready[index as int])
                    &&& without(s.not_ready, index as int, t.not_ready)
                },
                Async::NotReady => same_tables(s, t),
            }
            &&& if index > 0 {
                &&& step == Step::<T, U>::Ask(Request::PollReady(s.not_ready[index - 1].1))
                &&& t.not_ready[index - 1] == s.not_ready[index - 1]
                &&& t.stage == Stage::Promoting((index - 1) as usize)
            } else {
                searches(t, choice, step)
            }
        }),
{
    lemma_promoted(s, index);
}

/// Of two services whose loads were compared, the first is asked if it carries no more load than
/// the second, and the second otherwise. No service is moved.
pub proof fn law_lighter_is_asked<T, U>(
    s: State,
    first: usize,
    second: usize,
    first_no_heavier: bool,
    choice: Choice,
)
    requires
        s.wf(),
        s.stage == Stage::Comparing(first, second),
    ensures
        ({
            let (t, step) = stepped::<T, U>(s, Reply::FirstNoHeavier(first_no_heavier), choice);
            let lighter = if first_no_heavier {
                first
            } else {
                second
            };
            &&& same_tables(s, t)
            &&& uncommitted(t)
            &&& step == Step::<T, U>::Ask(Request::PollReady(s.ready[lighter as int].1))
            &&& t.stage == Stage::Choosing(lighter)
        }),
{
}

/// The service that was asked as the chosen one gets the next request if it answers that it is
/// ready, and the poll is then over. If it answers that it is not, it is put behind those that are
/// not ready, and a ready service is searched for again.
pub proof fn law_chosen_is_checked<T, U>(
    s: State,
    index: usize,
    polled: Async<()>,
    choice: Choice,
)
    requires
        s.wf(),
        s.stage == Stage::Choosing(index),
    ensures
        ({
            let (t, step) = stepped::<T, U>(s, Reply::Ready(Ok(polled)), choice);
            match polled {
                Async::Ready(_) => {
                    &&& step == Step::<T, U>::Done(Ok(Async::Ready(())))
                    &&& same_tables(s, t)
                    &&& t.chosen == Some(index)
                    &&& t.dispatched is None
                    &&& t.stage is Idle
                },
                Async::NotReady => {
                    &&& set_back(s, index as int, t)
                    &&& uncommitted(t)
                    &&& searches(t, choice, step)
                },
            }
        }),
{
    lemma_demoted(s, index);
}

/// Whatever a poll for readiness waits for, a failure ends it at once with that very failure: one
/// of a service as an inner error, one of discovery as an error of the balancer. No service is
/// moved and none is chosen.
pub proof fn law_failure_ends_the_poll<T, U>(s: State, reply: Reply<T, U>, choice: Choice)
    requires
        s.wf(),
        s.expects(reply),
    ensures
        ({
            let (t, step) = stepped(s, reply, choice);
            &&& reply matches Reply::Ready(Err(why)) ==> {
                &&& step == Step::<T, U>::Done(Err(Error::Inner(why)))
                &&& same_tables(s, t)
                &&& uncommitted(t)
                &&& t.stage is Idle
            }
            &&& reply matches Reply::Discover(Err(why)) ==> {
                &&& step == Step::<T, U>::Done(Err(Error::Balance(why)))
                &&& same_tables(s, t)
                &&& uncommitted(t)
                &&& t.stage is Idle
            }
        }),
{
}

/// A poll for readiness waits for one kind of reply at a time: a change in the set of services, the
/// readiness of a service, or a comparison of loads.
pub proof fn law_replies_are_expected<T, U>(s: State, reply: Reply<T, U>)
    ensures
        s.expects(reply) <==> match s.stage {
            Stage::Discovering => reply is Discover,
            Stage::Dispatched(_) | Stage::Promoting(_) | Stage::Choosing(_) => reply is Ready,
            Stage::Comparing(_, _) => reply is FirstNoHeavier,
            Stage::Idle | Stage::Serving { .. } => false,
        },
{
}

/// The strategy is consulted exactly when a search begins among two or more ready services. It then
/// chooses among the services that are ready, and what it chooses is done. Otherwise it is left as
/// it was.
pub proof fn law_strategy_is_consulted<D, C: Choose, T, U>(
    s: State,
    before: C,
    reply: Reply<T, U>,
    after: Balance<D, C>,
    step: Step<T, U>,
)
    requires
        s.wf(),
        s.expects(reply),
        after.went(before, s.advanced(reply).0, s.advanced(reply).1, step),
    ensures
        if leads_to_search(s, reply) && after@.ready.len() >= 2 {
            exists|choice: Choice|
                {
                    &&& #[trigger] C::chooses(before, after@.ready, choice, after.strategy())
                    &&& searches(after@, choice, step)
                    &&& (after@, step) == stepped(s, reply, choice)
                    &&& match choice {
                        Choice::One(i) => i < after@.ready.len(),
                        Choice::LighterOf(i, j) => i < after@.ready.len() && j < after@.ready.len(),
                    }
                }
        } else {
            &&& after.strategy() == before
            &&& forall|choice: Choice| (after@, step) == #[trigger] stepped(s, reply, choice)
        },
{
    law_resume_is_a_step(s, before, reply, after, step);
    let (state, turn) = s.advanced(reply);
    match (s.stage, reply) {
        (Stage::Dispatched(index), _) => {
            lemma_demoted(s, index);
        },
        (Stage::Choosing(index), _) => {
            lemma_demoted(s, index);
        },
        (Stage::Promoting(index), _) => {
            lemma_promoted(s, index);
        },
        _ => {},
    }
    if turn is Choose {
        let choice = choose|choice: Choice|
            {
                &&& #[trigger] C::chooses(before, state.ready, choice, after.strategy())
                &&& choice.fits(state.ready.len())
                &&& after@ == state.chose(choice).0
                &&& step == Step::<T, U>::Ask(state.chose(choice).1)
            };
        assert(after@.ready == state.ready);
        assert(C::chooses(before, after@.ready, choice, after.strategy()));
    }
}

/// What is said is what was meant: a request as that request, a result as that result.
pub proof fn law_step_is_the_turn<T, U>(step: Step<T, U>)
    ensures
        turn_of(step) == (match step {
            Step::Ask(request) => Turn::<T, U>::Ask(request),
            Step::Done(result) => Turn::Done(result),
        }),
{
}

/// Nothing but what the balancer waits for has changed.
pub open spec fn same_but_stage(s: State, t: State) -> bool {
    same_tables(s, t) && t.chosen == s.chosen && t.dispatched == s.dispatched
}

/// Where a balancer is to let its services make progress, the first of all is asked, the ready ones
/// before the others; where there is none, that is done. Nothing else changes.
pub proof fn law_progress_begins<T, U>(s: State)
    requires
        s.wf(),
    ensures
        ({
            let (t, turn) = s.serving::<T, U>(0, false);
            &&& same_but_stage(s, t)
            &&& if s.ready.len() > 0 {
                &&& turn == Turn::<T, U>::Ask(Request::PollService(s.ready[0].1))
                &&& t.stage == Stage::Serving { ready: true, index: 0, any_not_ready: false }
            } else if s.not_ready.len() > 0 {
                &&& turn == Turn::<T, U>::Ask(Request::PollService(s.not_ready[0].1))
                &&& t.stage == Stage::Serving { ready: false, index: 0, any_not_ready: false }
            } else {
                &&& turn == Turn::<T, U>::Done(Ok(Async::Ready(())))
                &&& t.stage is Idle
            }
        }),
{
    if s.ready.len() == 0 && s.not_ready.len() > 0 {
        assert((s.ready + s.not_ready)[0] == s.not_ready[0]);
    }
}

/// In any state that waits for the progress of a service, a failure of that service ends the poll
/// at once with that very failure, whatever the services before it answered. An answer is
/// remembered if it is that the service is not ready, and the service after it is asked, the ready
/// ones before the others; after the last, the result is `NotReady` iff one of the answers was.
/// Nothing else changes.
pub proof fn law_progress_goes_on<T, U>(
    s: State,
    ready: bool,
    index: usize,
    any: bool,
    polled: Poll<(), T>,
)
    requires
        s.wf(),
        s.stage == (Stage::Serving { ready, index, any_not_ready: any }),
    ensures
        ({
            let (t, turn) = s.served::<T, U>(polled);
            &&& same_but_stage(s, t)
            &&& match polled {
                Err(why) => {
                    &&& turn == Turn::<T, U>::Done(Err(Error::Inner(why)))
                    &&& t.stage is Idle
                },
                Ok(answer) => {
                    let any = any || answer is NotReady;
                    let next = index + 1;
                    if ready && next < s.ready.len() {
                        &&& turn == Turn::<T, U>::Ask(Request::PollService(s.ready[next].1))
                        &&& t.stage == Stage::Serving {
                            ready: true,
                            index: next as usize,
                            any_not_ready: any,
                        }
                    } else if ready && s.not_ready.len() > 0 {
                        &&& turn == Turn::<T, U>::Ask(Request::PollService(s.not_ready[0].1))
                        &&& t.stage == Stage::Serving {
                            ready: false,
                            index: 0,
                            any_not_ready: any,
                        }
                    } else if !ready && next < s.not_ready.len() {
                        &&& turn == Turn::<T, U>::Ask(Request::PollService(s.not_ready[next].1))
                        &&& t.stage == Stage::Serving {
                            ready: false,
                            index: next as usize,
                            any_not_ready: any,
                        }
                    } else {
                        &&& turn == Turn::<T, U>::Done(
                            Ok(
                                if any {
                                    Async::NotReady
                                } else {
                                    Async::Ready(())
                                },
                            ),
                        )
                        &&& t.stage is Idle
                    }
                },
            }
        }),
{
    let n = s.ready.len() as int;
    let next = index + 1;
    if ready && next == n && s.not_ready.len() > 0 {
        assert((s.ready + s.not_ready)[n] == s.not_ready[0]);
    }
    if !ready && next < s.not_ready.len() {
        assert((s.ready + s.not_ready)[n + next] == s.not_ready[next]);
    }
}

/// Whichever service fails while all are to make progress, and whatever those before it answered,
/// the poll ends with its failure, and all services are where they were.
pub proof fn law_progress_fails_with_a_service<T, U>(s: State, polled: Seq<Async<()>>, why: T)
    requires
        s.wf(),
        polled.len() < s.ready.len() + s.not_ready.len(),
    ensures
        ({
            let at = progress::<T, U>(s, polled).0;
            let (t, turn) = at.served::<T, U>(Err(why));
            &&& at.stage is Serving
            &&& turn == Turn::<T, U>::Done(Err(Error::Inner(why)))
            &&& same_but_stage(s, t)
            &&& t.stage is Idle
        }),
{
    lemma_serving_while_left::<T, U>(s, polled);
}

/// As long as there are services left, one of them is waited for.
proof fn lemma_serving_while_left<T, U>(s: State, polled: Seq<Async<()>>)
    requires
        s.wf(),
        polled.len() < s.ready.len() + s.not_ready.len(),
    ensures
        progress::<T, U>(s, polled).0.wf(),
        progress::<T, U>(s, polled).0.stage is Serving,
        same_but_stage(s, progress::<T, U>(s, polled).0),
    decreases polled.len(),
{
    if polled.len() > 0 {
        lemma_serving_while_left::<T, U>(s, polled.drop_last());
    }
    lemma_progress::<T, U>(s, polled);
}

/// The failure that counts when services are polled for their end is the one at the greatest index,
/// and there is none exactly where no service failed.
pub proof fn law_last_failure_counts<T>(polled: Seq<Poll<(), T>>)
    ensures
        match last_error(polled) {
            Some(why) => exists|i: int|
                {
                    &&& 0 <= i < polled.len()
                    &&& #[trigger] polled[i] == Err::<Async<()>, T>(why)
                    &&& forall|j: int| i < j < polled.len() ==> (#[trigger] polled[j]) is Ok
                },
            None => forall|i: int| 0 <= i < polled.len() ==> (#[trigger] polled[i]) is Ok,
        },
    decreases polled.len(),
{
    if polled.len() > 0 {
        let last = polled.len() - 1;
        let init = polled.drop_last();
        assert(polled[last] == polled.last());
        law_last_failure_counts(init);
        if polled.last() is Ok {
            match last_error(init) {
                Some(why) => {
                    let i = choose|i: int|
                        {
                            &&& 0 <= i < init.len()
                            &&& #[trigger] init[i] == Err::<Async<()>, T>(why)
                            &&& forall|j: int| i < j < init.len() ==> (#[trigger] init[j]) is Ok
                        };
                    assert(polled[i] == Err::<Async<()>, T>(why));
                    assert forall|j: int| i < j < polled.len() implies (
                    #[trigger] polled[j]) is Ok by {
                        if j < last {
                            assert(init[j] == polled[j]);
                        }
                    }
                },
                None => {
                    assert forall|j: int| 0 <= j < polled.len() implies (
                    #[trigger] polled[j]) is Ok by {
                        if j < last {
                            assert(init[j] == polled[j]);
                        }
                    }
                },
            }
        } else {
            assert(polled[last] is Err);
        }
    }
}

/// The service of this entry was polled for its end and is not there yet.
pub open spec fn stays<T>(s: State, polled: Seq<Poll<(), T>>, entry: (u64, u64)) -> bool {
    exists|i: int|
        {
            &&& 0 <= i < polled.len()
            &&& #[trigger] (s.ready + s.not_ready)[i] == entry
            &&& polled[i] matches Ok(Async::NotReady)
        }
}

/// When services are polled for their end, each table keeps exactly those that are not there yet,
/// in their order, and the balancer waits for nothing.
pub proof fn law_close_keeps_the_order<T>(s: State, polled: Seq<Poll<(), T>>)
    requires
        s.wf(),
        polled.len() == s.ready.len() + s.not_ready.len(),
    ensures
        closed(s, polled).ready == s.ready.filter(
            |entry: (u64, u64)| stays(s, polled, entry),
        ),
        closed(s, polled).not_ready == s.not_ready.filter(
            |entry: (u64, u64)| stays(s, polled, entry),
        ),
        closed(s, polled).stage is Idle,
{
    let n = s.ready.len() as int;
    let all = s.ready + s.not_ready;
    let kept = Set::new(
        |key: u64| exists|i: int| 0 <= i < all.len() && (#[trigger] all[i]).0 == key && (
        polled[i] matches Ok(Async::NotReady)),
    );
    assert forall|i: int| 0 <= i < all.len() implies {
        &&& kept.contains((#[trigger] all[i]).0) <==> polled[i] == Ok::<Async<()>, T>(
            Async::NotReady,
        )
        &&& kept.contains(all[i].0) <==> stays(s, polled, all[i])
    } by {
        lemma_same_key(s, i);
        assert(s.endpoints() == all);
    }
    assert forall|i: int| 0 <= i < s.ready.len() implies {
        &&& kept.contains((#[trigger] s.ready[i]).0) <==> polled.take(n)[i] == Ok::<Async<()>, T>(
            Async::NotReady,
        )
        &&& kept.contains(s.ready[i].0) <==> stays(s, polled, s.ready[i])
    } by {
        assert(all[i] == s.ready[i]);
    }
    assert forall|i: int| 0 <= i < s.not_ready.len() implies {
        &&& kept.contains((#[trigger] s.not_ready[i]).0) <==> polled.skip(n)[i] == Ok::<
            Async<()>,
            T,
        >(Async::NotReady)
        &&& kept.contains(s.not_ready[i].0) <==> stays(s, polled, s.not_ready[i])
    } by {
        assert(all[n + i] == s.not_ready[i]);
    }
    lemma_still_open(s.ready, polled.take(n), kept);
    lemma_still_open(s.not_ready, polled.skip(n), kept);
    lemma_same_filter(
        s.ready,
        |entry: (u64, u64)| kept.contains(entry.0),
        |entry: (u64, u64)| stays(s, polled, entry),
    );
    lemma_same_filter(
        s.not_ready,
        |entry: (u64, u64)| kept.contains(entry.0),
        |entry: (u64, u64)| stays(s, polled, entry),
    );
}

/// Filters that agree on all entries keep the same.
proof fn lemma_same_filter(
    s: Seq<(u64, u64)>,
    p: spec_fn((u64, u64)) -> bool,
    q: spec_fn((u64, u64)) -> bool,
)
    requires
        forall|i: int| 0 <= i < s.len() ==> p(#[trigger] s[i]) == q(s[i]),
    ensures
        s.filter(p) == s.filter(q),
    decreases s.len(),
{
    reveal(Seq::filter);
    if s.len() > 0 {
        assert(s[s.len() - 1] == s.last());
        assert forall|i: int| 0 <= i < s.drop_last().len() implies p(#[trigger] s.drop_last()[i])
            == q(s.drop_last()[i]) by {
            assert(s.drop_last()[i] == s[i]);
        }
        lemma_same_filter(s.drop_last(), p, q);
    }
}

} // verus!
