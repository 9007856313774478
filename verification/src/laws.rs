//! What holds of a balancer as a whole.
use crate::balance::Balance;
use crate::chooser::{Choice, Choose, PowerOfTwoChoices, RoundRobin};
use crate::endpoints::{
    distinct, has_key, lemma_entry, lemma_inserted, lemma_removed, position, service_of,
};
use crate::error::Error;
use crate::model::{
    closed, last_error, lemma_changed, lemma_demoted, lemma_promoted, lemma_still_open_subset,
    reindexed, still_open, Stage, State, Turn,
};
use crate::poll::{Async, Change, Poll, Reply, Request, Step};
use vstd::prelude::*;

verus! {

/// What a balancer does with a reply, given the choice that its strategy makes if it is asked to.
pub open spec fn stepped<T, U>(s: State, reply: Reply<T, U>, choice: Choice) -> (
    State,
    Step<T, U>,
) {
    let (state, turn) = s.advanced(reply);
    match turn {
        Turn::Ask(request) => (state, Step::Ask(request)),
        Turn::Choose => (state.chose(choice).0, Step::Ask(state.chose(choice).1)),
        Turn::Done(result) => (state, Step::Done(result)),
    }
}

/// The choice is one that can be made where the reply leads to one.
pub open spec fn choosable<T, U>(s: State, reply: Reply<T, U>, choice: Choice) -> bool {
    s.advanced(reply).1 is Choose ==> choice.fits(s.advanced(reply).0.ready.len())
}

/// What a balancer does with a reply is such a step, with a choice that its strategy may make.
pub proof fn law_resume_is_a_step<D, C: Choose, T, U>(
    s: State,
    before: C,
    reply: Reply<T, U>,
    after: Balance<D, C>,
    step: Step<T, U>,
)
    requires
        after.went(before, s.advanced(reply).0, s.advanced(reply).1, step),
    ensures
        exists|choice: Choice|
            {
                &&& choosable(s, reply, choice)
                &&& (after@, step) == #[trigger] stepped(s, reply, choice)
                &&& s.advanced(reply).1 is Choose ==> C::chooses(
                    before,
                    s.advanced(reply).0.ready,
                    choice,
                    after.strategy(),
                )
            },
{
    let (state, turn) = s.advanced(reply);
    let choice = if turn is Choose {
        choose|choice: Choice|
            {
                &&& #[trigger] C::chooses(before, state.ready, choice, after.strategy())
                &&& choice.fits(state.ready.len())
                &&& after@ == state.chose(choice).0
                &&& step == Step::<T, U>::Ask(state.chose(choice).1)
            }
    } else {
        Choice::One(0)
    };
    assert((after@, step) == stepped(s, reply, choice));
}

/// A poll for readiness ends with `Ready` iff a chosen service answers that it is ready. When it
/// does, a service is chosen, at a valid index of the ready services; it is the one that was asked
/// last and answered that it is ready, and no request is held against any service. When it ends
/// with `NotReady`, no service is ready and none is chosen. When it ends with an error, that is the
/// error of the reply, and none is chosen. While it goes on, none is chosen either.
pub proof fn law_end_of_poll<T, U>(s: State, reply: Reply<T, U>, choice: Choice)
    requires
        s.wf(),
        s.expects(reply),
        choosable(s, reply, choice),
    ensures
        ({
            let (t, step) = stepped(s, reply, choice);
            match step {
                Step::Done(Ok(Async::Ready(_))) => {
                    &&& reply matches Reply::Ready(Ok(Async::Ready(_)))
                    &&& t.chosen matches Some(index) && index < t.ready.len()
                    &&& s.stage == Stage::Choosing(t.chosen->0)
                    &&& t.ready == s.ready
                    &&& t.dispatched is None
                },
                Step::Done(Ok(Async::NotReady)) => t.ready.len() == 0 && t.chosen is None,
                Step::Done(Err(Error::Inner(why))) => reply == Reply::<T, U>::Ready(Err(why))
                    && t.chosen is None,
                Step::Done(Err(Error::Balance(why))) => reply == Reply::<T, U>::Discover(Err(why))
                    && t.chosen is None,
                Step::Done(Err(Error::NotReady)) => false,
                Step::Ask(_) => t.chosen is None,
            }
        }),
        s.stage is Choosing && reply matches Reply::Ready(Ok(Async::Ready(_))) <==> stepped(
            s,
            reply,
            choice,
        ).1 matches Step::Done(Ok(Async::Ready(_))),
{
}

/// A poll fails exactly when a service or the source of services does.
pub proof fn law_errors<T, U>(s: State, reply: Reply<T, U>, choice: Choice)
    requires
        s.wf(),
        s.expects(reply),
    ensures
        stepped(s, reply, choice).1 matches Step::Done(Err(_)) <==> (reply matches Reply::Ready(
            Err(_),
        ) || reply matches Reply::Discover(Err(_))),
{
}

/// The services that a balancer knows of are those that discovery told it of: a change puts a new
/// service under its key or removes the service under it, and nothing else that happens in a poll
/// adds, drops or replaces a service.
pub proof fn law_directory<T, U>(s: State, reply: Reply<T, U>, choice: Choice)
    requires
        s.wf(),
        s.expects(reply),
    ensures
        s.begun().0.directory() == s.directory(),
        stepped(s, reply, choice).0.directory() == (match reply {
            Reply::Discover(Ok(Async::Ready(Change::Insert(key, service)))) => s.directory().insert(
                key,
                service,
            ),
            Reply::Discover(Ok(Async::Ready(Change::Remove(key)))) => s.directory().remove(key),
            _ => s.directory(),
        }),
{
    assert(s.begun().0.directory() =~= s.directory());
    match (s.stage, reply) {
        (Stage::Discovering, Reply::Discover(Ok(Async::Ready(change)))) => {
            lemma_changed(s, change);
        },
        (Stage::Dispatched(index), _) => {
            lemma_demoted(s, index);
            assert(s.demoted(index).at(Stage::Discovering).directory() =~= s.directory());
        },
        (Stage::Choosing(index), _) => {
            lemma_demoted(s, index);
        },
        (Stage::Promoting(index), _) => {
            lemma_promoted(s, index);
        },
        _ => {},
    }
    let t = stepped(s, reply, choice).0;
    assert(t.directory() =~= (match (s.stage, reply) {
        (Stage::Discovering, Reply::Discover(Ok(Async::Ready(change)))) => s.changed(
            change,
        ).directory(),
        _ => s.directory(),
    })) by {
        assert forall|a: State, b: State| #![auto]
            a.ready == b.ready && a.not_ready == b.not_ready implies a.directory()
            =~= b.directory() by {}
    }
}

/// A service that is inserted replaces any service with its key, and is not ready until it has been
/// polled; a service that is removed is gone. The service that had the key is the one to be
/// dropped.
pub proof fn law_change(s: State, change: Change)
    requires
        s.wf(),
    ensures
        match change {
            Change::Insert(key, service) => {
                &&& !has_key(s.changed(change).ready, key)
                &&& service_of(s.changed(change).not_ready, key) == Some(service)
            },
            Change::Remove(key) => {
                &&& !has_key(s.changed(change).ready, key)
                &&& !has_key(s.changed(change).not_ready, key)
            },
        },
        s.ejected(change) == (match change {
            Change::Insert(key, _) | Change::Remove(key) => if s.directory().dom().contains(key) {
                Some(s.directory()[key])
            } else {
                None
            },
        }),
{
    lemma_changed(s, change);
    match change {
        Change::Insert(key, service) => {
            lemma_removed(s.ready, key);
            lemma_inserted(s.not_ready, key, service);
        },
        Change::Remove(key) => {
            lemma_removed(s.ready, key);
            lemma_removed(s.not_ready, key);
        },
    }
}

/// A service comes to be considered ready only by answering, while it is polled as one that was
/// not, that it is. It stops being considered ready only by answering that it is not, or because
/// discovery replaces or removes it.
pub proof fn law_readiness_is_polled<T, U>(
    s: State,
    reply: Reply<T, U>,
    choice: Choice,
    entry: (u64, u64),
)
    requires
        s.wf(),
        s.expects(reply),
        s.ready.contains(entry) != stepped(s, reply, choice).0.ready.contains(entry),
    ensures
        if s.ready.contains(entry) {
            ||| {
                &&& reply matches Reply::Ready(Ok(Async::NotReady))
                &&& s.stage matches Stage::Dispatched(index) && entry == s.ready[index as int]
            }
            ||| {
                &&& reply matches Reply::Ready(Ok(Async::NotReady))
                &&& s.stage matches Stage::Choosing(index) && entry == s.ready[index as int]
            }
            ||| reply matches Reply::Discover(Ok(Async::Ready(Change::Insert(key, _)))) && key
                == entry.0
            ||| reply matches Reply::Discover(Ok(Async::Ready(Change::Remove(key)))) && key
                == entry.0
        } else {
            &&& reply matches Reply::Ready(Ok(Async::Ready(_)))
            &&& s.stage matches Stage::Promoting(index) && entry == s.not_ready[index as int]
        },
{
    let t = stepped(s, reply, choice).0;
    match (s.stage, reply) {
        (Stage::Dispatched(index), Reply::Ready(Ok(Async::NotReady))) => {
            lemma_kept_by_removal(s.ready, index as int, entry);
            assert(t.ready == s.demoted(index).ready);
        },
        (Stage::Choosing(index), Reply::Ready(Ok(Async::NotReady))) => {
            lemma_kept_by_removal(s.ready, index as int, entry);
            assert(t.ready == s.demoted(index).ready);
        },
        (Stage::Promoting(index), Reply::Ready(Ok(Async::Ready(_)))) => {
            lemma_promoted(s, index);
            assert(t.ready == s.ready.push(s.not_ready[index as int]));
            if s.ready.contains(entry) {
                let i = s.ready.index_of(entry);
                assert(t.ready[i] == entry);
            }
        },
        (Stage::Discovering, Reply::Discover(Ok(Async::Ready(change)))) => {
            let key = match change {
                Change::Insert(key, _) | Change::Remove(key) => key,
            };
            if has_key(s.ready, key) {
                lemma_kept_by_removal(s.ready, position(s.ready, key), entry);
            }
        },
        _ => {
            assert(t.ready == s.ready);
        },
    }
}

/// Taking out the entry at `i` takes out no other entry.
pub(crate) proof fn lemma_kept_by_removal(s: Seq<(u64, u64)>, i: int, entry: (u64, u64))
    requires
        distinct(s),
        0 <= i < s.len(),
    ensures
        crate::endpoints::swap_removed(s, i).contains(entry) <==> s.contains(entry) && entry
            != s[i],
{
    let r = crate::endpoints::swap_removed(s, i);
    if r.contains(entry) {
        let j = r.index_of(entry);
        let k = if j == i {
            s.len() - 1
        } else {
            j
        };
        assert(s[k] == entry);
        lemma_entry(s, i);
        lemma_entry(s, k);
    }
    if s.contains(entry) && entry != s[i] {
        let k = s.index_of(entry);
        let j = if k == s.len() - 1 {
            i
        } else {
            k
        };
        assert(r[j] == entry);
    }
}

/// How much a poll for readiness may still ask for, once discovery has no more changes to tell.
pub open spec fn rank(s: State) -> nat {
    match s.stage {
        Stage::Promoting(index) => (3 * (index + 1) + 2 * s.ready.len() + 1) as nat,
        Stage::Comparing(_, _) => 2 * s.ready.len() + 1,
        Stage::Choosing(_) => 2 * s.ready.len(),
        _ => 0,
    }
}

/// A poll for readiness comes to an end: once discovery has no more changes to tell, every reply
/// ends it or leaves less to be asked for.
pub proof fn law_poll_ends<T, U>(s: State, reply: Reply<T, U>, choice: Choice)
    requires
        s.wf(),
        s.expects(reply),
        choosable(s, reply, choice),
        s.stage is Promoting || s.stage is Comparing || s.stage is Choosing,
    ensures
        ({
            let (t, step) = stepped(s, reply, choice);
            step is Ask ==> rank(t) < rank(s) && (t.stage is Promoting || t.stage is Comparing
                || t.stage is Choosing)
        }),
{
    match (s.stage, reply) {
        (Stage::Promoting(index), _) => {
            lemma_promoted(s, index);
        },
        (Stage::Choosing(index), _) => {
            lemma_demoted(s, index);
        },
        _ => {},
    }
}

/// The request goes to the chosen service, and that service is the first to be polled when the
/// balancer is next asked for its readiness. Until then no other request can be dispatched.
pub proof fn law_last_used_first(s: State)
    requires
        s.wf(),
        s.chosen is Some,
    ensures
        ({
            let t = s.called();
            &&& t.wf()
            &&& t.chosen is None
            &&& t.begun().0.chosen is None
            &&& t.begun().1 == Request::PollReady(s.ready[s.chosen->0 as int].1)
            &&& t.begun().0.ready == s.ready
        }),
{
}

/// Of two services that were picked at random, the one that carries less load is asked, whatever
/// the loads are.
pub proof fn law_least_loaded_of_two<T, U>(
    s: State,
    pre: PowerOfTwoChoices,
    choice: Choice,
    post: PowerOfTwoChoices,
    load: spec_fn(u64) -> int,
)
    requires
        PowerOfTwoChoices::chooses(pre, s.ready, choice, post),
    ensures
        s.chose(choice).1 matches Request::CompareLoads(a, b) && {
            let (t, step) = stepped::<T, U>(
                s.chose(choice).0,
                Reply::FirstNoHeavier(load(a) <= load(b)),
                choice,
            );
            &&& step matches Step::Ask(Request::PollReady(asked)) && {
                &&& asked == a || asked == b
                &&& load(asked) <= load(a)
                &&& load(asked) <= load(b)
            }
            &&& exists|i: int, j: int|
                0 <= i < s.ready.len() && 0 <= j < s.ready.len() && i != j && a == (
                #[trigger] s.ready[i]).1 && b == (#[trigger] s.ready[j]).1
        },
{
    if let Choice::LighterOf(first, second) = choice {
        let a = s.ready[first as int].1;
        let b = s.ready[second as int].1;
        assert(a == s.ready[first as int].1 && b == s.ready[second as int].1);
    }
}

/// Round robin made these choices, one after the other, each over `len` replicas.
pub open spec fn round_robin_picks(
    choosers: Seq<RoundRobin>,
    choices: Seq<Choice>,
    replicas: Seq<Seq<(u64, u64)>>,
    len: nat,
) -> bool {
    &&& choosers.len() == choices.len() + 1
    &&& replicas.len() == choices.len()
    &&& forall|i: int|
        #![trigger choices[i]]
        0 <= i < choices.len() ==> replicas[i].len() == len && RoundRobin::chooses(
            choosers[i],
            replicas[i],
            choices[i],
            choosers[i + 1],
        )
}

/// The replicas that round robin chooses follow each other in their order, and begin again with the
/// first after the last.
pub proof fn law_round_robin(
    choosers: Seq<RoundRobin>,
    choices: Seq<Choice>,
    replicas: Seq<Seq<(u64, u64)>>,
    len: nat,
    k: int,
)
    requires
        2 <= len <= usize::MAX,
        round_robin_picks(choosers, choices, replicas, len),
        0 <= k < choices.len(),
    ensures
        choices[k] == Choice::One(((choosers[0].pos() + k) % len as int) as usize),
    decreases k,
{
    let n = len as int;
    let _ = choices[k];
    if k > 0 {
        law_round_robin(choosers, choices, replicas, len, k - 1);
        let _ = choices[k - 1];
        let p = choosers[0].pos() as int;
        let before = choosers[k - 1].pos() as int % n;
        assert(0 <= (p + k - 1) % n < n) by (nonlinear_arith)
            requires
                n > 0,
        ;
        assert(0 <= before < n) by (nonlinear_arith)
            requires
                n > 0,
                before == choosers[k - 1].pos() as int % n,
        ;
        assert(before == (p + k - 1) % n);
        vstd::arithmetic::div_mod::lemma_add_mod_noop(p + k - 1, 1, n);
        vstd::arithmetic::div_mod::lemma_small_mod(1, len);
        assert(choosers[k].pos() == (p + k) % n);
        vstd::arithmetic::div_mod::lemma_mod_twice(p + k, n);
    }
}

/// Over as many choices as there are replicas, round robin chooses every replica exactly once.
pub proof fn law_round_robin_is_fair(
    choosers: Seq<RoundRobin>,
    choices: Seq<Choice>,
    replicas: Seq<Seq<(u64, u64)>>,
    index: usize,
)
    requires
        2 <= choices.len() <= usize::MAX,
        round_robin_picks(choosers, choices, replicas, choices.len()),
        index < choices.len(),
    ensures
        choices.contains(Choice::One(index)),
        choices.no_duplicates(),
{
    let n = choices.len() as int;
    let p = choosers[0].pos() as int;
    let k = (index - p) % n;
    assert(0 <= k < n) by (nonlinear_arith)
        requires
            k == (index - p) % n,
            n > 0,
    ;
    law_round_robin(choosers, choices, replicas, choices.len(), k);
    vstd::arithmetic::div_mod::lemma_add_mod_noop_right(p, index - p, n);
    vstd::arithmetic::div_mod::lemma_small_mod(index as nat, n as nat);
    assert(choices[k] == Choice::One(index));
    assert forall|i: int, j: int|
        0 <= i < choices.len() && 0 <= j < choices.len() && i != j implies choices[i]
        != choices[j] by {
        law_round_robin(choosers, choices, replicas, choices.len(), i);
        law_round_robin(choosers, choices, replicas, choices.len(), j);
        let a = (p + i) % n;
        let b = (p + j) % n;
        assert(0 <= a < n && 0 <= b < n) by (nonlinear_arith)
            requires
                a == (p + i) % n,
                b == (p + j) % n,
                n > 0,
        ;
        if a == b {
            vstd::arithmetic::div_mod::lemma_mod_equivalence(p + i, p + j, n);
            let d = i - j;
            assert((p + i) - (p + j) == d);
            assert(d % n == 0);
            if d > 0 {
                vstd::arithmetic::div_mod::lemma_small_mod(d as nat, n as nat);
            } else {
                vstd::arithmetic::div_mod::lemma_mod_add_multiples_vanish(d, n);
                vstd::arithmetic::div_mod::lemma_small_mod((d + n) as nat, n as nat);
            }
        }
    }
}

/// The reply answers the request.
pub open spec fn answers_request<T, U>(request: Request, reply: Reply<T, U>) -> bool {
    match request {
        Request::PollDiscover { .. } => reply is Discover,
        Request::PollReady(_) => reply is Ready,
        Request::CompareLoads(_, _) => reply is FirstNoHeavier,
        Request::PollService(_) => false,
    }
}

/// A host that answers what it is asked never gives a reply that the balancer does not expect: any
/// reply that answers the first request of a poll is expected, and so is any that answers what the
/// balancer asks for after it. No key comes to occur twice, and no index gets out of range. When
/// the balancer is done it waits for nothing.
pub proof fn law_conversation<T, U>(
    s: State,
    reply: Reply<T, U>,
    choice: Choice,
    next: Reply<T, U>,
)
    requires
        s.wf(),
        s.endpoints().len() < usize::MAX,
    ensures
        s.begun().0.wf(),
        answers_request(s.begun().1, next) ==> s.begun().0.expects(next),
        s.expects(reply) && choosable(s, reply, choice) ==> {
            let (t, step) = stepped(s, reply, choice);
            &&& t.wf()
            &&& match step {
                Step::Ask(request) => answers_request(request, next) ==> t.expects(next),
                Step::Done(_) => t.stage is Idle,
            }
        },
{
    if s.expects(reply) && choosable(s, reply, choice) {
        match (s.stage, reply) {
            (Stage::Discovering, Reply::Discover(Ok(Async::Ready(change)))) => {
                lemma_changed(s, change);
            },
            (Stage::Dispatched(index), _) => {
                lemma_demoted(s, index);
            },
            (Stage::Choosing(index), _) => {
                lemma_demoted(s, index);
            },
            (Stage::Promoting(index), _) => {
                lemma_promoted(s, index);
            },
            _ => {},
        }
    }
}

/// Exactly the endpoints that are not there yet stay.
proof fn lemma_still_open_contains<T>(s: Seq<(u64, u64)>, polled: Seq<Poll<(), T>>, i: int)
    requires
        distinct(s),
        polled.len() == s.len(),
        0 <= i < s.len(),
    ensures
        still_open(s, polled).contains(s[i]) <==> polled[i] == Ok::<Async<()>, T>(Async::NotReady),
        forall|entry: (u64, u64)| #[trigger]
            still_open(s, polled).contains(entry) ==> s.contains(entry),
    decreases s.len(),
{
    lemma_still_open_contained(s, polled);
    let init = s.drop_last();
    let before = still_open(init, polled.drop_last());
    let after = still_open(s, polled);
    let last = s.len() - 1;
    assert(after.contains(s[i]) <==> before.contains(s[i]) || (polled.last() == Ok::<
        Async<()>,
        T,
    >(Async::NotReady) && s[i] == s.last())) by {
        if after.contains(s[i]) {
            let p = after.index_of(s[i]);
            if p < before.len() {
                assert(before[p] == s[i]);
            }
        }
        if before.contains(s[i]) {
            let p = before.index_of(s[i]);
            assert(after[p] == s[i]);
        }
        if polled.last() == Ok::<Async<()>, T>(Async::NotReady) {
            assert(after[before.len() as int] == s.last());
        }
    }
    if i < last {
        assert(s[i].0 != s[last].0);
        assert(init[i] == s[i]);
        lemma_still_open_contains(init, polled.drop_last(), i);
    } else {
        lemma_still_open_contained(init, polled.drop_last());
        if before.contains(s[last]) {
            let p = init.index_of(s[last]);
            assert(s[p].0 != s[last].0);
        }
    }
}

/// What is still open was there before.
proof fn lemma_still_open_contained<T>(s: Seq<(u64, u64)>, polled: Seq<Poll<(), T>>)
    ensures
        forall|entry: (u64, u64)| #[trigger]
            still_open(s, polled).contains(entry) ==> s.contains(entry),
    decreases s.len(),
{
    if s.len() > 0 {
        let init = s.drop_last();
        let before = still_open(init, polled.drop_last());
        lemma_still_open_contained(init, polled.drop_last());
        assert forall|entry: (u64, u64)| #[trigger] still_open(s, polled).contains(
            entry,
        ) implies s.contains(entry) by {
            let p = still_open(s, polled).index_of(entry);
            if p < before.len() {
                assert(before[p] == entry);
                assert(before.contains(entry));
                let q = init.index_of(entry);
                assert(s[q] == entry);
            } else {
                assert(s[s.len() - 1] == entry);
            }
        }
    }
}

/// Nothing is still open and there was no error exactly when all answered that they are closed.
proof fn lemma_all_closed<T>(s: Seq<(u64, u64)>, polled: Seq<Poll<(), T>>)
    requires
        polled.len() == s.len(),
    ensures
        last_error(polled) is None && still_open(s, polled).len() == 0 <==> forall|i: int|
            0 <= i < polled.len() ==> (#[trigger] polled[i] matches Ok(Async::Ready(_))),
    decreases s.len(),
{
    if s.len() > 0 {
        let init = polled.drop_last();
        lemma_all_closed(s.drop_last(), init);
        let all = forall|i: int|
            0 <= i < polled.len() ==> (#[trigger] polled[i] matches Ok(Async::Ready(_)));
        let all_init = forall|i: int|
            0 <= i < init.len() ==> (#[trigger] init[i] matches Ok(Async::Ready(_)));
        assert(all <==> all_init && (polled.last() matches Ok(Async::Ready(_)))) by {
            if all {
                assert forall|i: int| 0 <= i < init.len() implies (#[trigger] init[i] matches Ok(
                    Async::Ready(_),
                )) by {
                    assert(polled[i] matches Ok(Async::Ready(_)));
                }
                assert(polled[polled.len() - 1] matches Ok(Async::Ready(_)));
            }
            if all_init && (polled.last() matches Ok(Async::Ready(_))) {
                assert forall|i: int| 0 <= i < polled.len() implies (
                #[trigger] polled[i] matches Ok(Async::Ready(_))) by {
                    if i < init.len() {
                        assert(init[i] matches Ok(Async::Ready(_)));
                    }
                }
            }
        }
    }
}

/// What is still open of two sequences is what is still open of each.
proof fn lemma_still_open_add<T>(
    a: Seq<(u64, u64)>,
    b: Seq<(u64, u64)>,
    polled: Seq<Poll<(), T>>,
)
    requires
        polled.len() == a.len() + b.len(),
    ensures
        still_open(a + b, polled) == still_open(a, polled.take(a.len() as int)) + still_open(
            b,
            polled.skip(a.len() as int),
        ),
    decreases b.len(),
{
    let n = a.len() as int;
    if b.len() == 0 {
        assert(a + b =~= a);
        assert(polled.take(n) =~= polled);
        assert(still_open(b, polled.skip(n)) =~= Seq::empty());
        assert(still_open(a, polled) + Seq::empty() =~= still_open(a, polled));
    } else {
        lemma_still_open_add(a, b.drop_last(), polled.drop_last());
        assert((a + b).drop_last() =~= a + b.drop_last());
        assert(polled.drop_last().take(n) =~= polled.take(n));
        assert(polled.drop_last().skip(n) =~= polled.skip(n).drop_last());
        assert((a + b).last() == b.last());
        assert(polled.skip(n).last() == polled.last());
        assert(still_open(a + b, polled) =~= still_open(a, polled.take(n)) + still_open(
            b,
            polled.skip(n),
        ));
    }
}

/// When services are polled for their end, exactly those that are not there yet stay. A ready
/// service stays ready, and one that is not ready stays so.
pub proof fn law_close_keeps_the_open<T>(s: State, polled: Seq<Poll<(), T>>, i: int)
    requires
        s.wf(),
        polled.len() == s.endpoints().len(),
        0 <= i < s.endpoints().len(),
    ensures
        ({
            let entry = s.endpoints()[i];
            let t = closed(s, polled);
            let open = polled[i] == Ok::<Async<()>, T>(Async::NotReady);
            &&& t.ready.contains(entry) <==> open && i < s.ready.len()
            &&& t.not_ready.contains(entry) <==> open && i >= s.ready.len()
        }),
{
    let n = s.ready.len() as int;
    let entry = s.endpoints()[i];
    lemma_still_open_contained(s.ready, polled.take(n));
    lemma_still_open_contained(s.not_ready, polled.skip(n));
    if i < n {
        lemma_still_open_contains(s.ready, polled.take(n), i);
        assert(has_key(s.ready, s.ready[i].0));
        if s.not_ready.contains(entry) {
            assert(s.not_ready[s.not_ready.index_of(entry)].0 == entry.0);
            assert(has_key(s.not_ready, entry.0));
        }
    } else {
        lemma_still_open_contains(s.not_ready, polled.skip(n), i - n);
        assert(has_key(s.not_ready, s.not_ready[i - n].0));
        if s.ready.contains(entry) {
            assert(s.ready[s.ready.index_of(entry)].0 == entry.0);
            assert(has_key(s.ready, entry.0));
        }
    }
}

/// An index that follows its service from one set of ready services to what is still open of it
/// leads to the same service, and is given up exactly where that service is gone.
proof fn lemma_reindexed<T>(s: Seq<(u64, u64)>, polled: Seq<Poll<(), T>>, index: usize)
    requires
        distinct(s),
        s.len() <= usize::MAX,
        polled.len() == s.len(),
        index < s.len(),
    ensures
        ({
            let after = still_open(s, polled);
            match reindexed(s, after, Some(index)) {
                Some(next) => {
                    &&& polled[index as int] == Ok::<Async<()>, T>(Async::NotReady)
                    &&& next < after.len()
                    &&& after[next as int] == s[index as int]
                },
                None => polled[index as int] != Ok::<Async<()>, T>(Async::NotReady),
            }
        }),
{
    let after = still_open(s, polled);
    let entry = s[index as int];
    lemma_still_open_contains(s, polled, index as int);
    lemma_still_open_subset(s, polled);
    lemma_still_open_len(s, polled);
    if after.contains(entry) {
        lemma_entry(after, after.index_of(entry));
    }
    if has_key(after, entry.0) {
        let p = position(after, entry.0);
        assert(after.contains(after[p]));
        lemma_entry(s, s.index_of(after[p]));
        lemma_entry(s, index as int);
    }
}

/// No more is still open than was there.
proof fn lemma_still_open_len<T>(s: Seq<(u64, u64)>, polled: Seq<Poll<(), T>>)
    ensures
        still_open(s, polled).len() <= s.len(),
    decreases s.len(),
{
    if s.len() > 0 {
        lemma_still_open_len(s.drop_last(), polled.drop_last());
    }
}

/// Closing does not confuse services: the one that was chosen for the next request is still the one
/// that is chosen if it stays, and none is chosen if it is gone, and the same holds of the one that
/// got the last request. What is left can be polled and called again.
pub proof fn law_close_keeps_the_choice<T>(s: State, polled: Seq<Poll<(), T>>)
    requires
        s.wf(),
        polled.len() == s.endpoints().len(),
    ensures
        ({
            let t = closed(s, polled);
            &&& t.wf()
            &&& s.chosen is None ==> t.chosen is None
            &&& s.chosen matches Some(index) ==> match t.chosen {
                Some(next) => {
                    &&& polled[index as int] == Ok::<Async<()>, T>(Async::NotReady)
                    &&& t.ready[next as int] == s.ready[index as int]
                },
                None => polled[index as int] != Ok::<Async<()>, T>(Async::NotReady),
            }
            &&& s.dispatched is None ==> t.dispatched is None
            &&& s.dispatched matches Some(index) ==> match t.dispatched {
                Some(next) => {
                    &&& polled[index as int] == Ok::<Async<()>, T>(Async::NotReady)
                    &&& t.ready[next as int] == s.ready[index as int]
                },
                None => polled[index as int] != Ok::<Async<()>, T>(Async::NotReady),
            }
        }),
{
    let n = s.ready.len() as int;
    let t = closed(s, polled);
    lemma_still_open_len(s.ready, polled.take(n));
    lemma_still_open_len(s.not_ready, polled.skip(n));
    lemma_still_open_subset(s.ready, polled.take(n));
    lemma_still_open_subset(s.not_ready, polled.skip(n));
    if let Some(index) = s.chosen {
        lemma_reindexed(s.ready, polled.take(n), index);
    }
    if let Some(index) = s.dispatched {
        lemma_reindexed(s.ready, polled.take(n), index);
    }
    assert forall|key: u64| has_key(t.ready, key) implies !#[trigger] has_key(t.not_ready, key) by {
        assert(has_key(s.ready, key));
    }
}

/// A balancer is closed iff every one of its services is: none is left and none failed exactly when
/// all answered that they are closed.
pub proof fn law_closed_when_all_are<T>(s: State, polled: Seq<Poll<(), T>>)
    requires
        s.wf(),
        polled.len() == s.endpoints().len(),
    ensures
        last_error(polled) is None && closed(s, polled).endpoints().len() == 0 <==> forall|i: int|
            0 <= i < polled.len() ==> (#[trigger] polled[i] matches Ok(Async::Ready(_))),
{
    lemma_still_open_add(s.ready, s.not_ready, polled);
    lemma_all_closed(s.endpoints(), polled);
}

} // verus!
