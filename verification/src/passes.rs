//! What holds of a poll from its beginning to its end.
use crate::chooser::Choice;
use crate::endpoints::{
    distinct, has_key, lemma_entry, lemma_swap_removed, position, service_of,
};
use crate::laws::{
    choosable, law_conversation, law_directory, law_poll_ends, rank, stepped,
};
use crate::model::{lemma_demoted, lemma_promoted, Stage, State, Turn};
use crate::poll::{Async, Change, Reply, Request, Step};
use vstd::prelude::*;

verus! {

/// The state that a sequence of replies leads to, each with the choice that the strategy makes if
/// the reply asks for one.
pub open spec fn run<T, U>(s: State, replies: Seq<(Reply<T, U>, Choice)>) -> State
    decreases replies.len(),
{
    if replies.len() == 0 {
        s
    } else {
        stepped(run(s, replies.drop_last()), replies.last().0, replies.last().1).0
    }
}

/// What the balancer says to the last of a sequence of replies.
pub open spec fn said<T, U>(s: State, replies: Seq<(Reply<T, U>, Choice)>) -> Step<T, U>
    recommends
        replies.len() > 0,
{
    stepped(run(s, replies.drop_last()), replies.last().0, replies.last().1).1
}

/// Replies that come in two parts lead on from where the first part led.
pub(crate) proof fn lemma_run_add<T, U>(
    s: State,
    first: Seq<(Reply<T, U>, Choice)>,
    then: Seq<(Reply<T, U>, Choice)>,
)
    ensures
        run(s, first + then) == run(run(s, first), then),
        then.len() > 0 ==> said(s, first + then) == said(run(s, first), then),
    decreases then.len(),
{
    if then.len() == 0 {
        assert(first + then =~= first);
    } else {
        lemma_run_add(s, first, then.drop_last());
        assert((first + then).drop_last() =~= first + then.drop_last());
    }
}

/// A service answers whether it is ready.
pub open spec fn answer<T, U>(up: bool) -> Reply<T, U> {
    if up {
        Reply::Ready(Ok(Async::Ready(())))
    } else {
        Reply::Ready(Ok(Async::NotReady))
    }
}

/// Discovery has no change to tell, and then services answer, one after the other, whether they are
/// ready.
pub open spec fn answers<T, U>(up: Seq<bool>, choice: Choice) -> Seq<(Reply<T, U>, Choice)> {
    Seq::new(
        up.len() + 1,
        |k: int|
            if k == 0 {
                (Reply::Discover(Ok(Async::NotReady)), choice)
            } else {
                (answer(up[k - 1]), choice)
            },
    )
}

/// The endpoints of `s` that answered that they are ready, where they were asked from right to
/// left.
pub open spec fn risen(s: Seq<(u64, u64)>, up: Seq<bool>) -> Seq<(u64, u64)>
    decreases up.len(),
{
    if up.len() == 0 {
        Seq::empty()
    } else if up.last() {
        risen(s, up.drop_last()).push(s[s.len() - up.len()])
    } else {
        risen(s, up.drop_last())
    }
}

/// The state after some of the endpoints that were not ready have been asked, from right to left.
spec fn lifted(s: State, up: Seq<bool>) -> State
    decreases up.len(),
{
    if up.len() == 0 {
        s
    } else {
        let before = lifted(s, up.drop_last());
        if up.last() {
            before.promoted((s.not_ready.len() - up.len()) as usize)
        } else {
            before
        }
    }
}

/// Those that were asked have moved, or not, as they answered; the others are where they were.
proof fn lemma_lifted(s: State, up: Seq<bool>)
    requires
        s.sound(),
        s.endpoints().len() <= usize::MAX,
        up.len() <= s.not_ready.len(),
    ensures
        ({
            let t = lifted(s, up);
            let rest = s.not_ready.len() - up.len();
            &&& t.sound()
            &&& t.chosen == s.chosen && t.dispatched == s.dispatched && t.stage == s.stage
            &&& t.directory() == s.directory()
            &&& t.ready == s.ready + risen(s.not_ready, up)
            &&& t.endpoints().len() == s.endpoints().len()
            &&& rest <= t.not_ready.len()
            &&& t.not_ready.take(rest) == s.not_ready.take(rest)
            &&& forall|key: u64| #[trigger]
                has_key(t.not_ready, key) ==> service_of(t.not_ready, key) == service_of(
                    s.not_ready,
                    key,
                )
            &&& forall|i: int|
                rest <= i < s.not_ready.len() ==> (has_key(
                    t.not_ready,
                    (#[trigger] s.not_ready[i]).0,
                ) <==> !up[s.not_ready.len() - 1 - i])
        }),
    decreases up.len(),
{
    if up.len() > 0 {
        let n = s.not_ready.len();
        let before = lifted(s, up.drop_last());
        lemma_lifted(s, up.drop_last());
        let index = (n - up.len()) as usize;
        let t = lifted(s, up);
        let rest = n - up.len();
        assert(before.not_ready.take(rest + 1)[rest] == s.not_ready.take(rest + 1)[rest]);
        assert(before.not_ready[rest] == s.not_ready[rest]);
        let e = s.not_ready[rest];
        lemma_entry(before.not_ready, rest);
        if up.last() {
            lemma_promoted(before, index);
            lemma_swap_removed(before.not_ready, rest);
            assert(t.ready =~= s.ready + risen(s.not_ready, up));
        }
        assert forall|i: int| 0 <= i < rest implies t.not_ready[i] == s.not_ready[i] by {
            assert(before.not_ready.take(rest + 1)[i] == s.not_ready.take(rest + 1)[i]);
        }
        assert(t.not_ready.take(rest) =~= s.not_ready.take(rest));
        assert forall|key: u64| #[trigger] has_key(t.not_ready, key) implies service_of(
            t.not_ready,
            key,
        ) == service_of(s.not_ready, key) by {
            assert(has_key(before.not_ready, key));
            assert(service_of(t.not_ready, key) == service_of(before.not_ready, key));
        }
        assert forall|i: int| rest <= i < n implies (has_key(
            t.not_ready,
            (#[trigger] s.not_ready[i]).0,
        ) <==> !up[n - 1 - i]) by {
            if i > rest {
                assert(up.drop_last()[n - 1 - i] == up[n - 1 - i]);
                assert(s.not_ready[i].0 != e.0) by {
                    assert(s.not_ready[rest].0 != s.not_ready[i].0);
                }
            }
        }
    }
}

/// After discovery, the endpoints that are not ready are asked from right to left.
proof fn lemma_run_answers<T, U>(s: State, up: Seq<bool>, choice: Choice)
    requires
        s.wf(),
        s.stage is Discovering,
        s.endpoints().len() <= usize::MAX,
        up.len() <= s.not_ready.len(),
    ensures
        ({
            let rest = s.not_ready.len() - up.len();
            let (state, turn) = lifted(s, up).promoting::<T, U>(rest);
            match turn {
                Turn::Ask(request) => {
                    &&& run(s, answers::<T, U>(up, choice)) == state
                    &&& said(s, answers::<T, U>(up, choice)) == Step::<T, U>::Ask(request)
                },
                Turn::Choose => {
                    &&& run(s, answers::<T, U>(up, choice)) == state.chose(choice).0
                    &&& said(s, answers::<T, U>(up, choice)) == Step::<T, U>::Ask(
                        state.chose(choice).1,
                    )
                },
                Turn::Done(result) => {
                    &&& run(s, answers::<T, U>(up, choice)) == state
                    &&& said(s, answers::<T, U>(up, choice)) == Step::<T, U>::Done(result)
                },
            }
        }),
    decreases up.len(),
{
    let n = s.not_ready.len();
    let all = answers::<T, U>(up, choice);
    if up.len() == 0 {
        assert(all.drop_last() =~= Seq::empty());
        assert(run(s, all.drop_last()) == s);
    } else {
        assert(all.drop_last() =~= answers::<T, U>(up.drop_last(), choice));
        lemma_run_answers::<T, U>(s, up.drop_last(), choice);
        let rest = n - up.len();
        let before = lifted(s, up.drop_last());
        lemma_lifted(s, up.drop_last());
        let at = before.at(Stage::Promoting(rest as usize));
        assert(run(s, all.drop_last()) == at);
        assert(all.last().0 == answer::<T, U>(up.last()));
        let after = if up.last() {
            at.promoted(rest as usize)
        } else {
            at
        };
        let t = lifted(s, up);
        assert(at.advanced(answer::<T, U>(up.last())) == after.promoting::<T, U>(rest));
        assert(after == t.at(Stage::Promoting(rest as usize)));
        assert(after.promoting::<T, U>(rest) == t.promoting::<T, U>(rest)) by {
            assert(after.at(Stage::Idle) == t.at(Stage::Idle));
        }
    }
}

/// Once discovery has no more changes to tell, every service that is not ready is asked for its
/// readiness exactly once, whatever the services before it answered, from the last to the first.
pub proof fn law_every_service_is_polled<T, U>(s: State, up: Seq<bool>, choice: Choice)
    requires
        s.wf(),
        s.stage is Discovering,
        s.endpoints().len() <= usize::MAX,
        up.len() < s.not_ready.len(),
    ensures
        said(s, answers::<T, U>(up, choice)) == Step::<T, U>::Ask(
            Request::PollReady(s.not_ready[s.not_ready.len() - 1 - up.len()].1),
        ),
{
    let rest = s.not_ready.len() - up.len();
    lemma_lifted(s, up);
    lemma_run_answers::<T, U>(s, up, choice);
    assert(lifted(s, up).not_ready.take(rest)[rest - 1] == s.not_ready.take(rest)[rest - 1]);
}

/// When every service that was not ready has answered, those that answered that they are ready are
/// the last of the ready services, in the order in which they were asked, and exactly the others
/// are still not ready. Then a ready service is searched for, unless there is none.
pub proof fn law_promotion<T, U>(s: State, up: Seq<bool>, choice: Choice)
    requires
        s.wf(),
        s.stage is Discovering,
        s.endpoints().len() <= usize::MAX,
        up.len() == s.not_ready.len(),
    ensures
        ({
            let t = run(s, answers::<T, U>(up, choice));
            &&& t.ready == s.ready + risen(s.not_ready, up)
            &&& t.ready.len() + t.not_ready.len() == s.ready.len() + s.not_ready.len()
            &&& t.directory() == s.directory()
            &&& forall|i: int|
                0 <= i < s.not_ready.len() ==> (t.not_ready.contains(#[trigger] s.not_ready[i])
                    <==> !up[s.not_ready.len() - 1 - i])
            &&& forall|i: int|
                0 <= i < t.not_ready.len() ==> s.not_ready.contains(#[trigger] t.not_ready[i])
            &&& t.ready.len() < 2 || choice.fits(t.ready.len()) ==> {
                &&& t.wf()
                &&& if t.ready.len() == 0 {
                    said(s, answers::<T, U>(up, choice)) == Step::<T, U>::Done(Ok(Async::NotReady))
                } else {
                    t.stage is Choosing || t.stage is Comparing
                }
            }
        }),
{
    let n = s.not_ready.len();
    let l = lifted(s, up);
    lemma_lifted(s, up);
    lemma_run_answers::<T, U>(s, up, choice);
    let t = run(s, answers::<T, U>(up, choice));
    assert(t.ready == l.ready && t.not_ready == l.not_ready);
    assert(t.directory() =~= l.directory());
    assert forall|i: int| 0 <= i < n implies (t.not_ready.contains(#[trigger] s.not_ready[i])
        <==> !up[n - 1 - i]) by {
        let e = s.not_ready[i];
        lemma_entry(s.not_ready, i);
        if t.not_ready.contains(e) {
            assert(has_key(l.not_ready, e.0)) by {
                assert(l.not_ready[l.not_ready.index_of(e)].0 == e.0);
            }
        }
        if has_key(l.not_ready, e.0) {
            let p = position(l.not_ready, e.0);
            assert(service_of(l.not_ready, e.0) == Some(e.1));
            assert(l.not_ready[p] == e);
        }
    }
    assert forall|i: int| 0 <= i < t.not_ready.len() implies s.not_ready.contains(
        #[trigger] t.not_ready[i],
    ) by {
        let e = l.not_ready[i];
        lemma_entry(l.not_ready, i);
        assert(service_of(s.not_ready, e.0) == Some(e.1));
        assert(s.not_ready[position(s.not_ready, e.0)] == e);
    }
}

/// The replies of a whole poll in which discovery has no change to tell, the services that are not
/// ready answer as `up` says, and the service that is chosen then is ready: the one of `choice`, or
/// of its two the first if `first`.
pub open spec fn whole_poll<T, U>(s: State, up: Seq<bool>, choice: Choice, first: bool) -> Seq<
    (Reply<T, U>, Choice),
> {
    let count = s.ready.len() + risen(s.not_ready, up).len();
    if count == 0 {
        answers(up, choice)
    } else if count >= 2 && choice is LighterOf {
        answers(up, choice).push((Reply::FirstNoHeavier(first), choice)).push(
            (answer(true), choice),
        )
    } else {
        answers(up, choice).push((answer(true), choice))
    }
}

/// The index that a choice comes to among `count` ready services.
pub open spec fn index_of_choice(count: nat, choice: Choice, first: bool) -> usize {
    if count == 1 {
        0
    } else {
        match choice {
            Choice::One(index) => index,
            Choice::LighterOf(a, b) => if first {
                a
            } else {
                b
            },
        }
    }
}

/// A poll in which discovery has no change to tell makes ready exactly those services that answer
/// that they are. It ends with `Ready` iff there is then a ready service, and the one of the choice
/// is then chosen for the next request; it ends with `NotReady` iff there is none.
pub proof fn law_whole_poll<T, U>(s: State, up: Seq<bool>, choice: Choice, first: bool)
    requires
        s.wf(),
        s.stage is Discovering,
        s.endpoints().len() <= usize::MAX,
        up.len() == s.not_ready.len(),
        choice.fits(s.ready.len() + risen(s.not_ready, up).len()) || s.ready.len() + risen(
            s.not_ready,
            up,
        ).len() < 2,
    ensures
        ({
            let replies = whole_poll::<T, U>(s, up, choice, first);
            let t = run(s, replies);
            let count = s.ready.len() + risen(s.not_ready, up).len();
            &&& t.wf()
            &&& t.stage is Idle
            &&& t.dispatched is None
            &&& t.ready == s.ready + risen(s.not_ready, up)
            &&& t.endpoints().len() == s.endpoints().len()
            &&& t.directory() == s.directory()
            &&& forall|entry: (u64, u64)| #[trigger]
                t.not_ready.contains(entry) ==> s.not_ready.contains(entry)
            &&& forall|i: int|
                0 <= i < s.not_ready.len() ==> (t.not_ready.contains(#[trigger] s.not_ready[i])
                    <==> !up[s.not_ready.len() - 1 - i])
            &&& if count == 0 {
                said(s, replies) == Step::<T, U>::Done(Ok(Async::NotReady)) && t.chosen is None
            } else {
                &&& said(s, replies) == Step::<T, U>::Done(Ok(Async::Ready(())))
                &&& t.chosen == Some(index_of_choice(count, choice, first))
            }
        }),
{
    let a = answers::<T, U>(up, choice);
    let l = lifted(s, up);
    let count = s.ready.len() + risen(s.not_ready, up).len();
    lemma_lifted(s, up);
    lemma_run_answers::<T, U>(s, up, choice);
    law_promotion::<T, U>(s, up, choice);
    let r = run(s, a);
    let replies = whole_poll::<T, U>(s, up, choice, first);
    let t = run(s, replies);
    assert(l.ready.len() == count);
    if count > 0 {
        let index = index_of_choice(count, choice, first);
        if count >= 2 && choice is LighterOf {
            let b = a.push((Reply::FirstNoHeavier(first), choice));
            assert(b.drop_last() =~= a);
            assert(replies.drop_last() =~= b);
            assert(run(s, b) == l.at(Stage::Choosing(index)));
        } else {
            assert(replies.drop_last() =~= a);
            assert(r == l.at(Stage::Choosing(index)));
        }
        assert(t == State { chosen: Some(index), ..l }.at(Stage::Idle));
    }
    assert(t.ready == l.ready && t.not_ready == l.not_ready);
    assert(t.directory() =~= l.directory());
    assert(r.ready == l.ready && r.not_ready == l.not_ready);
    assert forall|entry: (u64, u64)| #[trigger] t.not_ready.contains(
        entry,
    ) implies s.not_ready.contains(entry) by {
        let i = t.not_ready.index_of(entry);
        assert(r.not_ready[i] == entry);
    }
}

/// Discovery tells of endpoints, one after the other.
pub open spec fn inserts<T, U>(endpoints: Seq<(u64, u64)>, choice: Choice) -> Seq<
    (Reply<T, U>, Choice),
> {
    Seq::new(
        endpoints.len(),
        |i: int|
            (
                Reply::Discover(
                    Ok(Async::Ready(Change::Insert(endpoints[i].0, endpoints[i].1))),
                ),
                choice,
            ),
    )
}

/// What discovery tells of in poll `k`: the endpoints in the first poll, and nothing later.
pub open spec fn told(endpoints: Seq<(u64, u64)>, k: nat) -> Seq<(u64, u64)> {
    if k == 0 {
        endpoints
    } else {
        Seq::empty()
    }
}

/// New endpoints are not ready, and are in the order in which discovery told of them.
pub(crate) proof fn lemma_inserts<T, U>(s: State, endpoints: Seq<(u64, u64)>, choice: Choice)
    requires
        s.stage is Discovering,
        s.ready.len() == 0,
        s.not_ready.len() == 0,
        distinct(endpoints),
    ensures
        run(s, inserts::<T, U>(endpoints, choice)) == (State { not_ready: endpoints, ..s }),
    decreases endpoints.len(),
{
    let all = inserts::<T, U>(endpoints, choice);
    if endpoints.len() == 0 {
        assert(s.not_ready =~= endpoints);
    } else {
        let init = endpoints.drop_last();
        assert(all.drop_last() =~= inserts::<T, U>(init, choice));
        assert forall|i: int, j: int| 0 <= i < j < init.len() implies (#[trigger] init[i]).0 != (
        #[trigger] init[j]).0 by {
            assert(endpoints[i].0 != endpoints[j].0);
        }
        lemma_inserts::<T, U>(s, init, choice);
        let before = run(s, all.drop_last());
        let (key, service) = endpoints.last();
        assert(!has_key(before.ready, key));
        assert(!has_key(before.not_ready, key)) by {
            if has_key(init, key) {
                let p = position(init, key);
                assert(endpoints[p].0 != endpoints[endpoints.len() - 1].0);
            }
        }
        assert(before.not_ready.push((key, service)) =~= endpoints);
    }
}

/// Where the balancer stands when the first of its services have been polled for progress without
/// an error.
pub open spec fn progress<T, U>(s: State, polled: Seq<Async<()>>) -> (State, Turn<T, U>)
    decreases polled.len(),
{
    if polled.len() == 0 {
        s.serving(0, false)
    } else {
        progress::<T, U>(s, polled.drop_last()).0.served(Ok(polled.last()))
    }
}

/// Every service is polled for progress exactly once, the ready ones first, each in its turn, as
/// long as none fails; nothing else changes. When all have been polled, the result is `NotReady`
/// iff one of them was not ready.
pub proof fn law_every_service_makes_progress<T, U>(s: State, polled: Seq<Async<()>>)
    requires
        s.sound(),
        polled.len() <= s.endpoints().len(),
    ensures
        ({
            let (t, turn) = progress::<T, U>(s, polled);
            &&& t == s.at(t.stage)
            &&& turn == if polled.len() < s.endpoints().len() {
                Turn::<T, U>::Ask(Request::PollService(s.endpoints()[polled.len() as int].1))
            } else if polled.contains(Async::NotReady) {
                Turn::Done(Ok(Async::NotReady))
            } else {
                Turn::Done(Ok(Async::Ready(())))
            }
        }),
    decreases polled.len(),
{
    lemma_progress::<T, U>(s, polled);
}

/// The progress is that from the next service on.
pub(crate) proof fn lemma_progress<T, U>(s: State, polled: Seq<Async<()>>)
    requires
        s.sound(),
        polled.len() <= s.endpoints().len(),
    ensures
        progress::<T, U>(s, polled) == s.serving::<T, U>(
            polled.len() as int,
            polled.contains(Async::NotReady),
        ),
    decreases polled.len(),
{
    if polled.len() > 0 {
        let init = polled.drop_last();
        lemma_progress::<T, U>(s, init);
        let t = progress::<T, U>(s, init).0;
        assert(t.endpoints() == s.endpoints());
        let any = polled.contains(Async::NotReady);
        assert(any == (init.contains(Async::NotReady) || polled.last() is NotReady)) by {
            if any {
                let i = polled.index_of(Async::NotReady);
                if i < init.len() {
                    assert(init[i] == Async::<()>::NotReady);
                }
            }
            if init.contains(Async::NotReady) {
                let i = init.index_of(Async::NotReady);
                assert(polled[i] == Async::<()>::NotReady);
            }
            if polled.last() is NotReady {
                assert(polled[polled.len() - 1] == Async::<()>::NotReady);
            }
        }
        assert(t.served::<T, U>(Ok(polled.last())) == t.serving::<T, U>(polled.len() as int, any));
        assert(t.serving::<T, U>(polled.len() as int, any) == s.serving::<T, U>(
            polled.len() as int,
            any,
        )) by {
            assert(t == s.at(t.stage));
        }
    }
}

/// Every reply is one that the balancer expects when it comes, and every choice can be made.
pub open spec fn proper<T, U>(s: State, replies: Seq<(Reply<T, U>, Choice)>) -> bool
    decreases replies.len(),
{
    replies.len() > 0 ==> {
        let before = run(s, replies.drop_last());
        &&& proper(s, replies.drop_last())
        &&& before.expects(replies.last().0)
        &&& choosable(before, replies.last().0, replies.last().1)
    }
}

/// The services under their keys, after the changes among the replies have been made in their
/// order.
pub open spec fn discovered<T, U>(
    directory: Map<u64, u64>,
    replies: Seq<(Reply<T, U>, Choice)>,
) -> Map<u64, u64>
    decreases replies.len(),
{
    if replies.len() == 0 {
        directory
    } else {
        let before = discovered(directory, replies.drop_last());
        match replies.last().0 {
            Reply::Discover(Ok(Async::Ready(Change::Insert(key, service)))) => before.insert(
                key,
                service,
            ),
            Reply::Discover(Ok(Async::Ready(Change::Remove(key)))) => before.remove(key),
            _ => before,
        }
    }
}

/// However a poll goes, the balancer afterwards knows of exactly the services that discovery told
/// it of, each either ready or not, and of none twice.
pub proof fn law_discovery_is_followed<T, U>(s: State, replies: Seq<(Reply<T, U>, Choice)>)
    requires
        s.wf(),
        proper(s, replies),
        s.endpoints().len() + replies.len() <= usize::MAX,
    ensures
        run(s, replies).wf(),
        run(s, replies).directory() == discovered(s.directory(), replies),
        run(s, replies).endpoints().len() <= s.endpoints().len() + replies.len(),
    decreases replies.len(),
{
    if replies.len() > 0 {
        let before = run(s, replies.drop_last());
        let (reply, choice) = replies.last();
        law_discovery_is_followed(s, replies.drop_last());
        law_directory(before, reply, choice);
        law_conversation(before, reply, choice, reply);
        match (before.stage, reply) {
            (Stage::Dispatched(index), _) => {
                lemma_demoted(before, index);
            },
            (Stage::Choosing(index), _) => {
                lemma_demoted(before, index);
            },
            (Stage::Promoting(index), _) => {
                lemma_promoted(before, index);
            },
            _ => {},
        }
    }
}

/// A poll for readiness takes a bounded number of replies, once discovery has no more changes to
/// tell: no more than what is left to be asked for.
pub proof fn law_poll_is_bounded<T, U>(s: State, replies: Seq<(Reply<T, U>, Choice)>)
    requires
        s.wf(),
        s.stage is Promoting || s.stage is Comparing || s.stage is Choosing,
        s.endpoints().len() < usize::MAX,
        proper(s, replies),
    ensures
        replies.len() <= rank(s),
        run(s, replies).polling() ==> replies.len() + rank(run(s, replies)) <= rank(s),
{
    lemma_bounded(s, replies);
}

/// Every reply leaves less to be asked for, or nothing.
proof fn lemma_bounded<T, U>(s: State, replies: Seq<(Reply<T, U>, Choice)>)
    requires
        s.wf(),
        s.stage is Promoting || s.stage is Comparing || s.stage is Choosing,
        s.endpoints().len() < usize::MAX,
        proper(s, replies),
    ensures
        ({
            let t = run(s, replies);
            &&& t.wf()
            &&& t.endpoints().len() == s.endpoints().len()
            &&& replies.len() <= rank(s)
            &&& t.stage is Idle || {
                &&& t.stage is Promoting || t.stage is Comparing || t.stage is Choosing
                &&& replies.len() + rank(t) <= rank(s)
            }
        }),
    decreases replies.len(),
{
    if replies.len() > 0 {
        lemma_bounded(s, replies.drop_last());
        let before = run(s, replies.drop_last());
        let (reply, choice) = replies.last();
        law_conversation(before, reply, choice, reply);
        law_poll_ends(before, reply, choice);
        match (before.stage, reply) {
            (Stage::Choosing(index), _) => {
                lemma_demoted(before, index);
            },
            (Stage::Promoting(index), _) => {
                lemma_promoted(before, index);
            },
            _ => {},
        }
    }
}

} // verus!
