//! What holds of the search for a ready service, from the first that is asked to the last.
use crate::chooser::Choice;
use crate::laws::{law_conversation, lemma_kept_by_removal};
use crate::model::{lemma_demoted, Stage, State};
use crate::passes::{answers, law_promotion, lemma_run_add, proper, risen, run, said};
use crate::poll::{Async, Reply, Step};
use vstd::prelude::*;

verus! {

/// The endpoints that were asked as chosen ones, in their order.
pub open spec fn asked<T, U>(s: State, replies: Seq<(Reply<T, U>, Choice)>) -> Seq<(u64, u64)>
    decreases replies.len(),
{
    if replies.len() == 0 {
        Seq::empty()
    } else {
        let before = run(s, replies.drop_last());
        match (before.stage, replies.last().0) {
            (Stage::Choosing(index), Reply::Ready(_)) => asked(s, replies.drop_last()).push(
                before.ready[index as int],
            ),
            _ => asked(s, replies.drop_last()),
        }
    }
}

/// The endpoints that were asked as chosen ones and answered that they are not ready, in their
/// order.
pub open spec fn refused<T, U>(s: State, replies: Seq<(Reply<T, U>, Choice)>) -> Seq<(u64, u64)>
    decreases replies.len(),
{
    if replies.len() == 0 {
        Seq::empty()
    } else {
        let before = run(s, replies.drop_last());
        match (before.stage, replies.last().0) {
            (Stage::Choosing(index), Reply::Ready(Ok(Async::NotReady))) => refused(
                s,
                replies.drop_last(),
            ).push(before.ready[index as int]),
            _ => refused(s, replies.drop_last()),
        }
    }
}

/// No service failed.
pub open spec fn none_failed<T, U>(replies: Seq<(Reply<T, U>, Choice)>) -> bool {
    forall|i: int|
        0 <= i < replies.len() ==> !((#[trigger] replies[i]).0 matches Reply::Ready(Err(_)))
}

/// Where the search stands after some replies.
spec fn searched<T, U>(s: State, replies: Seq<(Reply<T, U>, Choice)>) -> bool {
    let t = run(s, replies);
    let f = refused(s, replies);
    &&& t.wf()
    &&& t.endpoints().len() == s.endpoints().len()
    &&& t.not_ready == s.not_ready + f
    &&& f.no_duplicates()
    &&& forall|entry: (u64, u64)| #[trigger] f.contains(entry) ==> s.ready.contains(entry)
    &&& forall|entry: (u64, u64)| #[trigger]
        t.ready.contains(entry) <==> s.ready.contains(entry) && !f.contains(entry)
    &&& t.ready.len() + f.len() == s.ready.len()
    &&& if t.stage is Idle {
        &&& replies.len() > 0
        &&& match t.chosen {
            Some(index) => {
                &&& index < t.ready.len()
                &&& asked(s, replies) == f.push(t.ready[index as int])
                &&& said(s, replies) matches Step::Done(Ok(Async::Ready(_)))
            },
            None => {
                &&& t.ready.len() == 0
                &&& asked(s, replies) == f
                &&& said(s, replies) == Step::<T, U>::Done(Ok(Async::NotReady))
            },
        }
    } else {
        &&& t.stage is Choosing || t.stage is Comparing
        &&& t.ready.len() > 0
        &&& asked(s, replies) == f
        &&& replies.len() > 0 ==> said(s, replies) is Ask
    }
}

/// Every reply takes the search on.
proof fn lemma_searched<T, U>(s: State, replies: Seq<(Reply<T, U>, Choice)>)
    requires
        s.wf(),
        s.stage is Choosing || s.stage is Comparing,
        s.endpoints().len() < usize::MAX,
        proper(s, replies),
        none_failed(replies),
    ensures
        searched(s, replies),
    decreases replies.len(),
{
    let t = run(s, replies);
    let f = refused(s, replies);
    if replies.len() == 0 {
        assert(s.not_ready + f =~= s.not_ready);
    } else {
        let init = replies.drop_last();
        assert(none_failed(init)) by {
            assert forall|i: int| 0 <= i < init.len() implies !(
            (#[trigger] init[i]).0 matches Reply::Ready(Err(_))) by {
                assert(init[i] == replies[i]);
            }
        }
        lemma_searched(s, init);
        let before = run(s, init);
        let (reply, choice) = replies.last();
        assert(replies[replies.len() - 1] == replies.last());
        law_conversation(before, reply, choice, reply);
        let fs = refused(s, init);
        match (before.stage, reply) {
            (Stage::Choosing(index), Reply::Ready(Ok(Async::NotReady))) => {
                let entry = before.ready[index as int];
                lemma_demoted(before, index);
                assert(before.ready.contains(entry));
                assert(f == fs.push(entry));
                assert(t.ready == before.demoted(index).ready);
                assert(t.not_ready == before.demoted(index).not_ready);
                assert(t.not_ready =~= s.not_ready + f);
                assert forall|e: (u64, u64)| #[trigger] f.contains(e) <==> fs.contains(e) || e
                    == entry by {
                    if fs.contains(e) {
                        assert(f[fs.index_of(e)] == e);
                    }
                    if f.contains(e) {
                        let i = f.index_of(e);
                        if i < fs.len() {
                            assert(fs[i] == e);
                        }
                    }
                    assert(f[fs.len() as int] == entry);
                }
                assert(f.no_duplicates()) by {
                    assert forall|i: int, j: int| 0 <= i < f.len() && 0 <= j < f.len() && i
                        != j implies f[i] != f[j] by {
                        if i < fs.len() {
                            assert(fs.contains(fs[i]));
                        }
                        if j < fs.len() {
                            assert(fs.contains(fs[j]));
                        }
                    }
                }
                assert forall|e: (u64, u64)| #[trigger]
                    t.ready.contains(e) <==> s.ready.contains(e) && !f.contains(e) by {
                    lemma_kept_by_removal(before.ready, index as int, e);
                }
            },
            _ => {
                assert(t.ready == before.ready);
                assert(t.not_ready == before.not_ready);
            },
        }
    }
}

/// The search for a ready service asks the services that are considered to be ready, and none of
/// them twice. Those that answer that they are not ready are exactly the ones that stop being
/// considered so, and come last among the others, in the order in which they were asked. The search
/// ends with `NotReady` iff all of them answer so. It ends with `Ready` at the first that does not,
/// which is the one that is then chosen: all that were asked before it are among the others.
pub proof fn law_search<T, U>(s: State, replies: Seq<(Reply<T, U>, Choice)>)
    requires
        s.wf(),
        s.stage is Choosing || s.stage is Comparing,
        s.endpoints().len() < usize::MAX,
        proper(s, replies),
        none_failed(replies),
        replies.len() > 0,
    ensures
        ({
            let t = run(s, replies);
            let a = asked(s, replies);
            let f = refused(s, replies);
            &&& a.no_duplicates()
            &&& forall|entry: (u64, u64)| #[trigger] a.contains(entry) ==> s.ready.contains(entry)
            &&& t.not_ready == s.not_ready + f
            &&& t.ready.len() + f.len() == s.ready.len()
            &&& forall|entry: (u64, u64)| #[trigger]
                t.ready.contains(entry) <==> s.ready.contains(entry) && !f.contains(entry)
            &&& said(s, replies) == Step::<T, U>::Done(Ok(Async::NotReady)) <==> (forall|
                entry: (u64, u64),
            | #[trigger]
                s.ready.contains(entry) ==> f.contains(entry))
            &&& match said(s, replies) {
                Step::Done(Ok(Async::Ready(_))) => {
                    &&& t.chosen matches Some(index) && index < t.ready.len()
                    &&& a == f.push(t.ready[t.chosen->0 as int])
                },
                Step::Done(Ok(Async::NotReady)) => t.chosen is None && t.ready.len() == 0 && a
                    == f,
                Step::Done(Err(_)) => false,
                Step::Ask(_) => a == f,
            }
        }),
{
    lemma_searched(s, replies);
    let t = run(s, replies);
    let a = asked(s, replies);
    let f = refused(s, replies);
    if t.chosen is Some && t.stage is Idle {
        let entry = t.ready[t.chosen->0 as int];
        assert(t.ready.contains(entry));
        assert forall|i: int, j: int| 0 <= i < a.len() && 0 <= j < a.len() && i != j implies a[i]
            != a[j] by {
            if i < f.len() {
                assert(f.contains(f[i]));
            }
            if j < f.len() {
                assert(f.contains(f[j]));
            }
        }
        assert forall|e: (u64, u64)| #[trigger] a.contains(e) implies s.ready.contains(e) by {
            let i = a.index_of(e);
            if i < f.len() {
                assert(f.contains(f[i]));
            }
        }
    }
    if t.ready.len() > 0 {
        let entry = t.ready[0];
        assert(t.ready.contains(entry));
        assert(s.ready.contains(entry) && !f.contains(entry));
    } else {
        assert forall|entry: (u64, u64)| #[trigger] s.ready.contains(entry) implies f.contains(
            entry,
        ) by {
            assert(!t.ready.contains(entry));
        }
    }
}

/// A poll in which nothing fails ends with `NotReady` iff no service is ready: the services that
/// are searched are those that were ready before and those that have just answered that they are,
/// and all of them answer that they are not.
pub proof fn law_poll_searches_all<T, U>(
    s: State,
    up: Seq<bool>,
    choice: Choice,
    replies: Seq<(Reply<T, U>, Choice)>,
)
    requires
        s.wf(),
        s.stage is Discovering,
        s.endpoints().len() < usize::MAX,
        up.len() == s.not_ready.len(),
        choice.fits(s.ready.len() + risen(s.not_ready, up).len()) || s.ready.len() + risen(
            s.not_ready,
            up,
        ).len() < 2,
        proper(run(s, answers::<T, U>(up, choice)), replies),
        none_failed(replies),
    ensures
        ({
            let found = s.ready + risen(s.not_ready, up);
            let begun = run(s, answers::<T, U>(up, choice));
            let all = answers::<T, U>(up, choice) + replies;
            if found.len() == 0 {
                said(s, answers::<T, U>(up, choice)) == Step::<T, U>::Done(Ok(Async::NotReady))
            } else {
                replies.len() > 0 ==> {
                    &&& said(s, all) == Step::<T, U>::Done(Ok(Async::NotReady)) <==> (forall|
                        entry: (u64, u64),
                    | #[trigger]
                        found.contains(entry) ==> refused(begun, replies).contains(entry))
                    &&& said(s, all) matches Step::Done(Ok(Async::Ready(_))) ==> {
                        let t = run(s, all);
                        &&& t.chosen matches Some(index) && index < t.ready.len()
                        &&& found.contains(t.ready[t.chosen->0 as int])
                        &&& !refused(begun, replies).contains(t.ready[t.chosen->0 as int])
                    }
                }
            }
        }),
{
    let first = answers::<T, U>(up, choice);
    let begun = run(s, first);
    law_promotion::<T, U>(s, up, choice);
    lemma_run_add(s, first, replies);
    if begun.ready.len() > 0 && replies.len() > 0 {
        law_search(begun, replies);
        let t = run(begun, replies);
        if t.chosen is Some && t.chosen->0 < t.ready.len() {
            assert(t.ready.contains(t.ready[t.chosen->0 as int]));
        }
    }
}

} // verus!
