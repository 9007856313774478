//! What holds of services that have to be polled a number of times before they are ready.
use crate::chooser::{Choice, Choose, RoundRobin};
use crate::endpoints::{distinct, has_key, lemma_entry, position, service_of};
use crate::model::State;
use crate::passes::{
    index_of_choice, inserts, law_whole_poll, lemma_inserts, lemma_run_add, risen, run, said, told,
    whole_poll,
};
use crate::poll::{Async, Reply, Step};
use vstd::prelude::*;

verus! {

/// How the endpoints `s`, asked from right to left, answer in poll `k` (the first is poll 0), where
/// each service has to be polled `tries` times before it is ready.
pub open spec fn reluctant(s: Seq<(u64, u64)>, tries: spec_fn(u64) -> nat, k: nat) -> Seq<bool> {
    Seq::new(s.len(), |j: int| tries(s[s.len() - 1 - j].1) <= k)
}

/// The state in which discovery has told of the endpoints that are new in poll `k`.
pub open spec fn opened<T, U>(
    s: State,
    new: Seq<(u64, u64)>,
    pick: spec_fn(nat, nat) -> Choice,
    k: nat,
) -> State {
    run(s.begun().0, inserts::<T, U>(new, pick(k, 0)))
}

/// The replies of poll `k` from an idle state on, where discovery tells of new endpoints, each
/// service that is not ready has to be polled `tries` times before it is, and the strategy makes
/// the choice `pick` over a given number of ready services.
pub open spec fn reluctant_poll<T, U>(
    s: State,
    new: Seq<(u64, u64)>,
    tries: spec_fn(u64) -> nat,
    pick: spec_fn(nat, nat) -> Choice,
    k: nat,
) -> Seq<(Reply<T, U>, Choice)> {
    let open = opened::<T, U>(s, new, pick, k);
    let up = reluctant(open.not_ready, tries, k);
    let count = open.ready.len() + risen(open.not_ready, up).len();
    inserts(new, pick(k, 0)) + whole_poll(open, up, pick(k, count), true)
}

/// The state of a new balancer after the first `k` polls. Discovery tells it of the endpoints in
/// the first poll.
pub open spec fn after_polls<T, U>(
    endpoints: Seq<(u64, u64)>,
    tries: spec_fn(u64) -> nat,
    pick: spec_fn(nat, nat) -> Choice,
    k: nat,
) -> State
    decreases k,
{
    if k == 0 {
        State::fresh()
    } else {
        let j = (k - 1) as nat;
        let before = after_polls::<T, U>(endpoints, tries, pick, j);
        run(
            before.begun().0,
            reluctant_poll::<T, U>(before, told(endpoints, j), tries, pick, j),
        )
    }
}

/// What poll `k` (the first is poll 0) comes to.
pub open spec fn outcome<T, U>(
    endpoints: Seq<(u64, u64)>,
    tries: spec_fn(u64) -> nat,
    pick: spec_fn(nat, nat) -> Choice,
    k: nat,
) -> Step<T, U> {
    let before = after_polls::<T, U>(endpoints, tries, pick, k);
    said(
        before.begun().0,
        reluctant_poll::<T, U>(before, told(endpoints, k), tries, pick, k),
    )
}

/// The state in which discovery has told a new balancer of the endpoints.
spec fn known(endpoints: Seq<(u64, u64)>) -> State {
    State { not_ready: endpoints, ..State::fresh() }
}

/// What holds of the state `t` after `k` polls, of which there was at least one.
spec fn settled(
    endpoints: Seq<(u64, u64)>,
    tries: spec_fn(u64) -> nat,
    k: nat,
    t: State,
) -> bool {
    &&& t.wf()
    &&& t.stage is Idle
    &&& t.dispatched is None
    &&& t.endpoints().len() == endpoints.len()
    &&& t.directory() == known(endpoints).directory()
    &&& forall|entry: (u64, u64)| #[trigger]
        t.not_ready.contains(entry) <==> endpoints.contains(entry) && tries(entry.1) >= k
}

/// What poll `k` comes to, and what it leaves.
proof fn lemma_reluctant_poll<T, U>(
    endpoints: Seq<(u64, u64)>,
    tries: spec_fn(u64) -> nat,
    pick: spec_fn(nat, nat) -> Choice,
    k: nat,
)
    requires
        endpoints.len() <= usize::MAX,
        distinct(endpoints),
        forall|j: nat, count: nat| count >= 2 ==> (#[trigger] pick(j, count)).fits(count),
    ensures
        ({
            let before = after_polls::<T, U>(endpoints, tries, pick, k);
            let t = after_polls::<T, U>(endpoints, tries, pick, k + 1);
            let count = t.ready.len();
            &&& settled(endpoints, tries, k + 1, t)
            &&& before.ready.len() <= count
            &&& if count == 0 {
                &&& t.chosen is None
                &&& outcome::<T, U>(endpoints, tries, pick, k) == Step::<T, U>::Done(
                    Ok(Async::NotReady),
                )
            } else {
                &&& t.chosen == Some(index_of_choice(count, pick(k, count), true))
                &&& outcome::<T, U>(endpoints, tries, pick, k) == Step::<T, U>::Done(
                    Ok(Async::Ready(())),
                )
            }
        }),
    decreases k,
{
    let before = after_polls::<T, U>(endpoints, tries, pick, k);
    let t = after_polls::<T, U>(endpoints, tries, pick, k + 1);
    let start = before.begun().0;
    let first = inserts::<T, U>(told(endpoints, k), pick(k, 0));
    let open = opened::<T, U>(before, told(endpoints, k), pick, k);
    let up = reluctant(open.not_ready, tries, k);
    let count = open.ready.len() + risen(open.not_ready, up).len();
    if k == 0 {
        lemma_inserts::<T, U>(start, endpoints, pick(k, 0));
        assert forall|key: u64| has_key(open.ready, key) implies !#[trigger] has_key(
            open.not_ready,
            key,
        ) by {}
        assert(open.wf());
        assert(open.directory() =~= known(endpoints).directory());
    } else {
        lemma_reluctant_poll::<T, U>(endpoints, tries, pick, (k - 1) as nat);
        assert(first =~= Seq::empty());
        assert(open == start);
        assert(open.directory() =~= before.directory());
    }
    assert(count >= 2 ==> pick(k, count).fits(count));
    law_whole_poll::<T, U>(open, up, pick(k, count), true);
    lemma_run_add::<T, U>(start, first, whole_poll::<T, U>(open, up, pick(k, count), true));
    assert forall|entry: (u64, u64)| #[trigger]
        t.not_ready.contains(entry) <==> endpoints.contains(entry) && tries(entry.1) >= k + 1 by {
        if open.not_ready.contains(entry) {
            let i = open.not_ready.index_of(entry);
            assert(open.not_ready[i] == entry);
            assert(up[open.not_ready.len() - 1 - i] == (tries(entry.1) <= k));
        }
    }
}

/// A balancer does not become ready prematurely, and promotes every service in time: where
/// discovery tells a new balancer of services in its first poll, and each service has to be polled
/// a number of times before it is ready, then after poll `k` (the first is poll 0) exactly the
/// services whose number is at most `k` are ready, exactly the others are not, and the poll ended
/// with `Ready` iff there is a ready one.
pub proof fn law_reluctant_services<T, U>(
    endpoints: Seq<(u64, u64)>,
    tries: spec_fn(u64) -> nat,
    pick: spec_fn(nat, nat) -> Choice,
    k: nat,
)
    requires
        endpoints.len() <= usize::MAX,
        distinct(endpoints),
        forall|j: nat, count: nat| count >= 2 ==> (#[trigger] pick(j, count)).fits(count),
    ensures
        ({
            let t = after_polls::<T, U>(endpoints, tries, pick, k + 1);
            &&& t.wf()
            &&& t.stage is Idle
            &&& t.dispatched is None
            &&& forall|entry: (u64, u64)| #[trigger]
                t.ready.contains(entry) <==> endpoints.contains(entry) && tries(entry.1) <= k
            &&& forall|entry: (u64, u64)| #[trigger]
                t.not_ready.contains(entry) <==> endpoints.contains(entry) && tries(entry.1) > k
            &&& t.ready.len() + t.not_ready.len() == endpoints.len()
            &&& t.not_ready.len() == endpoints.filter(
                |entry: (u64, u64)| tries(entry.1) > k,
            ).len()
            &&& t.ready.len() == 0 ==> t.chosen is None
            &&& outcome::<T, U>(endpoints, tries, pick, k) == if t.ready.len() == 0 {
                Step::<T, U>::Done(Ok(Async::NotReady))
            } else {
                Step::Done(Ok(Async::Ready(())))
            }
        }),
{
    let pending = |entry: (u64, u64)| tries(entry.1) > k;
    let t = after_polls::<T, U>(endpoints, tries, pick, k + 1);
    lemma_reluctant_poll::<T, U>(endpoints, tries, pick, k);
    assert forall|entry: (u64, u64)| #[trigger]
        t.ready.contains(entry) <==> endpoints.contains(entry) && tries(entry.1) <= k by {
        lemma_ready_entry(endpoints, tries, k + 1, t, entry);
    }
    assert(t.not_ready.len() == endpoints.filter(pending).len()) by {
        let f = endpoints.filter(pending);
        lemma_no_duplicates(t.not_ready);
        lemma_no_duplicates(endpoints);
        lemma_filter_no_duplicates(endpoints, pending);
        assert(t.not_ready.to_set() =~= f.to_set()) by {
            assert forall|entry: (u64, u64)| t.not_ready.contains(entry) <==> f.contains(entry) by {
                lemma_filter_contains(endpoints, pending, entry);
            }
        }
        t.not_ready.unique_seq_to_set();
        f.unique_seq_to_set();
    }
}

/// The endpoints that are not among the others are ready.
proof fn lemma_ready_entry(
    endpoints: Seq<(u64, u64)>,
    tries: spec_fn(u64) -> nat,
    k: nat,
    t: State,
    entry: (u64, u64),
)
    requires
        distinct(endpoints),
        settled(endpoints, tries, k, t),
    ensures
        t.ready.contains(entry) <==> endpoints.contains(entry) && tries(entry.1) < k,
{
    let (key, service) = entry;
    let s = known(endpoints);
    assert(t.directory().dom().contains(key) == s.directory().dom().contains(key));
    assert(t.directory()[key] == s.directory()[key]);
    if has_key(t.not_ready, key) {
        let other = t.not_ready[position(t.not_ready, key)];
        assert(t.not_ready.contains(other));
        lemma_entry(endpoints, endpoints.index_of(other));
    }
    if t.ready.contains(entry) {
        lemma_entry(t.ready, t.ready.index_of(entry));
        assert(service_of(endpoints, key) == Some(service));
        assert(endpoints.contains(endpoints[position(endpoints, key)]));
        if t.not_ready.contains(entry) {
            lemma_entry(t.not_ready, t.not_ready.index_of(entry));
        }
    }
    if endpoints.contains(entry) {
        lemma_entry(endpoints, endpoints.index_of(entry));
        if tries(service) < k {
            assert(has_key(t.ready, key));
            assert(service_of(t.ready, key) == Some(service));
            assert(t.ready.contains(t.ready[position(t.ready, key)]));
        }
    }
}

/// The index that is due in poll `k` where the ready services take turns: the one after the index
/// that was due before, among the services that were ready then.
pub open spec fn due<T, U>(
    endpoints: Seq<(u64, u64)>,
    tries: spec_fn(u64) -> nat,
    pick: spec_fn(nat, nat) -> Choice,
    k: nat,
) -> int
    decreases k,
{
    if k == 0 {
        0
    } else {
        let count = after_polls::<T, U>(endpoints, tries, pick, k).ready.len() as int;
        let before = due::<T, U>(endpoints, tries, pick, (k - 1) as nat);
        if count == 0 {
            before
        } else {
            (before + 1) % count
        }
    }
}

/// The choice of poll `j` is that of round robin, which is consulted where two or more services are
/// ready.
pub open spec fn round_robin_poll<T, U>(
    endpoints: Seq<(u64, u64)>,
    tries: spec_fn(u64) -> nat,
    pick: spec_fn(nat, nat) -> Choice,
    choosers: spec_fn(nat) -> RoundRobin,
    j: nat,
) -> bool {
    let ready = after_polls::<T, U>(endpoints, tries, pick, j + 1).ready;
    if ready.len() >= 2 {
        RoundRobin::chooses(choosers(j), ready, pick(j, ready.len()), choosers(j + 1))
    } else {
        choosers(j + 1) == choosers(j)
    }
}

/// The choices of the first `k` polls are those of round robin, from its first on.
pub open spec fn picked_in_turn<T, U>(
    endpoints: Seq<(u64, u64)>,
    tries: spec_fn(u64) -> nat,
    pick: spec_fn(nat, nat) -> Choice,
    choosers: spec_fn(nat) -> RoundRobin,
    k: nat,
) -> bool {
    &&& choosers(0).pos() == 0
    &&& forall|j: nat|
        j < k ==> #[trigger] round_robin_poll::<T, U>(endpoints, tries, pick, choosers, j)
}

/// Where the services of a new balancer become ready one after the other and stay so, round robin
/// lets the ready ones take turns: each poll chooses the index after the one before, and none only
/// while there is none.
pub proof fn law_reluctant_services_take_turns<T, U>(
    endpoints: Seq<(u64, u64)>,
    tries: spec_fn(u64) -> nat,
    pick: spec_fn(nat, nat) -> Choice,
    choosers: spec_fn(nat) -> RoundRobin,
    k: nat,
)
    requires
        endpoints.len() <= usize::MAX,
        distinct(endpoints),
        forall|j: nat, count: nat| count >= 2 ==> (#[trigger] pick(j, count)).fits(count),
        picked_in_turn::<T, U>(endpoints, tries, pick, choosers, k + 1),
    ensures
        ({
            let t = after_polls::<T, U>(endpoints, tries, pick, k + 1);
            t.chosen == if t.ready.len() == 0 {
                None
            } else {
                Some(due::<T, U>(endpoints, tries, pick, k) as usize)
            }
        }),
{
    lemma_reluctant_poll::<T, U>(endpoints, tries, pick, k);
    lemma_due::<T, U>(endpoints, tries, pick, choosers, k);
    assert(round_robin_poll::<T, U>(endpoints, tries, pick, choosers, k));
    let count = after_polls::<T, U>(endpoints, tries, pick, k + 1).ready.len();
    if count >= 2 {
        vstd::arithmetic::div_mod::lemma_small_mod(choosers(k).pos() as nat, count);
    }
}

/// Round robin stands at the index that is due, which is one of the ready services.
proof fn lemma_due<T, U>(
    endpoints: Seq<(u64, u64)>,
    tries: spec_fn(u64) -> nat,
    pick: spec_fn(nat, nat) -> Choice,
    choosers: spec_fn(nat) -> RoundRobin,
    k: nat,
)
    requires
        endpoints.len() <= usize::MAX,
        distinct(endpoints),
        forall|j: nat, count: nat| count >= 2 ==> (#[trigger] pick(j, count)).fits(count),
        picked_in_turn::<T, U>(endpoints, tries, pick, choosers, k + 1),
    ensures
        ({
            let next = after_polls::<T, U>(endpoints, tries, pick, k + 1).ready.len();
            let now = due::<T, U>(endpoints, tries, pick, k);
            &&& choosers(k).pos() == now
            &&& 0 <= now
            &&& now < next || now == 0
        }),
    decreases k,
{
    lemma_reluctant_poll::<T, U>(endpoints, tries, pick, k);
    if k > 0 {
        let j = (k - 1) as nat;
        lemma_due::<T, U>(endpoints, tries, pick, choosers, j);
        assert(round_robin_poll::<T, U>(endpoints, tries, pick, choosers, j));
        let ready = after_polls::<T, U>(endpoints, tries, pick, k).ready;
        let count = ready.len() as int;
        let before = due::<T, U>(endpoints, tries, pick, j);
        if count >= 2 {
            vstd::arithmetic::div_mod::lemma_small_mod(before as nat, count as nat);
            assert(0 <= (before + 1) % count < count) by (nonlinear_arith)
                requires
                    count > 0,
            ;
        }
    }
}

/// No entry occurs twice where no key does.
proof fn lemma_no_duplicates(s: Seq<(u64, u64)>)
    requires
        distinct(s),
    ensures
        s.no_duplicates(),
{
    assert forall|i: int, j: int| 0 <= i < s.len() && 0 <= j < s.len() && i != j implies s[i]
        != s[j] by {
        lemma_entry(s, i);
        lemma_entry(s, j);
    }
}

/// A filter keeps what it lets pass.
proof fn lemma_filter_contains(
    s: Seq<(u64, u64)>,
    pred: spec_fn((u64, u64)) -> bool,
    entry: (u64, u64),
)
    ensures
        s.filter(pred).contains(entry) <==> s.contains(entry) && pred(entry),
    decreases s.len(),
{
    reveal(Seq::filter);
    if s.len() > 0 {
        let init = s.drop_last();
        lemma_filter_contains(init, pred, entry);
        let f = init.filter(pred);
        if s.contains(entry) {
            let i = s.index_of(entry);
            if i < s.len() - 1 {
                assert(init[i] == entry);
            }
        }
        if init.contains(entry) {
            let i = init.index_of(entry);
            assert(s[i] == entry);
        }
        if f.contains(entry) {
            let i = f.index_of(entry);
            assert(f.push(s.last())[i] == entry);
        }
        assert(f.push(s.last())[f.len() as int] == s.last());
        assert(s[s.len() - 1] == s.last());
        if f.push(s.last()).contains(entry) {
            let i = f.push(s.last()).index_of(entry);
            if i < f.len() {
                assert(f[i] == entry);
            }
        }
    }
}

/// A filter brings no duplicates.
proof fn lemma_filter_no_duplicates(s: Seq<(u64, u64)>, pred: spec_fn((u64, u64)) -> bool)
    requires
        s.no_duplicates(),
    ensures
        s.filter(pred).no_duplicates(),
    decreases s.len(),
{
    reveal(Seq::filter);
    if s.len() > 0 {
        let init = s.drop_last();
        lemma_filter_no_duplicates(init, pred);
        lemma_filter_contains(init, pred, s.last());
        let f = init.filter(pred);
        assert(!init.contains(s.last())) by {
            if init.contains(s.last()) {
                let i = init.index_of(s.last());
                assert(s[i] == s[s.len() - 1]);
            }
        }
        assert forall|i: int, j: int|
            0 <= i < s.filter(pred).len() && 0 <= j < s.filter(pred).len() && i
                != j implies s.filter(pred)[i] != s.filter(pred)[j] by {
            if i < f.len() {
                assert(f.contains(f[i]));
            }
            if j < f.len() {
                assert(f.contains(f[j]));
            }
        }
    }
}

} // verus!
