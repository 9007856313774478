//! What holds of round robin over polls with requests between them.
use crate::chooser::{Choice, Choose, RoundRobin};
use crate::endpoints::distinct;
use crate::model::{Stage, State};
use crate::passes::{
    answer, inserts, law_whole_poll, lemma_inserts, lemma_run_add, risen, run, said, told,
    whole_poll,
};
use crate::poll::{Async, Reply, Step};
use vstd::prelude::*;

verus! {

/// The replies of a poll from an idle state on up to where discovery has told of the endpoints. The
/// service that got the last request, if any, is ready.
pub open spec fn opening<T, U>(s: State, endpoints: Seq<(u64, u64)>, choice: Choice) -> Seq<
    (Reply<T, U>, Choice),
> {
    if s.dispatched is Some {
        seq![(answer::<T, U>(true), choice)] + inserts(endpoints, choice)
    } else {
        inserts(endpoints, choice)
    }
}

/// The replies of a poll from an idle state on in which discovery tells of the endpoints and every
/// service that is asked is ready.
pub open spec fn ready_poll<T, U>(s: State, endpoints: Seq<(u64, u64)>, choice: Choice) -> Seq<
    (Reply<T, U>, Choice),
> {
    let told = run(s.begun().0, opening::<T, U>(s, endpoints, choice));
    opening(s, endpoints, choice) + whole_poll(
        told,
        Seq::new(told.not_ready.len(), |i: int| true),
        choice,
        true,
    )
}

/// The state in which the next poll begins, with or without a request before it.
pub open spec fn requested(s: State, call: bool) -> State {
    if call && s.chosen is Some {
        s.called()
    } else {
        s
    }
}

/// The state of a new balancer after `k` polls in which every service is ready, where the strategy
/// makes the choice `pick` in each and a request comes before some of them, as `calls` says.
pub open spec fn polled<T, U>(
    endpoints: Seq<(u64, u64)>,
    calls: spec_fn(nat) -> bool,
    pick: spec_fn(nat) -> Choice,
    k: nat,
) -> State
    decreases k,
{
    if k == 0 {
        State::fresh()
    } else {
        let j = (k - 1) as nat;
        let before = requested(polled::<T, U>(endpoints, calls, pick, j), calls(j));
        run(before.begun().0, ready_poll::<T, U>(before, told(endpoints, j), pick(j)))
    }
}

/// What poll `k` (the first is poll 0) comes to.
pub open spec fn outcome<T, U>(
    endpoints: Seq<(u64, u64)>,
    calls: spec_fn(nat) -> bool,
    pick: spec_fn(nat) -> Choice,
    k: nat,
) -> Step<T, U> {
    let before = requested(polled::<T, U>(endpoints, calls, pick, k), calls(k));
    said(before.begun().0, ready_poll::<T, U>(before, told(endpoints, k), pick(k)))
}

/// The choice of poll `j` is that of round robin, which is consulted where there are two or more
/// services. They are asked from the last to the first, so that is the order in which they become
/// ready.
pub open spec fn round_robin_turn(
    endpoints: Seq<(u64, u64)>,
    pick: spec_fn(nat) -> Choice,
    choosers: spec_fn(nat) -> RoundRobin,
    j: nat,
) -> bool {
    if endpoints.len() >= 2 {
        RoundRobin::chooses(choosers(j), endpoints.reverse(), pick(j), choosers(j + 1))
    } else {
        choosers(j + 1) == choosers(j)
    }
}

/// The choices of the first `k` polls are those of round robin, from its first on.
pub open spec fn takes_turns(
    endpoints: Seq<(u64, u64)>,
    pick: spec_fn(nat) -> Choice,
    choosers: spec_fn(nat) -> RoundRobin,
    k: nat,
) -> bool {
    &&& choosers(0).pos() == 0
    &&& forall|j: nat| j < k ==> #[trigger] round_robin_turn(endpoints, pick, choosers, j)
}

/// Where all answer that they are ready, all rise, from the last to the first.
proof fn lemma_all_rise(s: Seq<(u64, u64)>, count: nat)
    requires
        count <= s.len(),
    ensures
        risen(s, Seq::new(count, |i: int| true)) == Seq::new(count, |i: int| s[s.len() - 1 - i]),
    decreases count,
{
    let up = Seq::new(count, |i: int| true);
    if count > 0 {
        let less = (count - 1) as nat;
        lemma_all_rise(s, less);
        assert(up.drop_last() =~= Seq::new(less, |i: int| true));
    }
    assert(risen(s, up) =~= Seq::new(count, |i: int| s[s.len() - 1 - i]));
}

/// What is known after poll `k`.
proof fn lemma_rotation<T, U>(
    endpoints: Seq<(u64, u64)>,
    calls: spec_fn(nat) -> bool,
    pick: spec_fn(nat) -> Choice,
    choosers: spec_fn(nat) -> RoundRobin,
    k: nat,
)
    requires
        1 <= endpoints.len() <= usize::MAX,
        distinct(endpoints),
        takes_turns(endpoints, pick, choosers, k + 1),
    ensures
        ({
            let m = endpoints.len() as int;
            let t = polled::<T, U>(endpoints, calls, pick, k + 1);
            &&& t.wf()
            &&& t.stage is Idle
            &&& t.ready == endpoints.reverse()
            &&& t.not_ready.len() == 0
            &&& t.dispatched is None
            &&& t.chosen == Some((k as int % m) as usize)
            &&& outcome::<T, U>(endpoints, calls, pick, k) == Step::<T, U>::Done(
                Ok(Async::Ready(())),
            )
            &&& choosers(k + 1).pos() == (k + 1) as int % m
        }),
    decreases k,
{
    let m = endpoints.len() as int;
    let old_state = polled::<T, U>(endpoints, calls, pick, k);
    let before = requested(old_state, calls(k));
    let new = told(endpoints, k);
    let choice = pick(k);
    let start = before.begun().0;
    let first = opening::<T, U>(before, new, choice);
    let d = run(start, first);
    let up = Seq::new(d.not_ready.len(), |i: int| true);
    let rest = whole_poll::<T, U>(d, up, choice, true);
    assert(round_robin_turn(endpoints, pick, choosers, k));
    if k == 0 {
        assert(before == State::fresh());
        lemma_inserts::<T, U>(start, endpoints, choice);
        lemma_all_rise(endpoints, endpoints.len());
        assert(d.ready + risen(d.not_ready, up) =~= endpoints.reverse());
        vstd::arithmetic::div_mod::lemma_small_mod(0, m as nat);
    } else {
        let j = (k - 1) as nat;
        lemma_rotation::<T, U>(endpoints, calls, pick, choosers, j);
        assert(inserts::<T, U>(new, choice) =~= Seq::empty());
        if before.dispatched is Some {
            assert(first =~= seq![(answer::<T, U>(true), choice)]);
            assert(first.drop_last() =~= Seq::empty());
            assert(run(start, first.drop_last()) == start);
        } else {
            assert(first =~= Seq::empty());
        }
        assert(d == State { chosen: None, ..old_state }.at(Stage::Discovering));
        assert(d.ready + risen(d.not_ready, up) =~= endpoints.reverse());
    }
    assert(choosers(k).pos() == k as int % m);
    assert(0 <= k as int % m < m) by (nonlinear_arith)
        requires
            m > 0,
            k >= 0,
    ;
    vstd::arithmetic::div_mod::lemma_mod_twice(k as int, m);
    if m >= 2 {
        vstd::arithmetic::div_mod::lemma_add_mod_noop(k as int, 1, m);
        vstd::arithmetic::div_mod::lemma_small_mod(1, m as nat);
    }
    law_whole_poll::<T, U>(d, up, choice, true);
    lemma_run_add::<T, U>(start, first, rest);
}

/// Round robin dispatches requests evenly: where discovery tells a new balancer of `m` services
/// with distinct keys, all of which are always ready, every poll ends with `Ready`, and poll `k`
/// (the first is poll 0) chooses the ready service at index `k % m`, whether or not requests come
/// between the polls. The order of the ready services does not change.
pub proof fn law_round_robin_rotates<T, U>(
    endpoints: Seq<(u64, u64)>,
    calls: spec_fn(nat) -> bool,
    pick: spec_fn(nat) -> Choice,
    choosers: spec_fn(nat) -> RoundRobin,
    k: nat,
)
    requires
        1 <= endpoints.len() <= usize::MAX,
        distinct(endpoints),
        takes_turns(endpoints, pick, choosers, k + 1),
    ensures
        ({
            let t = polled::<T, U>(endpoints, calls, pick, k + 1);
            &&& outcome::<T, U>(endpoints, calls, pick, k) == Step::<T, U>::Done(
                Ok(Async::Ready(())),
            )
            &&& t.chosen == Some((k as int % endpoints.len() as int) as usize)
            &&& t.ready == endpoints.reverse()
            &&& t.not_ready.len() == 0
        }),
{
    lemma_rotation::<T, U>(endpoints, calls, pick, choosers, k);
}

/// Over any `m` successive polls of `m` services that are always ready, round robin chooses each
/// service exactly once, whether or not requests come between the polls.
pub proof fn law_round_robin_serves_all<T, U>(
    endpoints: Seq<(u64, u64)>,
    calls: spec_fn(nat) -> bool,
    pick: spec_fn(nat) -> Choice,
    choosers: spec_fn(nat) -> RoundRobin,
    from: nat,
    index: usize,
)
    requires
        1 <= endpoints.len() <= usize::MAX,
        distinct(endpoints),
        takes_turns(endpoints, pick, choosers, from + endpoints.len()),
        index < endpoints.len(),
    ensures
        exists|k: nat|
            {
                &&& from <= k < from + endpoints.len()
                &&& (#[trigger] polled::<T, U>(endpoints, calls, pick, k + 1)).chosen == Some(index)
                &&& forall|other: nat|
                    from <= other < from + endpoints.len() && other != k ==> (
                    #[trigger] polled::<T, U>(endpoints, calls, pick, other + 1)).chosen != Some(
                        index,
                    )
            },
{
    let m = endpoints.len() as int;
    let d = (index - from) % m;
    assert(0 <= d < m) by (nonlinear_arith)
        requires
            d == (index - from) % m,
            m > 0,
    ;
    let k = (from + d) as nat;
    vstd::arithmetic::div_mod::lemma_add_mod_noop_right(from as int, index - from, m);
    vstd::arithmetic::div_mod::lemma_small_mod(index as nat, m as nat);
    assert(k as int % m == index);
    lemma_rotation::<T, U>(endpoints, calls, pick, choosers, k);
    assert(polled::<T, U>(endpoints, calls, pick, k + 1).chosen == Some(index));
    assert forall|other: nat| from <= other < from + m && other != k implies (
    #[trigger] polled::<T, U>(endpoints, calls, pick, other + 1)).chosen != Some(index) by {
        lemma_rotation::<T, U>(endpoints, calls, pick, choosers, other);
        let b = other as int % m;
        assert(0 <= b < m) by (nonlinear_arith)
            requires
                b == other as int % m,
                m > 0,
        ;
        if b == index {
            vstd::arithmetic::div_mod::lemma_mod_equivalence(other as int, k as int, m);
            let gap = other - k;
            if gap > 0 {
                vstd::arithmetic::div_mod::lemma_small_mod(gap as nat, m as nat);
            } else {
                vstd::arithmetic::div_mod::lemma_mod_add_multiples_vanish(gap, m);
                vstd::arithmetic::div_mod::lemma_small_mod((gap + m) as nat, m as nat);
            }
        }
    }
}

} // verus!
