use rand::rngs::SmallRng;
use rand::{RngCore, SeedableRng};
use tower_balance::chooser::{replicas, Choice, Choose, PowerOfTwoChoices, Replicas, RoundRobin, TooFew};
use tower_balance::poll::{Async, Change, Reply, Request, Step};
use tower_balance::Balance;

use indexmap::IndexMap;

fn table(len: u64) -> IndexMap<u64, u64> {
    (0..len).map(|key| (key, 100 + key)).collect()
}

/// A balancer whose services `100..100 + len` are all ready, in that order, and that is about to
/// choose.
fn ready<C: Choose>(choose: C, len: u64) -> (Balance<(), C>, Step<(), ()>) {
    let mut balance = Balance::new((), choose);
    balance.poll_ready();
    for key in (0..len).rev() {
        let _: Step<(), ()> =
            balance.resume(Reply::Discover(Ok(Async::Ready(Change::Insert(key, 100 + key)))));
    }
    let mut step: Step<(), ()> = balance.resume(Reply::Discover(Ok(Async::NotReady)));
    for _ in 0..len {
        step = balance.resume(Reply::Ready(Ok(Async::Ready(()))));
    }
    (balance, step)
}

/// Has the balancer choose again, and returns what it asks for.
fn again<C: Choose>(balance: &mut Balance<(), C>) -> Step<(), ()> {
    balance.poll_ready();
    balance.resume(Reply::Discover(Ok(Async::NotReady)))
}

/// The pairs that a balancer over 50 services picks.
fn pairs(balance: Balance<(), PowerOfTwoChoices>) -> Vec<(u64, u64)> {
    let mut balance = balance;
    balance.poll_ready();
    for key in 0..50 {
        let _: Step<(), ()> = balance.resume(Reply::Discover(Ok(Async::Ready(Change::Insert(key, key)))));
    }
    let mut step: Step<(), ()> = balance.resume(Reply::Discover(Ok(Async::NotReady)));
    for _ in 0..50 {
        step = balance.resume(Reply::Ready(Ok(Async::Ready(()))));
    }
    let mut pairs = Vec::new();
    for _ in 0..20 {
        match step {
            Step::Ask(Request::CompareLoads(a, b)) => pairs.push((a, b)),
            other => panic!("unexpected step {:?}", other),
        }
        step = again(&mut balance);
    }
    pairs
}

#[test]
fn fewer_than_two_are_no_replicas() {
    assert_eq!(replicas(&table(0)).err(), Some(TooFew));
    assert_eq!(replicas(&table(1)).err(), Some(TooFew));
    let two = table(2);
    let two = replicas(&two).unwrap();
    assert_eq!(two.len(), 2);
    assert_eq!(two.get(0), Some((0, 100)));
    assert_eq!(two.get(1), Some((1, 101)));
    assert_eq!(two.get(2), None);
}

#[test]
fn round_robin_begins_again_after_the_last() {
    let five = table(5);
    let three = table(3);
    let mut chooser = RoundRobin::default();
    let mut chosen = Vec::new();
    for _ in 0..7 {
        chosen.push(chooser.pick(&replicas(&five).unwrap()));
    }
    let expected: Vec<Choice> = [0, 1, 2, 3, 4, 0, 1].iter().map(|i| Choice::One(*i)).collect();
    assert_eq!(chosen, expected);
    // The index that is due is kept within the replicas that are there.
    assert_eq!(chooser.pick(&replicas(&five).unwrap()), Choice::One(2));
    assert_eq!(chooser.pick(&replicas(&three).unwrap()), Choice::One(0));
    assert_eq!(chooser.pick(&replicas(&three).unwrap()), Choice::One(1));
}

#[test]
fn two_choices_are_different_and_in_range() {
    let mut chooser = PowerOfTwoChoices::new(SmallRng::seed_from_u64(7));
    let mut seen = [false; 9];
    let nine = table(9);
    for _ in 0..500 {
        match chooser.pick(&replicas(&nine).unwrap()) {
            Choice::LighterOf(a, b) => {
                assert!(a < 9 && b < 9 && a != b);
                seen[a] = true;
                seen[b] = true;
            }
            other => panic!("unexpected choice {:?}", other),
        }
    }
    assert_eq!(seen, [true; 9]);
    let two = table(2);
    for _ in 0..20 {
        let choice = chooser.pick(&replicas(&two).unwrap());
        assert!(choice == Choice::LighterOf(0, 1) || choice == Choice::LighterOf(1, 0));
    }
}

#[test]
fn the_lighter_of_two_is_polled() {
    for first_no_heavier in [true, false] {
        let chooser = PowerOfTwoChoices::new(SmallRng::seed_from_u64(3));
        let (mut balance, step) = ready(chooser, 5);
        let (a, b) = match step {
            Step::Ask(Request::CompareLoads(a, b)) => (a, b),
            other => panic!("unexpected step {:?}", other),
        };
        assert_ne!(a, b);
        let step: Step<(), ()> = balance.resume(Reply::FirstNoHeavier(first_no_heavier));
        let lighter = if first_no_heavier { a } else { b };
        assert_eq!(step, Step::Ask(Request::PollReady(lighter)));
        let step: Step<(), ()> = balance.resume(Reply::Ready(Ok(Async::Ready(()))));
        assert_eq!(step, Step::Done(Ok(Async::Ready(()))));
        assert_eq!(balance.chosen_ready_index(), Some(lighter as usize - 100));
        assert_eq!(balance.call(), lighter);
    }
}

#[test]
fn a_balancer_draws_with_the_generator_it_was_given() {
    let seeded = Balance::p2c_seeded((), Ok(SmallRng::seed_from_u64(11))).unwrap();
    let same = Balance::new((), PowerOfTwoChoices::new(SmallRng::seed_from_u64(11)));
    let other = Balance::p2c_seeded((), Ok(SmallRng::seed_from_u64(12))).unwrap();
    let drawn = pairs(seeded);
    assert_eq!(drawn, pairs(same));
    assert_ne!(drawn, pairs(other));
}

#[test]
fn a_failed_seeding_is_passed_on() {
    let failure = rand::Error::new(rand::ErrorKind::Unavailable, "no entropy");
    let balance = Balance::p2c_seeded((), Err(failure));
    let why = balance.err().unwrap();
    assert_eq!(why.0.kind, rand::ErrorKind::Unavailable);
}

#[test]
fn balancers_from_one_generator_draw_differently() {
    let mut rng = SmallRng::seed_from_u64(5);
    let untouched = rng.clone();
    let first = Balance::p2c_with_rng((), &mut rng).unwrap();
    let second = Balance::p2c_with_rng((), &mut rng).unwrap();
    assert_ne!(rng.next_u64(), untouched.clone().next_u64());
    let first = pairs(first);
    assert_ne!(first, pairs(second));
    assert_ne!(first, pairs(Balance::p2c_seeded((), Ok(untouched)).unwrap()));
}

#[test]
fn a_new_p2c_balancer_draws_with_its_generator_and_knows_of_no_service() {
    let mut balance = Balance::p2c(vec![9], SmallRng::seed_from_u64(21));
    assert!(balance.is_not_ready());
    assert!(balance.services().is_empty());
    assert_eq!(*balance.discover_mut(), vec![9]);
    let drawn = pairs(Balance::p2c((), SmallRng::seed_from_u64(21)));
    assert_eq!(drawn, pairs(Balance::p2c((), SmallRng::seed_from_u64(21))));
    assert_ne!(drawn, pairs(Balance::p2c((), SmallRng::seed_from_u64(22))));
}

/// Always picks the last replica.
struct Last;

impl Choose for Last {
    fn pick(&mut self, replicas: &Replicas<'_>) -> Choice {
        Choice::One(replicas.len() - 1)
    }
}

#[test]
fn a_strategy_of_ones_own_can_be_used() {
    let (mut balance, step) = ready(Last, 4);
    assert_eq!(step, Step::Ask(Request::PollReady(103)));
    let step: Step<(), ()> = balance.resume(Reply::Ready(Ok(Async::NotReady)));
    assert_eq!(step, Step::Ask(Request::PollReady(102)));
    let step: Step<(), ()> = balance.resume(Reply::Ready(Ok(Async::Ready(()))));
    assert_eq!(step, Step::Done(Ok(Async::Ready(()))));
    assert_eq!(balance.chosen_ready_index(), Some(2));
}
