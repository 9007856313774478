use quickcheck::{QuickCheck, TestResult};
use std::collections::{HashMap, VecDeque};
use tower_balance::chooser::RoundRobin;
use tower_balance::poll::{Async, Change, Poll, Reply, Request, Step};
use tower_balance::{Balance, Error};

type Disco = VecDeque<Change>;
type Outcome = Poll<(), Error<&'static str, &'static str>>;

/// Polls for readiness to the end. Each service answers that it is not ready as often as `tries`
/// says, and then that it is. Returns the services in the order in which they were polled.
fn poll(
    balance: &mut Balance<Disco, RoundRobin>,
    tries: &mut HashMap<u64, usize>,
) -> (Outcome, Vec<u64>) {
    let mut polled = Vec::new();
    let mut request = balance.poll_ready();
    loop {
        let reply: Reply<&'static str, &'static str> = match request {
            Request::PollDiscover { .. } => Reply::Discover(Ok(match balance.discover_mut().pop_front() {
                Some(change) => Async::Ready(change),
                None => Async::NotReady,
            })),
            Request::PollReady(service) => {
                polled.push(service);
                let left = tries.get_mut(&service).unwrap();
                if *left == 0 {
                    Reply::Ready(Ok(Async::Ready(())))
                } else {
                    *left -= 1;
                    Reply::Ready(Ok(Async::NotReady))
                }
            }
            other => panic!("unexpected request {:?}", other),
        };
        match balance.resume(reply) {
            Step::Ask(next) => request = next,
            Step::Done(outcome) => return (outcome, polled),
        }
    }
}

/// A balancer over services `10 * key`, all of which need `tries` polls.
fn balancer(services: &[(u64, usize)]) -> (Balance<Disco, RoundRobin>, HashMap<u64, usize>) {
    let mut changes = VecDeque::new();
    let mut tries = HashMap::new();
    for (key, n) in services {
        changes.push_back(Change::Insert(*key, 10 * *key));
        tries.insert(10 * *key, *n);
    }
    (Balance::round_robin(changes), tries)
}

fn poll_ready_property(service_tries: Vec<usize>) -> TestResult {
    // Stores the number of pending services after each poll_ready call.
    let mut pending_at: Vec<usize> = Vec::new();
    let mut changes = VecDeque::new();
    let mut tries = HashMap::new();
    for (i, n) in service_tries.iter().map(|n| *n).enumerate() {
        for j in 0..n {
            if j == pending_at.len() {
                pending_at.push(1);
            } else {
                pending_at[j] += 1;
            }
        }
        tries.insert(i as u64, n);
        changes.push_back(Change::Insert(i as u64, i as u64));
    }
    pending_at.push(0);

    let mut balancer = Balance::new(changes, RoundRobin::default());

    let services = service_tries.len();
    let mut next_pos = 0;
    for pending in pending_at.iter().map(|p| *p) {
        assert!(pending <= services);
        let ready = services - pending;

        match poll(&mut balancer, &mut tries).0 {
            Err(_) => return TestResult::error("poll_ready failed"),
            Ok(p) => {
                if p.is_ready() != (ready > 0) {
                    return TestResult::failed();
                }
            }
        }

        if balancer.num_ready() != ready {
            return TestResult::failed();
        }
        if balancer.num_not_ready() != pending {
            return TestResult::failed();
        }
        if balancer.is_ready() != (ready > 0) {
            return TestResult::failed();
        }
        if balancer.is_not_ready() != (ready == 0) {
            return TestResult::failed();
        }
        if balancer.dispatched_ready_index().is_some() {
            return TestResult::failed();
        }

        if ready == 0 {
            if balancer.chosen_ready_index().is_some() {
                return TestResult::failed();
            }
        } else {
            // Check that the round-robin chooser is doing its thing:
            match balancer.chosen_ready_index() {
                None => return TestResult::failed(),
                Some(idx) => {
                    if idx != next_pos {
                        return TestResult::failed();
                    }
                }
            }
            next_pos = (next_pos + 1) % ready;
        }
    }
    TestResult::passed()
}

/// Creates a random number of services, each of which must be polled a random number of times before
/// becoming ready. As the balancer is polled, ensure that it does not become ready prematurely and
/// that services are promoted from not_ready to ready.
#[test]
fn poll_ready() {
    QuickCheck::new().quickcheck(poll_ready_property as fn(Vec<usize>) -> TestResult);
}

#[test]
fn poll_ready_of_fixed_services() {
    for tries in [vec![], vec![0], vec![3], vec![0, 0, 0], vec![2, 0, 1, 2, 5], vec![1, 1, 1, 1]] {
        assert!(!poll_ready_property(tries).is_failure());
    }
}

#[test]
fn without_services_nothing_is_ready() {
    let (mut balance, mut tries) = balancer(&[]);
    assert_eq!(poll(&mut balance, &mut tries), (Ok(Async::NotReady), vec![]));
    assert!(balance.is_not_ready());
    assert!(!balance.is_ready());
    assert_eq!(balance.num_ready(), 0);
    assert_eq!(balance.num_not_ready(), 0);
    assert_eq!(balance.chosen_ready_index(), None);
}

#[test]
fn services_are_polled_from_right_to_left() {
    let (mut balance, mut tries) = balancer(&[(1, 1), (2, 0), (3, 1), (4, 0)]);
    // 40 and 20 are promoted, and the first of them is polled again when it is chosen.
    assert_eq!(poll(&mut balance, &mut tries), (Ok(Async::Ready(())), vec![40, 30, 20, 10, 40]));
    assert_eq!(balance.services(), vec![40, 20, 10, 30]);
    assert_eq!(balance.num_ready(), 2);
    assert_eq!(balance.num_not_ready(), 2);
}

#[test]
fn a_single_ready_service_is_chosen_without_the_strategy() {
    let (mut balance, mut tries) = balancer(&[(1, 0)]);
    for _ in 0..3 {
        assert_eq!(poll(&mut balance, &mut tries).0, Ok(Async::Ready(())));
        assert_eq!(balance.chosen_ready_index(), Some(0));
        assert_eq!(balance.call(), 10);
    }
}

#[test]
fn round_robin_takes_turns() {
    let (mut balance, mut tries) = balancer(&[(1, 0), (2, 0), (3, 0)]);
    let mut called = Vec::new();
    for _ in 0..7 {
        assert_eq!(poll(&mut balance, &mut tries).0, Ok(Async::Ready(())));
        called.push(balance.call());
    }
    assert_eq!(called, vec![30, 20, 10, 30, 20, 10, 30]);
}

#[test]
fn the_last_used_service_is_polled_first() {
    let (mut balance, mut tries) = balancer(&[(1, 0), (2, 0)]);
    assert_eq!(poll(&mut balance, &mut tries).0, Ok(Async::Ready(())));
    assert_eq!(balance.call(), 20);
    assert_eq!(balance.chosen_ready_index(), None);
    assert_eq!(balance.dispatched_ready_index(), Some(0));
    // It is not ready any more, is asked once more among those that are not, and is then.
    tries.insert(20, 1);
    assert_eq!(poll(&mut balance, &mut tries), (Ok(Async::Ready(())), vec![20, 20, 20]));
    assert_eq!(balance.dispatched_ready_index(), None);
    assert_eq!(balance.services(), vec![10, 20]);
    assert_eq!(balance.chosen_ready_index(), Some(1));
}

#[test]
fn a_chosen_service_that_is_not_ready_is_passed_over() {
    let (mut balance, mut tries) = balancer(&[(1, 0), (2, 0), (3, 0)]);
    assert_eq!(poll(&mut balance, &mut tries).0, Ok(Async::Ready(())));
    assert_eq!(balance.services(), vec![30, 20, 10]);
    tries.insert(20, 1);
    tries.insert(10, 1);
    // 20 is due, fails, and the last entry takes its place; 10 fails too, and 30 is left.
    assert_eq!(poll(&mut balance, &mut tries), (Ok(Async::Ready(())), vec![20, 30]));
    assert_eq!(balance.services(), vec![30, 10, 20]);
    assert_eq!(balance.num_ready(), 2);
    assert_eq!(balance.chosen_ready_index(), Some(0));
}

#[test]
fn polling_ends_when_no_service_stays_ready() {
    let (mut balance, mut tries) = balancer(&[(1, 0), (2, 0), (3, 0)]);
    assert_eq!(poll(&mut balance, &mut tries).0, Ok(Async::Ready(())));
    for service in [10, 20, 30] {
        tries.insert(service, 1);
    }
    let (outcome, polled) = poll(&mut balance, &mut tries);
    assert_eq!(outcome, Ok(Async::NotReady));
    assert_eq!(polled.len(), 3);
    assert_eq!(balance.num_ready(), 0);
    assert_eq!(balance.num_not_ready(), 3);
    assert_eq!(balance.chosen_ready_index(), None);
}

#[test]
fn an_inserted_service_replaces_a_ready_one() {
    let (mut balance, mut tries) = balancer(&[(1, 0), (2, 0)]);
    assert_eq!(poll(&mut balance, &mut tries).0, Ok(Async::Ready(())));
    assert_eq!(balance.services(), vec![20, 10]);
    let request = balance.poll_ready();
    assert_eq!(request, Request::PollDiscover { ejected: None });
    let step: Step<(), ()> = balance.resume(Reply::Discover(Ok(Async::Ready(Change::Insert(2, 21)))));
    assert_eq!(step, Step::Ask(Request::PollDiscover { ejected: Some(20) }));
    assert_eq!(balance.services(), vec![10, 21]);
    assert_eq!(balance.num_ready(), 1);
    assert_eq!(balance.num_not_ready(), 1);
}

#[test]
fn an_inserted_service_replaces_one_that_is_not_ready_in_its_place() {
    let (mut balance, mut tries) = balancer(&[(1, 9), (2, 9), (3, 9)]);
    assert_eq!(poll(&mut balance, &mut tries).0, Ok(Async::NotReady));
    balance.poll_ready();
    let step: Step<(), ()> = balance.resume(Reply::Discover(Ok(Async::Ready(Change::Insert(2, 21)))));
    assert_eq!(step, Step::Ask(Request::PollDiscover { ejected: Some(20) }));
    assert_eq!(balance.services(), vec![10, 21, 30]);
}

#[test]
fn removed_services_are_gone() {
    let (mut balance, mut tries) = balancer(&[(1, 0), (2, 0), (3, 0), (4, 9), (5, 9), (6, 9)]);
    assert_eq!(poll(&mut balance, &mut tries).0, Ok(Async::Ready(())));
    assert_eq!(balance.services(), vec![30, 20, 10, 40, 50, 60]);
    balance.poll_ready();
    let step: Step<(), ()> = balance.resume(Reply::Discover(Ok(Async::Ready(Change::Remove(3)))));
    assert_eq!(step, Step::Ask(Request::PollDiscover { ejected: Some(30) }));
    let step: Step<(), ()> = balance.resume(Reply::Discover(Ok(Async::Ready(Change::Remove(5)))));
    assert_eq!(step, Step::Ask(Request::PollDiscover { ejected: Some(50) }));
    let step: Step<(), ()> = balance.resume(Reply::Discover(Ok(Async::Ready(Change::Remove(7)))));
    assert_eq!(step, Step::Ask(Request::PollDiscover { ejected: None }));
    assert_eq!(balance.num_ready(), 2);
    assert_eq!(balance.num_not_ready(), 2);
    // The last entry has taken the place of the removed one.
    assert_eq!(balance.services(), vec![10, 20, 40, 60]);
}

#[test]
fn a_failing_source_fails_the_poll() {
    let (mut balance, _) = balancer(&[]);
    balance.poll_ready();
    let step: Step<&str, &str> = balance.resume(Reply::Discover(Ok(Async::Ready(Change::Insert(1, 10)))));
    assert_eq!(step, Step::Ask(Request::PollDiscover { ejected: None }));
    let step: Step<&str, &str> = balance.resume(Reply::Discover(Err("no route")));
    assert_eq!(step, Step::Done(Err(Error::Balance("no route"))));
    // What was told before stays.
    assert_eq!(balance.services(), vec![10]);
    assert_eq!(balance.chosen_ready_index(), None);
}

#[test]
fn a_failing_service_fails_the_poll_where_it_stands() {
    let (mut balance, _) = balancer(&[]);
    balance.poll_ready();
    for key in 1..4 {
        let _: Step<&str, &str> =
            balance.resume(Reply::Discover(Ok(Async::Ready(Change::Insert(key, 10 * key)))));
    }
    let step: Step<&str, &str> = balance.resume(Reply::Discover(Ok(Async::NotReady)));
    assert_eq!(step, Step::Ask(Request::PollReady(30)));
    let step: Step<&str, &str> = balance.resume(Reply::Ready(Ok(Async::Ready(()))));
    assert_eq!(step, Step::Ask(Request::PollReady(20)));
    let step: Step<&str, &str> = balance.resume(Reply::Ready(Err("broken")));
    assert_eq!(step, Step::Done(Err(Error::Inner("broken"))));
    // 30 has been promoted, 20 and 10 have not.
    assert_eq!(balance.num_ready(), 1);
    assert_eq!(balance.services(), vec![30, 10, 20]);
    // The next poll starts over.
    assert_eq!(balance.poll_ready(), Request::PollDiscover { ejected: None });
    let step: Step<&str, &str> = balance.resume(Reply::Discover(Ok(Async::NotReady)));
    assert_eq!(step, Step::Ask(Request::PollReady(20)));
}

#[test]
fn a_failing_last_used_service_fails_the_poll() {
    let (mut balance, mut tries) = balancer(&[(1, 0)]);
    assert_eq!(poll(&mut balance, &mut tries).0, Ok(Async::Ready(())));
    assert_eq!(balance.call(), 10);
    assert_eq!(balance.poll_ready(), Request::PollReady(10));
    let step: Step<&str, &str> = balance.resume(Reply::Ready(Err("broken")));
    assert_eq!(step, Step::Done(Err(Error::Inner("broken"))));
    assert_eq!(balance.dispatched_ready_index(), None);
    assert_eq!(balance.num_ready(), 1);
}

#[test]
fn a_failing_chosen_service_fails_the_poll() {
    let (mut balance, mut tries) = balancer(&[(1, 0)]);
    assert_eq!(poll(&mut balance, &mut tries).0, Ok(Async::Ready(())));
    balance.poll_ready();
    let step: Step<&str, &str> = balance.resume(Reply::Discover(Ok(Async::NotReady)));
    assert_eq!(step, Step::Ask(Request::PollReady(10)));
    let step: Step<&str, &str> = balance.resume(Reply::Ready(Err("broken")));
    assert_eq!(step, Step::Done(Err(Error::Inner("broken"))));
    assert_eq!(balance.chosen_ready_index(), None);
}

#[test]
fn round_robin_rotates_with_and_without_requests_between_polls() {
    for m in 1..6 {
        let services: Vec<(u64, usize)> = (1..m + 1).map(|key| (key, 0)).collect();
        let (mut balance, mut tries) = balancer(&services);
        let mut order = Vec::new();
        for j in 0..4 * m {
            assert_eq!(poll(&mut balance, &mut tries).0, Ok(Async::Ready(())));
            assert_eq!(balance.chosen_ready_index(), Some((j % m) as usize));
            assert_eq!(balance.num_ready(), m as usize);
            if j % 3 != 1 {
                // Those that discovery told of last are the first to become ready.
                assert_eq!(balance.call(), 10 * (m - j % m));
            }
            if j == 0 {
                order = balance.services();
            }
            assert_eq!(balance.services(), order);
        }
    }
}

#[test]
fn a_search_asks_every_service_once_and_moves_those_that_are_not_ready() {
    let (mut balance, mut tries) = balancer(&[(1, 0), (2, 0), (3, 0)]);
    assert_eq!(poll(&mut balance, &mut tries).0, Ok(Async::Ready(())));
    assert_eq!(balance.services(), vec![30, 20, 10]);
    // The one at index 1 is next, then the one that takes its place, then the last.
    for service in [10, 20, 30] {
        tries.insert(service, 1);
    }
    let (outcome, polled) = poll(&mut balance, &mut tries);
    assert_eq!(outcome, Ok(Async::NotReady));
    assert_eq!(polled, vec![20, 30, 10]);
    assert_eq!(balance.services(), vec![20, 30, 10]);
    assert_eq!(balance.num_ready(), 0);
    assert_eq!(balance.chosen_ready_index(), None);
}

#[test]
fn a_search_ends_at_the_first_service_that_is_ready() {
    let (mut balance, mut tries) = balancer(&[(1, 0), (2, 0), (3, 0)]);
    assert_eq!(poll(&mut balance, &mut tries).0, Ok(Async::Ready(())));
    assert_eq!(balance.services(), vec![30, 20, 10]);
    tries.insert(20, 1);
    let (outcome, polled) = poll(&mut balance, &mut tries);
    assert_eq!(outcome, Ok(Async::Ready(())));
    assert_eq!(polled, vec![20, 30]);
    assert_eq!(balance.services(), vec![30, 10, 20]);
    assert_eq!(balance.num_ready(), 2);
    assert_eq!(balance.chosen_ready_index(), Some(0));
}

#[test]
fn a_new_balancer_promotes_each_service_in_its_poll_and_lets_them_take_turns() {
    let (mut balance, mut tries) = balancer(&[(1, 0), (2, 2), (3, 1)]);
    let expected = [
        (vec![10, 20, 30], 1, 0),
        (vec![10, 30, 20], 2, 0),
        (vec![10, 30, 20], 3, 1),
        (vec![10, 30, 20], 3, 2),
        (vec![10, 30, 20], 3, 0),
    ];
    for (services, ready, chosen) in expected {
        assert_eq!(poll(&mut balance, &mut tries).0, Ok(Async::Ready(())));
        assert_eq!(balance.num_ready(), ready);
        assert_eq!(balance.chosen_ready_index(), Some(chosen));
        let mut others = balance.services().split_off(ready);
        others.sort();
        let mut left = services[ready..].to_vec();
        left.sort();
        assert_eq!(others, left);
        assert_eq!(balance.services()[..ready], services[..ready]);
    }
    let (mut balance, mut tries) = balancer(&[(1, 1), (2, 1)]);
    assert_eq!(poll(&mut balance, &mut tries).0, Ok(Async::NotReady));
    assert_eq!(balance.num_not_ready(), 2);
    assert_eq!(balance.chosen_ready_index(), None);
    assert_eq!(poll(&mut balance, &mut tries).0, Ok(Async::Ready(())));
    assert_eq!(balance.num_ready(), 2);
    assert_eq!(balance.chosen_ready_index(), Some(0));
}
