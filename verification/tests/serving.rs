use tower_balance::chooser::RoundRobin;
use tower_balance::poll::{Async, Change, Poll, Reply, Request, Step};
use tower_balance::{Balance, Error, ResponseFuture};

/// A balancer with the ready services 30 and 10 and the service 20, which is not.
fn balancer() -> Balance<(), RoundRobin> {
    let mut balance = Balance::round_robin(());
    balance.poll_ready();
    for key in 1..4 {
        let _: Step<(), ()> =
            balance.resume(Reply::Discover(Ok(Async::Ready(Change::Insert(key, 10 * key)))));
    }
    let _: Step<(), ()> = balance.resume(Reply::Discover(Ok(Async::NotReady)));
    let _: Step<(), ()> = balance.resume(Reply::Ready(Ok(Async::Ready(()))));
    let _: Step<(), ()> = balance.resume(Reply::Ready(Ok(Async::NotReady)));
    let _: Step<(), ()> = balance.resume(Reply::Ready(Ok(Async::Ready(()))));
    let step: Step<(), ()> = balance.resume(Reply::Ready(Ok(Async::Ready(()))));
    assert_eq!(step, Step::Done(Ok(Async::Ready(()))));
    assert_eq!(balance.services(), vec![30, 10, 20]);
    assert_eq!(balance.num_ready(), 2);
    balance
}

#[test]
fn every_service_makes_progress_in_its_turn() {
    let mut balance = balancer();
    let mut step: Step<&str, &str> = balance.poll_service();
    for service in [30, 10, 20] {
        assert_eq!(step, Step::Ask(Request::PollService(service)));
        step = balance.resume_service(Ok(Async::Ready(())));
    }
    assert_eq!(step, Step::Done(Ok(Async::Ready(()))));
    assert_eq!(balance.services(), vec![30, 10, 20]);
    assert_eq!(balance.chosen_ready_index(), Some(0));
}

#[test]
fn one_service_that_is_not_ready_is_enough() {
    for slow in 0..3 {
        let mut balance = balancer();
        let mut step: Step<&str, &str> = balance.poll_service();
        for i in 0..3 {
            let polled = if i == slow { Async::NotReady } else { Async::Ready(()) };
            step = balance.resume_service(Ok(polled));
        }
        assert_eq!(step, Step::Done(Ok(Async::NotReady)));
    }
}

#[test]
fn progress_stops_at_the_first_error() {
    let mut balance = balancer();
    let step: Step<&str, &str> = balance.poll_service();
    assert_eq!(step, Step::Ask(Request::PollService(30)));
    let step: Step<&str, &str> = balance.resume_service(Ok(Async::NotReady));
    assert_eq!(step, Step::Ask(Request::PollService(10)));
    let step: Step<&str, &str> = balance.resume_service(Err("broken"));
    assert_eq!(step, Step::Done(Err(Error::Inner("broken"))));
}

#[test]
fn no_service_has_no_progress_to_make() {
    let mut balance = Balance::round_robin(());
    let step: Step<(), ()> = balance.poll_service();
    assert_eq!(step, Step::Done(Ok(Async::Ready(()))));
}

type Closing = Vec<Poll<(), &'static str>>;

#[test]
fn closed_services_are_dropped_and_the_others_keep_their_order() {
    let mut balance = balancer();
    let polled: Closing = vec![Ok(Async::Ready(())), Ok(Async::NotReady), Ok(Async::NotReady)];
    let result: Poll<(), Error<&str, &str>> = balance.poll_close(polled);
    assert_eq!(result, Ok(Async::NotReady));
    assert_eq!(balance.services(), vec![10, 20]);
    assert_eq!(balance.num_ready(), 1);
    assert_eq!(balance.num_not_ready(), 1);
    let polled: Closing = vec![Ok(Async::NotReady), Ok(Async::Ready(()))];
    let result: Poll<(), Error<&str, &str>> = balance.poll_close(polled);
    assert_eq!(result, Ok(Async::NotReady));
    assert_eq!(balance.services(), vec![10]);
    let result: Poll<(), Error<&str, &str>> = balance.poll_close(vec![Ok::<_, &str>(Async::Ready(()))]);
    assert_eq!(result, Ok(Async::Ready(())));
    assert!(balance.services().is_empty());
}

#[test]
fn a_service_that_fails_to_close_is_dropped_and_the_last_error_counts() {
    let mut balance = balancer();
    let polled: Closing = vec![Err("first"), Ok(Async::NotReady), Err("second")];
    let result: Poll<(), Error<&str, &str>> = balance.poll_close(polled);
    assert_eq!(result, Err(Error::Inner("second")));
    assert_eq!(balance.services(), vec![10]);
    let mut balance = balancer();
    let polled: Closing = vec![Err("first"), Ok(Async::Ready(())), Ok(Async::Ready(()))];
    let result: Poll<(), Error<&str, &str>> = balance.poll_close(polled);
    assert_eq!(result, Err(Error::Inner("first")));
    assert!(balance.services().is_empty());
}

/// The balancer polls again, and chooses the service 10 this time.
fn balancer_with_the_second_chosen() -> Balance<(), RoundRobin> {
    let mut balance = balancer();
    assert_eq!(balance.chosen_ready_index(), Some(0));
    assert_eq!(balance.poll_ready(), Request::PollDiscover { ejected: None });
    let step: Step<(), ()> = balance.resume(Reply::Discover(Ok(Async::NotReady)));
    assert_eq!(step, Step::Ask(Request::PollReady(20)));
    let step: Step<(), ()> = balance.resume(Reply::Ready(Ok(Async::NotReady)));
    assert_eq!(step, Step::Ask(Request::PollReady(10)));
    let step: Step<(), ()> = balance.resume(Reply::Ready(Ok(Async::Ready(()))));
    assert_eq!(step, Step::Done(Ok(Async::Ready(()))));
    assert_eq!(balance.chosen_ready_index(), Some(1));
    balance
}

#[test]
fn a_chosen_service_that_closes_is_chosen_no_longer() {
    let mut balance = balancer();
    assert_eq!(balance.chosen_ready_index(), Some(0));
    let polled: Closing = vec![Ok(Async::Ready(())), Ok(Async::NotReady), Ok(Async::NotReady)];
    let result: Poll<(), Error<&str, &str>> = balance.poll_close(polled);
    assert_eq!(result, Ok(Async::NotReady));
    assert_eq!(balance.services(), vec![10, 20]);
    assert_eq!(balance.chosen_ready_index(), None);
    // The next poll chooses among what is left.
    assert_eq!(balance.poll_ready(), Request::PollDiscover { ejected: None });
    let step: Step<(), ()> = balance.resume(Reply::Discover(Ok(Async::NotReady)));
    assert_eq!(step, Step::Ask(Request::PollReady(20)));
    let step: Step<(), ()> = balance.resume(Reply::Ready(Ok(Async::NotReady)));
    assert_eq!(step, Step::Ask(Request::PollReady(10)));
    let step: Step<(), ()> = balance.resume(Reply::Ready(Ok(Async::Ready(()))));
    assert_eq!(step, Step::Done(Ok(Async::Ready(()))));
    assert_eq!(balance.call(), 10);
}

#[test]
fn the_only_service_closes_while_it_is_chosen() {
    let mut balance = Balance::round_robin(());
    balance.poll_ready();
    let _: Step<(), ()> = balance.resume(Reply::Discover(Ok(Async::Ready(Change::Insert(1, 10)))));
    let _: Step<(), ()> = balance.resume(Reply::Discover(Ok(Async::NotReady)));
    let _: Step<(), ()> = balance.resume(Reply::Ready(Ok(Async::Ready(()))));
    let step: Step<(), ()> = balance.resume(Reply::Ready(Ok(Async::Ready(()))));
    assert_eq!(step, Step::Done(Ok(Async::Ready(()))));
    assert_eq!(balance.chosen_ready_index(), Some(0));
    let result: Poll<(), Error<(), ()>> = balance.poll_close(vec![Ok::<_, ()>(Async::Ready(()))]);
    assert_eq!(result, Ok(Async::Ready(())));
    assert_eq!(balance.chosen_ready_index(), None);
    assert_eq!(balance.dispatched_ready_index(), None);
    assert_eq!(balance.poll_ready(), Request::PollDiscover { ejected: None });
    let step: Step<(), ()> = balance.resume(Reply::Discover(Ok(Async::NotReady)));
    assert_eq!(step, Step::Done(Ok(Async::NotReady)));
}

#[test]
fn a_chosen_service_that_stays_is_the_one_that_is_called() {
    let mut balance = balancer_with_the_second_chosen();
    let polled: Closing = vec![Ok(Async::Ready(())), Ok(Async::NotReady), Ok(Async::Ready(()))];
    let result: Poll<(), Error<&str, &str>> = balance.poll_close(polled);
    assert_eq!(result, Ok(Async::NotReady));
    assert_eq!(balance.chosen_ready_index(), Some(0));
    assert_eq!(balance.call(), 10);
    assert_eq!(balance.dispatched_ready_index(), Some(0));
    assert_eq!(balance.poll_ready(), Request::PollReady(10));
}

#[test]
fn the_service_of_the_last_request_is_polled_first_after_a_close() {
    let mut balance = balancer_with_the_second_chosen();
    assert_eq!(balance.call(), 10);
    assert_eq!(balance.dispatched_ready_index(), Some(1));
    let polled: Closing = vec![Err("broken"), Ok(Async::NotReady), Ok(Async::NotReady)];
    let result: Poll<(), Error<&str, &str>> = balance.poll_close(polled);
    assert_eq!(result, Err(Error::Inner("broken")));
    assert_eq!(balance.dispatched_ready_index(), Some(0));
    assert_eq!(balance.poll_ready(), Request::PollReady(10));

    let mut balance = balancer_with_the_second_chosen();
    assert_eq!(balance.call(), 10);
    let polled: Closing = vec![Ok(Async::NotReady), Ok(Async::Ready(())), Ok(Async::NotReady)];
    let result: Poll<(), Error<&str, &str>> = balance.poll_close(polled);
    assert_eq!(result, Ok(Async::NotReady));
    assert_eq!(balance.dispatched_ready_index(), None);
    assert_eq!(balance.poll_ready(), Request::PollDiscover { ejected: None });
}

#[test]
fn a_balancer_without_services_is_closed() {
    let mut balance = Balance::round_robin(());
    let result: Poll<(), Error<(), ()>> = balance.poll_close(Vec::<Poll<(), ()>>::new());
    assert_eq!(result, Ok(Async::Ready(())));
}

#[test]
fn the_source_can_be_reached() {
    let mut balance = Balance::new(vec![1, 2], RoundRobin::default());
    balance.discover_mut().push(3);
    assert_eq!(*balance.discover_mut(), vec![1, 2, 3]);
}

#[test]
fn a_response_passes_on_what_the_service_answers() {
    let mut response: ResponseFuture<Vec<u8>, &str> = ResponseFuture::new(vec![1]);
    response.get_mut().push(2);
    assert_eq!(*response.get_mut(), vec![1, 2]);
    assert_eq!(response.poll::<u8, ()>(Ok(Async::Ready(7))), Ok(Async::Ready(7)));
    assert_eq!(response.poll::<u8, ()>(Ok(Async::NotReady)), Ok(Async::NotReady));
    assert_eq!(response.poll::<u8, &str>(Err("broken")), Err(Error::Inner("broken")));
}
