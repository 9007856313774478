use tower_balance::error::Cause;
use tower_balance::poll::Async;
use tower_balance::Error;

#[test]
fn descriptions() {
    assert_eq!(Error::<u8, u8>::Inner(1).description(), "inner service error");
    assert_eq!(Error::<u8, u8>::Balance(1).description(), "load balancing failed");
    assert_eq!(Error::<u8, u8>::NotReady.description(), "not ready");
}

#[test]
fn causes() {
    assert_eq!(Error::<u8, char>::Inner(1).cause(), Some(Cause::Inner(&1)));
    assert_eq!(Error::<u8, char>::Balance('x').cause(), Some(Cause::Balance(&'x')));
    assert_eq!(Error::<u8, char>::NotReady.cause(), None);
}

#[test]
fn messages() {
    assert_eq!(Error::<String, String>::Inner("broken".to_string()).message(), "broken");
    assert_eq!(
        Error::<String, String>::Balance("no route".to_string()).message(),
        "load balancing failed: no route"
    );
    assert_eq!(Error::<String, String>::NotReady.message(), "not ready");
}

#[test]
fn readiness() {
    assert!(Async::Ready(3).is_ready());
    assert!(!Async::<u8>::NotReady.is_ready());
}
