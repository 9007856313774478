//! The errors of a balancer.
use vstd::prelude::*;
use vstd::string::*;

verus! {

/// Error produced by `Balance`.
#[derive(Debug, PartialEq, Eq)]
pub enum Error<T, U> {
    /// A service failed.
    Inner(T),
    /// The source of services failed.
    Balance(U),
    /// No service is ready.
    NotReady,
}

/// What lies behind an [`Error`].
#[derive(Debug, PartialEq, Eq)]
pub enum Cause<'a, T, U> {
    /// The failure of a service.
    Inner(&'a T),
    /// The failure of the source of services.
    Balance(&'a U),
}

impl<T, U> Error<T, U> {
    /// A short description that does not look into the cause.
    pub fn description(&self) -> (text: &'static str)
        ensures
            text@ == (match *self {
                Error::Inner(_) => "inner service error"@,
                Error::Balance(_) => "load balancing failed"@,
                Error::NotReady => "not ready"@,
            }),
    {
        match self {
            Error::Inner(_) => "inner service error",
            Error::Balance(_) => "load balancing failed",
            Error::NotReady => "not ready",
        }
    }

    /// The failure that led to this error, where there is one.
    pub fn cause(&self) -> (cause: Option<Cause<'_, T, U>>)
        ensures
            cause == (match *self {
                Error::Inner(why) => Some(Cause::Inner(&why)),
                Error::Balance(why) => Some(Cause::Balance(&why)),
                Error::NotReady => None,
            }),
    {
        match self {
            Error::Inner(why) => Some(Cause::Inner(why)),
            Error::Balance(why) => Some(Cause::Balance(why)),
            Error::NotReady => None,
        }
    }
}

impl Error<String, String> {
    /// The message of an error whose causes have been rendered to text: a service's own message as
    /// it stands, that of the source of services behind a prefix.
    pub fn message(&self) -> (text: String)
        ensures
            text@ == (match *self {
                Error::Inner(why) => why@,
                Error::Balance(why) => "load balancing failed: "@ + why@,
                Error::NotReady => "not ready"@,
            }),
    {
        match self {
            Error::Inner(why) => why.clone(),
            Error::Balance(why) => {
                let mut text = "load balancing failed: ".to_owned();
                text.append(why.as_str());
                text
            },
            Error::NotReady => "not ready".to_owned(),
        }
    }
}

} // verus!
