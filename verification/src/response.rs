//! The response to a request that a balancer dispatched.
use crate::error::Error;
use crate::poll::{Async, Poll};
use std::marker::PhantomData;
use vstd::prelude::*;

verus! {

/// The response of an inner service, whose failure becomes an [`Error`] of the balancer.
#[derive(Debug)]
pub struct ResponseFuture<F, E>(F, PhantomData<E>);

impl<F, E> ResponseFuture<F, E> {
    /// What the inner service returned.
    pub closed spec fn inner(self) -> F {
        self.0
    }

    /// The response of a balancer to what an inner service returned.
    pub fn new(inner: F) -> (response: Self)
        ensures
            response.inner() == inner,
    {
        ResponseFuture(inner, PhantomData)
    }

    /// What the inner service returned, to be polled.
    pub fn get_mut(&mut self) -> (inner: &mut F)
        ensures
            *inner == old(self).inner(),
            final(self).inner() == *final(inner),
    {
        &mut self.0
    }

    /// What polling the response returns, given what polling the inner response returned.
    pub fn poll<I, T>(&self, polled: Poll<I, T>) -> (result: Poll<I, Error<T, E>>)
        ensures
            result == (match polled {
                Ok(item) => Ok::<Async<I>, Error<T, E>>(item),
                Err(why) => Err(Error::Inner(why)),
            }),
    {
        match polled {
            Ok(item) => Ok(item),
            Err(why) => Err(Error::Inner(why)),
        }
    }
}

} // verus!
