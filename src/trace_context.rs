//! A message together with the tracing context it travels with.

use vstd::prelude::*;

verus! {

/// A message and its tracing context (none is carried yet).
pub struct Contextual<T> {
    pub _ctx: (),
    pub msg: T,
}

impl<T> From<T> for Contextual<T> {
    fn from(msg: T) -> (r: Self) {
        Contextual { _ctx: (), msg }
    }
}

impl<T> vstd::std_specs::convert::FromSpecImpl<T> for Contextual<T> {
    open spec fn obeys_from_spec() -> bool {
        true
    }

    open spec fn from_spec(msg: T) -> Self {
        Contextual { _ctx: (), msg }
    }
}

/// One of two values.
pub enum Either<L, R> {
    Left(L),
    Right(R),
}

/// Strips tracing context off a value.
pub trait UnwrapContext: Sized {
    type Target;

    /// The value without its context.
    spec fn unwrapped(self) -> Self::Target;

    fn unwrap_context(self) -> (r: Self::Target)
        ensures
            r == self.unwrapped(),
    ;
}

impl<T> UnwrapContext for Contextual<T> {
    type Target = T;

    open spec fn unwrapped(self) -> T {
        self.msg
    }

    fn unwrap_context(self) -> (r: T) {
        self.msg
    }
}

impl<T: UnwrapContext, U> UnwrapContext for Result<T, U> {
    type Target = Result<T::Target, U>;

    open spec fn unwrapped(self) -> Result<T::Target, U> {
        match self {
            Ok(t) => Ok(t.unwrapped()),
            Err(u) => Err(u),
        }
    }

    fn unwrap_context(self) -> (r: Result<T::Target, U>) {
        match self {
            Ok(t) => Ok(t.unwrap_context()),
            Err(u) => Err(u),
        }
    }
}

impl<T: UnwrapContext, U: UnwrapContext> UnwrapContext for Either<T, U> {
    type Target = Either<T::Target, U::Target>;

    open spec fn unwrapped(self) -> Either<T::Target, U::Target> {
        match self {
            Either::Left(l) => Either::Left(l.unwrapped()),
            Either::Right(r) => Either::Right(r.unwrapped()),
        }
    }

    fn unwrap_context(self) -> (r: Either<T::Target, U::Target>) {
        match self {
            Either::Left(l) => Either::Left(l.unwrap_context()),
            Either::Right(r) => Either::Right(r.unwrap_context()),
        }
    }
}

} // verus!
