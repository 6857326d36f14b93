//! Reporters of finished traces.

use vstd::prelude::*;

verus! {

/// A reporter that drops every trace handed to it.
#[derive(Clone, Copy)]
pub struct NullReporter;

impl NullReporter {
    pub fn new() -> (r: NullReporter) {
        NullReporter
    }

    /// Whether the reporter drops everything: always.
    pub fn is_null(&self) -> (r: bool)
        ensures
            r,
    {
        true
    }
}

} // verus!
