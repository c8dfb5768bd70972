//! The capability that application state implements to expose its
//! replicated log to the generic gossip engine.
//!
//! The engine is written once, generic over any state that can hand out
//! its log; this seam keeps "what is being replicated" apart from "how
//! replication happens". The optional `new_value` hook lets state layer
//! derived computation (such as a running sum) on top of the log without
//! recomputing it from scratch; the hook may touch anything but the log.

use crate::log::Log;
use vstd::prelude::*;

verus! {

/// Access to the one replicated log a piece of application state owns.
pub trait Store<T>: Sized {
    /// The log this state exposes, as a specification-level value.
    spec fn log_spec(&self) -> Log<T>;

    /// The log, read-only.
    fn get_log(&self) -> (l: &Log<T>)
        ensures
            *l == self.log_spec(),
    ;

    /// The log, for mutation; whatever the caller does through the
    /// reference is exactly what happens to the state's log.
    fn get_log_mut(&mut self) -> (l: &mut Log<T>)
        ensures
            *l == old(self).log_spec(),
            final(self).log_spec() == *final(l),
    ;

    /// Reaction to a newly accepted value; must leave the log itself
    /// untouched.
    fn new_value(&mut self, new: &T)
        ensures
            final(self).log_spec() == old(self).log_spec(),
    {
    }
}

} // verus!
