//! The outcome dispatcher: which handler a terminal outcome runs.

use vstd::prelude::*;
use crate::sweep::Outcome;
use crate::table::{Selector, SelectorView};

verus! {

/// The one handler that a terminal outcome runs.
#[derive(Debug, PartialEq, Eq)]
pub enum Handler<T> {
    /// The handler of this branch, taking the accepted value.
    Branch(usize, T),
    /// The `default` handler.
    Default,
    /// The `complete` handler.
    Complete,
}

/// Every branch completed without an accepted value, and there is no
/// `complete` clause to run: the invocation must abort.
#[derive(Clone, Copy, Debug, PartialEq, Eq, Structural)]
pub struct Exhausted;

/// The handler that `o` runs on the table `v`, or the abort.
pub open spec fn handler_for<T>(v: SelectorView, o: Outcome<T>) -> Result<Handler<T>, Exhausted> {
    match o {
        Outcome::Branch(b, x) => Ok(Handler::Branch(b, x)),
        Outcome::WouldBlock => Ok(Handler::Default),
        Outcome::Completed => if v.has_complete {
            Ok(Handler::Complete)
        } else {
            Err(Exhausted)
        },
    }
}

impl Selector {
    /// Hands a terminal outcome to its handler, moving an accepted value
    /// into it. A would-block outcome only comes with a `default` clause.
    pub fn dispatch<T>(&self, outcome: Outcome<T>) -> (r: Result<Handler<T>, Exhausted>)
        requires
            outcome is WouldBlock ==> self@.has_default,
        ensures
            r == handler_for(self@, outcome),
    {
        proof {
            self.lemma_unfold();
        }
        match outcome {
            Outcome::Branch(b, x) => Ok(Handler::Branch(b, x)),
            Outcome::WouldBlock => Ok(Handler::Default),
            Outcome::Completed => {
                if self.has_complete {
                    Ok(Handler::Complete)
                } else {
                    Err(Exhausted)
                }
            },
        }
    }
}

} // verus!
