//! A verified `select` combinator core: the branch table, the sweep state
//! machine that decides what to advance next and when to stop, and the
//! dispatcher that maps a terminal outcome to exactly one handler.

pub mod clause;
pub mod table;
pub mod sweep;
pub mod dispatch;
pub mod laws;
