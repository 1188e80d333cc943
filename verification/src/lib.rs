//! A chain of fixed-length segments whose tail follows a target and whose head
//! grows, with every operation's outcome stated and proved.

pub mod exact;
pub mod fabrik;
pub mod laws;
pub mod model;
pub mod plane;
