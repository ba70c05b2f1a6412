//! Admission control for `Seconded` statements exchanged directly between the
//! members of a backing group.
//!
//! A [`direct::DirectInGroup`] tracker bounds how many distinct candidates any
//! sending peer may claim on behalf of any originating validator, and how many
//! distinct candidates any originating validator may have accepted in total.

pub mod primitives;
pub mod direct;
pub mod laws;

pub use direct::{AcceptIncoming, DirectInGroup, RejectIncoming};
pub use primitives::{CandidateHash, ValidatorIndex};
