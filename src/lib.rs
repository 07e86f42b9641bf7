pub mod dfa;
pub mod label;
pub mod laws;
mod lookup;
pub mod model;
pub mod nfa;

pub use dfa::DFA;
pub use label::{CommunicativeHashSet, StateIdentifier};
pub use nfa::{AutomatonError, NFA};
