//! The TOON content contract: Token-Oriented Object Notation read into the
//! JSON data model, with every refusal naming its line and column, and the
//! contract that holds streams to it.

use vstd::prelude::*;

pub mod contract;
pub mod laws;
pub mod text;
pub mod token;
pub mod toon;
pub mod value;

pub use contract::{ContractError, Descriptor, Issue, Reading, Source, Toon, ToonFactory};
pub use toon::{Malformed, parse};
pub use value::{Number, Value};

verus! {

} // verus!
