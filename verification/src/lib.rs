pub mod amm;
pub mod codes;
pub mod guard;
pub mod laws;
pub mod manager;
pub mod model;
pub mod types;

use vstd::prelude::*;

verus! {

/// Errors reported by the ledger's operations.
#[derive(Clone, Copy, Debug, PartialEq, Eq, Structural)]
pub enum Error {
    Unauthorized,
    NotFound,
    InvalidArgument,
    ArithmeticOverflow,
    DivideByZero,
}

} // verus!
