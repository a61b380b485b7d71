pub mod inference;
pub mod training;

use vstd::prelude::*;

verus! {

/// `candle_core::Error`, carried opaquely inside the library's error types.
#[verifier::external_type_specification]
#[verifier::external_body]
pub struct ExCandleError(candle_core::Error);

} // verus!
