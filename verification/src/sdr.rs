//! Conditioning of the received samples.

use vstd::prelude::*;

pub mod cic;

verus! {

/// A real-valued sample.
pub type Real<T> = T;

} // verus!
