//! The library's error type.

use vstd::prelude::*;

verus! {

/// An error of the formatter.
#[derive(Debug)]
pub enum FopError {
    /// A failure described by a message.
    Generic(String),
}

} // verus!
