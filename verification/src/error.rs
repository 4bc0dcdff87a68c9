//! The single error type of the library: a message for the user.

use vstd::prelude::*;

verus! {

/// An error reported to the user; it carries only a human readable message.
pub struct AppError(pub String);

} // verus!
