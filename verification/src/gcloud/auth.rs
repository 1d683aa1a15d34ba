//! The `auth token` commands.
use vstd::prelude::*;

verus! {

/// A command on access tokens.
pub enum Token {
    /// Get an access token for the given OAuth scopes.
    Get { scopes: Vec<String> },
}

} // verus!
