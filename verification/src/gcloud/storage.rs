//! The `storage buckets` commands.
use vstd::prelude::*;

verus! {

/// A command on Cloud Storage buckets.
pub enum Buckets {
    /// List the buckets of a project.
    List { project: String },
    /// Show one bucket.
    Get { name: String },
    /// Create a bucket in a project.
    Create { project: String, name: String },
    /// Delete a bucket.
    Delete { name: String },
}

} // verus!
