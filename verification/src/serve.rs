//! The HTTP side: the greeting served at `/greet/{name}`, and HTTP/1.1 framing.
use vstd::prelude::*;
use vstd::string::StringExecFns;

pub mod io;

verus! {

/// The body served at `/greet/{name}`.
pub fn greeting(name: &str) -> (g: String)
    ensures
        g@ == "Hello, "@ + name@ + "!\n"@,
{
    let mut g = String::new();
    g.append("Hello, ");
    g.append(name);
    g.append("!\n");
    g
}

} // verus!
