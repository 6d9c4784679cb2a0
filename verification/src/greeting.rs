//! The demonstration greeting the front-end shows on first contact.

use vstd::prelude::*;
use vstd::string::*;

verus! {

/// Builds the greeting shown for `name`, exactly
/// `"Hello, <name>! You've been greeted from Rust!"`.
pub fn greet(name: &str) -> (r: String)
    ensures
        r@ == "Hello, "@ + name@ + "! You've been greeted from Rust!"@,
{
    let mut s = String::from_str("Hello, ");
    s.append(name);
    s.append("! You've been greeted from Rust!");
    s
}

} // verus!
