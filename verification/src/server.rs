//! What the daemon tells clients about itself over the notification protocol.
use vstd::prelude::*;

verus! {

/// The optional capabilities that the server supports: it shows bodies.
pub fn get_capabilities() -> (r: Vec<&'static str>)
    ensures
        r@.len() == 1,
        r@[0]@ == "body"@,
{
    let mut caps: Vec<&'static str> = Vec::new();
    caps.push("body");
    caps
}

/// The server's name, vendor, version, and the protocol version it follows.
pub fn get_server_information() -> (r: (&'static str, &'static str, &'static str, &'static str))
    ensures
        r.0@ == "rust-mako"@,
        r.1@ == "ar175"@,
        r.2@ == "0.1.0"@,
        r.3@ == "1.2"@,
{
    ("rust-mako", "ar175", "0.1.0", "1.2")
}

} // verus!
