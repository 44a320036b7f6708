//! Core logic of the vrs runtime: node endpoints and links, the service
//! registry, process mailboxes, terminals, clients and publications.
use vstd::prelude::*;

pub mod bindings;
pub mod client;
pub mod endpoint;
pub mod fuzzy;
pub mod history;
pub mod jsonform;
pub mod kernel;
pub mod mailbox;
pub mod peer;
pub mod pid;
pub mod process;
pub mod pubsub;
pub mod registry;
pub mod remote;
pub mod service;
pub mod term;
pub mod text;
pub mod textset;
pub mod value;
pub mod wire;

verus! {

/// Name of the runtime's local socket. Debug builds use a separate socket so
/// that a development daemon never collides with the installed one.
pub fn runtime_socket_name(debug_build: bool) -> (r: &'static str)
    ensures
        debug_build ==> r@ == "vrsd-debug.socket"@,
        !debug_build ==> r@ == "vrsd.socket"@,
{
    if debug_build {
        "vrsd-debug.socket"
    } else {
        "vrsd.socket"
    }
}

} // verus!
