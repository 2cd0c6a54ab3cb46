//! Verified core of the Qingluan agent task platform: JJ workspace and Pi
//! session discovery, the workspace catalog, the CLI's selector and
//! messages, and the protocol shared with the daemon.

pub mod calendar;
pub mod catalog;
pub mod cli;
pub mod daemon;
pub mod json;
pub mod paths;
pub mod protocol;
pub mod sandbox;
pub mod sessions;
pub mod text;
pub mod time;
pub mod workspace;

use vstd::prelude::*;

verus! {

/// The version of this crate.
pub fn version() -> (r: &'static str)
    ensures
        r@ == "0.1.0"@,
{
    "0.1.0"
}

} // verus!
