//! The web interface: what requests may ask for, and what they are answered.

use crate::config::Config;
use crate::text::{decimal, decimal_u64};
use vstd::prelude::*;

pub mod handlers;

verus! {

/// The address to listen on, as text.
pub fn bind_address(config: &Config) -> (r: String)
    ensures
        r@ == config.server.host@ + ":"@ + decimal(config.server.port as int),
{
    let mut out = config.server.host.clone();
    out.append(":");
    let port = decimal_u64(config.server.port as u64);
    out.append(port.as_str());
    out
}

} // verus!
