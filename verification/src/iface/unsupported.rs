//! Fallback for platforms with no interface-configuration backend yet: every
//! command is one that fails.

use vstd::prelude::*;

use crate::net::{IpAddr, IpNet};
use crate::text::{push_text, texts};

use super::Cmd;

verus! {

/// The command that fails.
pub open spec fn is_unsupported(c: Cmd) -> bool {
    c.is("false"@, seq!["unsupported-platform"@])
}

pub fn unsupported() -> (c: Cmd)
    ensures
        is_unsupported(c),
{
    let mut args: Vec<String> = Vec::new();
    push_text(&mut args, "unsupported-platform");
    proof {
        assert(texts(args@) =~= seq!["unsupported-platform"@]);
    }
    Cmd::new("false", args)
}

pub fn addr_cmd(_action: &str, _dev: &str, _addr: IpAddr, _prefix_len: u8) -> (c: Cmd)
    ensures
        is_unsupported(c),
{
    unsupported()
}

pub fn route_cmd(_action: &str, _prefix: IpNet, _dev: &str) -> (c: Cmd)
    ensures
        is_unsupported(c),
{
    unsupported()
}

pub fn pin_cmd(_action: &str, _proxy: IpAddr, _gateway: Option<IpAddr>, _dev: &str) -> (c: Cmd)
    ensures
        is_unsupported(c),
{
    unsupported()
}

pub fn mtu_cmd(_dev: &str, _mtu: u16) -> (c: Cmd)
    ensures
        is_unsupported(c),
{
    unsupported()
}

} // verus!
