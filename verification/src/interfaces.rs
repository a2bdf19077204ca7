//! The one place where the network interfaces of the host are read.

use vstd::prelude::*;

verus! {

/// Lists the interface addresses of the host with `nix::ifaddrs::getifaddrs`
/// and hands out, for each entry in the order of the listing, the broadcast
/// address that it reports, written as text by the `Display` of
/// `nix::sys::socket::SockaddrStorage`; `None` for an entry that reports no
/// broadcast address, and `None` for the whole when the listing fails.
///
/// What comes back depends on the host, so nothing is claimed of it.
#[verifier::external_body]
pub(crate) fn interface_broadcasts() -> Option<Vec<Option<String>>> {
    match nix::ifaddrs::getifaddrs() {
        Ok(addresses) => Some(
            addresses.map(|entry| entry.broadcast.map(|address| address.to_string())).collect(),
        ),
        Err(_) => None,
    }
}

} // verus!
