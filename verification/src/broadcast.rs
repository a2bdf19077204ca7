//! Choosing the address to send a magic packet to: the broadcast address
//! of the first interface that reports one, with the port appended.

use vstd::prelude::*;
use crate::interfaces::interface_broadcasts;
use crate::text::{decimal_digits, push_decimal};

verus! {

/// The port that Wake-on-LAN packets go to when the caller names none.
pub const DEFAULT_PORT: u16 = 9;

/// The port to use: the one given, or the default.
pub open spec fn effective_port(port: Option<u16>) -> u16 {
    match port {
        Some(p) => p,
        None => DEFAULT_PORT,
    }
}

/// Where the first colon of `text` stands; the length of `text` if it has
/// none.
pub open spec fn first_colon(text: Seq<char>) -> nat
    decreases text.len(),
{
    if text.len() == 0 || text[0] == ':' {
        0
    } else {
        1 + first_colon(text.drop_first())
    }
}

/// The host part of an address as it is written: what stands before its
/// first colon, or all of it if there is none.
pub open spec fn host_part(address: Seq<char>) -> Seq<char> {
    address.take(first_colon(address) as int)
}

/// The text that names `address` with `port`: the host part of the address,
/// a colon, and the port in decimal.
pub open spec fn broadcast_target(address: Seq<char>, port: u16) -> Seq<char> {
    host_part(address) + seq![':'] + decimal_digits(port as nat)
}

/// `text` names some host with `port`: it is a host part without a colon,
/// then a colon, then the port in decimal.
pub open spec fn is_target_for(text: Seq<char>, port: u16) -> bool {
    text == host_part(text) + seq![':'] + decimal_digits(port as nat)
}

/// The first broadcast address among the entries of an interface listing.
pub open spec fn first_reported(entries: Seq<Option<Seq<char>>>) -> Option<Seq<char>>
    decreases entries.len(),
{
    if entries.len() == 0 {
        None
    } else if entries[0] is Some {
        entries[0]
    } else {
        first_reported(entries.drop_first())
    }
}

/// The broadcast address for a listing of the host's interfaces: nothing
/// when the listing failed or no entry reports a broadcast address, else the
/// first reported address with the port in place of whatever followed its
/// first colon.
pub open spec fn resolved_address(
    listing: Option<Seq<Option<Seq<char>>>>,
    port: Option<u16>,
) -> Option<Seq<char>> {
    match listing {
        None => None,
        Some(entries) => match first_reported(entries) {
            None => None,
            Some(address) => Some(broadcast_target(address, effective_port(port))),
        },
    }
}

/// The first colon stands within the text or at its end, no colon stands
/// before it, and where it stands within the text there is a colon.
pub proof fn lemma_first_colon(text: Seq<char>)
    ensures
        first_colon(text) <= text.len(),
        forall|j: int| 0 <= j < first_colon(text) ==> text[j] != ':',
        first_colon(text) < text.len() ==> text[first_colon(text) as int] == ':',
    decreases text.len(),
{
    if !(text.len() == 0 || text[0] == ':') {
        let rest = text.drop_first();
        lemma_first_colon(rest);
        assert forall|j: int| 0 <= j < first_colon(text) implies text[j] != ':' by {
            if j > 0 {
                assert(text[j] == rest[j - 1]);
            }
        }
        if first_colon(text) < text.len() {
            assert(text[first_colon(text) as int] == rest[first_colon(rest) as int]);
        }
    }
}

/// A place that no colon precedes, and that is the end of the text or holds
/// a colon, is where the first colon stands.
pub proof fn lemma_first_colon_is(text: Seq<char>, at: int)
    requires
        0 <= at <= text.len(),
        forall|j: int| 0 <= j < at ==> text[j] != ':',
        at < text.len() ==> text[at] == ':',
    ensures
        first_colon(text) == at,
    decreases text.len(),
{
    if at > 0 {
        let rest = text.drop_first();
        assert(text[0] != ':');
        assert forall|j: int| 0 <= j < at - 1 implies rest[j] != ':' by {
            assert(rest[j] == text[j + 1]);
        }
        lemma_first_colon_is(rest, at - 1);
    }
}

/// A target text names its port: the host part of
/// `broadcast_target(address, port)` is the host part of `address`, and the
/// rest is a colon and the port.
pub proof fn lemma_target_names_port(address: Seq<char>, port: u16)
    ensures
        host_part(broadcast_target(address, port)) == host_part(address),
        is_target_for(broadcast_target(address, port), port),
{
    let host = host_part(address);
    let target = broadcast_target(address, port);
    lemma_first_colon(address);
    assert forall|j: int| 0 <= j < host.len() implies target[j] != ':' by {
        assert(target[j] == address[j]);
    }
    assert(target[host.len() as int] == ':');
    lemma_first_colon_is(target, host.len() as int);
    assert(target.take(host.len() as int) =~= host);
}

/// Where no entry before `at` reports an address and the entry at `at` does,
/// that one is the first reported.
pub proof fn lemma_first_reported_is(entries: Seq<Option<Seq<char>>>, at: int)
    requires
        0 <= at <= entries.len(),
        forall|j: int| 0 <= j < at ==> entries[j] is None,
    ensures
        at < entries.len() && entries[at] is Some ==> first_reported(entries) == entries[at],
        at == entries.len() ==> first_reported(entries) is None,
    decreases entries.len(),
{
    if at > 0 {
        let rest = entries.drop_first();
        assert(entries[0] is None);
        assert forall|j: int| 0 <= j < at - 1 implies rest[j] is None by {
            assert(rest[j] == entries[j + 1]);
        }
        lemma_first_reported_is(rest, at - 1);
        if at < entries.len() {
            assert(rest[at - 1] == entries[at]);
        }
    }
}

/// A listing has a first reported address exactly when some entry reports
/// one.
pub proof fn lemma_first_reported_exists(entries: Seq<Option<Seq<char>>>)
    ensures
        first_reported(entries) is Some <==> exists|i: int|
            0 <= i < entries.len() && entries[i] is Some,
    decreases entries.len(),
{
    if entries.len() > 0 && entries[0] is None {
        let rest = entries.drop_first();
        lemma_first_reported_exists(rest);
        if first_reported(rest) is Some {
            let i = choose|i: int| 0 <= i < rest.len() && rest[i] is Some;
            assert(entries[i + 1] is Some);
        }
        if exists|i: int| 0 <= i < entries.len() && entries[i] is Some {
            let i = choose|i: int| 0 <= i < entries.len() && entries[i] is Some;
            assert(rest[i - 1] is Some);
        }
    }
}

/// Where some interface reports a broadcast address and the caller names no
/// port, the address found names port 9: it ends in ":9", after the host
/// part of the first reported address.
pub proof fn lemma_default_port_is_nine(entries: Seq<Option<Seq<char>>>)
    requires
        exists|i: int| 0 <= i < entries.len() && entries[i] is Some,
    ensures
        resolved_address(Some(entries), None) is Some,
        resolved_address(Some(entries), None) == resolved_address(Some(entries), Some(9u16)),
        resolved_address(Some(entries), None).unwrap() == host_part(
            first_reported(entries).unwrap(),
        ) + seq![':', '9'],
        is_target_for(resolved_address(Some(entries), None).unwrap(), 9),
{
    lemma_first_reported_exists(entries);
    let address = first_reported(entries).unwrap();
    lemma_target_names_port(address, 9);
    assert(host_part(address) + seq![':'] + decimal_digits(9) =~= host_part(address) + seq![
        ':',
        '9',
    ]);
}

/// The host part of an address given as text.
fn host_of(address: &str) -> (host: String)
    ensures
        host@ == host_part(address@),
{
    let mut host = String::new();
    let mut open = true;
    let ghost mut cut: int = 0;
    for c in it: address.chars()
        invariant
            it.seq() == address@,
            open ==> host@ == address@.take(it.index()),
            open ==> forall|j: int| 0 <= j < it.index() ==> address@[j] != ':',
            !open ==> 0 <= cut < it.index() && address@[cut] == ':' && host@ == address@.take(
                cut,
            ),
            !open ==> forall|j: int| 0 <= j < cut ==> address@[j] != ':',
    {
        if open {
            if c == ':' {
                open = false;
                proof {
                    cut = it.index();
                }
            } else {
                host.push(c);
                assert(address@.take(it.index() + 1) =~= address@.take(it.index()).push(c));
            }
        }
    }
    proof {
        if open {
            lemma_first_colon_is(address@, address@.len() as int);
        } else {
            lemma_first_colon_is(address@, cut);
        }
    }
    host
}

/// Names `address` with `port`: keeps the host part of the address and
/// appends a colon and the port in decimal.
pub fn target_of(address: &str, port: u16) -> (target: String)
    ensures
        target@ == broadcast_target(address@, port),
        is_target_for(target@, port),
{
    let mut target = host_of(address);
    target.push(':');
    push_decimal(&mut target, port);
    proof {
        lemma_target_names_port(address@, port);
        assert(host_part(address@).push(':') =~= host_part(address@) + seq![':']);
    }
    target
}

/// The broadcast address for a listing of the host's interfaces, as
/// [`resolved_address`] defines it. `listing` is `None` when the interfaces
/// could not be listed; else it holds, for each entry in order, the
/// broadcast address that the entry reports, if any. A `port` of `None`
/// stands for the default port.
pub fn broadcast_address_from(listing: &Option<Vec<Option<String>>>, port: Option<u16>) -> (found:
    Option<String>)
    ensures
        found.deep_view() == resolved_address(listing.deep_view(), port),
        found matches Some(text) ==> is_target_for(text@, effective_port(port)),
{
    let chosen = match port {
        Some(p) => p,
        None => DEFAULT_PORT,
    };
    match listing {
        None => None,
        Some(entries) => {
            let ghost reported = entries.deep_view();
            let mut i: usize = 0;
            while i < entries.len()
                invariant
                    0 <= i <= entries.len(),
                    reported == entries.deep_view(),
                    listing.deep_view() == Some(reported),
                    chosen == effective_port(port),
                    forall|j: int| 0 <= j < i ==> reported[j] is None,
                decreases entries.len() - i,
            {
                match &entries[i] {
                    Some(address) => {
                        proof {
                            assert(reported[i as int] == Some(address@));
                            lemma_first_reported_is(reported, i as int);
                        }
                        return Some(target_of(address.as_str(), chosen));
                    },
                    None => {
                        assert(reported[i as int] is None);
                    },
                }
                i = i + 1;
            }
            proof {
                lemma_first_reported_is(reported, i as int);
            }
            None
        },
    }
}

/// Finds the address to broadcast a magic packet to: the broadcast address
/// of the first interface of this host that reports one, with `port`
/// appended, or with the default port 9 when `port` is `None`. Returns
/// `None` when the interfaces cannot be listed or none reports a broadcast
/// address.
///
/// Which interfaces there are is up to the host. Whatever they are, an
/// address that comes back names the effective port. What comes back for a
/// given listing is stated by [`broadcast_address_from`].
pub fn brodcast_address(port: Option<u16>) -> (found: Option<String>)
    ensures
        found matches Some(text) ==> is_target_for(text@, effective_port(port)),
{
    let listing = interface_broadcasts();
    broadcast_address_from(&listing, port)
}

} // verus!
