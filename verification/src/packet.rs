//! The magic packet: six bytes of 0xFF, then the target's MAC address
//! sixteen times over.

use vstd::prelude::*;
use crate::mac::{
    groups_of, is_mac_address, lemma_mac_address_bytes, mac_bytes, parse_hex_byte, parse_mac,
};

verus! {

/// The byte that fills the head of a magic packet.
pub const SYNC_BYTE: u8 = 0xff;

/// How many sync bytes open a magic packet.
pub const SYNC_LENGTH: usize = 6;

/// How many times the MAC address follows the sync bytes.
pub const MAC_REPETITIONS: usize = 16;

/// The length of the magic packet for a MAC address of six bytes.
pub const MAGIC_PACKET_LENGTH: usize = 102;

/// The head of every magic packet.
pub open spec fn sync_stream() -> Seq<u8> {
    Seq::new(SYNC_LENGTH as nat, |i: int| SYNC_BYTE)
}

/// `block`, `times` times over.
pub open spec fn repeated(block: Seq<u8>, times: nat) -> Seq<u8>
    decreases times,
{
    if times == 0 {
        Seq::<u8>::empty()
    } else {
        repeated(block, (times - 1) as nat) + block
    }
}

/// The magic packet for the MAC bytes `mac`.
pub open spec fn magic_packet(mac: Seq<u8>) -> Seq<u8> {
    sync_stream() + repeated(mac, MAC_REPETITIONS as nat)
}

/// Builds the magic packet for a MAC address written with colons between
/// its groups. Nothing about the text is checked: a group that is no
/// hexadecimal byte is left out, so a malformed address gives a shorter
/// packet rather than an error.
pub fn create_magic_packet(mac: &str) -> (packet: Vec<u8>)
    ensures
        packet@ == magic_packet(mac_bytes(mac@)),
        packet@.len() == SYNC_LENGTH + MAC_REPETITIONS * mac_bytes(mac@).len(),
        is_mac_address(mac@) ==> packet@.len() == MAGIC_PACKET_LENGTH,
{
    let address = parse_mac(mac);
    let mut packet: Vec<u8> = Vec::new();
    for i in 0..SYNC_LENGTH
        invariant
            packet@ == Seq::new(i as nat, |k: int| SYNC_BYTE),
    {
        packet.push(SYNC_BYTE);
        assert(packet@ =~= Seq::new((i + 1) as nat, |k: int| SYNC_BYTE));
    }
    for round in 0..MAC_REPETITIONS
        invariant
            packet@ == sync_stream() + repeated(address@, round as nat),
    {
        let ghost done = packet@;
        for j in 0..address.len()
            invariant
                packet@ == done + address@.take(j as int),
        {
            packet.push(address[j]);
            assert(address@.take(j + 1) =~= address@.take(j as int).push(address@[j as int]));
        }
        assert(address@.take(address@.len() as int) =~= address@);
        assert(packet@ =~= sync_stream() + (repeated(address@, round as nat) + address@));
    }
    proof {
        lemma_magic_packet_layout(mac_bytes(mac@));
        if is_mac_address(mac@) {
            lemma_mac_address_bytes(mac@);
        }
    }
    packet
}

/// A block repeated has the length of the block times the count, and reads
/// the block over and over.
pub proof fn lemma_repeated_layout(block: Seq<u8>, times: nat)
    ensures
        repeated(block, times).len() == times * block.len(),
        forall|i: int|
            0 <= i < times * block.len() ==> #[trigger] repeated(block, times)[i] == block[i
                % (block.len() as int)],
    decreases times,
{
    if times == 0 {
        assert(times * block.len() == 0) by (nonlinear_arith)
            requires
                times == 0,
        ;
    } else {
        let fewer = (times - 1) as nat;
        let n = block.len() as int;
        lemma_repeated_layout(block, fewer);
        assert(times * block.len() == fewer * block.len() + block.len()) by (nonlinear_arith)
            requires
                fewer == times - 1,
        ;
        assert forall|i: int| 0 <= i < times * block.len() implies #[trigger] repeated(
            block,
            times,
        )[i] == block[i % n] by {
            if i >= fewer * n {
                assert(i % n == i - fewer * n) by (nonlinear_arith)
                    requires
                        fewer * n <= i < fewer * n + n,
                        0 <= fewer,
                ;
            }
        }
    }
}

/// The layout of a magic packet: its length, its head of sync bytes, and
/// after them the MAC bytes in rotation.
pub proof fn lemma_magic_packet_layout(mac: Seq<u8>)
    ensures
        magic_packet(mac).len() == SYNC_LENGTH + MAC_REPETITIONS * mac.len(),
        forall|i: int| 0 <= i < SYNC_LENGTH ==> #[trigger] magic_packet(mac)[i] == SYNC_BYTE,
        forall|k: int|
            0 <= k < MAC_REPETITIONS * mac.len() ==> #[trigger] magic_packet(mac)[SYNC_LENGTH
                + k] == mac[k % (mac.len() as int)],
        magic_packet(mac).subrange(SYNC_LENGTH as int, magic_packet(mac).len() as int)
            == repeated(mac, MAC_REPETITIONS as nat),
{
    lemma_repeated_layout(mac, MAC_REPETITIONS as nat);
    assert(magic_packet(mac).subrange(SYNC_LENGTH as int, magic_packet(mac).len() as int)
        =~= repeated(mac, MAC_REPETITIONS as nat));
    assert forall|k: int| 0 <= k < MAC_REPETITIONS * mac.len() implies #[trigger] magic_packet(
        mac,
    )[SYNC_LENGTH + k] == mac[k % (mac.len() as int)] by {
        assert(magic_packet(mac)[SYNC_LENGTH + k] == repeated(mac, MAC_REPETITIONS as nat)[k]);
    }
}

/// For a MAC address of six hexadecimal groups the magic packet has exactly
/// 102 bytes: six sync bytes, then sixteen repetitions of the six bytes that
/// the groups stand for.
pub proof fn lemma_mac_address_packet(text: Seq<char>)
    requires
        is_mac_address(text),
    ensures
        magic_packet(mac_bytes(text)).len() == MAGIC_PACKET_LENGTH,
        forall|i: int|
            0 <= i < SYNC_LENGTH ==> #[trigger] magic_packet(mac_bytes(text))[i] == SYNC_BYTE,
        magic_packet(mac_bytes(text)).subrange(SYNC_LENGTH as int, MAGIC_PACKET_LENGTH as int)
            == repeated(mac_bytes(text), MAC_REPETITIONS as nat),
        forall|k: int|
            SYNC_LENGTH <= k < MAGIC_PACKET_LENGTH ==> #[trigger] magic_packet(
                mac_bytes(text),
            )[k] == parse_hex_byte(groups_of(text)[(k - SYNC_LENGTH) % 6]).unwrap(),
{
    let mac = mac_bytes(text);
    lemma_mac_address_bytes(text);
    lemma_magic_packet_layout(mac);
    assert forall|k: int| SYNC_LENGTH <= k < MAGIC_PACKET_LENGTH implies #[trigger] magic_packet(
        mac,
    )[k] == parse_hex_byte(groups_of(text)[(k - SYNC_LENGTH) % 6]).unwrap() by {
        let j = k - SYNC_LENGTH;
        assert(magic_packet(mac)[SYNC_LENGTH + j] == mac[j % 6]);
        assert(mac[j % 6] == parse_hex_byte(groups_of(text)[j % 6]).unwrap());
    }
}

/// The packet depends on the text alone: two packets built for the same
/// text are byte for byte the same.
pub proof fn lemma_packet_is_determined(
    first_text: Seq<char>,
    second_text: Seq<char>,
    first_packet: Seq<u8>,
    second_packet: Seq<u8>,
)
    requires
        first_text == second_text,
        first_packet == magic_packet(mac_bytes(first_text)),
        second_packet == magic_packet(mac_bytes(second_text)),
    ensures
        first_packet == second_packet,
{
}

} // verus!
