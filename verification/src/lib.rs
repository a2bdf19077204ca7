//! Wake-on-LAN: building the magic packet for a MAC address, choosing the
//! broadcast address to send it to, and the order of the socket operations
//! that put it on the wire.

pub mod broadcast;
pub mod error;
mod interfaces;
pub mod mac;
pub mod packet;
pub mod send;
pub mod text;

pub use broadcast::{broadcast_address_from, brodcast_address};
pub use error::{MagicPacketError, MagicPacketResult};
pub use mac::parse_mac;
pub use packet::create_magic_packet;
pub use send::{advance, SendProgress, SendStep};
