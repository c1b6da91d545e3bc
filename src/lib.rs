//! A link-layer packet relay node for the NBP narrow-band packet protocol:
//! callsign addresses, CRC-16, packet identifiers, source routing, KISS
//! framing, the NBP frame codec, duplicate suppression, a retrying transmit
//! queue and the node engine that ties them together.
pub mod address;
pub mod crc16;
pub mod prn_id;
pub mod routing;
pub mod kiss;
pub mod frame;
pub mod prn_table;
pub mod tx_queue;
pub mod node;
pub mod echo;
