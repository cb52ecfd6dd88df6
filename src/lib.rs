//! A reliability layer over unordered, lossy datagrams: per-peer sequence
//! numbers, acknowledgement bitfields and loss detection, with the fixed
//! binary header that carries them.

pub mod sequence;
pub mod packet;
pub mod external_acks;
pub mod ack_record;
pub mod connection;
pub mod state;
