//! Secure, chunked broadcast protocol for a small fleet of nodes that talk over
//! an unreliable, connectionless radio medium.
//!
//! The crate holds the wire codec, the chunker and its two reassemblers, the
//! chaining and keyed-hash compositions, the peer table and the packet manager.
//! The block cipher, the digest, the random source, the clock and the radio are
//! driven by the caller: every function here works on plain values.

pub mod binary_packets;
pub mod hw_aes;
pub mod hw_aes_proofs;
pub mod hw_hmac;
pub mod hw_hmac_proofs;
pub mod packetizer;
pub mod packetizer_proofs;
pub mod packet_manager;
pub mod packet_manager_proofs;
pub mod packet_types;
pub mod peer_table;
