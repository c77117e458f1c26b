//! Handles to the Wireshark objects that the dissector receives.  They are
//! opaque: the dissector only passes them back to Wireshark.
#![allow(non_camel_case_types)]
use vstd::prelude::*;

verus! {

/// A buffer of captured packet bytes.
pub struct tvbuff_t {
    _private: [u8; 0],
}

/// The TCP analysis of a conversation; its address identifies the
/// conversation.
pub struct tcp_analysis {
    _private: [u8; 0],
}

/// An item of the protocol tree.
pub struct proto_item {
    _private: [u8; 0],
}

/// The protocol tree that a dissector fills.
pub struct proto_tree {
    _private: [u8; 0],
}

/// A Wireshark memory allocator.
pub struct wmem_allocator_t {
    _private: [u8; 0],
}

} // verus!
