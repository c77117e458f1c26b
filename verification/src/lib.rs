//! Water levels on a landscape under uniform rain, and the decision logic of
//! a dissector for the Tezos peer-to-peer protocol.
use vstd::prelude::*;

pub mod rational;
pub mod rain;
pub mod flood;
pub mod water;
pub mod duration;
pub mod pools;
pub mod config;
pub mod report;
pub mod identity;
pub mod errors;
pub mod wireshark;
pub mod conversation;

verus! {
} // verus!
