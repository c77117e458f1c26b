//! What the dissector decides for each packet of a TCP conversation between
//! two Tezos nodes.  The two first packets are the connection messages (one
//! from each side); once both are known and a node identity is configured,
//! the conversation is upgraded with decrypters, and every later packet is
//! decrypted in the direction it travels.
use vstd::prelude::*;
use crate::errors::{NotT3z0sStreamError, T3z0sNodeIdentityNotLoadedError};

verus! {

/// The address a packet came from: the IP address (IPv4 in the low 32 bits)
/// and the TCP port.
#[derive(Clone, Copy, Debug, PartialEq, Eq, Structural)]
pub struct PeerAddr {
    pub ip: u128,
    pub is_v6: bool,
    pub port: u16,
}

/// What the dissector keeps of a connection message: the public key it
/// announces and the address it came from.
#[derive(Clone, Debug, PartialEq, Eq)]
pub struct ConnectionInfo {
    pub public_key: Vec<u8>,
    pub addr: PeerAddr,
}

/// Why a packet could not be dissected.
#[derive(Clone, Copy, Debug, PartialEq, Eq, Structural)]
pub enum PacketError {
    /// The packets do not follow the protocol.
    NotT3z0sStream(NotT3z0sStreamError),
    /// No node identity is configured.
    IdentityNotLoaded(T3z0sNodeIdentityNotLoadedError),
    /// The source address of the packet could not be read.
    BadAddress,
}

/// What to do with a packet.
#[derive(Clone, Copy, Debug, PartialEq, Eq, Structural)]
pub enum PacketAction {
    /// Read the payload as a connection message, then record it with its
    /// source address.
    ReadConnectionMessage,
    /// Both connection messages are known: build the decrypters.
    Upgrade,
    /// Decrypt the payload; `outgoing` when it comes from the local node.
    Decrypt { outgoing: bool },
}

/// The state of one conversation.
pub struct Conversation {
    pub counter: u64,
    pub conn_msgs: Vec<ConnectionInfo>,
    pub is_initialized: bool,
    pub is_incoming: bool,
    pub is_dead: bool,
    pub waiting: bool,
    pub peer_id: String,
    pub public_key: Vec<u8>,
}

impl Conversation {
    /// A conversation of which no packet was seen yet.
    pub fn new() -> (r: Conversation)
        ensures
            r.counter == 0,
            r.conn_msgs@.len() == 0,
            !r.is_initialized,
            !r.is_incoming,
            !r.is_dead,
            !r.waiting,
            r.peer_id@.len() == 0,
            r.public_key@.len() == 0,
    {
        Conversation {
            counter: 0,
            conn_msgs: Vec::new(),
            is_initialized: false,
            is_incoming: false,
            is_dead: false,
            waiting: false,
            peer_id: String::new(),
            public_key: Vec::new(),
        }
    }

    /// The packets seen so far fit the protocol: one connection message per
    /// packet for the two first packets.
    pub open spec fn consistent(&self) -> bool {
        if self.counter == 0 {
            true
        } else if self.counter == 1 {
            self.conn_msgs.len() == 1
        } else {
            self.conn_msgs.len() == 2
        }
    }

    /// The stored connection messages are exactly one per counted packet
    /// for the two first packets.
    pub open spec fn messages_match(&self) -> bool {
        self.conn_msgs.len() == (if self.counter < 2 { self.counter as int } else { 2 })
    }

    /// Whether the packets seen so far fit the protocol.
    pub fn is_ok(&self) -> (r: bool)
        ensures
            r == self.consistent(),
    {
        match self.counter {
            0 => true,
            1 => self.conn_msgs.len() == 1,
            _ => self.conn_msgs.len() == 2,
        }
    }

    /// The address of the local node: where the connection message that it
    /// sent came from.
    pub fn local_addr(&self) -> (r: PeerAddr)
        requires
            self.conn_msgs.len() == 2,
        ensures
            r == (if self.is_incoming { self.conn_msgs@[1].addr } else { self.conn_msgs@[0].addr }),
    {
        if self.is_incoming {
            self.conn_msgs[1].addr
        } else {
            self.conn_msgs[0].addr
        }
    }

    /// Counts one more packet and returns the new count.
    pub fn inc_counter(&mut self) -> (r: u64)
        requires
            old(self).counter < u64::MAX,
        ensures
            final(self).counter == old(self).counter + 1,
            r == final(self).counter,
            final(self).conn_msgs == old(self).conn_msgs,
            final(self).is_initialized == old(self).is_initialized,
            final(self).is_incoming == old(self).is_incoming,
            final(self).is_dead == old(self).is_dead,
            final(self).waiting == old(self).waiting,
            final(self).peer_id == old(self).peer_id,
            final(self).public_key == old(self).public_key,
    {
        self.counter = self.counter + 1;
        self.counter
    }

    /// Decides what to do with the next packet, which came from `src`
    /// (`None` when its address could not be read); `configured` tells
    /// whether a node identity is configured.
    ///
    /// A packet that does not fit the protocol is refused and not counted.
    /// Otherwise it is counted; the two first are connection messages; a
    /// later one needs its address and the identity, then it either upgrades
    /// the conversation or, once upgraded, is decrypted as outgoing when it
    /// comes from the local node.
    pub fn process_packet(&mut self, src: Option<PeerAddr>, configured: bool) -> (r: Result<PacketAction, PacketError>)
        requires
            old(self).consistent() ==> old(self).counter < u64::MAX,
        ensures
            !old(self).consistent() ==> r == Err::<PacketAction, PacketError>(PacketError::NotT3z0sStream(NotT3z0sStreamError))
                && final(self).counter == old(self).counter,
            !old(self).consistent() ==> *final(self) == *old(self) && !final(self).consistent(),
            old(self).consistent() ==> final(self).counter == old(self).counter + 1,
            old(self).consistent() && old(self).counter < 2 ==> r == Ok::<PacketAction, PacketError>(PacketAction::ReadConnectionMessage),
            old(self).consistent() && old(self).counter >= 2 ==> r == match src {
                None => Err(PacketError::BadAddress),
                Some(a) => if !configured {
                    Err(PacketError::IdentityNotLoaded(T3z0sNodeIdentityNotLoadedError))
                } else if old(self).is_initialized {
                    Ok(PacketAction::Decrypt {
                        outgoing: a == (if old(self).is_incoming { old(self).conn_msgs@[1].addr } else { old(self).conn_msgs@[0].addr }),
                    })
                } else {
                    Ok(PacketAction::Upgrade)
                },
            },
            final(self).conn_msgs == old(self).conn_msgs,
            final(self).is_initialized == old(self).is_initialized,
            final(self).is_incoming == old(self).is_incoming,
            final(self).is_dead == old(self).is_dead,
            final(self).waiting == old(self).waiting,
            final(self).peer_id == old(self).peer_id,
            final(self).public_key == old(self).public_key,
    {
        if !self.is_ok() {
            return Err(PacketError::NotT3z0sStream(NotT3z0sStreamError));
        }
        let counter = self.inc_counter();
        if counter <= 2 {
            Ok(PacketAction::ReadConnectionMessage)
        } else {
            let srcaddr = match src {
                Some(a) => a,
                None => return Err(PacketError::BadAddress),
            };
            if !configured {
                return Err(PacketError::IdentityNotLoaded(T3z0sNodeIdentityNotLoadedError));
            }
            if self.is_initialized {
                let outgoing = self.local_addr() == srcaddr;
                Ok(PacketAction::Decrypt { outgoing })
            } else {
                Ok(PacketAction::Upgrade)
            }
        }
    }

    /// Records a connection message read from one of the two first packets.
    pub fn record_connection_message(&mut self, info: ConnectionInfo)
        ensures
            final(self).conn_msgs@ == old(self).conn_msgs@.push(info),
            final(self).counter == old(self).counter,
            final(self).is_initialized == old(self).is_initialized,
            final(self).is_incoming == old(self).is_incoming,
            final(self).is_dead == old(self).is_dead,
            final(self).waiting == old(self).waiting,
            final(self).peer_id == old(self).peer_id,
            final(self).public_key == old(self).public_key,
    {
        self.conn_msgs.push(info);
    }

    /// The roles of the two connection messages, given whether the public
    /// key of the first one is the local node's: `(is_incoming, received,
    /// sent)`, the last two being indices into `conn_msgs`.  The
    /// conversation is incoming when the first key is not the local one; the
    /// received message is then the second one.
    pub fn upgrade_roles(&self, first_key_is_local: bool) -> (r: (bool, usize, usize))
        ensures
            r.0 == !first_key_is_local,
            r.0 ==> r.1 == 1 && r.2 == 0,
            !r.0 ==> r.1 == 0 && r.2 == 1,
    {
        let is_incoming = !first_key_is_local;
        if is_incoming {
            (is_incoming, 1, 0)
        } else {
            (is_incoming, 0, 1)
        }
    }

    /// Marks the conversation as upgraded once the decrypters are built:
    /// the peer is the sender of the message `received`, known as `peer_id`.
    pub fn complete_upgrade(&mut self, is_incoming: bool, received: usize, peer_id: String)
        requires
            received < old(self).conn_msgs.len(),
        ensures
            final(self).public_key@ == old(self).conn_msgs@[received as int].public_key@,
            final(self).peer_id == peer_id,
            final(self).is_incoming == is_incoming,
            final(self).is_initialized,
            final(self).counter == old(self).counter,
            final(self).conn_msgs == old(self).conn_msgs,
            final(self).is_dead == old(self).is_dead,
            final(self).waiting == old(self).waiting,
    {
        let key = self.conn_msgs[received].public_key.clone();
        proof {
            assert(key@ =~= self.conn_msgs@[received as int].public_key@);
        }
        self.public_key = key;
        self.peer_id = peer_id;
        self.is_incoming = is_incoming;
        self.is_initialized = true;
    }
}

/// Law: in a conversation whose stored connection messages match its count,
/// a packet that `process_packet` accepts (`counted`: one more packet, the
/// same messages) keeps them matching once the connection message of one of
/// the two first packets is recorded (`after`); when that message cannot be
/// read and so is not recorded, the conversation refuses every later packet.
pub proof fn lemma_packet_keeps_messages(
    before: Conversation,
    counted: Conversation,
    after: Conversation,
    info: ConnectionInfo,
)
    requires
        before.messages_match(),
        counted.counter == before.counter + 1,
        counted.conn_msgs == before.conn_msgs,
        before.counter < 2 ==> after.conn_msgs@ == counted.conn_msgs@.push(info),
        before.counter >= 2 ==> after.conn_msgs == counted.conn_msgs,
        after.counter == counted.counter,
    ensures
        before.consistent(),
        after.messages_match(),
        after.consistent(),
        before.counter < 2 ==> !counted.consistent(),
{
}

} // verus!
