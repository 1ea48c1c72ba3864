//! The wire format of the routing protocol.
//!
//! Every packet carries the sender's [`NodeId`] and a request id (`rid`) that a
//! response echoes, so a requester can match replies to in-flight requests.
use crate::addr::{IpAddr, SocketAddr};
use crate::bytes::{array_of, lemma_array_of};
use crate::firewall::{firewall_tag, tagged_firewall, Firewall};
use crate::id::{id_of, lemma_id_len, lemma_id_of, NodeId};
use crate::routing::Contact;
use crate::wire::{
    lemma_raw_roundtrip, lemma_u16_roundtrip, lemma_u8_roundtrip, lemma_uint_roundtrip, read_end,
    read_raw, read_u16_le, read_u8, read_uint, u16_le, varint, Decoder, Encoder, WireError,
};
use vstd::prelude::*;

verus! {

/// Kind of a liveness probe.
pub const KIND_PING: u8 = 1;

/// Kind of a reply to a liveness probe.
pub const KIND_PONG: u8 = 2;

/// Kind of a request for nodes.
pub const KIND_FIND_NODE: u8 = 3;

/// Kind of a reply to a request for nodes.
pub const KIND_NODES: u8 = 4;

/// Kind of an announcement.
pub const KIND_ANNOUNCE: u8 = 5;

/// Kind of a connection signal.
pub const KIND_SIGNAL: u8 = 7;

/// Kind of a reflexive probe.
pub const KIND_REFLECT: u8 = 8;

/// Kind of a reply to a reflexive probe.
pub const KIND_REFLECTED: u8 = 9;

/// Tag of an IPv4 address.
pub const ADDR_V4: u8 = 4;

/// Tag of an IPv6 address.
pub const ADDR_V6: u8 = 6;

/// The fewest bytes a contact takes: an id, an address tag and an IPv4 address.
pub const MIN_CONTACT_BYTES: u64 = 39;

/// The fewest bytes an address takes.
pub const MIN_ADDR_BYTES: u64 = 7;

/// Errors decoding a packet.
#[derive(Debug, Clone, Copy, PartialEq, Eq)]
pub enum MsgError {
    /// A field was malformed or a tag was unrecognized.
    Malformed(&'static str),
    /// The underlying byte codec rejected the buffer.
    Wire(WireError),
}

/// The body of a packet.
#[derive(Debug, Clone, PartialEq, Eq)]
pub enum Message {
    /// Liveness probe.
    Ping,
    /// Reply to [`Message::Ping`], echoing the source address the responder saw.
    Pong {
        /// The source address the responder saw.
        observed: SocketAddr,
    },
    /// Request the closest known nodes to `target`.
    FindNode {
        /// The id searched for.
        target: NodeId,
    },
    /// Reply to [`Message::FindNode`]: the closest known contacts, plus any
    /// announce records the responder holds for the target.
    Nodes {
        /// Closer nodes toward the queried target.
        contacts: Vec<Contact>,
        /// Peers that announced themselves under the queried target.
        peers: Vec<Contact>,
    },
    /// Ask the recipient to store the sender as an announcer under `topic`.
    Announce {
        /// The topic announced under.
        topic: NodeId,
    },
    /// Coordinate a hole punch: relayed between initiator and target through a
    /// coordinator that holds the target's announce record.
    Signal {
        /// The peer being connected to.
        target: NodeId,
        /// The peer initiating the connection.
        initiator: NodeId,
        /// The initiator's address, as observed and filled in by the coordinator.
        initiator_addr: SocketAddr,
        /// The sender's data-socket candidate addresses, in preference order.
        data_addrs: Vec<SocketAddr>,
        /// The sender's firewall type.
        firewall: Firewall,
        /// False for an initiator's request, true for a target's reply.
        is_reply: bool,
    },
    /// A reflexive probe: ask how the recipient observes the sending socket.
    Reflect,
    /// Reply to [`Message::Reflect`].
    Reflected {
        /// The source address the responder saw.
        observed: SocketAddr,
    },
}

/// A [`Message`] as a mathematical value.
#[verifier::ext_equal]
pub enum MessageView {
    /// Liveness probe.
    Ping,
    /// Reply to a liveness probe.
    Pong { observed: SocketAddr },
    /// Request for nodes.
    FindNode { target: NodeId },
    /// Reply to a request for nodes.
    Nodes { contacts: Seq<Contact>, peers: Seq<Contact> },
    /// Announcement.
    Announce { topic: NodeId },
    /// Connection signal.
    Signal {
        target: NodeId,
        initiator: NodeId,
        initiator_addr: SocketAddr,
        data_addrs: Seq<SocketAddr>,
        firewall: Firewall,
        is_reply: bool,
    },
    /// Reflexive probe.
    Reflect,
    /// Reply to a reflexive probe.
    Reflected { observed: SocketAddr },
}

impl View for Message {
    type V = MessageView;

    open spec fn view(&self) -> MessageView {
        match self {
            Message::Ping => MessageView::Ping,
            Message::Pong { observed } => MessageView::Pong { observed: *observed },
            Message::FindNode { target } => MessageView::FindNode { target: *target },
            Message::Nodes { contacts, peers } => MessageView::Nodes {
                contacts: contacts@,
                peers: peers@,
            },
            Message::Announce { topic } => MessageView::Announce { topic: *topic },
            Message::Signal { target, initiator, initiator_addr, data_addrs, firewall, is_reply } =>
                MessageView::Signal {
                target: *target,
                initiator: *initiator,
                initiator_addr: *initiator_addr,
                data_addrs: data_addrs@,
                firewall: *firewall,
                is_reply: *is_reply,
            },
            Message::Reflect => MessageView::Reflect,
            Message::Reflected { observed } => MessageView::Reflected { observed: *observed },
        }
    }
}

/// A full packet: sender identity, request id, and a message body.
#[derive(Debug, Clone, PartialEq, Eq)]
pub struct Packet {
    /// Id of the node that sent this packet.
    pub sender: NodeId,
    /// Request id; a response repeats the id of the request it answers.
    pub rid: u64,
    /// The message body.
    pub msg: Message,
}

/// A [`Packet`] as a mathematical value.
#[verifier::ext_equal]
pub struct PacketView {
    /// The sender's id.
    pub sender: NodeId,
    /// The request id.
    pub rid: u64,
    /// The message body.
    pub msg: MessageView,
}

impl View for Packet {
    type V = PacketView;

    open spec fn view(&self) -> PacketView {
        PacketView { sender: self.sender, rid: self.rid, msg: self.msg@ }
    }
}

/// The bytes of an address.
pub open spec fn addr_bytes(a: SocketAddr) -> Seq<u8> {
    match a.ip {
        IpAddr::V4(o) => seq![ADDR_V4] + o@ + u16_le(a.port),
        IpAddr::V6(o) => seq![ADDR_V6] + o@ + u16_le(a.port),
    }
}

/// Addresses one after the other.
pub open spec fn addr_list(s: Seq<SocketAddr>) -> Seq<u8>
    decreases s.len(),
{
    if s.len() == 0 {
        Seq::empty()
    } else {
        addr_list(s.drop_last()) + addr_bytes(s.last())
    }
}

/// Addresses behind their count.
pub open spec fn addrs_bytes(s: Seq<SocketAddr>) -> Seq<u8> {
    varint(s.len()) + addr_list(s)
}

/// The bytes of a contact.
pub open spec fn contact_bytes(c: Contact) -> Seq<u8> {
    c.id@ + addr_bytes(c.addr)
}

/// Contacts one after the other.
pub open spec fn contact_list(s: Seq<Contact>) -> Seq<u8>
    decreases s.len(),
{
    if s.len() == 0 {
        Seq::empty()
    } else {
        contact_list(s.drop_last()) + contact_bytes(s.last())
    }
}

/// Contacts behind their count.
pub open spec fn contacts_bytes(s: Seq<Contact>) -> Seq<u8> {
    varint(s.len()) + contact_list(s)
}

/// The kind a body travels under.
pub open spec fn kind_of(m: MessageView) -> u8 {
    match m {
        MessageView::Ping => KIND_PING,
        MessageView::Pong { .. } => KIND_PONG,
        MessageView::FindNode { .. } => KIND_FIND_NODE,
        MessageView::Nodes { .. } => KIND_NODES,
        MessageView::Announce { .. } => KIND_ANNOUNCE,
        MessageView::Signal { .. } => KIND_SIGNAL,
        MessageView::Reflect => KIND_REFLECT,
        MessageView::Reflected { .. } => KIND_REFLECTED,
    }
}

/// The bytes of a body behind its kind.
pub open spec fn body_bytes(m: MessageView) -> Seq<u8> {
    match m {
        MessageView::Ping => Seq::empty(),
        MessageView::Pong { observed } => addr_bytes(observed),
        MessageView::FindNode { target } => target@,
        MessageView::Nodes { contacts, peers } => contacts_bytes(contacts) + contacts_bytes(peers),
        MessageView::Announce { topic } => topic@,
        MessageView::Signal { target, initiator, initiator_addr, data_addrs, firewall, is_reply } =>
            target@ + initiator@ + addr_bytes(initiator_addr) + addrs_bytes(data_addrs) + seq![
            firewall_tag(firewall),
            if is_reply {
                1u8
            } else {
                0u8
            },
        ],
        MessageView::Reflect => Seq::empty(),
        MessageView::Reflected { observed } => addr_bytes(observed),
    }
}

/// The bytes of a packet.
pub open spec fn packet_bytes(p: PacketView) -> Seq<u8> {
    p.sender@ + varint(p.rid as nat) + seq![kind_of(p.msg)] + body_bytes(p.msg)
}

/// What reading a part of a packet off the front of a byte string gives.
pub type Part<T> = Result<(T, Seq<u8>), MsgError>;

/// Reading an id.
pub open spec fn read_id(s: Seq<u8>) -> Part<NodeId> {
    match read_raw(s, 32) {
        Ok((b, rest)) => Ok((id_of(b), rest)),
        Err(e) => Err(MsgError::Wire(e)),
    }
}

/// Reading the host of an address whose tag says how many bytes it takes.
pub open spec fn read_host(s: Seq<u8>, tag: u8) -> Part<IpAddr> {
    if tag == ADDR_V4 {
        match read_raw(s, 4) {
            Ok((b, rest)) => Ok((IpAddr::V4(array_of::<4>(b)), rest)),
            Err(e) => Err(MsgError::Wire(e)),
        }
    } else if tag == ADDR_V6 {
        match read_raw(s, 16) {
            Ok((b, rest)) => Ok((IpAddr::V6(array_of::<16>(b)), rest)),
            Err(e) => Err(MsgError::Wire(e)),
        }
    } else {
        Err(MsgError::Malformed("unknown address family"))
    }
}

/// Reading an address.
pub open spec fn read_addr(s: Seq<u8>) -> Part<SocketAddr> {
    match read_u8(s) {
        Ok((tag, s)) => match read_host(s, tag) {
            Ok((ip, s)) => match read_u16_le(s) {
                Ok((port, rest)) => Ok((SocketAddr { ip, port }, rest)),
                Err(e) => Err(MsgError::Wire(e)),
            },
            Err(e) => Err(e),
        },
        Err(e) => Err(MsgError::Wire(e)),
    }
}

/// Reading `n` addresses.
pub open spec fn read_n_addrs(s: Seq<u8>, n: nat) -> Part<Seq<SocketAddr>>
    decreases n,
{
    if n == 0 {
        Ok((Seq::empty(), s))
    } else {
        match read_n_addrs(s, (n - 1) as nat) {
            Ok((v, s)) => match read_addr(s) {
                Ok((a, rest)) => Ok((v.push(a), rest)),
                Err(e) => Err(e),
            },
            Err(e) => Err(e),
        }
    }
}

/// Reading addresses behind their count.
pub open spec fn read_addrs(s: Seq<u8>) -> Part<Seq<SocketAddr>> {
    match read_uint(s) {
        Ok((n, s)) => if n > s.len() / MIN_ADDR_BYTES as nat {
            Err(MsgError::Malformed("address count exceeds buffer"))
        } else {
            read_n_addrs(s, n as nat)
        },
        Err(e) => Err(MsgError::Wire(e)),
    }
}

/// Reading a contact.
pub open spec fn read_contact(s: Seq<u8>) -> Part<Contact> {
    match read_id(s) {
        Ok((id, s)) => match read_addr(s) {
            Ok((addr, rest)) => Ok((Contact { id, addr }, rest)),
            Err(e) => Err(e),
        },
        Err(e) => Err(e),
    }
}

/// Reading `n` contacts.
pub open spec fn read_n_contacts(s: Seq<u8>, n: nat) -> Part<Seq<Contact>>
    decreases n,
{
    if n == 0 {
        Ok((Seq::empty(), s))
    } else {
        match read_n_contacts(s, (n - 1) as nat) {
            Ok((v, s)) => match read_contact(s) {
                Ok((c, rest)) => Ok((v.push(c), rest)),
                Err(e) => Err(e),
            },
            Err(e) => Err(e),
        }
    }
}

/// Reading contacts behind their count.
pub open spec fn read_contacts(s: Seq<u8>) -> Part<Seq<Contact>> {
    match read_uint(s) {
        Ok((n, s)) => if n > s.len() / MIN_CONTACT_BYTES as nat {
            Err(MsgError::Malformed("contact count exceeds buffer"))
        } else {
            read_n_contacts(s, n as nat)
        },
        Err(e) => Err(MsgError::Wire(e)),
    }
}

/// Reading the firewall tag and the direction at the end of a signal.
pub open spec fn read_signal_end(s: Seq<u8>) -> Part<(Firewall, bool)> {
    match read_u8(s) {
        Ok((tag, s)) => match tagged_firewall(tag) {
            Some(firewall) => match read_u8(s) {
                Ok((reply, rest)) => Ok(((firewall, reply != 0), rest)),
                Err(e) => Err(MsgError::Wire(e)),
            },
            None => Err(MsgError::Malformed("unknown firewall tag")),
        },
        Err(e) => Err(MsgError::Wire(e)),
    }
}

/// Reading a signal.
pub open spec fn read_signal(s: Seq<u8>) -> Part<MessageView> {
    match read_id(s) {
        Ok((target, s)) => match read_id(s) {
            Ok((initiator, s)) => match read_addr(s) {
                Ok((initiator_addr, s)) => match read_addrs(s) {
                    Ok((data_addrs, s)) => match read_signal_end(s) {
                        Ok(((firewall, is_reply), rest)) => Ok(
                            (
                                MessageView::Signal {
                                    target,
                                    initiator,
                                    initiator_addr,
                                    data_addrs,
                                    firewall,
                                    is_reply,
                                },
                                rest,
                            ),
                        ),
                        Err(e) => Err(e),
                    },
                    Err(e) => Err(e),
                },
                Err(e) => Err(e),
            },
            Err(e) => Err(e),
        },
        Err(e) => Err(e),
    }
}

/// Reading a body of the given kind.
pub open spec fn read_body(kind: u8, s: Seq<u8>) -> Part<MessageView> {
    if kind == KIND_PING {
        Ok((MessageView::Ping, s))
    } else if kind == KIND_PONG {
        match read_addr(s) {
            Ok((observed, rest)) => Ok((MessageView::Pong { observed }, rest)),
            Err(e) => Err(e),
        }
    } else if kind == KIND_FIND_NODE {
        match read_id(s) {
            Ok((target, rest)) => Ok((MessageView::FindNode { target }, rest)),
            Err(e) => Err(e),
        }
    } else if kind == KIND_NODES {
        match read_contacts(s) {
            Ok((contacts, s)) => match read_contacts(s) {
                Ok((peers, rest)) => Ok((MessageView::Nodes { contacts, peers }, rest)),
                Err(e) => Err(e),
            },
            Err(e) => Err(e),
        }
    } else if kind == KIND_ANNOUNCE {
        match read_id(s) {
            Ok((topic, rest)) => Ok((MessageView::Announce { topic }, rest)),
            Err(e) => Err(e),
        }
    } else if kind == KIND_SIGNAL {
        read_signal(s)
    } else if kind == KIND_REFLECT {
        Ok((MessageView::Reflect, s))
    } else if kind == KIND_REFLECTED {
        match read_addr(s) {
            Ok((observed, rest)) => Ok((MessageView::Reflected { observed }, rest)),
            Err(e) => Err(e),
        }
    } else {
        Err(MsgError::Malformed("unknown message kind"))
    }
}

/// Reading a packet.
pub open spec fn read_packet(s: Seq<u8>) -> Result<PacketView, MsgError> {
    match read_id(s) {
        Ok((sender, s)) => match read_uint(s) {
            Ok((rid, s)) => match read_u8(s) {
                Ok((kind, s)) => match read_body(kind, s) {
                    Ok((msg, rest)) => match read_end(rest) {
                        Ok(_) => Ok(PacketView { sender, rid, msg }),
                        Err(e) => Err(MsgError::Wire(e)),
                    },
                    Err(e) => Err(e),
                },
                Err(e) => Err(MsgError::Wire(e)),
            },
            Err(e) => Err(MsgError::Wire(e)),
        },
        Err(e) => Err(e),
    }
}

proof fn lemma_id_roundtrip(id: NodeId, rest: Seq<u8>)
    ensures
        read_id(id@ + rest) == Ok::<(NodeId, Seq<u8>), MsgError>((id, rest)),
{
    lemma_id_len(id);
    lemma_id_of(id);
    lemma_raw_roundtrip(id@, rest);
}

/// An address is read back, whatever follows it.
pub proof fn lemma_addr_roundtrip(a: SocketAddr, rest: Seq<u8>)
    ensures
        read_addr(addr_bytes(a) + rest) == Ok::<(SocketAddr, Seq<u8>), MsgError>((a, rest)),
        addr_bytes(a).len() >= MIN_ADDR_BYTES,
{
    let port = u16_le(a.port) + rest;
    lemma_u16_roundtrip(a.port, rest);
    match a.ip {
        IpAddr::V4(o) => {
            assert(addr_bytes(a) + rest =~= seq![ADDR_V4] + (o@ + port));
            lemma_u8_roundtrip(ADDR_V4, o@ + port);
            lemma_raw_roundtrip(o@, port);
            lemma_array_of(o);
        },
        IpAddr::V6(o) => {
            assert(addr_bytes(a) + rest =~= seq![ADDR_V6] + (o@ + port));
            lemma_u8_roundtrip(ADDR_V6, o@ + port);
            lemma_raw_roundtrip(o@, port);
            lemma_array_of(o);
        },
    }
}

proof fn lemma_addr_list_roundtrip(s: Seq<SocketAddr>, rest: Seq<u8>)
    ensures
        read_n_addrs(addr_list(s) + rest, s.len()) == Ok::<(Seq<SocketAddr>, Seq<u8>), MsgError>(
            (s, rest),
        ),
        addr_list(s).len() >= MIN_ADDR_BYTES * s.len(),
    decreases s.len(),
{
    if s.len() > 0 {
        let tail = addr_bytes(s.last()) + rest;
        lemma_addr_list_roundtrip(s.drop_last(), tail);
        lemma_addr_roundtrip(s.last(), rest);
        assert(addr_list(s) + rest =~= addr_list(s.drop_last()) + tail);
        assert(s.drop_last().push(s.last()) =~= s);
    } else {
        assert(addr_list(s) + rest =~= rest);
        assert(s =~= Seq::empty());
    }
}

/// Addresses behind their count are read back, whatever follows them.
pub proof fn lemma_addrs_roundtrip(s: Seq<SocketAddr>, rest: Seq<u8>)
    requires
        s.len() <= u64::MAX,
    ensures
        read_addrs(addrs_bytes(s) + rest) == Ok::<(Seq<SocketAddr>, Seq<u8>), MsgError>((s, rest)),
{
    lemma_uint_roundtrip(s.len() as u64, addr_list(s) + rest);
    lemma_addr_list_roundtrip(s, rest);
    assert(addrs_bytes(s) + rest =~= varint(s.len()) + (addr_list(s) + rest));
}

proof fn lemma_contact_list_roundtrip(s: Seq<Contact>, rest: Seq<u8>)
    ensures
        read_n_contacts(contact_list(s) + rest, s.len()) == Ok::<(Seq<Contact>, Seq<u8>), MsgError>(
            (s, rest),
        ),
        contact_list(s).len() >= MIN_CONTACT_BYTES * s.len(),
    decreases s.len(),
{
    if s.len() > 0 {
        let c = s.last();
        let tail = contact_bytes(c) + rest;
        lemma_contact_list_roundtrip(s.drop_last(), tail);
        lemma_id_len(c.id);
        lemma_id_roundtrip(c.id, addr_bytes(c.addr) + rest);
        lemma_addr_roundtrip(c.addr, rest);
        assert(tail =~= c.id@ + (addr_bytes(c.addr) + rest));
        assert(contact_list(s) + rest =~= contact_list(s.drop_last()) + tail);
        assert(s.drop_last().push(c) =~= s);
    } else {
        assert(contact_list(s) + rest =~= rest);
        assert(s =~= Seq::empty());
    }
}

proof fn lemma_contacts_roundtrip(s: Seq<Contact>, rest: Seq<u8>)
    requires
        s.len() <= u64::MAX,
    ensures
        read_contacts(contacts_bytes(s) + rest) == Ok::<(Seq<Contact>, Seq<u8>), MsgError>(
            (s, rest),
        ),
{
    lemma_uint_roundtrip(s.len() as u64, contact_list(s) + rest);
    lemma_contact_list_roundtrip(s, rest);
    assert(contacts_bytes(s) + rest =~= varint(s.len()) + (contact_list(s) + rest));
}

/// Whether the lists of a body can be counted in 64 bits.
pub open spec fn countable(m: MessageView) -> bool {
    match m {
        MessageView::Nodes { contacts, peers } => contacts.len() <= u64::MAX && peers.len()
            <= u64::MAX,
        MessageView::Signal { data_addrs, .. } => data_addrs.len() <= u64::MAX,
        _ => true,
    }
}

proof fn lemma_signal_roundtrip(
    target: NodeId,
    initiator: NodeId,
    initiator_addr: SocketAddr,
    data_addrs: Seq<SocketAddr>,
    firewall: Firewall,
    is_reply: bool,
    rest: Seq<u8>,
)
    requires
        data_addrs.len() <= u64::MAX,
    ensures
        ({
            let m = MessageView::Signal {
                target,
                initiator,
                initiator_addr,
                data_addrs,
                firewall,
                is_reply,
            };
            read_signal(body_bytes(m) + rest) == Ok::<(MessageView, Seq<u8>), MsgError>((m, rest))
        }),
{
    let m = MessageView::Signal {
        target,
        initiator,
        initiator_addr,
        data_addrs,
        firewall,
        is_reply,
    };
    let reply = if is_reply {
        1u8
    } else {
        0u8
    };
    let tag = firewall_tag(firewall);
    let end = seq![tag, reply] + rest;
    let four = addrs_bytes(data_addrs) + end;
    let three = addr_bytes(initiator_addr) + four;
    let two = initiator@ + three;
    assert(body_bytes(m) + rest =~= target@ + two);
    lemma_id_roundtrip(target, two);
    lemma_id_roundtrip(initiator, three);
    lemma_addr_roundtrip(initiator_addr, four);
    lemma_addrs_roundtrip(data_addrs, end);
    assert(read_signal_end(end) == Ok::<((Firewall, bool), Seq<u8>), MsgError>(
        ((firewall, is_reply), rest),
    )) by {
        lemma_u8_roundtrip(tag, seq![reply] + rest);
        lemma_u8_roundtrip(reply, rest);
        assert(end =~= seq![tag] + (seq![reply] + rest));
    }
}

proof fn lemma_body_roundtrip(m: MessageView, rest: Seq<u8>)
    requires
        countable(m),
    ensures
        read_body(kind_of(m), body_bytes(m) + rest) == Ok::<(MessageView, Seq<u8>), MsgError>(
            (m, rest),
        ),
{
    match m {
        MessageView::Ping => {
            assert(body_bytes(m) + rest =~= rest);
        },
        MessageView::Pong { observed } => {
            lemma_addr_roundtrip(observed, rest);
        },
        MessageView::FindNode { target } => {
            lemma_id_roundtrip(target, rest);
        },
        MessageView::Nodes { contacts, peers } => {
            lemma_contacts_roundtrip(contacts, contacts_bytes(peers) + rest);
            lemma_contacts_roundtrip(peers, rest);
            assert(body_bytes(m) + rest =~= contacts_bytes(contacts) + (contacts_bytes(peers)
                + rest));
        },
        MessageView::Announce { topic } => {
            lemma_id_roundtrip(topic, rest);
        },
        MessageView::Signal { target, initiator, initiator_addr, data_addrs, firewall, is_reply } => {
            lemma_signal_roundtrip(
                target,
                initiator,
                initiator_addr,
                data_addrs,
                firewall,
                is_reply,
                rest,
            );
        },
        MessageView::Reflect => {
            assert(body_bytes(m) + rest =~= rest);
        },
        MessageView::Reflected { observed } => {
            lemma_addr_roundtrip(observed, rest);
        },
    }
}

proof fn lemma_packet_read(p: PacketView, rest: Seq<u8>)
    requires
        countable(p.msg),
    ensures
        read_packet(packet_bytes(p) + rest) == match read_end(rest) {
            Ok(_) => Ok::<PacketView, MsgError>(p),
            Err(e) => Err(MsgError::Wire(e)),
        },
{
    let three = body_bytes(p.msg) + rest;
    let two = seq![kind_of(p.msg)] + three;
    let one = varint(p.rid as nat) + two;
    assert(packet_bytes(p) + rest =~= p.sender@ + one);
    lemma_id_roundtrip(p.sender, one);
    lemma_uint_roundtrip(p.rid, two);
    lemma_u8_roundtrip(kind_of(p.msg), three);
    lemma_body_roundtrip(p.msg, rest);
}

/// Every packet is read back from its bytes as it was.
pub proof fn law_packet_roundtrip(p: PacketView)
    requires
        countable(p.msg),
    ensures
        read_packet(packet_bytes(p)) == Ok::<PacketView, MsgError>(p),
{
    lemma_packet_read(p, Seq::empty());
    assert(packet_bytes(p) + Seq::<u8>::empty() =~= packet_bytes(p));
}

/// A packet with anything behind it is refused.
pub proof fn law_trailing_bytes_are_refused(p: PacketView, more: Seq<u8>)
    requires
        countable(p.msg),
        more.len() > 0,
    ensures
        read_packet(packet_bytes(p) + more) == Err::<PacketView, MsgError>(
            MsgError::Wire(WireError::TrailingBytes(more.len() as usize)),
        ),
{
    lemma_packet_read(p, more);
}

fn encode_contacts(enc: &mut Encoder, contacts: &Vec<Contact>)
    ensures
        final(enc)@ == old(enc)@ + contacts_bytes(contacts@),
{
    enc.uint(contacts.len() as u64);
    let ghost head = enc@;
    let mut i: usize = 0;
    assert(head + contact_list(contacts@.take(0)) =~= head);
    while i < contacts.len()
        invariant
            i <= contacts.len(),
            enc@ == head + contact_list(contacts@.take(i as int)),
        decreases contacts.len() - i,
    {
        enc.raw(contacts[i].id.as_bytes());
        encode_addr(enc, &contacts[i].addr);
        assert(contacts@.take(i + 1).drop_last() =~= contacts@.take(i as int));
        assert(enc@ =~= head + contact_list(contacts@.take(i + 1)));
        i += 1;
    }
    assert(contacts@.take(i as int) =~= contacts@);
    assert(enc@ =~= old(enc)@ + contacts_bytes(contacts@));
}

/// Writes addresses behind their count.
pub fn encode_addrs(enc: &mut Encoder, addrs: &Vec<SocketAddr>)
    ensures
        final(enc)@ == old(enc)@ + addrs_bytes(addrs@),
{
    enc.uint(addrs.len() as u64);
    let ghost head = enc@;
    let mut i: usize = 0;
    assert(head + addr_list(addrs@.take(0)) =~= head);
    while i < addrs.len()
        invariant
            i <= addrs.len(),
            enc@ == head + addr_list(addrs@.take(i as int)),
        decreases addrs.len() - i,
    {
        encode_addr(enc, &addrs[i]);
        assert(addrs@.take(i + 1).drop_last() =~= addrs@.take(i as int));
        assert(enc@ =~= head + addr_list(addrs@.take(i + 1)));
        i += 1;
    }
    assert(addrs@.take(i as int) =~= addrs@);
    assert(enc@ =~= old(enc)@ + addrs_bytes(addrs@));
}

fn encode_addr(enc: &mut Encoder, addr: &SocketAddr)
    ensures
        final(enc)@ == old(enc)@ + addr_bytes(*addr),
{
    match &addr.ip {
        IpAddr::V4(o) => {
            enc.u8(ADDR_V4);
            enc.raw(o);
            enc.u16_le(addr.port);
        },
        IpAddr::V6(o) => {
            enc.u8(ADDR_V6);
            enc.raw(o);
            enc.u16_le(addr.port);
        },
    }
    assert(enc@ =~= old(enc)@ + addr_bytes(*addr));
}

fn decode_id(dec: &mut Decoder) -> (r: Result<NodeId, MsgError>)
    requires
        old(dec).wf(),
    ensures
        final(dec).wf(),
        match read_id(old(dec)@) {
            Ok((v, rest)) => r == Ok::<NodeId, MsgError>(v) && final(dec)@ == rest,
            Err(e) => r == Err::<NodeId, MsgError>(e),
        },
{
    match dec.array::<32>() {
        Ok(b) => Ok(NodeId::from_bytes(b)),
        Err(e) => Err(MsgError::Wire(e)),
    }
}

fn decode_addr(dec: &mut Decoder) -> (r: Result<SocketAddr, MsgError>)
    requires
        old(dec).wf(),
    ensures
        final(dec).wf(),
        match read_addr(old(dec)@) {
            Ok((v, rest)) => r == Ok::<SocketAddr, MsgError>(v) && final(dec)@ == rest,
            Err(e) => r == Err::<SocketAddr, MsgError>(e),
        },
{
    let tag: u8 = match dec.u8() {
        Ok(tag) => tag,
        Err(e) => {
            return Err(MsgError::Wire(e));
        },
    };
    let ip: IpAddr = if tag == ADDR_V4 {
        match dec.array::<4>() {
            Ok(o) => {
                proof {
                    lemma_array_of(o);
                }
                IpAddr::V4(o)
            },
            Err(e) => {
                return Err(MsgError::Wire(e));
            },
        }
    } else if tag == ADDR_V6 {
        match dec.array::<16>() {
            Ok(o) => {
                proof {
                    lemma_array_of(o);
                }
                IpAddr::V6(o)
            },
            Err(e) => {
                return Err(MsgError::Wire(e));
            },
        }
    } else {
        return Err(MsgError::Malformed("unknown address family"));
    };
    match dec.u16_le() {
        Ok(port) => Ok(SocketAddr { ip, port }),
        Err(e) => Err(MsgError::Wire(e)),
    }
}

proof fn lemma_addrs_stuck(s: Seq<u8>, i: nat, k: nat)
    requires
        i <= k,
        read_n_addrs(s, i) is Err,
    ensures
        read_n_addrs(s, k) == read_n_addrs(s, i),
    decreases k - i,
{
    if i < k {
        assert(read_n_addrs(s, i + 1) == read_n_addrs(s, i));
        lemma_addrs_stuck(s, i + 1, k);
    }
}

/// Reads addresses behind their count.
pub fn decode_addrs(dec: &mut Decoder) -> (r: Result<Vec<SocketAddr>, MsgError>)
    requires
        old(dec).wf(),
    ensures
        final(dec).wf(),
        match read_addrs(old(dec)@) {
            Ok((v, rest)) => r is Ok && r->Ok_0@ == v && final(dec)@ == rest,
            Err(e) => r == Err::<Vec<SocketAddr>, MsgError>(e),
        },
{
    let n: u64 = match dec.uint() {
        Ok(n) => n,
        Err(e) => {
            return Err(MsgError::Wire(e));
        },
    };
    let ghost start = dec@;
    if n > dec.remaining() as u64 / MIN_ADDR_BYTES {
        return Err(MsgError::Malformed("address count exceeds buffer"));
    }
    let mut out: Vec<SocketAddr> = Vec::new();
    let mut i: u64 = 0;
    #[verifier::loop_isolation(false)]
    while i < n
        invariant
            i <= n,
            dec.wf(),
            read_n_addrs(start, i as nat) == Ok::<(Seq<SocketAddr>, Seq<u8>), MsgError>(
                (out@, dec@),
            ),
        decreases n - i,
    {
        match decode_addr(dec) {
            Ok(a) => {
                out.push(a);
            },
            Err(e) => {
                proof {
                    assert(read_n_addrs(start, i as nat + 1) == Err::<
                        (Seq<SocketAddr>, Seq<u8>),
                        MsgError,
                    >(e));
                    lemma_addrs_stuck(start, i as nat + 1, n as nat);
                }
                return Err(e);
            },
        }
        i += 1;
    }
    Ok(out)
}

proof fn lemma_contacts_stuck(s: Seq<u8>, i: nat, k: nat)
    requires
        i <= k,
        read_n_contacts(s, i) is Err,
    ensures
        read_n_contacts(s, k) == read_n_contacts(s, i),
    decreases k - i,
{
    if i < k {
        assert(read_n_contacts(s, i + 1) == read_n_contacts(s, i));
        lemma_contacts_stuck(s, i + 1, k);
    }
}

fn decode_contact(dec: &mut Decoder) -> (r: Result<Contact, MsgError>)
    requires
        old(dec).wf(),
    ensures
        final(dec).wf(),
        match read_contact(old(dec)@) {
            Ok((v, rest)) => r == Ok::<Contact, MsgError>(v) && final(dec)@ == rest,
            Err(e) => r == Err::<Contact, MsgError>(e),
        },
{
    let id: NodeId = match decode_id(dec) {
        Ok(id) => id,
        Err(e) => {
            return Err(e);
        },
    };
    match decode_addr(dec) {
        Ok(addr) => Ok(Contact { id, addr }),
        Err(e) => Err(e),
    }
}

fn decode_contacts(dec: &mut Decoder) -> (r: Result<Vec<Contact>, MsgError>)
    requires
        old(dec).wf(),
    ensures
        final(dec).wf(),
        match read_contacts(old(dec)@) {
            Ok((v, rest)) => r is Ok && r->Ok_0@ == v && final(dec)@ == rest,
            Err(e) => r == Err::<Vec<Contact>, MsgError>(e),
        },
{
    let n: u64 = match dec.uint() {
        Ok(n) => n,
        Err(e) => {
            return Err(MsgError::Wire(e));
        },
    };
    let ghost start = dec@;
    if n > dec.remaining() as u64 / MIN_CONTACT_BYTES {
        return Err(MsgError::Malformed("contact count exceeds buffer"));
    }
    let mut out: Vec<Contact> = Vec::new();
    let mut i: u64 = 0;
    #[verifier::loop_isolation(false)]
    while i < n
        invariant
            i <= n,
            dec.wf(),
            read_n_contacts(start, i as nat) == Ok::<(Seq<Contact>, Seq<u8>), MsgError>(
                (out@, dec@),
            ),
        decreases n - i,
    {
        match decode_contact(dec) {
            Ok(c) => {
                out.push(c);
            },
            Err(e) => {
                proof {
                    assert(read_n_contacts(start, i as nat + 1) == Err::<
                        (Seq<Contact>, Seq<u8>),
                        MsgError,
                    >(e));
                    lemma_contacts_stuck(start, i as nat + 1, n as nat);
                }
                return Err(e);
            },
        }
        i += 1;
    }
    Ok(out)
}

fn decode_signal(dec: &mut Decoder) -> (r: Result<Message, MsgError>)
    requires
        old(dec).wf(),
    ensures
        final(dec).wf(),
        match read_signal(old(dec)@) {
            Ok((v, rest)) => r is Ok && r->Ok_0@ == v && final(dec)@ == rest,
            Err(e) => r == Err::<Message, MsgError>(e),
        },
{
    let target: NodeId = match decode_id(dec) {
        Ok(v) => v,
        Err(e) => {
            return Err(e);
        },
    };
    let initiator: NodeId = match decode_id(dec) {
        Ok(v) => v,
        Err(e) => {
            return Err(e);
        },
    };
    let initiator_addr: SocketAddr = match decode_addr(dec) {
        Ok(v) => v,
        Err(e) => {
            return Err(e);
        },
    };
    let data_addrs: Vec<SocketAddr> = match decode_addrs(dec) {
        Ok(v) => v,
        Err(e) => {
            return Err(e);
        },
    };
    let tag: u8 = match dec.u8() {
        Ok(v) => v,
        Err(e) => {
            return Err(MsgError::Wire(e));
        },
    };
    let firewall: Firewall = match Firewall::from_u8(tag) {
        Some(v) => v,
        None => {
            return Err(MsgError::Malformed("unknown firewall tag"));
        },
    };
    match dec.u8() {
        Ok(reply) => Ok(
            Message::Signal {
                target,
                initiator,
                initiator_addr,
                data_addrs,
                firewall,
                is_reply: reply != 0,
            },
        ),
        Err(e) => Err(MsgError::Wire(e)),
    }
}

fn decode_body(kind: u8, dec: &mut Decoder) -> (r: Result<Message, MsgError>)
    requires
        old(dec).wf(),
    ensures
        final(dec).wf(),
        match read_body(kind, old(dec)@) {
            Ok((v, rest)) => r is Ok && r->Ok_0@ == v && final(dec)@ == rest,
            Err(e) => r == Err::<Message, MsgError>(e),
        },
{
    if kind == KIND_PING {
        Ok(Message::Ping)
    } else if kind == KIND_PONG {
        match decode_addr(dec) {
            Ok(observed) => Ok(Message::Pong { observed }),
            Err(e) => Err(e),
        }
    } else if kind == KIND_FIND_NODE {
        match decode_id(dec) {
            Ok(target) => Ok(Message::FindNode { target }),
            Err(e) => Err(e),
        }
    } else if kind == KIND_NODES {
        let contacts: Vec<Contact> = match decode_contacts(dec) {
            Ok(v) => v,
            Err(e) => {
                return Err(e);
            },
        };
        match decode_contacts(dec) {
            Ok(peers) => Ok(Message::Nodes { contacts, peers }),
            Err(e) => Err(e),
        }
    } else if kind == KIND_ANNOUNCE {
        match decode_id(dec) {
            Ok(topic) => Ok(Message::Announce { topic }),
            Err(e) => Err(e),
        }
    } else if kind == KIND_SIGNAL {
        decode_signal(dec)
    } else if kind == KIND_REFLECT {
        Ok(Message::Reflect)
    } else if kind == KIND_REFLECTED {
        match decode_addr(dec) {
            Ok(observed) => Ok(Message::Reflected { observed }),
            Err(e) => Err(e),
        }
    } else {
        Err(MsgError::Malformed("unknown message kind"))
    }
}

impl Packet {
    /// Encode the packet to bytes.
    pub fn encode(&self) -> (r: Vec<u8>)
        ensures
            r@ == packet_bytes(self@),
    {
        let mut enc = Encoder::new();
        enc.raw(self.sender.as_bytes());
        enc.uint(self.rid);
        let ghost head = enc@;
        match &self.msg {
            Message::Ping => {
                enc.u8(KIND_PING);
            },
            Message::Pong { observed } => {
                enc.u8(KIND_PONG);
                encode_addr(&mut enc, observed);
            },
            Message::FindNode { target } => {
                enc.u8(KIND_FIND_NODE);
                enc.raw(target.as_bytes());
            },
            Message::Nodes { contacts, peers } => {
                enc.u8(KIND_NODES);
                encode_contacts(&mut enc, contacts);
                encode_contacts(&mut enc, peers);
            },
            Message::Announce { topic } => {
                enc.u8(KIND_ANNOUNCE);
                enc.raw(topic.as_bytes());
            },
            Message::Signal { target, initiator, initiator_addr, data_addrs, firewall, is_reply } => {
                enc.u8(KIND_SIGNAL);
                enc.raw(target.as_bytes());
                enc.raw(initiator.as_bytes());
                encode_addr(&mut enc, initiator_addr);
                encode_addrs(&mut enc, data_addrs);
                enc.u8(firewall.as_u8());
                enc.u8(
                    if *is_reply {
                        1
                    } else {
                        0
                    },
                );
            },
            Message::Reflect => {
                enc.u8(KIND_REFLECT);
            },
            Message::Reflected { observed } => {
                enc.u8(KIND_REFLECTED);
                encode_addr(&mut enc, observed);
            },
        }
        assert(enc@ =~= head + (seq![kind_of(self.msg@)] + body_bytes(self.msg@)));
        assert(enc@ =~= packet_bytes(self@));
        enc.into_vec()
    }

    /// Decode a packet from bytes.
    pub fn decode(buf: &[u8]) -> (r: Result<Packet, MsgError>)
        ensures
            match read_packet(buf@) {
                Ok(p) => r is Ok && r->Ok_0@ == p,
                Err(e) => r == Err::<Packet, MsgError>(e),
            },
    {
        let mut dec = Decoder::new(buf);
        let sender: NodeId = match decode_id(&mut dec) {
            Ok(v) => v,
            Err(e) => {
                return Err(e);
            },
        };
        let rid: u64 = match dec.uint() {
            Ok(v) => v,
            Err(e) => {
                return Err(MsgError::Wire(e));
            },
        };
        let kind: u8 = match dec.u8() {
            Ok(v) => v,
            Err(e) => {
                return Err(MsgError::Wire(e));
            },
        };
        let msg: Message = match decode_body(kind, &mut dec) {
            Ok(v) => v,
            Err(e) => {
                return Err(e);
            },
        };
        match dec.finish() {
            Ok(_) => Ok(Packet { sender, rid, msg }),
            Err(e) => Err(MsgError::Wire(e)),
        }
    }
}

} // verus!
