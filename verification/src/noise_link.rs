//! An encrypted, identity-bound session over a datagram link, without the link.
//!
//! A Noise `XX` handshake gives an authenticated, forward-secret channel. It
//! authenticates a per-connection key, which says nothing about a node id on its
//! own; so each side sends a [`NodeCert`] in its handshake payload: its identity
//! key, the per-connection key it is using, and a signature binding the two. Both
//! sides check that the signed key is the one the handshake authenticated, and
//! the dialer also pins the result to the node id it dialed.
//!
//! The channel is lossy and unordered, so every transport datagram carries an
//! explicit nonce and is decrypted on its own. A replay window discards a nonce
//! already accepted, and forged or malformed datagrams count as lost.
//!
//! The handshake is made reliable by retransmission. The responder answers the
//! last handshake message with an authenticated acknowledgment, and keeps the
//! pair so that a repetition of that message recovers a lost acknowledgment.
use crate::bytes::{array_of, copy_of, lemma_array_of, part, same_bytes, to_array};
use crate::crypto::{
    blake3_digest, ed25519_is_key, ed25519_public, ed25519_signature, ed25519_valid, hash,
    is_public_key, signature_is_valid, Keypair,
};
use crate::id::{id_of, NodeId};
use crate::noise::{recorded, refused, ReplayView, ReplayWindow};
use crate::wire::{le_bytes, le_value, lemma_le_roundtrip, u64_from_le, u64_to_le, Encoder};
use vstd::prelude::*;

verus! {

/// The handshake pattern and cryptosystem.
pub const PARAMS: &'static str = "Noise_XX_25519_ChaChaPoly_BLAKE2s";

/// Mixed into the handshake: `warren/noise/v1`.
pub const PROLOGUE: [u8; 15] = [
    119, 97, 114, 114, 101, 110, 47, 110, 111, 105, 115, 101, 47, 118, 49,
];

/// Mixed into what a certificate signs: `warren/noise/node-cert/v1`.
pub const CERT_DOMAIN: [u8; 25] = [
    119, 97, 114, 114, 101, 110, 47, 110, 111, 105, 115, 101, 47, 110, 111, 100, 101, 45, 99, 101, 114, 116, 47, 118, 49,
];

/// What the responder acknowledges the handshake with: `warren-noise-ack-v1`.
pub const ACK: [u8; 19] = [
    119, 97, 114, 114, 101, 110, 45, 110, 111, 105, 115, 101, 45, 97, 99, 107, 45, 118, 49,
];

/// Length of a certificate, in bytes.
pub const CERT_LEN: usize = 128;

/// The tag of the first handshake message.
pub const TAG_MSG1: u8 = 1;

/// The tag of the second handshake message.
pub const TAG_MSG2: u8 = 2;

/// The tag of the third handshake message.
pub const TAG_MSG3: u8 = 3;

/// The tag of a transport datagram.
pub const TAG_TRANSPORT: u8 = 4;

/// Bytes of explicit nonce in a transport datagram.
pub const NONCE_LEN: usize = 8;

/// Bytes of authentication tag in a transport datagram.
pub const TAG_LEN: usize = 16;

/// Bytes of a transport datagram that are not payload.
pub const TRANSPORT_OVERHEAD: usize = 25;

/// How long to wait before sending a handshake message again, in milliseconds.
pub const HS_TIMEOUT_MS: u64 = 500;

/// How often a handshake message is sent before giving up.
pub const HS_RETRIES: usize = 10;

/// The longest message Noise has.
pub const MAX_NOISE_MESSAGE: usize = 65_535;

/// Room for a handshake message.
pub const HS_MESSAGE_ROOM: usize = 2048;

/// Room for the payload of a handshake message.
pub const HS_PAYLOAD_ROOM: usize = 256;

/// Why a session could not be set up or used.
#[derive(Debug, Clone, Copy, PartialEq, Eq)]
pub enum NoiseError {
    /// Something was malformed, or used up.
    InvalidData(&'static str),
    /// The peer is not who it should be.
    PermissionDenied(&'static str),
    /// The peer did not answer.
    TimedOut(&'static str),
    /// A payload is too large for the link.
    InvalidInput(&'static str),
    /// The cryptography rejected a message.
    Noise,
}

/// `snow::HandshakeState`, the state of a Noise handshake.
#[verifier::external_type_specification]
#[verifier::external_body]
pub struct ExHandshakeState(snow::HandshakeState);

/// `snow::StatelessTransportState`, the two ciphers a handshake ends in.
#[verifier::external_type_specification]
#[verifier::external_body]
pub struct ExStatelessTransportState(snow::StatelessTransportState);

/// `snow::Error`, why `snow` refused to go on.
#[verifier::external_type_specification]
#[verifier::external_body]
pub struct ExError(snow::Error);

/// The public key of a Noise private key.
pub uninterp spec fn noise_public(private: Seq<u8>) -> Seq<u8>;

/// The state of a handshake that an initiator begins with these parameters, this
/// private key and this prologue.
pub uninterp spec fn noise_initiator(
    params: Seq<char>,
    private: Seq<u8>,
    prologue: Seq<u8>,
) -> Seq<u8>;

/// The state of a handshake that a responder begins with these parameters, this
/// private key and this prologue.
pub uninterp spec fn noise_responder(
    params: Seq<char>,
    private: Seq<u8>,
    prologue: Seq<u8>,
) -> Seq<u8>;

/// The message that a handshake in a state writes a payload as, with an ephemeral
/// key drawn or, where none is, nothing; and the state after it.
pub uninterp spec fn noise_write(state: Seq<u8>, payload: Seq<u8>, drawn: Seq<u8>) -> (
    Seq<u8>,
    Seq<u8>,
);

/// What a handshake in a state makes of a message, if it accepts it and the payload
/// fits the room: the payload, the state after it, and the peer's key that has then
/// been authenticated.
pub uninterp spec fn noise_read(state: Seq<u8>, message: Seq<u8>, room: usize) -> Option<
    (Seq<u8>, Seq<u8>, Option<Seq<u8>>),
>;

/// The keys that a handshake which has ended in a state gives: the one to send
/// with, and the one to receive with.
pub uninterp spec fn noise_keys(state: Seq<u8>) -> (Seq<u8>, Seq<u8>);

/// A payload sealed with a key under a nonce.
pub uninterp spec fn noise_seal(key: Seq<u8>, nonce: u64, payload: Seq<u8>) -> Seq<u8>;

/// What a message sealed under a nonce opens as with a key, if it does.
pub uninterp spec fn noise_open(key: Seq<u8>, nonce: u64, message: Seq<u8>) -> Option<Seq<u8>>;

/// What a handshake was set up with, and what it has found.
#[verifier::ext_equal]
pub struct HandshakeRecord {
    /// The side.
    pub role: Role,
    /// The pattern and cryptosystem.
    pub params: Seq<char>,
    /// Our own private key.
    pub private: Seq<u8>,
    /// What both sides mix in.
    pub prologue: Seq<u8>,
    /// How many messages have been written and read.
    pub passed: nat,
    /// The state, as bytes.
    pub state: Seq<u8>,
    /// The ephemeral key drawn for the last message written, if one was.
    pub drawn: Seq<u8>,
    /// The peer's key that has been authenticated, once there is one.
    pub remote: Option<Seq<u8>>,
}

/// Whether it is a handshake's turn to write: an initiator writes the first and the
/// third message, a responder the second.
pub open spec fn is_to_write(record: HandshakeRecord) -> bool {
    match record.role {
        Role::Initiator => record.passed == 0 || record.passed == 2,
        Role::Responder => record.passed == 1,
    }
}

/// Whether it is a handshake's turn to read.
pub open spec fn is_to_read(record: HandshakeRecord) -> bool {
    match record.role {
        Role::Initiator => record.passed == 1,
        Role::Responder => record.passed == 0 || record.passed == 2,
    }
}

/// How many bytes a message takes beside its payload: an ephemeral key, then both
/// keys of which the second is sealed, then a sealed key; the payload of all but the
/// first is sealed.
pub open spec fn message_overhead(passed: nat) -> nat {
    if passed == 0 {
        32
    } else if passed == 1 {
        96
    } else {
        64
    }
}

/// How much room is asked for to write a message: that of the message, and of a tag
/// even where there is none.
pub open spec fn room_asked(passed: nat, len: nat) -> nat {
    if passed == 0 {
        len + 48
    } else {
        len + message_overhead(passed)
    }
}

/// How many bytes are drawn for a message: an ephemeral key for the first two.
pub open spec fn bytes_drawn(passed: nat) -> nat {
    if passed < 2 {
        32
    } else {
        0
    }
}

/// Whether two records are of one handshake.
pub open spec fn same_setup(a: HandshakeRecord, b: HandshakeRecord) -> bool {
    &&& a.role == b.role
    &&& a.params == b.params
    &&& a.private == b.private
    &&& a.prologue == b.prologue
}

/// A Noise handshake, with the record of what it was set up with.
struct Handshake {
    state: snow::HandshakeState,
    record: Ghost<HandshakeRecord>,
}

/// The keys of a session.
#[verifier::ext_equal]
pub struct Secrets {
    /// The pattern and cryptosystem they come from.
    pub params: Seq<char>,
    /// The key that what is sent is sealed with.
    pub sending: Seq<u8>,
    /// The key that what arrives is opened with.
    pub receiving: Seq<u8>,
}

/// The keys of a session, from those a handshake gives.
pub open spec fn secrets_of(params: Seq<char>, keys: (Seq<u8>, Seq<u8>)) -> Secrets {
    Secrets { params, sending: keys.0, receiving: keys.1 }
}

/// The two ciphers a handshake ends in, with their keys.
struct Transport {
    state: snow::StatelessTransportState,
    secrets: Ghost<Secrets>,
}

/// Calls `snow::Builder::generate_keypair`: a fresh key pair, the private key
/// first. The private key is random; the public one is a function of it, named
/// [`noise_public`]. Each has 32 bytes with the one set of parameters used.
#[verifier::external_body]
fn generate_keypair(params: &str) -> (r: Result<(Vec<u8>, Vec<u8>), snow::Error>)
    requires
        params@ == PARAMS@,
    ensures
        r matches Ok(pair) ==> pair.0@.len() == 32 && pair.1@.len() == 32 && pair.1@
            == noise_public(pair.0@),
{
    let pair = snow::Builder::new(params.parse()?).generate_keypair()?;
    Ok((pair.private, pair.public))
}

/// Calls `snow::Builder::build_initiator` with a private key and a prologue. With the
/// one set of parameters used it succeeds. The record keeps what was handed to
/// `snow`; the state is a function of that, named [`noise_initiator`]. A key of another
/// length than 32 makes `snow` panic.
#[verifier::external_body]
fn build_initiator(params: &str, private: &[u8], prologue: &[u8]) -> (r: Result<
    Handshake,
    snow::Error,
>)
    requires
        params@ == PARAMS@,
        private@.len() == 32,
    ensures
        r is Ok,
        r matches Ok(hs) ==> hs.record@ == (HandshakeRecord {
            role: Role::Initiator,
            params: params@,
            private: private@,
            prologue: prologue@,
            passed: 0,
            state: noise_initiator(params@, private@, prologue@),
            drawn: Seq::empty(),
            remote: None,
        }),
{
    let builder = snow::Builder::new(params.parse()?);
    let builder = builder.local_private_key(private)?.prologue(prologue)?;
    Ok(Handshake { state: builder.build_initiator()?, record: Ghost(arbitrary()) })
}

/// Calls `snow::Builder::build_responder` with a private key and a prologue. With the
/// one set of parameters used it succeeds. The record keeps what was handed to
/// `snow`; the state is a function of that, named [`noise_responder`]. A key of another
/// length than 32 makes `snow` panic.
#[verifier::external_body]
fn build_responder(params: &str, private: &[u8], prologue: &[u8]) -> (r: Result<
    Handshake,
    snow::Error,
>)
    requires
        params@ == PARAMS@,
        private@.len() == 32,
    ensures
        r is Ok,
        r matches Ok(hs) ==> hs.record@ == (HandshakeRecord {
            role: Role::Responder,
            params: params@,
            private: private@,
            prologue: prologue@,
            passed: 0,
            state: noise_responder(params@, private@, prologue@),
            drawn: Seq::empty(),
            remote: None,
        }),
{
    let builder = snow::Builder::new(params.parse()?);
    let builder = builder.local_private_key(private)?.prologue(prologue)?;
    Ok(Handshake { state: builder.build_responder()?, record: Ghost(arbitrary()) })
}

/// Calls `snow::HandshakeState::write_message` into a buffer of `room` bytes. The
/// message and the state after it are a function, named [`noise_write`], of the state
/// before, the payload, and the ephemeral key drawn for it; the first two messages
/// have one, which the machine's generator gives or fails to give. With the one set
/// of parameters used, in turn, nothing else can fail but that the message needs more
/// room. A buffer without room for two keys makes `snow` panic; one longer than any
/// message is of no use.
#[verifier::external_body]
fn handshake_write(hs: &mut Handshake, payload: &[u8], room: usize) -> (r: Result<
    Vec<u8>,
    snow::Error,
>)
    requires
        old(hs).record@.params == PARAMS@,
        is_to_write(old(hs).record@),
        96 <= room <= MAX_NOISE_MESSAGE,
    ensures
        same_setup(final(hs).record@, old(hs).record@),
        (r is Ok) == (final(hs).record@.drawn.len() == bytes_drawn(old(hs).record@.passed)
            && room_asked(old(hs).record@.passed, payload@.len()) <= room),
        old(hs).record@.passed == 2 ==> final(hs).record@.drawn.len() == 0,
        r matches Ok(m) ==> {
            &&& m@.len() == payload@.len() + message_overhead(old(hs).record@.passed)
            &&& (m@, final(hs).record@.state) == noise_write(
                old(hs).record@.state,
                payload@,
                final(hs).record@.drawn,
            )
            &&& final(hs).record@.passed == old(hs).record@.passed + 1
            &&& final(hs).record@.remote == old(hs).record@.remote
        },
{
    let mut message = vec![0u8; room];
    let n = hs.state.write_message(payload, &mut message)?;
    message.truncate(n);
    Ok(message)
}

/// Calls `snow::HandshakeState::read_message` into a buffer of `room` bytes. Whether
/// it accepts the message, and the payload, the state and the peer's authenticated
/// key that come of it, are a function of the state, the message and the room, named
/// [`noise_read`]. Of a state that refused a message nothing is said.
#[verifier::external_body]
fn handshake_read(hs: &mut Handshake, message: &[u8], room: usize) -> (r: Result<
    Vec<u8>,
    snow::Error,
>)
    requires
        old(hs).record@.params == PARAMS@,
        is_to_read(old(hs).record@),
        room <= MAX_NOISE_MESSAGE,
    ensures
        same_setup(final(hs).record@, old(hs).record@),
        (r is Ok) == (noise_read(old(hs).record@.state, message@, room) is Some),
        r matches Ok(p) ==> {
            &&& noise_read(old(hs).record@.state, message@, room) == Some(
                (p@, final(hs).record@.state, final(hs).record@.remote),
            )
            &&& p@.len() <= room
            &&& p@.len() <= message@.len() <= MAX_NOISE_MESSAGE
            &&& final(hs).record@.passed == old(hs).record@.passed + 1
        },
{
    let mut payload = vec![0u8; room];
    let n = hs.state.read_message(message, &mut payload)?;
    payload.truncate(n);
    Ok(payload)
}

/// Calls `snow::HandshakeState::get_remote_static`: the peer's key that the
/// handshake authenticated, if there is one yet, which is what the record calls
/// the remote key.
#[verifier::external_body]
fn handshake_remote_static(hs: &Handshake) -> (r: Option<Vec<u8>>)
    ensures
        maybe_bytes(r) == hs.record@.remote,
{
    hs.state.get_remote_static().map(<[u8]>::to_vec)
}

/// Calls `snow::HandshakeState::into_stateless_transport_mode`, which succeeds once
/// all three messages have passed. The keys are a function of the state, named
/// [`noise_keys`]. That both sides' keys match is not said.
#[verifier::external_body]
fn into_transport(hs: Handshake) -> (r: Result<Transport, snow::Error>)
    requires
        hs.record@.params == PARAMS@,
        hs.record@.passed == 3,
    ensures
        r is Ok,
        r matches Ok(t) ==> t.secrets@ == secrets_of(hs.record@.params, noise_keys(hs.record@.state)),
{
    let state = hs.state.into_stateless_transport_mode()?;
    Ok(Transport { state, secrets: Ghost(arbitrary()) })
}

/// Calls `snow::StatelessTransportState::write_message` into a buffer of `room`
/// bytes. With the parameters used, where both sides may write, it succeeds
/// exactly if the nonce is not the last one and the payload and a tag fit. What it
/// gives is [`noise_seal`] of the sending key, which the same key opens again.
#[verifier::external_body]
fn transport_write(noise: &Transport, nonce: u64, payload: &[u8], room: usize) -> (r: Result<
    Vec<u8>,
    snow::Error,
>)
    requires
        noise.secrets@.params == PARAMS@,
        room <= MAX_NOISE_MESSAGE,
    ensures
        (r is Ok) == (nonce != u64::MAX && payload@.len() + TAG_LEN <= room),
        r matches Ok(c) ==> {
            &&& c@ == noise_seal(noise.secrets@.sending, nonce, payload@)
            &&& c@.len() == payload@.len() + TAG_LEN
            &&& noise_open(noise.secrets@.sending, nonce, c@) == Some(payload@)
        },
{
    let mut message = vec![0u8; room];
    let n = noise.state.write_message(nonce, payload, &mut message)?;
    message.truncate(n);
    Ok(message)
}

/// Calls `snow::StatelessTransportState::read_message` into a buffer of `room`
/// bytes. With the parameters used, where both sides may read, it succeeds exactly
/// if the nonce is not the last one, the message holds a tag and is not too long,
/// the rest of it fits, and it opens with the receiving key, as [`noise_open`]
/// says; what it gives is what it opens as.
#[verifier::external_body]
fn transport_read(noise: &Transport, nonce: u64, message: &[u8], room: usize) -> (r: Result<
    Vec<u8>,
    snow::Error,
>)
    requires
        noise.secrets@.params == PARAMS@,
        room <= MAX_NOISE_MESSAGE,
    ensures
        (r is Ok) == (nonce != u64::MAX && TAG_LEN <= message@.len() <= MAX_NOISE_MESSAGE
            && message@.len() <= room + TAG_LEN && noise_open(
            noise.secrets@.receiving,
            nonce,
            message@,
        ) is Some),
        r matches Ok(p) ==> noise_open(noise.secrets@.receiving, nonce, message@) == Some(p@)
            && p@.len() + TAG_LEN == message@.len(),
{
    let mut payload = vec![0u8; room];
    let n = noise.state.read_message(nonce, message, &mut payload)?;
    payload.truncate(n);
    Ok(payload)
}

/// The side of a handshake.
#[derive(Debug, Clone, Copy, PartialEq, Eq, Structural)]
pub enum Role {
    /// The dialer.
    Initiator,
    /// The listener.
    Responder,
}

/// The number a role is signed as.
pub open spec fn role_number(role: Role) -> u8 {
    match role {
        Role::Initiator => 1,
        Role::Responder => 2,
    }
}

/// What a certificate signs: the role and the per-connection key.
pub open spec fn cert_message_of(role: Role, key: Seq<u8>) -> Seq<u8> {
    CERT_DOMAIN@ + seq![role_number(role)] + key
}

fn cert_message(role: Role, key: &[u8; 32]) -> (r: Vec<u8>)
    ensures
        r@ == cert_message_of(role, key@),
{
    let mut enc = Encoder::new();
    enc.raw(&CERT_DOMAIN);
    enc.u8(
        match role {
            Role::Initiator => 1,
            Role::Responder => 2,
        },
    );
    enc.raw(key);
    let r = enc.into_vec();
    assert(r@ =~= cert_message_of(role, key@));
    r
}

/// A peer's identity proof: its identity key, the per-connection key it is
/// using, and a signature binding the two.
#[derive(Debug, Clone, Copy)]
pub struct NodeCert {
    /// The identity key.
    pub ed_pub: [u8; 32],
    /// The per-connection key.
    pub noise_static_pub: [u8; 32],
    /// The signature.
    pub sig: [u8; 64],
}

/// A certificate as it is sent.
pub open spec fn cert_bytes(c: NodeCert) -> Seq<u8> {
    c.ed_pub@ + c.noise_static_pub@ + c.sig@
}

/// A certificate read.
pub open spec fn read_cert(s: Seq<u8>) -> Result<NodeCert, NoiseError> {
    if s.len() != CERT_LEN {
        Err(NoiseError::InvalidData("node cert has the wrong length"))
    } else {
        Ok(
            NodeCert {
                ed_pub: array_of::<32>(s.subrange(0, 32)),
                noise_static_pub: array_of::<32>(s.subrange(32, 64)),
                sig: array_of::<64>(s.subrange(64, 128)),
            },
        )
    }
}

/// What is found of a certificate, given whether its identity key is one and
/// whether that key signed it.
pub open spec fn cert_judged(
    c: NodeCert,
    remote_static: Seq<u8>,
    is_key: bool,
    is_signed: bool,
) -> Result<(), NoiseError> {
    if c.noise_static_pub@ != remote_static {
        Err(
            NoiseError::PermissionDenied(
                "node cert static key does not match the Noise-authenticated key",
            ),
        )
    } else if !is_key {
        Err(NoiseError::PermissionDenied("node cert has an invalid Ed25519 public key"))
    } else if !is_signed {
        Err(NoiseError::PermissionDenied("node cert signature verification failed"))
    } else {
        Ok(())
    }
}

/// What is found of a certificate.
pub open spec fn cert_verdict(c: NodeCert, remote_static: Seq<u8>, role: Role) -> Result<
    (),
    NoiseError,
> {
    cert_judged(
        c,
        remote_static,
        ed25519_is_key(c.ed_pub@),
        ed25519_valid(c.ed_pub@, cert_message_of(role, c.noise_static_pub@), c.sig@),
    )
}

impl NodeCert {
    /// Sign the per-connection key with the long-term identity.
    pub fn create(identity: &Keypair, noise_static_pub: &[u8], role: Role) -> (r: Result<
        NodeCert,
        NoiseError,
    >)
        ensures
            noise_static_pub@.len() != 32 ==> r == Err::<NodeCert, NoiseError>(
                NoiseError::InvalidData("noise static key is not 32 bytes"),
            ),
            noise_static_pub@.len() == 32 ==> r is Ok && r->Ok_0.ed_pub@ == ed25519_public(
                identity.secret(),
            ) && r->Ok_0.noise_static_pub@ == noise_static_pub@ && r->Ok_0.sig@
                == ed25519_signature(
                identity.secret(),
                cert_message_of(role, noise_static_pub@),
            ) && cert_verdict(r->Ok_0, noise_static_pub@, role) is Ok,
    {
        if noise_static_pub.len() != 32 {
            return Err(NoiseError::InvalidData("noise static key is not 32 bytes"));
        }
        let key: [u8; 32] = to_array(noise_static_pub);
        let message: Vec<u8> = cert_message(role, &key);
        let sig: [u8; 64] = identity.sign(message.as_slice());
        Ok(NodeCert { ed_pub: identity.public(), noise_static_pub: key, sig })
    }

    /// The certificate as it is sent.
    pub fn encode(&self) -> (r: Vec<u8>)
        ensures
            r@ == cert_bytes(*self),
    {
        let mut enc = Encoder::new();
        enc.raw(&self.ed_pub);
        enc.raw(&self.noise_static_pub);
        enc.raw(&self.sig);
        let r = enc.into_vec();
        assert(r@ =~= cert_bytes(*self));
        r
    }

    /// The certificate sent as `bytes`.
    pub fn decode(bytes: &[u8]) -> (r: Result<NodeCert, NoiseError>)
        ensures
            r == read_cert(bytes@),
    {
        if bytes.len() != CERT_LEN {
            return Err(NoiseError::InvalidData("node cert has the wrong length"));
        }
        let ed_pub: [u8; 32] = to_array(part(bytes, 0, 32));
        let noise_static_pub: [u8; 32] = to_array(part(bytes, 32, 64));
        let sig: [u8; 64] = to_array(part(bytes, 64, 128));
        proof {
            lemma_array_of(ed_pub);
            lemma_array_of(noise_static_pub);
            lemma_array_of(sig);
        }
        Ok(NodeCert { ed_pub, noise_static_pub, sig })
    }

    /// Verify the certificate against the key the handshake authenticated: the
    /// signed key must equal it, and the signature must verify under the claimed
    /// identity.
    pub fn verify(&self, remote_static: &[u8], role: Role) -> (r: Result<(), NoiseError>)
        ensures
            r == cert_verdict(*self, remote_static@, role),
    {
        let is_key: bool = is_public_key(&self.ed_pub);
        let message: Vec<u8> = cert_message(role, &self.noise_static_pub);
        let is_signed: bool = signature_is_valid(&self.ed_pub, message.as_slice(), &self.sig);
        self.judge(remote_static, is_key, is_signed)
    }

    /// Verify the certificate, given whether its identity key is one and whether
    /// that key signed it.
    pub fn judge(&self, remote_static: &[u8], is_key: bool, is_signed: bool) -> (r: Result<
        (),
        NoiseError,
    >)
        ensures
            r == cert_judged(*self, remote_static@, is_key, is_signed),
    {
        if !same_bytes(&self.noise_static_pub, remote_static) {
            return Err(
                NoiseError::PermissionDenied(
                    "node cert static key does not match the Noise-authenticated key",
                ),
            );
        }
        if !is_key {
            return Err(
                NoiseError::PermissionDenied("node cert has an invalid Ed25519 public key"),
            );
        }
        if !is_signed {
            return Err(NoiseError::PermissionDenied("node cert signature verification failed"));
        }
        Ok(())
    }

    /// The node id the certificate stands for: the hash of the identity key.
    pub fn node_id(&self) -> (r: NodeId)
        ensures
            r == id_of(blake3_digest(self.ed_pub@)),
    {
        NodeId::from_bytes(hash(&self.ed_pub))
    }
}

/// Whether a certificate proves an identity in a role, for the per-connection key
/// it names.
pub open spec fn is_certificate(c: NodeCert, identity: Keypair, role: Role) -> bool {
    &&& c.ed_pub@ == ed25519_public(identity.secret())
    &&& cert_verdict(c, c.noise_static_pub@, role) is Ok
}

/// Whether a handshake was set up as it should be in a role.
pub open spec fn is_set_up(record: HandshakeRecord, role: Role) -> bool {
    &&& record.role == role
    &&& record.params == PARAMS@
    &&& record.private.len() == 32
    &&& record.prologue == PROLOGUE@
}

/// A certificate is read back from its bytes.
pub proof fn law_cert_roundtrip(c: NodeCert)
    ensures
        read_cert(cert_bytes(c)) == Ok::<NodeCert, NoiseError>(c),
{
    let s = cert_bytes(c);
    assert(s.subrange(0, 32) =~= c.ed_pub@);
    assert(s.subrange(32, 64) =~= c.noise_static_pub@);
    assert(s.subrange(64, 128) =~= c.sig@);
    lemma_array_of(c.ed_pub);
    lemma_array_of(c.noise_static_pub);
    lemma_array_of(c.sig);
}

/// A certificate made for one role and key is no certificate for another key.
pub proof fn law_cert_is_bound_to_its_key(c: NodeCert, remote_static: Seq<u8>, role: Role)
    requires
        cert_verdict(c, remote_static, role) is Ok,
    ensures
        c.noise_static_pub@ == remote_static,
        ed25519_valid(c.ed_pub@, cert_message_of(role, remote_static), c.sig@),
{
}

/// What is found of the peer that was reached, given its certificate's verdict
/// and the id it stands for: it must be the one that was dialed.
pub open spec fn pinned(verdict: Result<(), NoiseError>, id: NodeId, target: NodeId) -> Result<
    (),
    NoiseError,
> {
    match verdict {
        Err(e) => Err(e),
        Ok(_) => if id == target {
            Ok(())
        } else {
            Err(
                NoiseError::PermissionDenied(
                    "Noise handshake: reached peer's identity does not match the dialed node id",
                ),
            )
        },
    }
}

/// What is found of the peer that was reached: it must be the one dialed.
pub fn pin(verdict: Result<(), NoiseError>, id: NodeId, target: NodeId) -> (r: Result<
    (),
    NoiseError,
>)
    ensures
        r == pinned(verdict, id, target),
{
    match verdict {
        Err(e) => Err(e),
        Ok(_) => if id == target {
            Ok(())
        } else {
            Err(
                NoiseError::PermissionDenied(
                    "Noise handshake: reached peer's identity does not match the dialed node id",
                ),
            )
        },
    }
}

/// What is found of the peer of a handshake in a role, given the payload of its
/// message and the key that the handshake authenticated: its certificate, if it
/// proves who the peer is.
pub open spec fn peer_verdict(payload: Seq<u8>, remote: Option<Seq<u8>>, role: Role) -> Result<
    NodeCert,
    NoiseError,
> {
    match read_cert(payload) {
        Err(e) => Err(e),
        Ok(cert) => match remote {
            None => Err(
                NoiseError::InvalidData("Noise handshake does not expose a remote static key"),
            ),
            Some(key) => if key.len() != 32 {
                Err(NoiseError::InvalidData("Noise remote static key is not 32 bytes"))
            } else {
                match cert_verdict(cert, key, role) {
                    Err(e) => Err(e),
                    Ok(_) => Ok(cert),
                }
            },
        },
    }
}

/// What is found of the responder that was reached: it must also be the one
/// dialed.
pub open spec fn responder_verdict(
    payload: Seq<u8>,
    remote: Option<Seq<u8>>,
    target: NodeId,
) -> Result<(), NoiseError> {
    match peer_verdict(payload, remote, Role::Responder) {
        Err(e) => Err(e),
        Ok(cert) => pinned(Ok(()), id_of(blake3_digest(cert.ed_pub@)), target),
    }
}

/// The bytes there are, if any.
pub open spec fn maybe_bytes(bytes: Option<Vec<u8>>) -> Option<Seq<u8>> {
    match bytes {
        Some(b) => Some(b@),
        None => None,
    }
}

/// The certificate of the peer of a handshake, if it proves who the peer is.
pub fn check_peer(payload: &[u8], remote: &Option<Vec<u8>>, role: Role) -> (r: Result<
    NodeCert,
    NoiseError,
>)
    ensures
        r == peer_verdict(payload@, maybe_bytes(*remote), role),
{
    let cert: NodeCert = match NodeCert::decode(payload) {
        Ok(cert) => cert,
        Err(e) => {
            return Err(e);
        },
    };
    match remote {
        None => Err(NoiseError::InvalidData("Noise handshake does not expose a remote static key")),
        Some(key) => {
            if key.len() != 32 {
                return Err(NoiseError::InvalidData("Noise remote static key is not 32 bytes"));
            }
            match cert.verify(key.as_slice(), role) {
                Ok(_) => Ok(cert),
                Err(e) => Err(e),
            }
        },
    }
}

/// Check that the responder that was reached is the one dialed.
pub fn check_responder(payload: &[u8], remote: &Option<Vec<u8>>, target: NodeId) -> (r: Result<
    (),
    NoiseError,
>)
    ensures
        r == responder_verdict(payload@, maybe_bytes(*remote), target),
{
    match check_peer(payload, remote, Role::Responder) {
        Ok(cert) => pin(Ok(()), cert.node_id(), target),
        Err(e) => Err(e),
    }
}

/// A dialer goes on only with the peer it dialed: one whose identity key, hashed,
/// is the node id, and has signed the key that the handshake authenticated.
pub proof fn law_dialer_is_pinned(payload: Seq<u8>, remote: Option<Seq<u8>>, target: NodeId)
    requires
        responder_verdict(payload, remote, target) is Ok,
    ensures
        ({
            let cert = read_cert(payload)->Ok_0;
            &&& remote == Some(cert.noise_static_pub@)
            &&& target == id_of(blake3_digest(cert.ed_pub@))
            &&& ed25519_valid(
                cert.ed_pub@,
                cert_message_of(Role::Responder, cert.noise_static_pub@),
                cert.sig@,
            )
        }),
{
}

/// A handshake message behind its tag.
pub fn tagged(tag: u8, body: &[u8]) -> (r: Vec<u8>)
    ensures
        r@ == under_tag(tag, body@),
{
    let mut enc = Encoder::new();
    enc.u8(tag);
    enc.raw(body);
    let r = enc.into_vec();
    assert(r@ =~= seq![tag] + body@);
    r
}

/// A handshake message as it is sent.
pub open spec fn under_tag(tag: u8, body: Seq<u8>) -> Seq<u8> {
    seq![tag] + body
}

/// Whether a datagram carries a tag.
pub open spec fn has_tag(datagram: Seq<u8>, tag: u8) -> bool {
    datagram.len() >= 1 && datagram[0] == tag
}

fn is_tagged(datagram: &[u8], tag: u8) -> (r: bool)
    ensures
        r == has_tag(datagram@, tag),
{
    datagram.len() >= 1 && datagram[0] == tag
}

/// A transport datagram: a tag, the nonce, and the ciphertext.
pub open spec fn transport_bytes(nonce: u64, ciphertext: Seq<u8>) -> Seq<u8> {
    seq![TAG_TRANSPORT] + le_bytes(nonce as nat, 8) + ciphertext
}

/// The nonce and the ciphertext of a transport datagram, if it is one.
pub open spec fn read_transport(datagram: Seq<u8>) -> Option<(u64, Seq<u8>)> {
    if has_tag(datagram, TAG_TRANSPORT) && datagram.len() >= TRANSPORT_OVERHEAD {
        Some((le_value(datagram.subrange(1, 9)) as u64, datagram.skip(9)))
    } else {
        None
    }
}

/// A transport datagram put together.
pub fn frame_transport(nonce: u64, ciphertext: &[u8]) -> (r: Vec<u8>)
    ensures
        r@ == transport_bytes(nonce, ciphertext@),
{
    let mut enc = Encoder::new();
    enc.u8(TAG_TRANSPORT);
    let le: [u8; 8] = u64_to_le(nonce);
    enc.raw(&le);
    enc.raw(ciphertext);
    let r = enc.into_vec();
    assert(r@ =~= transport_bytes(nonce, ciphertext@));
    r
}

/// A transport datagram taken apart.
pub fn split_transport(datagram: &[u8]) -> (r: Option<(u64, &[u8])>)
    ensures
        match read_transport(datagram@) {
            Some((nonce, ciphertext)) => r is Some && r->Some_0.0 == nonce && r->Some_0.1@
                == ciphertext,
            None => r is None,
        },
{
    let len: usize = datagram.len();
    if !is_tagged(datagram, TAG_TRANSPORT) || len < TRANSPORT_OVERHEAD {
        return None;
    }
    let nonce: u64 = u64_from_le(part(datagram, 1, 9));
    let ciphertext: &[u8] = part(datagram, 9, len);
    assert(ciphertext@ =~= datagram@.skip(9));
    Some((nonce, ciphertext))
}

/// A transport datagram is taken apart into what it was put together from.
pub proof fn law_transport_roundtrip(nonce: u64, ciphertext: Seq<u8>)
    requires
        ciphertext.len() >= TAG_LEN,
    ensures
        read_transport(transport_bytes(nonce, ciphertext)) == Some((nonce, ciphertext)),
{
    let s = transport_bytes(nonce, ciphertext);
    crate::wire::lemma_byte_cap_eight();
    lemma_le_roundtrip(nonce as nat, 8);
    assert(s.subrange(1, 9) =~= le_bytes(nonce as nat, 8));
    assert(s.skip(9) =~= ciphertext);
}

/// The room a message may take.
fn room_for(len: usize) -> (r: usize)
    ensures
        r == (if len <= MAX_NOISE_MESSAGE {
            len
        } else {
            MAX_NOISE_MESSAGE
        }),
{
    if len <= MAX_NOISE_MESSAGE {
        len
    } else {
        MAX_NOISE_MESSAGE
    }
}

/// A payload sealed into a transport datagram.
pub open spec fn sealed_datagram(key: Seq<u8>, nonce: u64, payload: Seq<u8>) -> Seq<u8> {
    transport_bytes(nonce, noise_seal(key, nonce, payload))
}

/// What a transport datagram opens as with a key: its nonce and payload, if it is
/// one that Noise may have written and its ciphertext opens.
pub open spec fn decrypted(key: Seq<u8>, datagram: Seq<u8>) -> Option<(u64, Seq<u8>)> {
    match read_transport(datagram) {
        Some((nonce, ciphertext)) => if nonce != u64::MAX && ciphertext.len()
            <= MAX_NOISE_MESSAGE {
            unsealed_as(datagram, noise_open(key, nonce, ciphertext))
        } else {
            None
        },
        None => None,
    }
}

/// Encrypt a payload into a transport datagram.
fn encrypt_transport(noise: &Transport, nonce: u64, payload: &[u8]) -> (r: Result<
    Vec<u8>,
    NoiseError,
>)
    requires
        noise.secrets@.params == PARAMS@,
        payload@.len() + TRANSPORT_OVERHEAD <= usize::MAX,
    ensures
        r is Ok <==> nonce != u64::MAX && payload@.len() + TAG_LEN <= MAX_NOISE_MESSAGE,
        match r {
            Ok(d) => {
                &&& d@ == sealed_datagram(noise.secrets@.sending, nonce, payload@)
                &&& d@.len() == payload@.len() + TRANSPORT_OVERHEAD
                &&& decrypted(noise.secrets@.sending, d@) == Some((nonce, payload@))
            },
            Err(e) => e == NoiseError::Noise,
        },
{
    match transport_write(noise, nonce, payload, room_for(payload.len() + TAG_LEN)) {
        Ok(c) => {
            let d: Vec<u8> = frame_transport(nonce, c.as_slice());
            proof {
                crate::wire::lemma_byte_cap_eight();
                lemma_le_roundtrip(nonce as nat, 8);
                law_transport_roundtrip(nonce, c@);
            }
            Ok(d)
        },
        Err(_) => Err(NoiseError::Noise),
    }
}

/// What a transport datagram brings, given what its ciphertext opened as.
pub open spec fn unsealed_as(datagram: Seq<u8>, opened: Option<Seq<u8>>) -> Option<
    (u64, Seq<u8>),
> {
    match (read_transport(datagram), opened) {
        (Some((nonce, _)), Some(payload)) => Some((nonce, payload)),
        _ => None,
    }
}

/// What a transport datagram brings: its nonce and payload, if it is one and its
/// ciphertext opened.
pub fn unsealed(datagram: &[u8], opened: Option<Vec<u8>>) -> (r: Option<(u64, Vec<u8>)>)
    ensures
        match unsealed_as(datagram@, maybe_bytes(opened)) {
            Some((nonce, payload)) => r is Some && r->Some_0.0 == nonce && r->Some_0.1@ == payload,
            None => r is None,
        },
{
    match (split_transport(datagram), opened) {
        (Some((nonce, _)), Some(payload)) => Some((nonce, payload)),
        _ => None,
    }
}

/// Decrypt a transport datagram.
fn decrypt_transport(noise: &Transport, datagram: &[u8]) -> (r: Option<(u64, Vec<u8>)>)
    requires
        noise.secrets@.params == PARAMS@,
    ensures
        match decrypted(noise.secrets@.receiving, datagram@) {
            Some((nonce, payload)) => r is Some && r->Some_0.0 == nonce && r->Some_0.1@ == payload,
            None => r is None,
        },
{
    let opened: Option<Vec<u8>> = match split_transport(datagram) {
        Some((nonce, ciphertext)) => {
            let room: usize = datagram.len() - TRANSPORT_OVERHEAD;
            match transport_read(noise, nonce, ciphertext, room_for(room)) {
                Ok(payload) => Some(payload),
                Err(_) => None,
            }
        },
        None => None,
    };
    unsealed(datagram, opened)
}

/// Whether a decrypted datagram is the acknowledgment of the handshake.
pub open spec fn is_ack(nonce: u64, payload: Seq<u8>) -> bool {
    nonce == 0 && payload == ACK@
}

/// Whether a decrypted datagram is the acknowledgment of the handshake.
pub fn acknowledges(nonce: u64, payload: &[u8]) -> (r: bool)
    ensures
        r == is_ack(nonce, payload@),
{
    nonce == 0 && same_bytes(payload, &ACK)
}

/// The last handshake message, and the acknowledgment it was answered with.
struct FinishReplay {
    msg3: Vec<u8>,
    ack: Vec<u8>,
}

/// A [`Session`] as a mathematical value.
#[verifier::ext_equal]
pub struct SessionView {
    /// The nonce of the next datagram to send.
    pub send_nonce: u64,
    /// The nonces accepted.
    pub replay: ReplayView,
    /// The last handshake message and its acknowledgment, until the peer is known
    /// to have the latter.
    pub finish: Option<(Seq<u8>, Seq<u8>)>,
    /// The key that what is sent is sealed with.
    pub sending: Seq<u8>,
    /// The key that what arrives is opened with.
    pub receiving: Seq<u8>,
}

/// What a datagram that arrives in a session is.
#[derive(Debug, Clone, PartialEq, Eq)]
pub enum Arrival {
    /// The peer repeats the last handshake message: acknowledge it again.
    Repeat(Vec<u8>),
    /// Noise: ignore it.
    Ignored,
    /// A transport datagram with this nonce, not yet accepted.
    Transport(u64),
}

/// An [`Arrival`] as a mathematical value.
#[verifier::ext_equal]
pub enum ArrivalView {
    /// Acknowledge again.
    Repeat(Seq<u8>),
    /// Ignore it.
    Ignored,
    /// A transport datagram.
    Transport(u64),
}

impl View for Arrival {
    type V = ArrivalView;

    open spec fn view(&self) -> ArrivalView {
        match self {
            Arrival::Repeat(ack) => ArrivalView::Repeat(ack@),
            Arrival::Ignored => ArrivalView::Ignored,
            Arrival::Transport(nonce) => ArrivalView::Transport(*nonce),
        }
    }
}

/// What a datagram that arrives in a session is.
pub open spec fn classified(v: SessionView, datagram: Seq<u8>) -> ArrivalView {
    if v.finish matches Some(f) && f.0 == datagram {
        ArrivalView::Repeat(v.finish->Some_0.1)
    } else {
        match read_transport(datagram) {
            Some((nonce, _)) => if refused(v.replay, nonce) {
                ArrivalView::Ignored
            } else {
                ArrivalView::Transport(nonce)
            },
            None => ArrivalView::Ignored,
        }
    }
}

/// A session after a datagram that decrypts.
pub open spec fn opened(v: SessionView, nonce: u64) -> SessionView {
    SessionView { replay: recorded(v.replay, nonce), finish: None, ..v }
}

/// What comes of a datagram.
#[derive(Debug, Clone, PartialEq, Eq)]
pub enum Opened {
    /// Send this acknowledgment again.
    Repeat(Vec<u8>),
    /// Nothing.
    Ignored,
    /// A payload from the peer.
    Payload(Vec<u8>),
}

/// An [`Opened`] as a mathematical value.
#[verifier::ext_equal]
pub enum OpenedView {
    /// Send this acknowledgment again.
    Repeat(Seq<u8>),
    /// Nothing.
    Ignored,
    /// A payload from the peer.
    Payload(Seq<u8>),
}

impl View for Opened {
    type V = OpenedView;

    open spec fn view(&self) -> OpenedView {
        match self {
            Opened::Repeat(ack) => OpenedView::Repeat(ack@),
            Opened::Ignored => OpenedView::Ignored,
            Opened::Payload(payload) => OpenedView::Payload(payload@),
        }
    }
}

/// What a datagram that arrives in a session does, where payloads of up to `room`
/// bytes are wanted: one that does not open, or into too much, counts as lost.
pub open spec fn received(v: SessionView, datagram: Seq<u8>, room: nat) -> (
    SessionView,
    OpenedView,
) {
    match classified(v, datagram) {
        ArrivalView::Repeat(ack) => (v, OpenedView::Repeat(ack)),
        ArrivalView::Ignored => (v, OpenedView::Ignored),
        ArrivalView::Transport(nonce) => match decrypted(v.receiving, datagram) {
            Some((_, payload)) => if datagram.len() <= room + TRANSPORT_OVERHEAD {
                (opened(v, nonce), OpenedView::Payload(payload))
            } else {
                (v, OpenedView::Ignored)
            },
            None => (v, OpenedView::Ignored),
        },
    }
}

/// An authenticated, encrypted session.
pub struct Session {
    noise: Transport,
    send_nonce: u64,
    replay: ReplayWindow,
    finish: Option<FinishReplay>,
}

impl View for Session {
    type V = SessionView;

    closed spec fn view(&self) -> SessionView {
        SessionView {
            send_nonce: self.send_nonce,
            replay: self.replay@,
            finish: match self.finish {
                Some(f) => Some((f.msg3@, f.ack@)),
                None => None,
            },
            sending: self.noise.secrets@.sending,
            receiving: self.noise.secrets@.receiving,
        }
    }
}

/// The largest payload a session may carry over a link.
pub fn max_payload(inner: usize) -> (r: usize)
    ensures
        r == (if inner >= TRANSPORT_OVERHEAD {
            inner - TRANSPORT_OVERHEAD
        } else {
            0
        }),
{
    if inner >= TRANSPORT_OVERHEAD {
        inner - TRANSPORT_OVERHEAD
    } else {
        0
    }
}

/// The nonce of the next datagram, if the payload fits and nonces are left.
pub open spec fn next_nonce(v: SessionView, inner: nat, len: nat) -> Result<u64, NoiseError> {
    if len + TRANSPORT_OVERHEAD > inner {
        Err(NoiseError::InvalidInput("Noise transport payload exceeds the inner link MTU"))
    } else if v.send_nonce == u64::MAX {
        Err(NoiseError::InvalidData("Noise transport send nonce exhausted"))
    } else {
        Ok(v.send_nonce)
    }
}

impl Session {
    /// The replay window is in order, and the keys are of the cryptosystem used.
    pub closed spec fn wf(&self) -> bool {
        self.replay.wf() && self.noise.secrets@.params == PARAMS@
    }

    /// Take the nonce of the next datagram, if the payload fits the link and
    /// nonces are left. Each is handed out once.
    pub fn take_nonce(&mut self, inner: usize, len: usize) -> (r: Result<u64, NoiseError>)
        requires
            old(self).wf(),
        ensures
            final(self).wf(),
            r == next_nonce(old(self)@, inner as nat, len as nat),
            final(self)@ == (SessionView {
                send_nonce: if r is Ok {
                    (old(self)@.send_nonce + 1) as u64
                } else {
                    old(self)@.send_nonce
                },
                ..old(self)@
            }),
    {
        if inner < TRANSPORT_OVERHEAD || len > inner - TRANSPORT_OVERHEAD {
            return Err(
                NoiseError::InvalidInput("Noise transport payload exceeds the inner link MTU"),
            );
        }
        if self.send_nonce == u64::MAX {
            return Err(NoiseError::InvalidData("Noise transport send nonce exhausted"));
        }
        let nonce: u64 = self.send_nonce;
        self.send_nonce += 1;
        Ok(nonce)
    }

    /// Encrypt a payload for a link whose datagrams carry up to `inner` bytes.
    pub fn seal(&mut self, inner: usize, payload: &[u8]) -> (r: Result<Vec<u8>, NoiseError>)
        requires
            old(self).wf(),
        ensures
            final(self).wf(),
            match next_nonce(old(self)@, inner as nat, payload@.len()) {
                Ok(nonce) => {
                    &&& final(self)@ == (SessionView {
                        send_nonce: (nonce + 1) as u64,
                        ..old(self)@
                    })
                    &&& r is Ok <==> payload@.len() + TAG_LEN <= MAX_NOISE_MESSAGE
                    &&& match r {
                        Ok(d) => {
                            &&& d@ == sealed_datagram(old(self)@.sending, nonce, payload@)
                            &&& d@.len() == payload@.len() + TRANSPORT_OVERHEAD
                            &&& decrypted(old(self)@.sending, d@) == Some((nonce, payload@))
                        },
                        Err(e) => e == NoiseError::Noise,
                    }
                },
                Err(e) => r == Err::<Vec<u8>, NoiseError>(e) && final(self)@ == old(self)@,
            },
    {
        match self.take_nonce(inner, payload.len()) {
            Ok(nonce) => encrypt_transport(&self.noise, nonce, payload),
            Err(e) => Err(e),
        }
    }

    /// What a datagram that arrives is.
    pub fn classify(&self, datagram: &[u8]) -> (r: Arrival)
        requires
            self.wf(),
        ensures
            r@ == classified(self@, datagram@),
    {
        if let Some(f) = &self.finish {
            if same_bytes(f.msg3.as_slice(), datagram) {
                return Arrival::Repeat(copy_of(f.ack.as_slice()));
            }
        }
        match split_transport(datagram) {
            Some((nonce, _)) => if self.replay.rejects(nonce) {
                Arrival::Ignored
            } else {
                Arrival::Transport(nonce)
            },
            None => Arrival::Ignored,
        }
    }

    /// Record that a datagram with a nonce was accepted. The peer is then known
    /// to have the acknowledgment of the handshake.
    pub fn on_opened(&mut self, nonce: u64)
        requires
            old(self).wf(),
            !refused(old(self)@.replay, nonce),
        ensures
            final(self).wf(),
            final(self)@ == opened(old(self)@, nonce),
    {
        self.replay.record(nonce);
        self.finish = None;
    }

    /// Take in a datagram. One that does not decrypt into `room` bytes counts as
    /// lost.
    pub fn open(&mut self, datagram: &[u8], room: usize) -> (r: Opened)
        requires
            old(self).wf(),
        ensures
            final(self).wf(),
            (final(self)@, r@) == received(old(self)@, datagram@, room as nat),
    {
        match self.classify(datagram) {
            Arrival::Repeat(ack) => Opened::Repeat(ack),
            Arrival::Ignored => Opened::Ignored,
            Arrival::Transport(nonce) => {
                let len: usize = datagram.len();
                let ciphertext: &[u8] = part(datagram, 9, len);
                assert(ciphertext@ =~= datagram@.skip(9));
                match transport_read(&self.noise, nonce, ciphertext, room_for(room)) {
                    Ok(payload) => {
                        self.on_opened(nonce);
                        Opened::Payload(payload)
                    },
                    Err(_) => Opened::Ignored,
                }
            },
        }
    }
}

/// A nonce that was accepted is not accepted again, and the acknowledgment of
/// the handshake is not repeated once the peer is known to have it.
pub proof fn law_session_takes_each_datagram_once(v: SessionView, datagram: Seq<u8>)
    requires
        classified(v, datagram) is Transport,
    ensures
        classified(opened(v, classified(v, datagram)->Transport_0), datagram) is Ignored,
{
    let nonce = classified(v, datagram)->Transport_0;
    assert(refused(recorded(v.replay, nonce), nonce));
}

/// What one session seals, the one that opens with the same key receives: given
/// what sealing says of a datagram, it brings exactly the payload, unless it was
/// received before, fell behind the window, or is too long.
pub proof fn law_what_is_sealed_is_received(
    from: SessionView,
    to: SessionView,
    datagram: Seq<u8>,
    payload: Seq<u8>,
    room: nat,
)
    requires
        from.sending == to.receiving,
        decrypted(from.sending, datagram) == Some((from.send_nonce, payload)),
        datagram == sealed_datagram(from.sending, from.send_nonce, payload),
        !refused(to.replay, from.send_nonce),
        to.finish matches Some(f) ==> f.0 != datagram,
        datagram.len() <= room + TRANSPORT_OVERHEAD,
    ensures
        received(to, datagram, room) == (
            opened(to, from.send_nonce),
            OpenedView::Payload(payload),
        ),
{
}

/// No nonce is used for two datagrams of a session, whatever else it does between
/// them: each is higher than those before.
pub proof fn law_nonces_are_never_reused(v: SessionView, later: SessionView, inner: nat, len: nat)
    requires
        next_nonce(v, inner, len) is Ok,
        later.send_nonce > v.send_nonce,
    ensures
        forall|i: nat, n: nat|
            (#[trigger] next_nonce(later, i, n)) is Ok ==> next_nonce(later, i, n)->Ok_0
                > next_nonce(v, inner, len)->Ok_0,
{
}

/// A dialer's handshake, waiting for the responder's message.
pub struct Dialer {
    hs: Handshake,
    cert: NodeCert,
    target: NodeId,
    msg1: Vec<u8>,
    tries: usize,
}

/// A dialer's handshake, waiting for the acknowledgment.
pub struct Finishing {
    noise: Transport,
    msg3: Vec<u8>,
    tries: usize,
}

/// What a datagram leads to while a dialer waits for the responder's message.
pub enum Dialed {
    /// Nothing: wait on.
    Waiting(Dialer),
    /// The responder is who was dialed: send the last message.
    Finishing(Finishing),
    /// The handshake failed.
    Failed(NoiseError),
}

/// What a datagram leads to while a dialer waits for the acknowledgment.
pub enum Finished {
    /// Nothing: wait on.
    Waiting(Finishing),
    /// The session is set up.
    Done(Session),
}

/// A handshake for dialing, and the certificate to send in it, with the keys that were
/// drawn.
fn prepare_dialing(identity: &Keypair, private: &[u8], public: &[u8]) -> (r: Result<
    (Handshake, NodeCert),
    NoiseError,
>)
    requires
        private@.len() == 32,
        public@.len() == 32,
    ensures
        r matches Ok((hs, cert)) && hs.record@ == (HandshakeRecord {
            role: Role::Initiator,
            params: PARAMS@,
            private: private@,
            prologue: PROLOGUE@,
            passed: 0,
            state: noise_initiator(PARAMS@, private@, PROLOGUE@),
            drawn: Seq::empty(),
            remote: None,
        }) && is_certificate(cert, *identity, Role::Initiator) && cert.noise_static_pub@ == public@,
{
    match build_initiator(PARAMS, private, &PROLOGUE) {
        Ok(hs) => match NodeCert::create(identity, public, Role::Initiator) {
            Ok(cert) => Ok((hs, cert)),
            Err(e) => Err(e),
        },
        Err(_) => Err(NoiseError::Noise),
    }
}

/// What a dialer begins with, given the first message that was written, if one could
/// be.
fn dial(hs: Handshake, cert: NodeCert, target: NodeId, written: Option<Vec<u8>>) -> (r: Result<
    Dialer,
    NoiseError,
>)
    ensures
        match written {
            Some(body) => r matches Ok(d) && d.tries() == 0 && d.msg1() == under_tag(
                TAG_MSG1,
                body@,
            ) && d.target() == target && d.cert() == cert && d.setup() == hs.record@,
            None => r == Err::<Dialer, NoiseError>(NoiseError::Noise),
        },
{
    match written {
        Some(body) => Ok(
            Dialer { hs, cert, target, msg1: tagged(TAG_MSG1, body.as_slice()), tries: 0 },
        ),
        None => Err(NoiseError::Noise),
    }
}

/// Begin dialing with the keys that were drawn. It fails only where no ephemeral key
/// can be drawn for the first message.
fn begin_dialing(identity: &Keypair, target: NodeId, private: &[u8], public: &[u8]) -> (r: Result<
    Dialer,
    NoiseError,
>)
    requires
        private@.len() == 32,
        public@.len() == 32,
    ensures
        match r {
            Ok(d) => {
                &&& d.tries() == 0
                &&& d.target() == target
                &&& d.wf()
                &&& is_set_up(d.setup(), Role::Initiator)
                &&& d.setup().private == private@
                &&& is_certificate(d.cert(), *identity, Role::Initiator)
                &&& d.cert().noise_static_pub@ == public@
                &&& d.setup().drawn.len() == 32
                &&& d.setup().remote is None
                &&& ({
                    let begun = noise_initiator(PARAMS@, private@, PROLOGUE@);
                    let (body, state) = noise_write(begun, Seq::empty(), d.setup().drawn);
                    d.msg1() == under_tag(TAG_MSG1, body) && d.setup().state == state
                })
            },
            Err(e) => e == NoiseError::Noise,
        },
{
    let (mut hs, cert): (Handshake, NodeCert) = match prepare_dialing(identity, private, public) {
        Ok(prepared) => prepared,
        Err(e) => {
            return Err(e);
        },
    };
    let none: Vec<u8> = Vec::new();
    assert(none@ =~= Seq::<u8>::empty());
    let written: Option<Vec<u8>> = match handshake_write(
        &mut hs,
        none.as_slice(),
        HS_MESSAGE_ROOM,
    ) {
        Ok(body) => Some(body),
        Err(_) => None,
    };
    dial(hs, cert, target, written)
}

impl Dialer {
    /// How often the first message has been sent.
    pub closed spec fn tries(&self) -> nat {
        self.tries as nat
    }

    /// The first message.
    pub closed spec fn msg1(&self) -> Seq<u8> {
        self.msg1@
    }

    /// The peer dialed.
    pub closed spec fn target(&self) -> NodeId {
        self.target
    }

    /// The certificate to send.
    pub closed spec fn cert(&self) -> NodeCert {
        self.cert
    }

    /// What the handshake was set up with.
    pub closed spec fn setup(&self) -> HandshakeRecord {
        self.hs.record@
    }

    /// The handshake is of the cryptosystem used, and waits for the second message.
    pub open spec fn wf(&self) -> bool {
        &&& self.setup().params == PARAMS@
        &&& self.setup().role == Role::Initiator
        &&& self.setup().passed == 1
    }

    /// Begin dialing `target`. The first message carries nothing: it is sent in
    /// the clear, and the dialer's identity is not.
    pub fn start(identity: &Keypair, target: NodeId) -> (r: Result<Dialer, NoiseError>)
        ensures
            match r {
                Ok(d) => {
                    &&& d.tries() == 0
                    &&& d.target() == target
                    &&& d.wf()
                    &&& is_set_up(d.setup(), Role::Initiator)
                    &&& is_certificate(d.cert(), *identity, Role::Initiator)
                    &&& d.cert().noise_static_pub@ == noise_public(d.setup().private)
                    &&& d.setup().drawn.len() == 32
                    &&& d.setup().remote is None
                    &&& ({
                        let begun = noise_initiator(PARAMS@, d.setup().private, PROLOGUE@);
                        let (body, state) = noise_write(begun, Seq::empty(), d.setup().drawn);
                        d.msg1() == under_tag(TAG_MSG1, body) && d.setup().state == state
                    })
                },
                Err(e) => e == NoiseError::Noise,
            },
    {
        let pair: (Vec<u8>, Vec<u8>) = match generate_keypair(PARAMS) {
            Ok(pair) => pair,
            Err(_) => {
                return Err(NoiseError::Noise);
            },
        };
        begin_dialing(identity, target, pair.0.as_slice(), pair.1.as_slice())
    }

    /// The message to send before waiting for an answer, or the failure if it has
    /// been sent often enough.
    pub fn poll(&mut self) -> (r: Result<Vec<u8>, NoiseError>)
        ensures
            final(self).msg1() == old(self).msg1(),
            final(self).target() == old(self).target(),
            final(self).cert() == old(self).cert(),
            final(self).setup() == old(self).setup(),
            if old(self).tries() < HS_RETRIES {
                r is Ok && r->Ok_0@ == old(self).msg1() && final(self).tries() == old(self).tries()
                    + 1
            } else {
                r == Err::<Vec<u8>, NoiseError>(
                    NoiseError::TimedOut("Noise handshake: no response (message 2)"),
                ) && final(self).tries() == old(self).tries()
            },
    {
        if self.tries < HS_RETRIES {
            self.tries += 1;
            Ok(copy_of(self.msg1.as_slice()))
        } else {
            Err(NoiseError::TimedOut("Noise handshake: no response (message 2)"))
        }
    }

    /// Take in a datagram. The responder is authenticated and pinned before the
    /// dialer's own identity is disclosed.
    pub fn on_datagram(self, datagram: &[u8]) -> (r: Dialed)
        requires
            self.wf(),
        ensures
            !has_tag(datagram@, TAG_MSG2) ==> r is Waiting && r->Waiting_0 == self,
            has_tag(datagram@, TAG_MSG2) ==> !(r is Waiting),
            has_tag(datagram@, TAG_MSG2) ==> match noise_read(
                self.setup().state,
                datagram@.skip(1),
                HS_PAYLOAD_ROOM,
            ) {
                None => r == Dialed::Failed(NoiseError::Noise),
                Some((payload, state, remote)) => match responder_verdict(
                    payload,
                    remote,
                    self.target(),
                ) {
                    Err(e) => r == Dialed::Failed(e),
                    Ok(_) => {
                        let (body, after) = noise_write(
                            state,
                            cert_bytes(self.cert()),
                            Seq::empty(),
                        );
                        r matches Dialed::Finishing(f) && f.wf() && f.tries() == 0 && f.msg3()
                            == under_tag(TAG_MSG3, body) && f.secrets() == secrets_of(
                            PARAMS@,
                            noise_keys(after),
                        )
                    },
                },
            },
    {
        if !is_tagged(datagram, TAG_MSG2) {
            return Dialed::Waiting(self);
        }
        let len: usize = datagram.len();
        assert(datagram@.subrange(1, len as int) =~= datagram@.skip(1));
        let mut hs: Handshake = self.hs;
        let payload: Vec<u8> = match handshake_read(
            &mut hs,
            part(datagram, 1, len),
            HS_PAYLOAD_ROOM,
        ) {
            Ok(payload) => payload,
            Err(_) => {
                return Dialed::Failed(NoiseError::Noise);
            },
        };
        let remote: Option<Vec<u8>> = handshake_remote_static(&hs);
        match check_responder(payload.as_slice(), &remote, self.target) {
            Ok(_) => {},
            Err(e) => {
                return Dialed::Failed(e);
            },
        }
        let own: Vec<u8> = self.cert.encode();
        let body: Vec<u8> = match handshake_write(&mut hs, own.as_slice(), HS_MESSAGE_ROOM) {
            Ok(body) => body,
            Err(_) => {
                return Dialed::Failed(NoiseError::Noise);
            },
        };
        let msg3: Vec<u8> = tagged(TAG_MSG3, body.as_slice());
        assert(hs.record@.drawn =~= Seq::<u8>::empty());
        match into_transport(hs) {
            Ok(noise) => Dialed::Finishing(Finishing { noise, msg3, tries: 0 }),
            Err(_) => Dialed::Failed(NoiseError::Noise),
        }
    }
}

impl Finishing {
    /// How often the last message has been sent.
    pub closed spec fn tries(&self) -> nat {
        self.tries as nat
    }

    /// The last message.
    pub closed spec fn msg3(&self) -> Seq<u8> {
        self.msg3@
    }

    /// The keys of the session.
    pub closed spec fn secrets(&self) -> Secrets {
        self.noise.secrets@
    }

    /// The keys are of the cryptosystem used.
    pub open spec fn wf(&self) -> bool {
        self.secrets().params == PARAMS@
    }

    /// The message to send before waiting for the acknowledgment, or the failure
    /// if it has been sent often enough.
    pub fn poll(&mut self) -> (r: Result<Vec<u8>, NoiseError>)
        ensures
            final(self).msg3() == old(self).msg3(),
            final(self).secrets() == old(self).secrets(),
            if old(self).tries() < HS_RETRIES {
                r is Ok && r->Ok_0@ == old(self).msg3() && final(self).tries() == old(self).tries()
                    + 1
            } else {
                r == Err::<Vec<u8>, NoiseError>(
                    NoiseError::TimedOut("Noise handshake: no completion acknowledgment"),
                ) && final(self).tries() == old(self).tries()
            },
    {
        if self.tries < HS_RETRIES {
            self.tries += 1;
            Ok(copy_of(self.msg3.as_slice()))
        } else {
            Err(NoiseError::TimedOut("Noise handshake: no completion acknowledgment"))
        }
    }

    /// Take in a datagram: the acknowledgment ends the handshake, anything else
    /// is ignored.
    pub fn on_datagram(self, datagram: &[u8]) -> (r: Finished)
        requires
            self.wf(),
        ensures
            if decrypted(self.secrets().receiving, datagram@) matches Some((nonce, payload))
                && is_ack(nonce, payload) {
                r matches Finished::Done(s) && s.wf() && s@ == (SessionView {
                    send_nonce: 0,
                    replay: recorded(ReplayView { highest: None, seen: Set::empty() }, 0),
                    finish: None,
                    sending: self.secrets().sending,
                    receiving: self.secrets().receiving,
                })
            } else {
                r == Finished::Waiting(self)
            },
    {
        if let Some((nonce, payload)) = decrypt_transport(&self.noise, datagram) {
            if acknowledges(nonce, payload.as_slice()) {
                let mut replay = ReplayWindow::new();
                replay.record(nonce);
                return Finished::Done(
                    Session { noise: self.noise, send_nonce: 0, replay, finish: None },
                );
            }
        }
        Finished::Waiting(self)
    }
}

/// A listener's handshake, waiting for the dialer's first message.
pub struct Listener {
    hs: Handshake,
    cert: NodeCert,
    tries: usize,
}

/// A listener's handshake, waiting for the dialer's last message.
pub struct Answering {
    hs: Handshake,
    msg2: Vec<u8>,
    tries: usize,
}

/// What a datagram leads to while a listener waits for the first message.
pub enum Heard {
    /// Nothing: wait on.
    Waiting(Listener),
    /// The first message arrived: answer it.
    Answering(Answering),
    /// The handshake failed.
    Failed(NoiseError),
}

/// What a datagram leads to while a listener waits for the last message.
pub enum Answered {
    /// Nothing: wait on.
    Waiting(Answering),
    /// The session is set up with this peer: send the acknowledgment.
    Done(Session, NodeId, Vec<u8>),
    /// The handshake failed.
    Failed(NoiseError),
}

/// Begin listening with the keys that were drawn.
fn begin_listening(identity: &Keypair, private: &[u8], public: &[u8]) -> (r: Result<
    Listener,
    NoiseError,
>)
    requires
        private@.len() == 32,
        public@.len() == 32,
    ensures
        r matches Ok(l) && l.tries() == 0 && l.wf() && is_set_up(l.setup(), Role::Responder)
            && l.setup().private == private@ && is_certificate(
            l.cert(),
            *identity,
            Role::Responder,
        ) && l.cert().noise_static_pub@ == public@ && l.setup().state == noise_responder(
            PARAMS@,
            private@,
            PROLOGUE@,
        ) && l.setup().remote is None,
{
    match build_responder(PARAMS, private, &PROLOGUE) {
        Ok(hs) => match NodeCert::create(identity, public, Role::Responder) {
            Ok(cert) => Ok(Listener { hs, cert, tries: 0 }),
            Err(e) => Err(e),
        },
        Err(_) => Err(NoiseError::Noise),
    }
}

impl Listener {
    /// How often a datagram has been waited for.
    pub closed spec fn tries(&self) -> nat {
        self.tries as nat
    }

    /// The certificate to send.
    pub closed spec fn cert(&self) -> NodeCert {
        self.cert
    }

    /// What the handshake was set up with.
    pub closed spec fn setup(&self) -> HandshakeRecord {
        self.hs.record@
    }

    /// The handshake is of the cryptosystem used, and waits for the first message.
    pub open spec fn wf(&self) -> bool {
        &&& self.setup().params == PARAMS@
        &&& self.setup().role == Role::Responder
        &&& self.setup().passed == 0
    }

    /// Begin listening.
    pub fn start(identity: &Keypair) -> (r: Result<Listener, NoiseError>)
        ensures
            match r {
                Ok(l) => {
                    &&& l.tries() == 0
                    &&& l.wf()
                    &&& is_set_up(l.setup(), Role::Responder)
                    &&& is_certificate(l.cert(), *identity, Role::Responder)
                    &&& l.cert().noise_static_pub@ == noise_public(l.setup().private)
                    &&& l.setup().state == noise_responder(
                        PARAMS@,
                        l.setup().private,
                        PROLOGUE@,
                    )
                    &&& l.setup().remote is None
                },
                Err(e) => e == NoiseError::Noise,
            },
    {
        let pair: (Vec<u8>, Vec<u8>) = match generate_keypair(PARAMS) {
            Ok(pair) => pair,
            Err(_) => {
                return Err(NoiseError::Noise);
            },
        };
        begin_listening(identity, pair.0.as_slice(), pair.1.as_slice())
    }

    /// Wait for a datagram once more, or fail if that was done often enough.
    pub fn poll(&mut self) -> (r: Result<(), NoiseError>)
        ensures
            final(self).cert() == old(self).cert(),
            final(self).setup() == old(self).setup(),
            if old(self).tries() < HS_RETRIES {
                r is Ok && final(self).tries() == old(self).tries() + 1
            } else {
                r == Err::<(), NoiseError>(
                    NoiseError::TimedOut("Noise handshake: no opener (message 1)"),
                ) && final(self).tries() == old(self).tries()
            },
    {
        if self.tries < HS_RETRIES {
            self.tries += 1;
            Ok(())
        } else {
            Err(NoiseError::TimedOut("Noise handshake: no opener (message 1)"))
        }
    }

    /// Take in a datagram.
    pub fn on_datagram(self, datagram: &[u8]) -> (r: Heard)
        requires
            self.wf(),
        ensures
            !has_tag(datagram@, TAG_MSG1) ==> r is Waiting && r->Waiting_0 == self,
            has_tag(datagram@, TAG_MSG1) ==> !(r is Waiting),
            has_tag(datagram@, TAG_MSG1) ==> match noise_read(
                self.setup().state,
                datagram@.skip(1),
                HS_PAYLOAD_ROOM,
            ) {
                None => r == Heard::Failed(NoiseError::Noise),
                Some((_, state, remote)) => match r {
                    Heard::Waiting(_) => false,
                    Heard::Failed(e) => e == NoiseError::Noise,
                    Heard::Answering(a) => {
                        let (body, after) = noise_write(
                            state,
                            cert_bytes(self.cert()),
                            a.setup().drawn,
                        );
                        &&& a.wf()
                        &&& a.tries() == 0
                        &&& a.msg2() == under_tag(TAG_MSG2, body)
                        &&& a.setup().drawn.len() == 32
                        &&& a.setup().state == after
                        &&& a.setup().remote == remote
                        &&& same_setup(a.setup(), self.setup())
                    },
                },
            },
    {
        if !is_tagged(datagram, TAG_MSG1) {
            return Heard::Waiting(self);
        }
        let len: usize = datagram.len();
        assert(datagram@.subrange(1, len as int) =~= datagram@.skip(1));
        let mut hs: Handshake = self.hs;
        match handshake_read(&mut hs, part(datagram, 1, len), HS_PAYLOAD_ROOM) {
            Ok(_) => {},
            Err(_) => {
                return Heard::Failed(NoiseError::Noise);
            },
        }
        let own: Vec<u8> = self.cert.encode();
        let written: Option<Vec<u8>> = match handshake_write(
            &mut hs,
            own.as_slice(),
            HS_MESSAGE_ROOM,
        ) {
            Ok(body) => Some(body),
            Err(_) => None,
        };
        answer(hs, written)
    }
}

/// What a listener does once it has read the first message, given the answer that was
/// written, if one could be.
fn answer(hs: Handshake, written: Option<Vec<u8>>) -> (r: Heard)
    ensures
        match written {
            Some(body) => r matches Heard::Answering(a) && a.tries() == 0 && a.msg2()
                == under_tag(TAG_MSG2, body@) && a.setup() == hs.record@,
            None => r == Heard::Failed(NoiseError::Noise),
        },
{
    match written {
        Some(body) => Heard::Answering(
            Answering { hs, msg2: tagged(TAG_MSG2, body.as_slice()), tries: 0 },
        ),
        None => Heard::Failed(NoiseError::Noise),
    }
}

impl Answering {
    /// How often the answer has been sent.
    pub closed spec fn tries(&self) -> nat {
        self.tries as nat
    }

    /// The answer.
    pub closed spec fn msg2(&self) -> Seq<u8> {
        self.msg2@
    }

    /// What the handshake was set up with.
    pub closed spec fn setup(&self) -> HandshakeRecord {
        self.hs.record@
    }

    /// The handshake is of the cryptosystem used, and waits for the third message.
    pub open spec fn wf(&self) -> bool {
        &&& self.setup().params == PARAMS@
        &&& self.setup().role == Role::Responder
        &&& self.setup().passed == 2
    }

    /// The answer to send before waiting for the last message, or the failure if
    /// it has been sent often enough. A repetition of the first message means
    /// that the answer was lost, and leads here again.
    pub fn poll(&mut self) -> (r: Result<Vec<u8>, NoiseError>)
        ensures
            final(self).msg2() == old(self).msg2(),
            final(self).setup() == old(self).setup(),
            if old(self).tries() < HS_RETRIES {
                r is Ok && r->Ok_0@ == old(self).msg2() && final(self).tries() == old(self).tries()
                    + 1
            } else {
                r == Err::<Vec<u8>, NoiseError>(
                    NoiseError::TimedOut("Noise handshake: no finish (message 3)"),
                ) && final(self).tries() == old(self).tries()
            },
    {
        if self.tries < HS_RETRIES {
            self.tries += 1;
            Ok(copy_of(self.msg2.as_slice()))
        } else {
            Err(NoiseError::TimedOut("Noise handshake: no finish (message 3)"))
        }
    }

    /// Take in a datagram. The last message authenticates the dialer; the session
    /// keeps it with its acknowledgment, to acknowledge a repetition.
    pub fn on_datagram(self, datagram: &[u8]) -> (r: Answered)
        requires
            self.wf(),
        ensures
            !has_tag(datagram@, TAG_MSG3) ==> r is Waiting && r->Waiting_0 == self,
            has_tag(datagram@, TAG_MSG3) ==> !(r is Waiting),
            has_tag(datagram@, TAG_MSG3) ==> match noise_read(
                self.setup().state,
                datagram@.skip(1),
                HS_PAYLOAD_ROOM,
            ) {
                None => r == Answered::Failed(NoiseError::Noise),
                Some((payload, state, remote)) => match peer_verdict(
                    payload,
                    remote,
                    Role::Initiator,
                ) {
                    Err(e) => r == Answered::Failed(e),
                    Ok(cert) => r matches Answered::Done(s, peer, ack) && s.wf() && s@ == (
                    SessionView {
                        send_nonce: 1,
                        replay: ReplayView { highest: None, seen: Set::empty() },
                        finish: Some((datagram@, ack@)),
                        sending: noise_keys(state).0,
                        receiving: noise_keys(state).1,
                    }) && peer == id_of(blake3_digest(cert.ed_pub@)) && ack@ == sealed_datagram(
                        noise_keys(state).0,
                        0,
                        ACK@,
                    ) && decrypted(noise_keys(state).0, ack@) == Some((0u64, ACK@)),
                },
            },
    {
        if !is_tagged(datagram, TAG_MSG3) {
            return Answered::Waiting(self);
        }
        let len: usize = datagram.len();
        assert(datagram@.subrange(1, len as int) =~= datagram@.skip(1));
        let mut hs: Handshake = self.hs;
        let payload: Vec<u8> = match handshake_read(
            &mut hs,
            part(datagram, 1, len),
            HS_PAYLOAD_ROOM,
        ) {
            Ok(payload) => payload,
            Err(_) => {
                return Answered::Failed(NoiseError::Noise);
            },
        };
        let remote: Option<Vec<u8>> = handshake_remote_static(&hs);
        let peer: NodeCert = match check_peer(payload.as_slice(), &remote, Role::Initiator) {
            Ok(peer) => peer,
            Err(e) => {
                return Answered::Failed(e);
            },
        };
        let noise: Transport = match into_transport(hs) {
            Ok(noise) => noise,
            Err(_) => {
                return Answered::Failed(NoiseError::Noise);
            },
        };
        let id: NodeId = peer.node_id();
        match encrypt_transport(&noise, 0, &ACK) {
            Ok(ack) => {
                let finish = FinishReplay {
                    msg3: copy_of(datagram),
                    ack: copy_of(ack.as_slice()),
                };
                Answered::Done(
                    Session {
                        noise,
                        send_nonce: 1,
                        replay: ReplayWindow::new(),
                        finish: Some(finish),
                    },
                    id,
                    ack,
                )
            },
            Err(e) => Answered::Failed(e),
        }
    }
}

/// A certificate's signature covers the role and the key: no other role or key has the
/// same signed bytes, and a certificate for one side is none for the other.
pub proof fn law_cert_covers_role_and_key(a: Role, x: Seq<u8>, b: Role, y: Seq<u8>)
    requires
        cert_message_of(a, x) == cert_message_of(b, y),
    ensures
        a == b,
        x == y,
{
    let m = cert_message_of(a, x);
    let n = CERT_DOMAIN@.len() as int;
    assert(m[n] == role_number(a));
    assert(cert_message_of(b, y)[n] == role_number(b));
    assert(m.skip(n + 1) =~= x);
    assert(cert_message_of(b, y).skip(n + 1) =~= y);
}

/// A peer is accepted exactly if its certificate holds: sent whole, for the key that the
/// handshake authenticated, and signed for its role with a proper identity key. A dialer
/// accepts it only if that identity is the one it dialed.
pub proof fn law_peer_is_accepted_on_its_certificate(
    c: NodeCert,
    remote: Option<Seq<u8>>,
    role: Role,
    target: NodeId,
)
    ensures
        peer_verdict(cert_bytes(c), remote, role) is Ok <==> {
            &&& remote == Some(c.noise_static_pub@)
            &&& ed25519_is_key(c.ed_pub@)
            &&& ed25519_valid(
                c.ed_pub@,
                cert_message_of(role, c.noise_static_pub@),
                c.sig@,
            )
        },
        peer_verdict(cert_bytes(c), remote, role) matches Ok(found) ==> found == c,
        responder_verdict(cert_bytes(c), remote, target) is Ok <==> peer_verdict(
            cert_bytes(c),
            remote,
            Role::Responder,
        ) is Ok && target == id_of(blake3_digest(c.ed_pub@)),
{
    law_cert_roundtrip(c);
}

/// A payload is sealed under the next nonce as long as it fits and nonces last; one that
/// does not fit is refused whatever the nonce.
pub proof fn law_payload_that_fits_is_sealed(v: SessionView, inner: nat, len: nat)
    ensures
        next_nonce(v, inner, len) == (if len + TRANSPORT_OVERHEAD > inner {
            Err::<u64, NoiseError>(
                NoiseError::InvalidInput("Noise transport payload exceeds the inner link MTU"),
            )
        } else if v.send_nonce == u64::MAX {
            Err(NoiseError::InvalidData("Noise transport send nonce exhausted"))
        } else {
            Ok(v.send_nonce)
        }),
{
}

/// A repetition of the last handshake message is answered with the acknowledgment until
/// the peer is known to have it, and changes nothing; what does not open, was accepted
/// before or is no transport datagram is ignored, and changes nothing either.
pub proof fn law_junk_and_repeats_change_nothing(v: SessionView, datagram: Seq<u8>, room: nat)
    ensures
        v.finish matches Some(f) && f.0 == datagram ==> received(v, datagram, room) == (
            v,
            OpenedView::Repeat(v.finish->Some_0.1),
        ),
        !(v.finish matches Some(f) && f.0 == datagram) && (read_transport(datagram) is None || refused(
            v.replay,
            read_transport(datagram)->Some_0.0,
        ) || noise_open(
            v.receiving,
            read_transport(datagram)->Some_0.0,
            read_transport(datagram)->Some_0.1,
        ) is None) ==> received(v, datagram, room) == (v, OpenedView::Ignored),
{
}

/// A listener that is sent the last message has a session whose acknowledgment ends the
/// dialer's handshake. From then on each side opens what the other seals, the first
/// datagram of each is accepted, the acknowledgment is not accepted again, and the last
/// message sent again is acknowledged again.
pub proof fn law_acknowledgment_ends_the_handshake(
    a: Answering,
    last: &[u8],
    s: Session,
    peer: NodeId,
    ack: Vec<u8>,
    f: Finishing,
    datagram: &[u8],
    r: Finished,
    room: nat,
)
    requires
        call_ensures(Answering::on_datagram, (a, last), Answered::Done(s, peer, ack)),
        f.secrets().receiving == s@.sending,
        f.secrets().sending == s@.receiving,
        datagram@ == ack@,
        call_ensures(Finishing::on_datagram, (f, datagram), r),
    ensures
        r is Done,
        ({
            let t = r->Done_0;
            &&& t@.receiving == s@.sending
            &&& t@.sending == s@.receiving
            &&& !refused(t@.replay, s@.send_nonce)
            &&& !refused(s@.replay, t@.send_nonce)
            &&& refused(t@.replay, 0)
            &&& received(s@, last@, room) == (s@, OpenedView::Repeat(ack@))
            &&& received(t@, ack@, room) == (t@, OpenedView::Ignored)
        }),
{
    assert(has_tag(last@, TAG_MSG3));
}

/// A dialer goes on only where the peer it reached proves to be the one it dialed; until
/// then it sends nothing of its own identity. A message of another kind changes nothing.
pub proof fn law_dialer_goes_on_with_its_target_only(d: Dialer, datagram: &[u8], r: Dialed)
    requires
        call_ensures(Dialer::on_datagram, (d, datagram), r),
    ensures
        !(datagram@.len() > 0 && datagram@[0] == TAG_MSG2) ==> r == Dialed::Waiting(d),
        r is Finishing ==> {
            let (payload, state, remote) = noise_read(
                d.setup().state,
                datagram@.skip(1),
                HS_PAYLOAD_ROOM,
            )->Some_0;
            let cert = read_cert(payload)->Ok_0;
            &&& remote == Some(cert.noise_static_pub@)
            &&& d.target() == id_of(blake3_digest(cert.ed_pub@))
            &&& ed25519_valid(
                cert.ed_pub@,
                cert_message_of(Role::Responder, cert.noise_static_pub@),
                cert.sig@,
            )
        },
        r matches Dialed::Waiting(e) ==> e == d,
{
    if r is Finishing {
        let (payload, state, remote) = noise_read(
            d.setup().state,
            datagram@.skip(1),
            HS_PAYLOAD_ROOM,
        )->Some_0;
        law_dialer_is_pinned(payload, remote, d.target());
    }
}

/// A listener names the peer whose certificate it was shown: signed for the dialer's role
/// and the key that the handshake authenticated.
pub proof fn law_listener_names_the_peer_that_proved_itself(
    a: Answering,
    datagram: &[u8],
    r: Answered,
)
    requires
        call_ensures(Answering::on_datagram, (a, datagram), r),
    ensures
        !(datagram@.len() > 0 && datagram@[0] == TAG_MSG3) ==> r == Answered::Waiting(a),
        r matches Answered::Done(s, peer, ack) ==> {
            let (payload, state, remote) = noise_read(
                a.setup().state,
                datagram@.skip(1),
                HS_PAYLOAD_ROOM,
            )->Some_0;
            let cert = read_cert(payload)->Ok_0;
            &&& remote == Some(cert.noise_static_pub@)
            &&& peer == id_of(blake3_digest(cert.ed_pub@))
            &&& ed25519_valid(
                cert.ed_pub@,
                cert_message_of(Role::Initiator, cert.noise_static_pub@),
                cert.sig@,
            )
        },
{
}

/// A datagram too long for the link is ignored. The first payload that arrives shows that
/// the peer has the acknowledgment, which is not sent again; and its nonce is used up.
pub proof fn law_first_payload_ends_the_repeats(
    v: SessionView,
    datagram: Seq<u8>,
    room: nat,
    again: Seq<u8>,
)
    ensures
        datagram.len() > room + TRANSPORT_OVERHEAD && !(v.finish matches Some(f) && f.0
            == datagram) ==> received(v, datagram, room) == (v, OpenedView::Ignored),
        received(v, datagram, room).1 is Payload ==> ({
            let (w, _) = received(v, datagram, room);
            &&& w.finish is None
            &&& w.sending == v.sending && w.receiving == v.receiving && w.send_nonce
                == v.send_nonce
            &&& !(received(w, again, room).1 is Repeat)
            &&& received(w, datagram, room) == (w, OpenedView::Ignored)
        }),
{
    if received(v, datagram, room).1 is Payload {
        law_session_takes_each_datagram_once(v, datagram);
    }
}

} // verus!
