//! Peer wire protocol: the 68-byte handshake and the length-prefixed message
//! frames, specified byte-for-byte.
use vstd::prelude::*;

use vstd::slice::{slice_subrange, slice_to_vec};

use crate::error::TorrentError;

verus! {

/// Error for a message ID outside the protocol's range 0..=8.
#[derive(Debug, PartialEq, Eq, Structural)]
pub struct InvalidMessageId;

/// The nine message kinds of the protocol.
#[derive(Debug, PartialEq, Eq, Structural, Clone, Copy)]
pub enum PeerMessageId {
    Choke,
    Unchoke,
    Interested,
    NotInterested,
    Have,
    BitField,
    Request,
    Piece,
    Cancel,
}

/// The wire ID of a message kind.
pub open spec fn id_code(k: PeerMessageId) -> u8 {
    match k {
        PeerMessageId::Choke => 0,
        PeerMessageId::Unchoke => 1,
        PeerMessageId::Interested => 2,
        PeerMessageId::NotInterested => 3,
        PeerMessageId::Have => 4,
        PeerMessageId::BitField => 5,
        PeerMessageId::Request => 6,
        PeerMessageId::Piece => 7,
        PeerMessageId::Cancel => 8,
    }
}

impl PeerMessageId {
    /// The message kind carried by a wire ID; exactly the values 0..=8 name
    /// one.
    pub fn from_code(value: u8) -> (r: Result<Self, InvalidMessageId>)
        ensures
            value <= 8 ==> (r matches Ok(k) && id_code(k) == value),
            value > 8 ==> r == Err::<Self, InvalidMessageId>(InvalidMessageId),
    {
        match value {
            0 => Ok(PeerMessageId::Choke),
            1 => Ok(PeerMessageId::Unchoke),
            2 => Ok(PeerMessageId::Interested),
            3 => Ok(PeerMessageId::NotInterested),
            4 => Ok(PeerMessageId::Have),
            5 => Ok(PeerMessageId::BitField),
            6 => Ok(PeerMessageId::Request),
            7 => Ok(PeerMessageId::Piece),
            8 => Ok(PeerMessageId::Cancel),
            _ => Err(InvalidMessageId),
        }
    }

    /// The wire ID of this kind.
    pub fn code(self) -> (r: u8)
        ensures
            r == id_code(self),
    {
        match self {
            PeerMessageId::Choke => 0,
            PeerMessageId::Unchoke => 1,
            PeerMessageId::Interested => 2,
            PeerMessageId::NotInterested => 3,
            PeerMessageId::Have => 4,
            PeerMessageId::BitField => 5,
            PeerMessageId::Request => 6,
            PeerMessageId::Piece => 7,
            PeerMessageId::Cancel => 8,
        }
    }
}

/// Mathematical form of a peer message.
pub enum MsgModel {
    Choke,
    Unchoke,
    Interested,
    NotInterested,
    Have(u32),
    BitField(Seq<u8>),
    Request { index: u32, begin: u32, length: u32 },
    Piece { index: u32, begin: u32, block: Seq<u8> },
    Cancel { index: u32, begin: u32, length: u32 },
}

/// A peer wire message.
#[derive(Debug, Eq)]
pub enum PeerMessage {
    Choke,
    Unchoke,
    Interested,
    NotInterested,
    Have(u32),
    BitField(Vec<u8>),
    Request { index: u32, begin: u32, length: u32 },
    Piece { index: u32, begin: u32, block: Vec<u8> },
    Cancel { index: u32, begin: u32, length: u32 },
}

impl View for PeerMessage {
    type V = MsgModel;

    open spec fn view(&self) -> MsgModel {
        match self {
            PeerMessage::Choke => MsgModel::Choke,
            PeerMessage::Unchoke => MsgModel::Unchoke,
            PeerMessage::Interested => MsgModel::Interested,
            PeerMessage::NotInterested => MsgModel::NotInterested,
            PeerMessage::Have(ix) => MsgModel::Have(*ix),
            PeerMessage::BitField(b) => MsgModel::BitField(b@),
            PeerMessage::Request { index, begin, length } => MsgModel::Request {
                index: *index,
                begin: *begin,
                length: *length,
            },
            PeerMessage::Piece { index, begin, block } => MsgModel::Piece {
                index: *index,
                begin: *begin,
                block: block@,
            },
            PeerMessage::Cancel { index, begin, length } => MsgModel::Cancel {
                index: *index,
                begin: *begin,
                length: *length,
            },
        }
    }
}

/// Byte-vector equality, stated over the views.
fn bytes_eq(a: &Vec<u8>, b: &Vec<u8>) -> (r: bool)
    ensures
        r == (a@ == b@),
{
    let r = a == b;
    proof {
        if r {
            assert(a@ =~= b@);
        }
        if a@ == b@ {
            assert(r);
        }
    }
    r
}

impl PartialEq for PeerMessage {
    fn eq(&self, other: &Self) -> bool {
        match (self, other) {
            (PeerMessage::Choke, PeerMessage::Choke) => true,
            (PeerMessage::Unchoke, PeerMessage::Unchoke) => true,
            (PeerMessage::Interested, PeerMessage::Interested) => true,
            (PeerMessage::NotInterested, PeerMessage::NotInterested) => true,
            (PeerMessage::Have(x), PeerMessage::Have(y)) => x == y,
            (PeerMessage::BitField(x), PeerMessage::BitField(y)) => bytes_eq(x, y),
            (
                PeerMessage::Request { index: i1, begin: b1, length: l1 },
                PeerMessage::Request { index: i2, begin: b2, length: l2 },
            ) => i1 == i2 && b1 == b2 && l1 == l2,
            (
                PeerMessage::Piece { index: i1, begin: b1, block: k1 },
                PeerMessage::Piece { index: i2, begin: b2, block: k2 },
            ) => i1 == i2 && b1 == b2 && bytes_eq(k1, k2),
            (
                PeerMessage::Cancel { index: i1, begin: b1, length: l1 },
                PeerMessage::Cancel { index: i2, begin: b2, length: l2 },
            ) => i1 == i2 && b1 == b2 && l1 == l2,
            _ => {
                assert(self@ != other@);
                false
            },
        }
    }
}

impl vstd::std_specs::cmp::PartialEqSpecImpl for PeerMessage {
    open spec fn obeys_eq_spec() -> bool {
        true
    }

    open spec fn eq_spec(&self, other: &Self) -> bool {
        self@ == other@
    }
}

/// The four big-endian bytes of a 32-bit value.
pub open spec fn be32(n: u32) -> Seq<u8> {
    seq![
        (n / 0x1000000) as u8,
        ((n / 0x10000) % 0x100) as u8,
        ((n / 0x100) % 0x100) as u8,
        (n % 0x100) as u8,
    ]
}

/// The value carried by four big-endian bytes.
pub open spec fn be32_val(b: Seq<u8>) -> u32 {
    (b[0] * 0x1000000 + b[1] * 0x10000 + b[2] * 0x100 + b[3]) as u32
}

/// Reading back the four big-endian bytes of `n` gives `n`.
pub proof fn lemma_be32_round_trip(n: u32)
    ensures
        be32_val(be32(n)) == n,
{
    assert(n == (n / 0x1000000) * 0x1000000 + ((n / 0x10000) % 0x100) * 0x10000 + ((n / 0x100)
        % 0x100) * 0x100 + n % 0x100) by (nonlinear_arith);
}

/// The wire ID of a message.
pub open spec fn msg_code(m: MsgModel) -> u8 {
    match m {
        MsgModel::Choke => 0,
        MsgModel::Unchoke => 1,
        MsgModel::Interested => 2,
        MsgModel::NotInterested => 3,
        MsgModel::Have(_) => 4,
        MsgModel::BitField(_) => 5,
        MsgModel::Request { .. } => 6,
        MsgModel::Piece { .. } => 7,
        MsgModel::Cancel { .. } => 8,
    }
}

/// The payload bytes that follow a message's ID byte.
pub open spec fn payload_bytes(m: MsgModel) -> Seq<u8> {
    match m {
        MsgModel::Choke => seq![],
        MsgModel::Unchoke => seq![],
        MsgModel::Interested => seq![],
        MsgModel::NotInterested => seq![],
        MsgModel::Have(ix) => be32(ix),
        MsgModel::BitField(b) => b,
        MsgModel::Request { index, begin, length } => be32(index) + be32(begin) + be32(length),
        MsgModel::Piece { index, begin, block } => be32(index) + be32(begin) + block,
        MsgModel::Cancel { index, begin, length } => be32(index) + be32(begin) + be32(length),
    }
}

/// A message small enough that its frame length fits the 32-bit prefix.
pub open spec fn msg_wf(m: MsgModel) -> bool {
    payload_bytes(m).len() + 1 <= u32::MAX
}

/// The complete frame of a message: big-endian length, ID byte, payload.
pub open spec fn frame_bytes(m: MsgModel) -> Seq<u8> {
    be32((payload_bytes(m).len() + 1) as u32) + seq![msg_code(m)] + payload_bytes(m)
}

/// What a frame body - the ID byte and payload, after the length prefix -
/// decodes to. The empty body is the keep-alive and maps to `None`; an ID
/// above 8 is `InvalidMessageId`; a fixed-size message under any other
/// length, or a piece too short for its header, is `InvalidMessageSize`.
pub open spec fn parse_frame(body: Seq<u8>) -> Result<Option<MsgModel>, TorrentError> {
    if body.len() == 0 {
        Ok(None)
    } else {
        let id = body[0];
        let n = body.len() as int;
        if id == 0 {
            if n == 1 {
                Ok(Some(MsgModel::Choke))
            } else {
                Err(TorrentError::InvalidMessageSize)
            }
        } else if id == 1 {
            if n == 1 {
                Ok(Some(MsgModel::Unchoke))
            } else {
                Err(TorrentError::InvalidMessageSize)
            }
        } else if id == 2 {
            if n == 1 {
                Ok(Some(MsgModel::Interested))
            } else {
                Err(TorrentError::InvalidMessageSize)
            }
        } else if id == 3 {
            if n == 1 {
                Ok(Some(MsgModel::NotInterested))
            } else {
                Err(TorrentError::InvalidMessageSize)
            }
        } else if id == 4 {
            if n == 5 {
                Ok(Some(MsgModel::Have(be32_val(body.subrange(1, 5)))))
            } else {
                Err(TorrentError::InvalidMessageSize)
            }
        } else if id == 5 {
            Ok(Some(MsgModel::BitField(body.subrange(1, n))))
        } else if id == 6 {
            if n == 13 {
                Ok(
                    Some(
                        MsgModel::Request {
                            index: be32_val(body.subrange(1, 5)),
                            begin: be32_val(body.subrange(5, 9)),
                            length: be32_val(body.subrange(9, 13)),
                        },
                    ),
                )
            } else {
                Err(TorrentError::InvalidMessageSize)
            }
        } else if id == 7 {
            if n >= 9 {
                Ok(
                    Some(
                        MsgModel::Piece {
                            index: be32_val(body.subrange(1, 5)),
                            begin: be32_val(body.subrange(5, 9)),
                            block: body.subrange(9, n),
                        },
                    ),
                )
            } else {
                Err(TorrentError::InvalidMessageSize)
            }
        } else if id == 8 {
            if n == 13 {
                Ok(
                    Some(
                        MsgModel::Cancel {
                            index: be32_val(body.subrange(1, 5)),
                            begin: be32_val(body.subrange(5, 9)),
                            length: be32_val(body.subrange(9, 13)),
                        },
                    ),
                )
            } else {
                Err(TorrentError::InvalidMessageSize)
            }
        } else {
            Err(TorrentError::InvalidMessageId)
        }
    }
}

/// Appends the four big-endian bytes of `n` to `out`.
pub fn push_be32(out: &mut Vec<u8>, n: u32)
    ensures
        final(out)@ == old(out)@ + be32(n),
{
    out.push((n / 0x1000000) as u8);
    out.push(((n / 0x10000) % 0x100) as u8);
    out.push(((n / 0x100) % 0x100) as u8);
    out.push((n % 0x100) as u8);
    assert(out@ =~= old(out)@ + be32(n));
}

/// The 32-bit value at offset `off` of `b`, big-endian.
pub fn read_be32(b: &[u8], off: usize) -> (r: u32)
    requires
        off + 4 <= b@.len(),
    ensures
        r == be32_val(b@.subrange(off as int, off as int + 4)),
{
    let r = (b[off] as u32) * 0x1000000 + (b[off + 1] as u32) * 0x10000 + (b[off + 2] as u32)
        * 0x100 + (b[off + 3] as u32);
    r
}

impl PeerMessage {
    /// Encodes this message as a complete frame, length prefix included.
    pub fn encode(&self) -> (r: Vec<u8>)
        requires
            msg_wf(self@),
        ensures
            r@ == frame_bytes(self@),
    {
        let mut out: Vec<u8> = Vec::new();
        match self {
            PeerMessage::Choke => {
                push_be32(&mut out, 1);
                out.push(0);
            },
            PeerMessage::Unchoke => {
                push_be32(&mut out, 1);
                out.push(1);
            },
            PeerMessage::Interested => {
                push_be32(&mut out, 1);
                out.push(2);
            },
            PeerMessage::NotInterested => {
                push_be32(&mut out, 1);
                out.push(3);
            },
            PeerMessage::Have(ix) => {
                push_be32(&mut out, 5);
                out.push(4);
                push_be32(&mut out, *ix);
            },
            PeerMessage::BitField(block) => {
                push_be32(&mut out, block.len() as u32 + 1);
                out.push(5);
                out.extend_from_slice(block.as_slice());
            },
            PeerMessage::Request { index, begin, length } => {
                push_be32(&mut out, 13);
                out.push(6);
                push_be32(&mut out, *index);
                push_be32(&mut out, *begin);
                push_be32(&mut out, *length);
            },
            PeerMessage::Piece { index, begin, block } => {
                push_be32(&mut out, block.len() as u32 + 9);
                out.push(7);
                push_be32(&mut out, *index);
                push_be32(&mut out, *begin);
                out.extend_from_slice(block.as_slice());
            },
            PeerMessage::Cancel { index, begin, length } => {
                push_be32(&mut out, 13);
                out.push(8);
                push_be32(&mut out, *index);
                push_be32(&mut out, *begin);
                push_be32(&mut out, *length);
            },
        }
        assert(out@ =~= frame_bytes(self@));
        out
    }

    /// Decodes a frame body, the bytes after the length prefix. The empty
    /// body is the keep-alive and yields `None`; the caller chooses how to
    /// treat it (the read loops of this crate's users skip it).
    pub fn decode(body: &[u8]) -> (r: Result<Option<PeerMessage>, TorrentError>)
        ensures
            match r {
                Ok(m) => {
                    let v = match m {
                        None => None,
                        Some(x) => Some(x@),
                    };
                    parse_frame(body@) == Ok::<Option<MsgModel>, TorrentError>(v)
                },
                Err(e) => parse_frame(body@) == Err::<Option<MsgModel>, TorrentError>(e),
            },
    {
        if body.len() == 0 {
            return Ok(None);
        }
        let id = body[0];
        let n = body.len();
        match PeerMessageId::from_code(id) {
            Err(_) => Err(TorrentError::InvalidMessageId),
            Ok(PeerMessageId::Choke) => {
                if n == 1 {
                    Ok(Some(PeerMessage::Choke))
                } else {
                    Err(TorrentError::InvalidMessageSize)
                }
            },
            Ok(PeerMessageId::Unchoke) => {
                if n == 1 {
                    Ok(Some(PeerMessage::Unchoke))
                } else {
                    Err(TorrentError::InvalidMessageSize)
                }
            },
            Ok(PeerMessageId::Interested) => {
                if n == 1 {
                    Ok(Some(PeerMessage::Interested))
                } else {
                    Err(TorrentError::InvalidMessageSize)
                }
            },
            Ok(PeerMessageId::NotInterested) => {
                if n == 1 {
                    Ok(Some(PeerMessage::NotInterested))
                } else {
                    Err(TorrentError::InvalidMessageSize)
                }
            },
            Ok(PeerMessageId::Have) => {
                if n == 5 {
                    Ok(Some(PeerMessage::Have(read_be32(body, 1))))
                } else {
                    Err(TorrentError::InvalidMessageSize)
                }
            },
            Ok(PeerMessageId::BitField) => {
                let block = slice_to_vec(slice_subrange(body, 1, n));
                Ok(Some(PeerMessage::BitField(block)))
            },
            Ok(PeerMessageId::Request) => {
                if n == 13 {
                    Ok(
                        Some(
                            PeerMessage::Request {
                                index: read_be32(body, 1),
                                begin: read_be32(body, 5),
                                length: read_be32(body, 9),
                            },
                        ),
                    )
                } else {
                    Err(TorrentError::InvalidMessageSize)
                }
            },
            Ok(PeerMessageId::Piece) => {
                if n >= 9 {
                    let index = read_be32(body, 1);
                    let begin = read_be32(body, 5);
                    let block = slice_to_vec(slice_subrange(body, 9, n));
                    Ok(Some(PeerMessage::Piece { index, begin, block }))
                } else {
                    Err(TorrentError::InvalidMessageSize)
                }
            },
            Ok(PeerMessageId::Cancel) => {
                if n == 13 {
                    Ok(
                        Some(
                            PeerMessage::Cancel {
                                index: read_be32(body, 1),
                                begin: read_be32(body, 5),
                                length: read_be32(body, 9),
                            },
                        ),
                    )
                } else {
                    Err(TorrentError::InvalidMessageSize)
                }
            },
        }
    }
}

/// The protocol name that opens every handshake.
pub open spec fn protocol_name_bytes() -> Seq<u8> {
    seq![
        66u8,
        105,
        116,
        84,
        111,
        114,
        114,
        101,
        110,
        116,
        32,
        112,
        114,
        111,
        116,
        111,
        99,
        111,
        108,
    ]
}

/// The 68 handshake bytes: 19, "BitTorrent protocol", eight zero reserved
/// bytes, the info-hash, the sender's 20-byte identifier.
pub open spec fn handshake_bytes(info_hash: Seq<u8>, peer_id: Seq<u8>) -> Seq<u8> {
    seq![19u8] + protocol_name_bytes() + seq![0u8, 0, 0, 0, 0, 0, 0, 0] + info_hash + peer_id
}

/// Builds the handshake to send for `info_hash`, signed with `peer_id`.
pub fn build_handshake(info_hash: &[u8; 20], peer_id: &[u8; 20]) -> (r: Vec<u8>)
    ensures
        r@ == handshake_bytes(info_hash@, peer_id@),
        r@.len() == 68,
{
    let mut v: Vec<u8> = Vec::new();
    v.push(19);
    let name: [u8; 19] = [
        66,
        105,
        116,
        84,
        111,
        114,
        114,
        101,
        110,
        116,
        32,
        112,
        114,
        111,
        116,
        111,
        99,
        111,
        108,
    ];
    v.extend_from_slice(name.as_slice());
    let reserved: [u8; 8] = [0, 0, 0, 0, 0, 0, 0, 0];
    v.extend_from_slice(reserved.as_slice());
    v.extend_from_slice(info_hash.as_slice());
    v.extend_from_slice(peer_id.as_slice());
    assert(v@ =~= handshake_bytes(info_hash@, peer_id@));
    v
}

/// The remote peer's identifier, bytes 48 to 68 of its handshake reply.
pub fn remote_peer_id(response: &[u8]) -> (r: Vec<u8>)
    requires
        response@.len() == 68,
    ensures
        r@ == response@.subrange(48, 68),
{
    slice_to_vec(slice_subrange(response, 48, 68))
}

/// The 32-bit value of a four-byte big-endian length prefix.
pub fn u32_from_be(b: &[u8]) -> (r: u32)
    requires
        b@.len() == 4,
    ensures
        r == be32_val(b@),
{
    let r = read_be32(b, 0);
    assert(b@.subrange(0, 4) =~= b@);
    r
}


/// Law: decoding a message's own frame gives the message back, and the
/// frame's length prefix is exactly the ID byte plus the payload.
pub proof fn lemma_frame_round_trip(m: MsgModel)
    requires
        msg_wf(m),
    ensures
        parse_frame(frame_bytes(m).skip(4)) == Ok::<Option<MsgModel>, TorrentError>(Some(m)),
        be32_val(frame_bytes(m).subrange(0, 4)) == payload_bytes(m).len() + 1,
{
    let body = frame_bytes(m).skip(4);
    let pl = payload_bytes(m);
    assert(frame_bytes(m).subrange(0, 4) =~= be32((pl.len() + 1) as u32));
    lemma_be32_round_trip((pl.len() + 1) as u32);
    assert(body =~= seq![msg_code(m)] + pl);
    match m {
        MsgModel::Choke => {
            assert(body.len() == 1);
        },
        MsgModel::Unchoke => {
            assert(body.len() == 1);
        },
        MsgModel::Interested => {
            assert(body.len() == 1);
        },
        MsgModel::NotInterested => {
            assert(body.len() == 1);
        },
        MsgModel::Have(ix) => {
            assert(body.subrange(1, 5) =~= be32(ix));
            lemma_be32_round_trip(ix);
        },
        MsgModel::BitField(b) => {
            assert(body.subrange(1, body.len() as int) =~= b);
        },
        MsgModel::Request { index, begin, length } => {
            assert(body.subrange(1, 5) =~= be32(index));
            assert(body.subrange(5, 9) =~= be32(begin));
            assert(body.subrange(9, 13) =~= be32(length));
            lemma_be32_round_trip(index);
            lemma_be32_round_trip(begin);
            lemma_be32_round_trip(length);
        },
        MsgModel::Piece { index, begin, block } => {
            assert(body.subrange(1, 5) =~= be32(index));
            assert(body.subrange(5, 9) =~= be32(begin));
            assert(body.subrange(9, body.len() as int) =~= block);
            lemma_be32_round_trip(index);
            lemma_be32_round_trip(begin);
        },
        MsgModel::Cancel { index, begin, length } => {
            assert(body.subrange(1, 5) =~= be32(index));
            assert(body.subrange(5, 9) =~= be32(begin));
            assert(body.subrange(9, 13) =~= be32(length));
            lemma_be32_round_trip(index);
            lemma_be32_round_trip(begin);
            lemma_be32_round_trip(length);
        },
    }
}

/// Where the post-handshake preamble stands: the peer's BitField is awaited
/// first, then - after the caller has sent Interested - its Unchoke.
#[derive(Debug, PartialEq, Eq, Structural, Clone, Copy)]
pub enum PreambleState {
    AwaitBitField,
    AwaitUnchoke,
    Ready,
}

/// One preamble step on a received message. A first message that is no
/// BitField answers None and the caller drops the connection; on the
/// transition away from AwaitBitField the caller sends Interested; any
/// message other than Unchoke while waiting is skipped.
pub fn preamble_step(state: PreambleState, msg: &PeerMessage) -> (r: Option<PreambleState>)
    ensures
        match state {
            PreambleState::AwaitBitField => {
                &&& (msg@ matches MsgModel::BitField(_)) ==> r == Some(
                    PreambleState::AwaitUnchoke,
                )
                &&& !(msg@ matches MsgModel::BitField(_)) ==> r is None
            },
            PreambleState::AwaitUnchoke => {
                &&& (msg@ matches MsgModel::Unchoke) ==> r == Some(PreambleState::Ready)
                &&& !(msg@ matches MsgModel::Unchoke) ==> r == Some(PreambleState::AwaitUnchoke)
            },
            PreambleState::Ready => r == Some(PreambleState::Ready),
        },
{
    match state {
        PreambleState::AwaitBitField => {
            match msg {
                PeerMessage::BitField(_) => Some(PreambleState::AwaitUnchoke),
                _ => None,
            }
        },
        PreambleState::AwaitUnchoke => {
            match msg {
                PeerMessage::Unchoke => Some(PreambleState::Ready),
                _ => Some(PreambleState::AwaitUnchoke),
            }
        },
        PreambleState::Ready => Some(PreambleState::Ready),
    }
}

} // verus!
