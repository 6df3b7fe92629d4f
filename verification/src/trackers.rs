//! Tracker interface: the announce request URL and the decoded response.
use vstd::prelude::*;

use vstd::string::StringExecFns;

use crate::bencode_format::{dict_get, BencodeValue};
use crate::bencode_model::{dict_lookup, enc, Bval};
use crate::digits::{dec_chars, push_dec_str};
use crate::error::TorrentError;
use crate::torrent_file::{info_dict, MetaInfoFile};
use crate::url_encode::{url_chars, url_encode};
use crate::utils::sha1_of;

verus! {

/// The bytes of the "interval" key.
pub open spec fn k_interval() -> Seq<u8> {
    seq![105u8, 110, 116, 101, 114, 118, 97, 108]
}

/// The bytes of the "peers" key.
pub open spec fn k_peers() -> Seq<u8> {
    seq![112u8, 101, 101, 114, 115]
}

/// A tracker's reply: the polling interval and the compact peer list, six
/// bytes per peer.
#[derive(Debug)]
pub struct TrackerResponse {
    pub interval: i64,
    pub peers: Vec<u8>,
}

/// An IPv4 endpoint from the compact peer list.
#[derive(Debug, Clone, Copy, PartialEq, Eq)]
pub struct PeerEndpoint {
    pub ip: [u8; 4],
    pub port: u16,
}

/// Whether a decoded tracker reply has the expected shape: an integer
/// `interval`, and `peers` absent or a byte string.
pub open spec fn tracker_shape_ok(v: Bval) -> bool {
    match v {
        Bval::Dict(d) => {
            &&& dict_lookup(d, k_interval()) matches Some(Bval::Int(_))
            &&& match dict_lookup(d, k_peers()) {
                None => true,
                Some(Bval::Str(_)) => true,
                _ => false,
            }
        },
        _ => false,
    }
}

/// The interval of a well-shaped tracker reply.
pub open spec fn tracker_interval(v: Bval) -> i64 {
    dict_lookup(v->Dict_0, k_interval())->Some_0->Int_0
}

/// The peer blob of a well-shaped tracker reply; empty when absent.
pub open spec fn tracker_peers(v: Bval) -> Seq<u8> {
    match dict_lookup(v->Dict_0, k_peers()) {
        Some(Bval::Str(s)) => s,
        _ => seq![],
    }
}

impl TrackerResponse {
    /// Decodes a parsed bencode value into a tracker reply. A missing peer
    /// list means an empty one; any other malformed shape is a hard error.
    pub fn from_bencode(v: &BencodeValue) -> (r: Result<TrackerResponse, TorrentError>)
        ensures
            match r {
                Ok(t) => tracker_shape_ok(v@) && t.interval == tracker_interval(v@) && t.peers@
                    == tracker_peers(v@),
                Err(e) => !tracker_shape_ok(v@) && e matches TorrentError::Shape(_),
            },
    {
        let entries = match v {
            BencodeValue::Dict(entries) => entries,
            _ => {
                return Err(
                    TorrentError::Shape(shape_text("tracker reply is not a dictionary")),
                );
            },
        };
        let key_interval: [u8; 8] = [105, 110, 116, 101, 114, 118, 97, 108];
        let key_peers: [u8; 5] = [112, 101, 101, 114, 115];
        let interval = match dict_get(entries, key_interval.as_slice()) {
            Some(BencodeValue::Integer(i)) => *i,
            _ => {
                return Err(
                    TorrentError::Shape(shape_text("interval is missing or not an integer")),
                );
            },
        };
        let peers = match dict_get(entries, key_peers.as_slice()) {
            None => Vec::new(),
            Some(BencodeValue::Data(t)) => vstd::slice::slice_to_vec(t.0.as_slice()),
            Some(_) => {
                return Err(TorrentError::Shape(shape_text("peers is not a byte string")));
            },
        };
        Ok(TrackerResponse { interval, peers })
    }

    /// The peer endpoints of the compact list: each six bytes are four raw
    /// IPv4 octets and a big-endian port. The caller checks the blob's shape;
    /// on a length that is no multiple of six the original aborts, so that
    /// input is excluded here.
    pub fn peer_addrs(&self) -> (r: Vec<PeerEndpoint>)
        requires
            self.peers@.len() % 6 == 0,
        ensures
            r@.len() == self.peers@.len() / 6,
            forall|i: int|
                0 <= i < r@.len() ==> (#[trigger] r@[i]).ip@ == self.peers@.subrange(
                    6 * i,
                    6 * i + 4,
                ) && r@[i].port == self.peers@[6 * i + 4] * 256 + self.peers@[6 * i + 5],
    {
        let count = self.peers.len() / 6;
        let mut r: Vec<PeerEndpoint> = Vec::new();
        let mut i: usize = 0;
        while i < count
            invariant
                i <= count,
                count == self.peers@.len() / 6,
                self.peers@.len() % 6 == 0,
                self.peers@.len() <= usize::MAX,
                r@.len() == i,
                forall|j: int|
                    0 <= j < i ==> (#[trigger] r@[j]).ip@ == self.peers@.subrange(
                        6 * j,
                        6 * j + 4,
                    ) && r@[j].port == self.peers@[6 * j + 4] * 256 + self.peers@[6 * j + 5],
            decreases count - i,
        {
            proof {
                vstd::arithmetic::div_mod::lemma_fundamental_div_mod(self.peers@.len() as int, 6);
                assert(6 * (i as int + 1) <= self.peers@.len());
            }
            let base = 6 * i;
            let ip: [u8; 4] = [
                self.peers[base],
                self.peers[base + 1],
                self.peers[base + 2],
                self.peers[base + 3],
            ];
            let port = (self.peers[base + 4] as u16) * 256 + (self.peers[base + 5] as u16);
            let ep = PeerEndpoint { ip, port };
            proof {
                assert(ep.ip@ =~= self.peers@.subrange(6 * i as int, 6 * i as int + 4));
            }
            r.push(ep);
            i += 1;
        }
        r
    }
}

/// The full announce request URL: the tracker's base URL, the byte-escaped
/// info-hash and peer identifier, and the fixed download counters.
pub open spec fn query_url_chars(
    announce: Seq<char>,
    info_hash: Seq<u8>,
    length: u32,
    peer_id: Seq<u8>,
    port: u16,
) -> Seq<char> {
    announce + "?info_hash="@ + url_chars(info_hash) + "&left="@ + dec_chars(length as nat)
        + "&peer_id="@ + url_chars(peer_id) + "&port="@ + dec_chars(port as nat)
        + "&uploaded=0&downloaded=0&compact=1"@
}

/// Builds the announce request URL for `meta`. Both the info-hash and the
/// peer identifier are percent-escaped byte by byte.
pub fn query_url(meta: &MetaInfoFile, peer_id: &[u8; 20], port: u16) -> (r: String)
    ensures
        r@ == query_url_chars(
            meta.announce@,
            sha1_of(enc(info_dict(meta.info))),
            meta.info.length,
            peer_id@,
            port,
        ),
{
    let mut s = String::new();
    s.append(meta.announce.as_str());
    s.append("?info_hash=");
    let h = meta.info.info_hash_bytes();
    let hs = url_encode(h.as_slice());
    s.append(hs.as_str());
    s.append("&left=");
    push_dec_str(&mut s, meta.info.length as u64);
    s.append("&peer_id=");
    let ps = url_encode(peer_id.as_slice());
    s.append(ps.as_str());
    s.append("&port=");
    push_dec_str(&mut s, port as u64);
    s.append("&uploaded=0&downloaded=0&compact=1");
    assert(s@ =~= query_url_chars(
        meta.announce@,
        sha1_of(enc(info_dict(meta.info))),
        meta.info.length,
        peer_id@,
        port,
    ));
    s
}

/// Copies a shape-error message.
fn shape_text(msg: &str) -> (r: String)
    ensures
        r@ == msg@,
{
    String::from_str(msg)
}

} // verus!
