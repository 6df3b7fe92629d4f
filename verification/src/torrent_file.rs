//! Torrent metadata: the decoded dictionary shape and the info-hash derived
//! from its canonical re-encoding.
use vstd::prelude::*;

use vstd::string::{StringExecFns, StringSliceAdditionalSpecFns};
use vstd::utf8::encode_utf8;

use crate::bencode_format::{dict_get, entries_view, BencodeText, BencodeValue};
use crate::bencode_model::{dict_lookup, enc, Bval};
use crate::digits::hex_chars;
use crate::error::TorrentError;
use crate::utils::{bytes_to_string_lossy, hash_sha1, lossy_chars, sha1_of};

verus! {

/// The bytes of the "announce" key.
pub open spec fn k_announce() -> Seq<u8> {
    seq![97u8, 110, 110, 111, 117, 110, 99, 101]
}

/// The bytes of the "info" key.
pub open spec fn k_info() -> Seq<u8> {
    seq![105u8, 110, 102, 111]
}

/// The bytes of the "created_by" key.
pub open spec fn k_created_by() -> Seq<u8> {
    seq![99u8, 114, 101, 97, 116, 101, 100, 95, 98, 121]
}

/// The bytes of the "comment" key.
pub open spec fn k_comment() -> Seq<u8> {
    seq![99u8, 111, 109, 109, 101, 110, 116]
}

/// The bytes of the "name" key.
pub open spec fn k_name() -> Seq<u8> {
    seq![110u8, 97, 109, 101]
}

/// The bytes of the "length" key.
pub open spec fn k_length() -> Seq<u8> {
    seq![108u8, 101, 110, 103, 116, 104]
}

/// The bytes of the "piece length" key.
pub open spec fn k_piece_length() -> Seq<u8> {
    seq![112u8, 105, 101, 99, 101, 32, 108, 101, 110, 103, 116, 104]
}

/// The bytes of the "pieces" key.
pub open spec fn k_pieces() -> Seq<u8> {
    seq![112u8, 105, 101, 99, 101, 115]
}

/// A whole metadata file: the tracker URL, the single-file info dictionary,
/// and the optional provenance strings.
#[derive(Debug)]
pub struct MetaInfoFile {
    pub announce: String,
    pub info: InfoSingleFile,
    pub created_by: Option<String>,
    pub comment: Option<String>,
}

/// The info dictionary of a single-file torrent.
#[derive(Debug)]
pub struct InfoSingleFile {
    pub name: String,
    pub length: u32,
    pub piece_length: u32,
    pub pieces: Vec<u8>,
}

/// The canonical dictionary over which the info-hash is computed: exactly
/// name, length, piece length and pieces, in raw-byte key order.
pub open spec fn info_dict(info: InfoSingleFile) -> Bval {
    Bval::Dict(
        seq![
            (k_length(), Bval::Int(info.length as i64)),
            (k_name(), Bval::Str(encode_utf8(info.name@))),
            (k_piece_length(), Bval::Int(info.piece_length as i64)),
            (k_pieces(), Bval::Str(info.pieces@)),
        ],
    )
}

/// Relies on hex::encode: two lower-case hex digits per byte, in order.
#[verifier::external_body]
fn to_hex(b: &[u8]) -> (r: String)
    ensures
        r@ == hex_chars(b@),
{
    hex::encode(b)
}

impl InfoSingleFile {
    /// The 20-byte info-hash: the digest of the canonical encoding of
    /// exactly {name, length, piece length, pieces}; any other metadata keys
    /// are ignored, and the piece-hash blob goes in as raw bytes.
    pub fn info_hash_bytes(&self) -> (r: [u8; 20])
        ensures
            r@ == sha1_of(enc(info_dict(*self))),
    {
        let mut entries: Vec<(BencodeText, BencodeValue)> = Vec::new();
        let key_length: [u8; 6] = [108, 101, 110, 103, 116, 104];
        let key_name: [u8; 4] = [110, 97, 109, 101];
        let key_piece_length: [u8; 12] = [112, 105, 101, 99, 101, 32, 108, 101, 110, 103, 116, 104];
        let key_pieces: [u8; 6] = [112, 105, 101, 99, 101, 115];
        entries.push(
            (BencodeText::new(key_length.as_slice()), BencodeValue::Integer(self.length as i64)),
        );
        let name_str: &str = self.name.as_str();
        let name_bytes: &[u8] = name_str.as_bytes();
        proof {
            assert(name_bytes@ == name_str.spec_bytes());
            assert(name_str.spec_bytes() == encode_utf8(self.name@));
        }
        entries.push(
            (
                BencodeText::new(key_name.as_slice()),
                BencodeValue::Data(BencodeText::new(name_bytes)),
            ),
        );
        entries.push(
            (
                BencodeText::new(key_piece_length.as_slice()),
                BencodeValue::Integer(self.piece_length as i64),
            ),
        );
        entries.push(
            (
                BencodeText::new(key_pieces.as_slice()),
                BencodeValue::Data(BencodeText::new(self.pieces.as_slice())),
            ),
        );
        let content = BencodeValue::Dict(entries);
        proof {
            let es = entries@;
            assert(es.len() == 4);
            assert(content@ == Bval::Dict(entries_view(es)));
            assert(entries_view(es).len() == 4);
            assert(entries_view(es)[0] == (es[0].0@, es[0].1@));
            assert(entries_view(es)[1] == (es[1].0@, es[1].1@));
            assert(entries_view(es)[2] == (es[2].0@, es[2].1@));
            assert(entries_view(es)[3] == (es[3].0@, es[3].1@));
            assert(key_length@ =~= k_length());
            assert(key_name@ =~= k_name());
            assert(key_piece_length@ =~= k_piece_length());
            assert(key_pieces@ =~= k_pieces());
            assert(es[0].1@ == Bval::Int(self.length as i64));
            assert(es[1].1@ == Bval::Str(encode_utf8(self.name@)));
            assert(es[2].1@ == Bval::Int(self.piece_length as i64));
            assert(es[3].1@ == Bval::Str(self.pieces@));
            assert(entries_view(es) =~= info_dict(*self)->Dict_0);
        }
        let mut buf: Vec<u8> = Vec::new();
        content.encode(&mut buf);
        assert(buf@ =~= enc(info_dict(*self)));
        hash_sha1(buf.as_slice())
    }

    /// The info-hash as forty lower-case hex digits.
    pub fn info_hash(&self) -> (r: String)
        ensures
            r@ == hex_chars(sha1_of(enc(info_dict(*self)))),
    {
        let h = self.info_hash_bytes();
        to_hex(h.as_slice())
    }

    /// How many pieces the blob of 20-byte digests describes. The caller
    /// checks the blob's shape; on a blob that is no multiple of 20 the
    /// original aborts, so that input is excluded here.
    pub fn pieces_count(&self) -> (r: usize)
        requires
            self.pieces@.len() % 20 == 0,
        ensures
            r == self.pieces@.len() / 20,
    {
        self.pieces.len() / 20
    }

    /// The per-piece digests, each as forty lower-case hex digits, in piece
    /// order.
    pub fn pieces_hashes(&self) -> (r: Vec<String>)
        requires
            self.pieces@.len() % 20 == 0,
        ensures
            r@.len() == self.pieces@.len() / 20,
            forall|i: int|
                0 <= i < r@.len() ==> r@[i]@ == hex_chars(
                    #[trigger] self.pieces@.subrange(20 * i, 20 * i + 20),
                ),
    {
        let count = self.pieces.len() / 20;
        let mut r: Vec<String> = Vec::new();
        let mut i: usize = 0;
        while i < count
            invariant
                i <= count,
                count == self.pieces@.len() / 20,
                self.pieces@.len() % 20 == 0,
                self.pieces@.len() <= usize::MAX,
                r@.len() == i,
                forall|j: int|
                    0 <= j < i ==> r@[j]@ == hex_chars(
                        #[trigger] self.pieces@.subrange(20 * j, 20 * j + 20),
                    ),
            decreases count - i,
        {
            proof {
                vstd::arithmetic::div_mod::lemma_fundamental_div_mod(
                    self.pieces@.len() as int,
                    20,
                );
                assert(20 * (i as int + 1) <= self.pieces@.len());
            }
            let chunk = vstd::slice::slice_subrange(self.pieces.as_slice(), 20 * i, 20 * i + 20);
            let h = to_hex(chunk);
            r.push(h);
            i += 1;
        }
        r
    }
}

/// Whether `o` is absent or a byte string, as the optional metadata strings
/// must be.
pub open spec fn opt_str_ok(o: Option<Bval>) -> bool {
    match o {
        None => true,
        Some(Bval::Str(_)) => true,
        _ => false,
    }
}

/// Whether `o` is an integer that fits an unsigned 32-bit field.
pub open spec fn int_u32_ok(o: Option<Bval>) -> bool {
    match o {
        Some(Bval::Int(i)) => 0 <= i <= u32::MAX,
        _ => false,
    }
}

/// Whether a decoded value has the exact shape of a single-file metadata
/// dictionary.
pub open spec fn meta_shape_ok(v: Bval) -> bool {
    match v {
        Bval::Dict(d) => {
            &&& dict_lookup(d, k_announce()) matches Some(Bval::Str(_))
            &&& opt_str_ok(dict_lookup(d, k_created_by()))
            &&& opt_str_ok(dict_lookup(d, k_comment()))
            &&& match dict_lookup(d, k_info()) {
                Some(Bval::Dict(di)) => {
                    &&& dict_lookup(di, k_name()) matches Some(Bval::Str(_))
                    &&& int_u32_ok(dict_lookup(di, k_length()))
                    &&& int_u32_ok(dict_lookup(di, k_piece_length()))
                    &&& dict_lookup(di, k_pieces()) matches Some(Bval::Str(_))
                },
                _ => false,
            }
        },
        _ => false,
    }
}

/// The announce bytes of a well-shaped metadata value.
pub open spec fn meta_announce(v: Bval) -> Seq<u8> {
    dict_lookup(v->Dict_0, k_announce())->Some_0->Str_0
}

/// The info dictionary of a well-shaped metadata value.
pub open spec fn meta_info(v: Bval) -> Seq<(Seq<u8>, Bval)> {
    dict_lookup(v->Dict_0, k_info())->Some_0->Dict_0
}

/// The name bytes of a well-shaped metadata value.
pub open spec fn meta_name(v: Bval) -> Seq<u8> {
    dict_lookup(meta_info(v), k_name())->Some_0->Str_0
}

/// The length field of a well-shaped metadata value.
pub open spec fn meta_length(v: Bval) -> i64 {
    dict_lookup(meta_info(v), k_length())->Some_0->Int_0
}

/// The piece length field of a well-shaped metadata value.
pub open spec fn meta_piece_length(v: Bval) -> i64 {
    dict_lookup(meta_info(v), k_piece_length())->Some_0->Int_0
}

/// The raw piece-hash blob of a well-shaped metadata value.
pub open spec fn meta_pieces(v: Bval) -> Seq<u8> {
    dict_lookup(meta_info(v), k_pieces())->Some_0->Str_0
}

/// The optional string under `k`, if the metadata value carries one.
pub open spec fn meta_opt(v: Bval, k: Seq<u8>) -> Option<Seq<u8>> {
    match dict_lookup(v->Dict_0, k) {
        Some(Bval::Str(s)) => Some(s),
        _ => None,
    }
}

impl MetaInfoFile {
    /// Decodes a parsed bencode value into typed metadata. A malformed shape
    /// is a hard error; strings become text lossily, but the piece-hash blob
    /// is kept as raw bytes.
    pub fn from_bencode(v: &BencodeValue) -> (r: Result<MetaInfoFile, TorrentError>)
        ensures
            match r {
                Ok(m) => meta_shape_ok(v@) && m.announce@ == lossy_chars(meta_announce(v@))
                    && m.info.name@ == lossy_chars(meta_name(v@)) && m.info.length
                    == meta_length(v@) && m.info.piece_length == meta_piece_length(v@)
                    && m.info.pieces@ == meta_pieces(v@) && (match m.created_by {
                    None => meta_opt(v@, k_created_by()) is None,
                    Some(s) => meta_opt(v@, k_created_by()) matches Some(b) && s@ == lossy_chars(
                        b,
                    ),
                }) && (match m.comment {
                    None => meta_opt(v@, k_comment()) is None,
                    Some(s) => meta_opt(v@, k_comment()) matches Some(b) && s@ == lossy_chars(b),
                }),
                Err(e) => !meta_shape_ok(v@) && e matches TorrentError::Shape(_),
            },
    {
        let entries = match v {
            BencodeValue::Dict(entries) => entries,
            _ => {
                return Err(TorrentError::Shape(shape_msg("metadata is not a dictionary")));
            },
        };
        let key_announce: [u8; 8] = [97, 110, 110, 111, 117, 110, 99, 101];
        let key_info: [u8; 4] = [105, 110, 102, 111];
        let key_created_by: [u8; 10] = [99, 114, 101, 97, 116, 101, 100, 95, 98, 121];
        let key_comment: [u8; 7] = [99, 111, 109, 109, 101, 110, 116];
        let key_name: [u8; 4] = [110, 97, 109, 101];
        let key_length: [u8; 6] = [108, 101, 110, 103, 116, 104];
        let key_piece_length: [u8; 12] = [112, 105, 101, 99, 101, 32, 108, 101, 110, 103, 116, 104];
        let key_pieces: [u8; 6] = [112, 105, 101, 99, 101, 115];
        let announce = match dict_get(entries, key_announce.as_slice()) {
            Some(BencodeValue::Data(t)) => bytes_to_string_lossy(t.0.as_slice()),
            _ => {
                return Err(TorrentError::Shape(shape_msg("announce is missing or not a string")));
            },
        };
        let created_by = match dict_get(entries, key_created_by.as_slice()) {
            None => None,
            Some(BencodeValue::Data(t)) => Some(bytes_to_string_lossy(t.0.as_slice())),
            Some(_) => {
                return Err(TorrentError::Shape(shape_msg("created_by is not a string")));
            },
        };
        let comment = match dict_get(entries, key_comment.as_slice()) {
            None => None,
            Some(BencodeValue::Data(t)) => Some(bytes_to_string_lossy(t.0.as_slice())),
            Some(_) => {
                return Err(TorrentError::Shape(shape_msg("comment is not a string")));
            },
        };
        let info_entries = match dict_get(entries, key_info.as_slice()) {
            Some(BencodeValue::Dict(info_entries)) => info_entries,
            _ => {
                return Err(TorrentError::Shape(shape_msg("info is missing or not a dictionary")));
            },
        };
        let name = match dict_get(info_entries, key_name.as_slice()) {
            Some(BencodeValue::Data(t)) => bytes_to_string_lossy(t.0.as_slice()),
            _ => {
                return Err(TorrentError::Shape(shape_msg("name is missing or not a string")));
            },
        };
        let length = match dict_get(info_entries, key_length.as_slice()) {
            Some(BencodeValue::Integer(i)) => {
                if *i < 0 || *i > u32::MAX as i64 {
                    return Err(TorrentError::Shape(shape_msg("length is out of range")));
                }
                *i as u32
            },
            _ => {
                return Err(TorrentError::Shape(shape_msg("length is missing or not an integer")));
            },
        };
        let piece_length = match dict_get(info_entries, key_piece_length.as_slice()) {
            Some(BencodeValue::Integer(i)) => {
                if *i < 0 || *i > u32::MAX as i64 {
                    return Err(TorrentError::Shape(shape_msg("piece length is out of range")));
                }
                *i as u32
            },
            _ => {
                return Err(
                    TorrentError::Shape(shape_msg("piece length is missing or not an integer")),
                );
            },
        };
        let pieces = match dict_get(info_entries, key_pieces.as_slice()) {
            Some(BencodeValue::Data(t)) => vstd::slice::slice_to_vec(t.0.as_slice()),
            _ => {
                return Err(TorrentError::Shape(shape_msg("pieces is missing or not a string")));
            },
        };
        Ok(
            MetaInfoFile {
                announce,
                info: InfoSingleFile { name, length, piece_length, pieces },
                created_by,
                comment,
            },
        )
    }
}

/// Copies a shape-error message.
fn shape_msg(msg: &str) -> (r: String)
    ensures
        r@ == msg@,
{
    String::from_str(msg)
}


/// Law: the info-hash is a function of exactly the {name, length,
/// piece length, pieces} tuple - two infos that agree on those four fields
/// have the same digest, whatever else their metadata carried.
pub proof fn lemma_info_hash_deterministic(a: InfoSingleFile, b: InfoSingleFile)
    requires
        a.name@ == b.name@,
        a.length == b.length,
        a.piece_length == b.piece_length,
        a.pieces@ == b.pieces@,
    ensures
        sha1_of(enc(info_dict(a))) == sha1_of(enc(info_dict(b))),
{
    assert(info_dict(a)->Dict_0 =~= info_dict(b)->Dict_0);
}

} // verus!
