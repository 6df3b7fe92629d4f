//! Piece acquisition: planning the block requests of one piece, collecting
//! the blocks as they arrive in any order, and verifying the reassembled
//! bytes against the expected digest.
use vstd::prelude::*;

use vstd::arithmetic::div_mod::lemma_fundamental_div_mod;
use vstd::arithmetic::mul::lemma_mul_upper_bound;
use vstd::multiset::Multiset;

use crate::bencode_format::lex_cmp;
use crate::error::TorrentError;
use crate::peers::{MsgModel, PeerMessage};
use crate::utils::{hash_sha1, sha1_of};

verus! {

/// The protocol-conventional cap on one requested block: 16 KiB.
pub const BLOCK_SIZE: u32 = 16384;

/// The byte length of piece `index` when `total_length` bytes are cut into
/// pieces of `piece_length` bytes: max(0, min(pl * (index + 1), total) - pl * index).
pub open spec fn piece_size_spec(piece_length: u32, total_length: u32, index: u32) -> int {
    let hi_raw = ((index as int) + 1) * (piece_length as int);
    let hi = if hi_raw > total_length as int {
        total_length as int
    } else {
        hi_raw
    };
    let lo = (index as int) * (piece_length as int);
    if hi <= lo {
        0
    } else {
        hi - lo
    }
}

/// How many 16 KiB blocks a piece of `size` bytes needs.
pub open spec fn block_count_spec(size: u32) -> int {
    (size + 16383) / 16384
}

/// The length of block `i` of a piece of `size` bytes: 16 KiB, or what is
/// left for the last block.
pub open spec fn block_len_spec(size: u32, i: int) -> int {
    if size - 16384 * i < 16384 {
        size - 16384 * i
    } else {
        16384
    }
}

/// Computes a piece's byte length, exactly the spec formula.
pub fn piece_size(piece_length: u32, total_length: u32, index: u32) -> (r: u32)
    ensures
        r as int == piece_size_spec(piece_length, total_length, index),
{
    proof {
        lemma_mul_upper_bound(
            (index as int) + 1,
            0x1_0000_0000,
            piece_length as int,
            0xffff_ffff,
        );
        lemma_mul_upper_bound(index as int, 0x1_0000_0000, piece_length as int, 0xffff_ffff);
        assert(((index as int) + 1) * (piece_length as int) - (index as int) * (piece_length
            as int) == piece_length as int) by (nonlinear_arith);
    }
    let hi_raw = ((index as u64) + 1) * (piece_length as u64);
    let lo = (index as u64) * (piece_length as u64);
    let hi = if hi_raw > total_length as u64 {
        total_length as u64
    } else {
        hi_raw
    };
    if hi <= lo {
        0
    } else {
        (hi - lo) as u32
    }
}

/// Per-piece acquisition state: which piece, its planned byte length, and
/// the assembly buffer of (offset, block) fragments received so far.
pub struct PieceDownload {
    pub piece_index: u32,
    pub piece_len: u32,
    pub chunks: Vec<(u32, Vec<u8>)>,
}

/// Views of the fragments.
pub open spec fn chunks_view(s: Seq<(u32, Vec<u8>)>) -> Seq<(u32, Seq<u8>)> {
    Seq::new(s.len(), |i: int| (s[i].0, s[i].1@))
}

/// Insertion of `c` before the first fragment with a strictly greater
/// offset, so sorting is stable for equal offsets.
pub open spec fn chunk_insert_spec(s: Seq<(u32, Seq<u8>)>, c: (u32, Seq<u8>)) -> Seq<
    (u32, Seq<u8>),
>
    decreases s.len(),
{
    if s.len() == 0 {
        seq![c]
    } else if c.0 < s[0].0 {
        seq![c] + s
    } else {
        seq![s[0]] + chunk_insert_spec(s.drop_first(), c)
    }
}

/// Inserts the fragments of `s`, in order, into `acc`.
pub open spec fn chunk_sort_fold(acc: Seq<(u32, Seq<u8>)>, s: Seq<(u32, Seq<u8>)>) -> Seq<
    (u32, Seq<u8>),
>
    decreases s.len(),
{
    if s.len() == 0 {
        acc
    } else {
        chunk_sort_fold(chunk_insert_spec(acc, s[0]), s.drop_first())
    }
}

/// The fragments in offset order, ties kept in arrival order.
pub open spec fn chunk_sort(s: Seq<(u32, Seq<u8>)>) -> Seq<(u32, Seq<u8>)> {
    chunk_sort_fold(seq![], s)
}

/// The fragments' bytes, concatenated in the order given.
pub open spec fn concat_blocks(s: Seq<(u32, Seq<u8>)>) -> Seq<u8>
    decreases s.len(),
{
    if s.len() == 0 {
        seq![]
    } else {
        s[0].1 + concat_blocks(s.drop_first())
    }
}

/// The piece bytes a fragment buffer assembles to: sorted by offset, then
/// concatenated.
pub open spec fn assembled_bytes(s: Seq<(u32, Seq<u8>)>) -> Seq<u8> {
    concat_blocks(chunk_sort(s))
}

/// Inserts `c` into the offset-sorted `sorted`.
fn chunk_insert(sorted: Vec<(u32, Vec<u8>)>, c: (u32, Vec<u8>)) -> (r: Vec<(u32, Vec<u8>)>)
    ensures
        chunks_view(r@) == chunk_insert_spec(chunks_view(sorted@), (c.0, c.1@)),
    decreases sorted@.len(),
{
    let ghost g = chunks_view(sorted@);
    let ghost cv = (c.0, c.1@);
    if sorted.len() == 0 {
        let mut r = sorted;
        r.push(c);
        assert(chunks_view(r@) =~= chunk_insert_spec(g, cv));
        r
    } else if c.0 < sorted[0].0 {
        let mut r = sorted;
        r.insert(0, c);
        assert(chunks_view(r@) =~= seq![cv] + g);
        assert(chunks_view(r@) =~= chunk_insert_spec(g, cv));
        r
    } else {
        let mut r = sorted;
        let head = r.remove(0);
        let ghost hv = (head.0, head.1@);
        assert(chunks_view(r@) =~= g.drop_first());
        let rest = chunk_insert(r, c);
        let mut out = rest;
        out.insert(0, head);
        assert(chunks_view(out@) =~= seq![hv] + chunk_insert_spec(g.drop_first(), cv));
        assert(chunks_view(out@) =~= chunk_insert_spec(g, cv));
        out
    }
}

impl PieceDownload {
    /// Starts the acquisition of piece `index`.
    pub fn new(piece_length: u32, total_length: u32, index: u32) -> (s: Self)
        ensures
            s.piece_index == index,
            s.piece_len as int == piece_size_spec(piece_length, total_length, index),
            s.chunks@.len() == 0,
    {
        PieceDownload {
            piece_index: index,
            piece_len: piece_size(piece_length, total_length, index),
            chunks: Vec::new(),
        }
    }

    /// How many blocks the plan expects.
    pub fn expected_blocks(&self) -> (r: usize)
        ensures
            r as int == block_count_spec(self.piece_len),
    {
        (((self.piece_len as u64) + (BLOCK_SIZE as u64 - 1)) / (BLOCK_SIZE as u64)) as usize
    }

    /// The Request messages to send, one per block, in offset order: 16 KiB
    /// blocks, the last one holding the remainder.
    pub fn request_messages(&self) -> (r: Vec<PeerMessage>)
        ensures
            r@.len() == block_count_spec(self.piece_len),
            forall|i: int|
                0 <= i < r@.len() ==> (#[trigger] r@[i])@ == (MsgModel::Request {
                    index: self.piece_index,
                    begin: (16384 * i) as u32,
                    length: block_len_spec(self.piece_len, i) as u32,
                }),
    {
        let size = self.piece_len;
        let count = self.expected_blocks();
        proof {
            lemma_fundamental_div_mod((size + 16383) as int, 16384);
        }
        let mut r: Vec<PeerMessage> = Vec::new();
        let mut k: usize = 0;
        while k < count
            invariant
                k <= count,
                count as int == block_count_spec(size),
                16384 * (count as int) >= size,
                count > 0 ==> 16384 * ((count as int) - 1) < size,
                size <= 0xffff_ffff,
                r@.len() == k,
                forall|i: int|
                    0 <= i < k ==> (#[trigger] r@[i])@ == (MsgModel::Request {
                        index: self.piece_index,
                        begin: (16384 * i) as u32,
                        length: block_len_spec(size, i) as u32,
                    }),
            decreases count - k,
        {
            proof {
                assert(16384 * (k as int) <= 16384 * ((count as int) - 1)) by (nonlinear_arith)
                    requires
                        k as int <= (count as int) - 1,
                ;
            }
            let begin = ((BLOCK_SIZE as u64) * (k as u64)) as u32;
            let length = if size - begin < BLOCK_SIZE {
                size - begin
            } else {
                BLOCK_SIZE
            };
            r.push(
                PeerMessage::Request { index: self.piece_index, begin, length },
            );
            k += 1;
        }
        r
    }

    /// Takes one message read while awaiting blocks. A Piece for this piece
    /// is stored and answers true; any other message is skipped and answers
    /// false; a Piece for another index is the fatal anomaly of this fetch.
    pub fn on_message(&mut self, msg: PeerMessage) -> (r: Result<bool, TorrentError>)
        ensures
            final(self).piece_index == old(self).piece_index,
            final(self).piece_len == old(self).piece_len,
            match msg@ {
                MsgModel::Piece { index, begin, block } => {
                    if index == old(self).piece_index {
                        r == Ok::<bool, TorrentError>(true) && chunks_view(final(self).chunks@)
                            == chunks_view(old(self).chunks@).push((begin, block))
                    } else {
                        r == Err::<bool, TorrentError>(TorrentError::BadPieceIndex)
                            && final(self).chunks@ == old(self).chunks@
                    }
                },
                _ => r == Ok::<bool, TorrentError>(false)
                    && final(self).chunks@ == old(self).chunks@,
            },
    {
        match msg {
            PeerMessage::Piece { index, begin, block } => {
                if index == self.piece_index {
                    let ghost bv = block@;
                    self.chunks.push((begin, block));
                    assert(chunks_view(self.chunks@) =~= chunks_view(old(self).chunks@).push(
                        (begin, bv),
                    ));
                    Ok(true)
                } else {
                    Err(TorrentError::BadPieceIndex)
                }
            },
            _ => Ok(false),
        }
    }

    /// Whether as many blocks have arrived as the plan expects.
    pub fn is_complete(&self) -> (r: bool)
        ensures
            r == (self.chunks@.len() == block_count_spec(self.piece_len)),
    {
        self.chunks.len() == self.expected_blocks()
    }

    /// Reassembles the piece - fragments sorted by declared offset, then
    /// concatenated - and verifies it: the bytes come out only if their
    /// length is exactly the planned piece length and their digest equals
    /// `expected_hash`; otherwise the piece fails with its index.
    pub fn finish(self, expected_hash: &[u8]) -> (r: Result<Vec<u8>, TorrentError>)
        ensures
            ({
                let assembled = assembled_bytes(chunks_view(self.chunks@));
                match r {
                    Ok(bytes) => bytes@ == assembled && assembled.len() == self.piece_len
                        && sha1_of(assembled) == expected_hash@,
                    Err(e) => e == TorrentError::Integrity(self.piece_index) && !(assembled.len()
                        == self.piece_len && sha1_of(assembled) == expected_hash@),
                }
            }),
    {
        let piece_index = self.piece_index;
        let piece_len = self.piece_len;
        let ghost orig = chunks_view(self.chunks@);
        let mut remaining = self.chunks;
        let mut sorted: Vec<(u32, Vec<u8>)> = Vec::new();
        proof {
            assert(chunks_view(Seq::<(u32, Vec<u8>)>::empty()) =~= Seq::<(u32, Seq<u8>)>::empty());
        }
        while remaining.len() > 0
            invariant
                chunk_sort(orig) == chunk_sort_fold(
                    chunks_view(sorted@),
                    chunks_view(remaining@),
                ),
            decreases remaining@.len(),
        {
            let ghost rv = chunks_view(remaining@);
            let c = remaining.remove(0);
            proof {
                assert(chunks_view(remaining@) =~= rv.drop_first());
                assert(rv[0] == (c.0, c.1@));
            }
            sorted = chunk_insert(sorted, c);
        }
        proof {
            assert(chunks_view(remaining@) =~= Seq::<(u32, Seq<u8>)>::empty());
            assert(chunks_view(sorted@) == chunk_sort(orig));
        }
        let ghost cv = chunks_view(sorted@);
        let mut contents: Vec<u8> = Vec::new();
        let n = sorted.len();
        let mut i: usize = 0;
        proof {
            assert(cv.skip(0) =~= cv);
        }
        while i < n
            invariant
                i <= n,
                n == sorted@.len(),
                cv == chunks_view(sorted@),
                contents@ + concat_blocks(cv.skip(i as int)) == concat_blocks(cv),
            decreases n - i,
        {
            proof {
                assert(cv.skip(i as int)[0] == cv[i as int]);
                assert(cv.skip(i as int).drop_first() =~= cv.skip(i as int + 1));
            }
            contents.extend_from_slice(sorted[i].1.as_slice());
            i += 1;
            assert(contents@ + concat_blocks(cv.skip(i as int)) =~= concat_blocks(cv));
        }
        proof {
            assert(cv.skip(n as int) =~= Seq::<(u32, Seq<u8>)>::empty());
            assert(contents@ + concat_blocks(cv.skip(n as int)) =~= contents@);
            assert(contents@ == assembled_bytes(orig));
        }
        if contents.len() as u64 != piece_len as u64 {
            return Err(TorrentError::Integrity(piece_index));
        }
        let digest = hash_sha1(contents.as_slice());
        let same = lex_cmp(digest.as_slice(), expected_hash);
        if same == 0 {
            Ok(contents)
        } else {
            Err(TorrentError::Integrity(piece_index))
        }
    }
}


/// Offsets never decrease along the buffer.
pub open spec fn begins_nondec(s: Seq<(u32, Seq<u8>)>) -> bool {
    forall|i: int, j: int| 0 <= i < j < s.len() ==> (#[trigger] s[i]).0 <= (#[trigger] s[j]).0
}

/// Offsets strictly increase along the buffer.
pub open spec fn begins_strict(s: Seq<(u32, Seq<u8>)>) -> bool {
    forall|i: int, j: int| 0 <= i < j < s.len() ==> (#[trigger] s[i]).0 < (#[trigger] s[j]).0
}

/// Inserting one fragment adds exactly it to the multiset and keeps the
/// buffer ordered; every element of the result was present or is `c`.
pub proof fn lemma_chunk_insert_props(s: Seq<(u32, Seq<u8>)>, c: (u32, Seq<u8>))
    requires
        begins_nondec(s),
    ensures
        chunk_insert_spec(s, c).to_multiset() == s.to_multiset().insert(c),
        begins_nondec(chunk_insert_spec(s, c)),
        forall|idx: int|
            0 <= idx < chunk_insert_spec(s, c).len() ==> (#[trigger] chunk_insert_spec(s, c)[idx])
                == c || s.contains(chunk_insert_spec(s, c)[idx]),
    decreases s.len(),
{
    broadcast use vstd::seq_lib::group_to_multiset_ensures;

    let r = chunk_insert_spec(s, c);
    if s.len() == 0 {
        assert(r =~= Seq::<(u32, Seq<u8>)>::empty().push(c));
        assert(Seq::<(u32, Seq<u8>)>::empty().push(c).to_multiset() =~= Seq::<(
            u32,
            Seq<u8>,
        )>::empty().to_multiset().insert(c));
        assert forall|a: (u32, Seq<u8>)|
            Seq::<(u32, Seq<u8>)>::empty().to_multiset().count(a) == 0 by {
            assert(!Seq::<(u32, Seq<u8>)>::empty().contains(a));
        }
        assert(Seq::<(u32, Seq<u8>)>::empty().to_multiset() =~= Multiset::<(u32, Seq<u8>)>::empty());
        assert(r.to_multiset() =~= s.to_multiset().insert(c));
    } else if c.0 < s[0].0 {
        assert(r =~= s.insert(0, c));
        vstd::seq_lib::to_multiset_insert(s, 0, c);
        assert forall|i: int, j: int|
            0 <= i < j < r.len() implies (#[trigger] r[i]).0 <= (#[trigger] r[j]).0 by {
            if i == 0 {
                if j > 0 {
                    assert(r[j] == s[j - 1]);
                    if j > 1 {
                        assert(s[0].0 <= s[j - 1].0);
                    }
                }
            } else {
                assert(r[i] == s[i - 1]);
                assert(r[j] == s[j - 1]);
            }
        }
        assert forall|idx: int|
            0 <= idx < r.len() implies ((#[trigger] r[idx]) == c || s.contains(r[idx])) by {
            if idx > 0 {
                assert(r[idx] == s[idx - 1]);
            }
        }
    } else {
        let tail = s.drop_first();
        assert forall|i: int, j: int|
            0 <= i < j < tail.len() implies (#[trigger] tail[i]).0 <= (#[trigger] tail[j]).0 by {
            assert(tail[i] == s[i + 1]);
            assert(tail[j] == s[j + 1]);
        }
        lemma_chunk_insert_props(tail, c);
        let rt = chunk_insert_spec(tail, c);
        assert(r =~= rt.insert(0, s[0]));
        vstd::seq_lib::to_multiset_insert(rt, 0, s[0]);
        vstd::seq_lib::to_multiset_insert(tail, 0, s[0]);
        assert(tail.insert(0, s[0]) =~= s);
        assert(r.to_multiset() =~= s.to_multiset().insert(c));
        assert forall|i: int, j: int|
            0 <= i < j < r.len() implies (#[trigger] r[i]).0 <= (#[trigger] r[j]).0 by {
            if i == 0 {
                assert(r[j] == rt[j - 1]);
                if rt[j - 1] == c {
                } else {
                    let e = rt[j - 1];
                    assert(tail.contains(e));
                    let m = choose|m: int| 0 <= m < tail.len() && tail[m] == e;
                    assert(tail[m] == s[m + 1]);
                    assert(s[0].0 <= s[m + 1].0);
                }
            } else {
                assert(r[i] == rt[i - 1]);
                assert(r[j] == rt[j - 1]);
            }
        }
        assert forall|idx: int|
            0 <= idx < r.len() implies ((#[trigger] r[idx]) == c || s.contains(r[idx])) by {
            if idx == 0 {
                assert(s[0] == r[0]);
                assert(s.contains(s[0]));
            } else {
                assert(r[idx] == rt[idx - 1]);
                if rt[idx - 1] == c {
                } else {
                    let e = rt[idx - 1];
                    let m = choose|m: int| 0 <= m < tail.len() && tail[m] == e;
                    assert(s[m + 1] == e);
                    assert(s.contains(e));
                }
            }
        }
    }
}

/// Sorting by insertion keeps exactly the fragments given and orders them.
pub proof fn lemma_chunk_fold_props(acc: Seq<(u32, Seq<u8>)>, s: Seq<(u32, Seq<u8>)>)
    requires
        begins_nondec(acc),
    ensures
        begins_nondec(chunk_sort_fold(acc, s)),
        chunk_sort_fold(acc, s).to_multiset() == acc.to_multiset().add(s.to_multiset()),
    decreases s.len(),
{
    broadcast use vstd::seq_lib::group_to_multiset_ensures;

    if s.len() == 0 {
        assert forall|a: (u32, Seq<u8>)| s.to_multiset().count(a) == 0 by {
            assert(!s.contains(a));
        }
        assert(acc.to_multiset().add(s.to_multiset()) =~= acc.to_multiset());
    } else {
        lemma_chunk_insert_props(acc, s[0]);
        let acc2 = chunk_insert_spec(acc, s[0]);
        lemma_chunk_fold_props(acc2, s.drop_first());
        vstd::seq_lib::to_multiset_insert(s.drop_first(), 0, s[0]);
        assert(s.drop_first().insert(0, s[0]) =~= s);
        assert(chunk_sort_fold(acc, s).to_multiset() =~= acc.to_multiset().add(s.to_multiset()));
    }
}

/// A buffer in nondecreasing offset order that holds the same fragments as a
/// strictly increasing one is that very sequence.
pub proof fn lemma_sorted_multiset_unique(s1: Seq<(u32, Seq<u8>)>, s2: Seq<(u32, Seq<u8>)>)
    requires
        begins_nondec(s1),
        begins_strict(s2),
        s1.to_multiset() == s2.to_multiset(),
    ensures
        s1 == s2,
    decreases s2.len(),
{
    broadcast use vstd::seq_lib::group_to_multiset_ensures;

    vstd::seq_lib::to_multiset_len(s1);
    vstd::seq_lib::to_multiset_len(s2);
    assert(s1.len() == s2.len());
    if s2.len() == 0 {
        assert(s1 =~= s2);
    } else {
        assert(s2.contains(s2[0]));
        assert(s1.to_multiset().count(s2[0]) > 0);
        assert(s1.contains(s2[0]));
        let i = choose|i: int| 0 <= i < s1.len() && s1[i] == s2[0];
        assert(s1.contains(s1[0]));
        assert(s2.to_multiset().count(s1[0]) > 0);
        assert(s2.contains(s1[0]));
        let j = choose|j: int| 0 <= j < s2.len() && s2[j] == s1[0];
        if i > 0 {
            assert(s1[0].0 <= s1[i].0);
        }
        if j > 0 {
            assert(s2[0].0 < s2[j].0);
        }
        assert(s1[0].0 == s2[0].0);
        assert(j == 0);
        assert(s1[0] == s2[0]);
        let t1 = s1.drop_first();
        let t2 = s2.drop_first();
        vstd::seq_lib::to_multiset_remove(s1, 0);
        vstd::seq_lib::to_multiset_remove(s2, 0);
        assert(s1.remove(0) =~= t1);
        assert(s2.remove(0) =~= t2);
        assert(t1.to_multiset() == t2.to_multiset());
        assert forall|p: int, q: int|
            0 <= p < q < t1.len() implies (#[trigger] t1[p]).0 <= (#[trigger] t1[q]).0 by {
            assert(t1[p] == s1[p + 1]);
            assert(t1[q] == s1[q + 1]);
        }
        assert forall|p: int, q: int|
            0 <= p < q < t2.len() implies (#[trigger] t2[p]).0 < (#[trigger] t2[q]).0 by {
            assert(t2[p] == s2[p + 1]);
            assert(t2[q] == s2[q + 1]);
        }
        lemma_sorted_multiset_unique(t1, t2);
        assert forall|p: int| 0 <= p < s1.len() implies s1[p] == s2[p] by {
            if p > 0 {
                assert(s1[p] == t1[p - 1]);
                assert(s2[p] == t2[p - 1]);
            }
        }
        assert(s1 =~= s2);
    }
}

/// Law: whatever order blocks arrive in, reassembly equals the in-order
/// concatenation - a buffer holding exactly the fragments of a strictly
/// offset-ordered plan assembles to that plan's bytes.
pub proof fn lemma_reassembly_order_independent(
    received: Seq<(u32, Seq<u8>)>,
    inorder: Seq<(u32, Seq<u8>)>,
)
    requires
        begins_strict(inorder),
        received.to_multiset() == inorder.to_multiset(),
    ensures
        assembled_bytes(received) == concat_blocks(inorder),
{
    broadcast use vstd::seq_lib::group_to_multiset_ensures;

    lemma_chunk_fold_props(seq![], received);
    assert forall|a: (u32, Seq<u8>)|
        Seq::<(u32, Seq<u8>)>::empty().to_multiset().count(a) == 0 by {
        assert(!Seq::<(u32, Seq<u8>)>::empty().contains(a));
    }
    assert(chunk_sort(received).to_multiset() =~= received.to_multiset());
    lemma_sorted_multiset_unique(chunk_sort(received), inorder);
}

} // verus!
