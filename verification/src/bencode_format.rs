//! Bencode values and their parser and encoder. The parser is specified
//! byte-for-byte against the model in `bencode_model`, down to the text of
//! every error message; the encoder produces the canonical form.
use vstd::prelude::*;

use vstd::arithmetic::div_mod::{
    lemma_add_mod_noop, lemma_mod_multiples_vanish, lemma_small_mod,
};
use vstd::slice::{slice_subrange, slice_to_vec};
use vstd::string::StringExecFns;

use crate::bencode_model::{
    dict_fold, dict_insert, err_msg, i64_from_bits, is_err_with, lex_lt, neg_bits, p_entries,
    p_items, p_text, parse_value, scan_num, scan_step, u64_mod, usize_mod, Bval, PErr,
};
use crate::bencode_model::{dbg_chars, dbg_pre};
use crate::bencode_model::{lemma_entries_fuel, lemma_items_fuel, lemma_scan_consumes,
    lemma_value_fuel};
use crate::digits::{push_dec_i64, push_dec_str, push_dec_u64};

verus! {

/// Error for malformed bencode input; carries the message text.
#[derive(Debug, Eq)]
pub struct ParseError(pub String);

impl View for ParseError {
    type V = Seq<char>;

    open spec fn view(&self) -> Seq<char> {
        self.0@
    }
}

impl ParseError {
    /// Wraps a message string unchanged.
    pub fn new(msg: &str) -> (r: Self)
        ensures
            r@ == msg@,
    {
        ParseError(String::from_str(msg))
    }

    /// The message as shown to a user: "Bencode parse error: " and the text.
    pub fn message(&self) -> (r: String)
        ensures
            r@ == "Bencode parse error: "@ + self@,
    {
        let mut s = String::new();
        s.append("Bencode parse error: ");
        s.append(self.0.as_str());
        s
    }
}

impl PartialEq for ParseError {
    fn eq(&self, other: &Self) -> bool {
        self.0 == other.0
    }
}

impl vstd::std_specs::cmp::PartialEqSpecImpl for ParseError {
    open spec fn obeys_eq_spec() -> bool {
        true
    }

    open spec fn eq_spec(&self, other: &Self) -> bool {
        self@ == other@
    }
}

/// Where the first `i` bytes agree, what the remainder decides about the
/// lexicographic order of `a` and `b`.
pub proof fn lemma_lex_decide(a: Seq<u8>, b: Seq<u8>, i: int)
    requires
        0 <= i <= a.len(),
        i <= b.len(),
        forall|j: int| 0 <= j < i ==> a[j] == b[j],
    ensures
        (i < a.len() && i < b.len() && a[i] != b[i]) ==> (lex_lt(a, b) <==> a[i] < b[i]),
        (i < a.len() && i < b.len() && a[i] != b[i]) ==> (lex_lt(b, a) <==> b[i] < a[i]),
        (i == a.len() && i < b.len()) ==> (lex_lt(a, b) && !lex_lt(b, a)),
        (i == b.len() && i < a.len()) ==> (lex_lt(b, a) && !lex_lt(a, b)),
        (i == a.len() && i == b.len()) ==> (a == b && !lex_lt(a, b) && !lex_lt(b, a)),
    decreases i,
{
    if i == 0 {
        if a.len() == 0 && b.len() == 0 {
            assert(a =~= b);
        }
    } else {
        let a1 = a.drop_first();
        let b1 = b.drop_first();
        assert(forall|j: int| 0 <= j < i - 1 ==> a1[j] == b1[j]);
        lemma_lex_decide(a1, b1, i - 1);
        if i == a.len() && i == b.len() {
            assert(a =~= b);
        }
    }
}

/// Three-way byte-wise comparison: -1, 0 or 1 as `a` is below, equal to, or
/// above `b` in raw byte order.
pub(crate) fn lex_cmp(a: &[u8], b: &[u8]) -> (r: i8)
    ensures
        (r == -1) <==> lex_lt(a@, b@),
        (r == 1) <==> lex_lt(b@, a@),
        (r == 0) <==> (a@ == b@),
{
    let alen = a.len();
    let blen = b.len();
    let n = if alen < blen {
        alen
    } else {
        blen
    };
    let mut i: usize = 0;
    while i < n
        invariant
            i <= n,
            n <= a@.len(),
            n <= b@.len(),
            n == if a@.len() < b@.len() {
                a@.len()
            } else {
                b@.len()
            },
            forall|j: int| 0 <= j < i ==> a@[j] == b@[j],
        decreases n - i,
    {
        if a[i] != b[i] {
            proof {
                lemma_lex_decide(a@, b@, i as int);
            }
            if a[i] < b[i] {
                return -1;
            } else {
                return 1;
            }
        }
        i += 1;
    }
    proof {
        lemma_lex_decide(a@, b@, n as int);
    }
    if alen < blen {
        return -1;
    }
    if blen < alen {
        return 1;
    }
    0
}

/// Appends the debug rendering "[52, 101]" of `b` to `out`.
fn push_bytes_debug(out: &mut String, b: &[u8])
    ensures
        final(out)@ == old(out)@ + dbg_chars(b@),
{
    proof {
        reveal_strlit("[");
        reveal_strlit("]");
        reveal_strlit(", ");
    }
    out.append("[");
    let n = b.len();
    let mut i: usize = 0;
    while i < n
        invariant
            i <= n,
            n == b@.len(),
            out@ == old(out)@ + seq!['['] + dbg_pre(b@, i as int),
        decreases n - i,
    {
        proof {
            reveal_strlit(", ");
        }
        if i > 0 {
            out.append(", ");
        }
        push_dec_str(out, b[i] as u64);
        i += 1;
        assert(out@ =~= old(out)@ + seq!['['] + dbg_pre(b@, i as int));
    }
    out.append("]");
    assert(out@ =~= old(out)@ + dbg_chars(b@));
}

/// Builds the error for `msg` with the offending bytes quoted.
fn mk_err(msg: &str, ctx: &[u8]) -> (r: ParseError)
    ensures
        r@ == msg@ + ": "@ + dbg_chars(ctx@),
{
    proof {
        reveal_strlit(": ");
    }
    let mut s = String::new();
    s.append(msg);
    s.append(": ");
    push_bytes_debug(&mut s, ctx);
    ParseError(s)
}

/// Builds the error for a byte that should have been a digit.
fn mk_err_nondigit(val: u8, ctx: &[u8]) -> (r: ParseError)
    ensures
        r@ == err_msg(PErr::NonDigit(val, ctx@)),
{
    proof {
        reveal_strlit(": ");
    }
    let mut s = String::new();
    s.append("String num is not a number=");
    push_dec_str(&mut s, val as u64);
    s.append(": ");
    push_bytes_debug(&mut s, ctx);
    ParseError(s)
}

/// One digit-accumulation step wraps exactly like the model's `scan_step`.
proof fn lemma_wrap_step(p: nat, t: nat, d: nat, r: nat, m: nat)
    requires
        10 < m,
        d < 10,
        t == p % m,
        r == if t + d < m {
            (t + d) as int
        } else {
            t + d - m
        },
    ensures
        r == (p + d) % m,
{
    lemma_small_mod(d, m);
    lemma_add_mod_noop(p as int, d as int, m as int);
    if t + d < m {
        lemma_small_mod((t + d) as nat, m);
    } else {
        lemma_mod_multiples_vanish(1, (t + d - m) as int, m as int);
        lemma_small_mod((t + d - m) as nat, m);
    }
}

/// Reads a decimal run terminated by `end`, wrapping in a `usize`.
fn parse_num_usize(input: &[u8], end: u8) -> (r: Result<(&[u8], usize), ParseError>)
    ensures
        match r {
            Ok(p) => scan_num(input@, 0, 0, end, usize_mod()) == Ok::<(Seq<u8>, nat), PErr>(
                (p.0@, p.1 as nat),
            ),
            Err(e) => is_err_with(scan_num(input@, 0, 0, end, usize_mod()), e@),
        },
{
    let mut idx: usize = 0;
    let mut num: usize = 0;
    loop
        invariant
            idx <= input@.len(),
            scan_num(input@, 0, 0, end, usize_mod()) == scan_num(
                input@,
                idx as int,
                num as nat,
                end,
                usize_mod(),
            ),
        decreases input@.len() - idx,
    {
        if idx >= input.len() {
            return Err(mk_err("String num does not contains end tag", input));
        }
        let b = input[idx];
        if b == end {
            if idx == 0 {
                return Err(mk_err("Number cannot be empty", input));
            }
            let rest = slice_subrange(input, idx + 1, input.len());
            return Ok((rest, num));
        } else if 48 <= b && b <= 57 {
            let ghost p = num as nat;
            let t = num.wrapping_mul(10);
            let next = t.wrapping_add((b - 48) as usize);
            proof {
                lemma_wrap_step(
                    p * 10,
                    t as nat,
                    (b - 48) as nat,
                    next as nat,
                    usize_mod(),
                );
                assert(next as nat == scan_step(p, b, usize_mod()));
            }
            num = next;
            idx += 1;
        } else {
            return Err(mk_err_nondigit(b, input));
        }
    }
}

/// Reads a decimal run terminated by `end`, wrapping in a `u64`.
fn parse_num_u64(input: &[u8], end: u8) -> (r: Result<(&[u8], u64), ParseError>)
    ensures
        match r {
            Ok(p) => scan_num(input@, 0, 0, end, u64_mod()) == Ok::<(Seq<u8>, nat), PErr>(
                (p.0@, p.1 as nat),
            ),
            Err(e) => is_err_with(scan_num(input@, 0, 0, end, u64_mod()), e@),
        },
{
    let mut idx: usize = 0;
    let mut num: u64 = 0;
    loop
        invariant
            idx <= input@.len(),
            scan_num(input@, 0, 0, end, u64_mod()) == scan_num(
                input@,
                idx as int,
                num as nat,
                end,
                u64_mod(),
            ),
        decreases input@.len() - idx,
    {
        if idx >= input.len() {
            return Err(mk_err("String num does not contains end tag", input));
        }
        let b = input[idx];
        if b == end {
            if idx == 0 {
                return Err(mk_err("Number cannot be empty", input));
            }
            let rest = slice_subrange(input, idx + 1, input.len());
            return Ok((rest, num));
        } else if 48 <= b && b <= 57 {
            let ghost p = num as nat;
            let t = num.wrapping_mul(10);
            let next = t.wrapping_add((b - 48) as u64);
            proof {
                lemma_wrap_step(p * 10, t as nat, (b - 48) as nat, next as nat, u64_mod());
                assert(next as nat == scan_step(p, b, u64_mod()));
            }
            num = next;
            idx += 1;
        } else {
            return Err(mk_err_nondigit(b, input));
        }
    }
}

/// A raw byte string of a bencode document.
#[derive(Debug, Eq, PartialOrd, Ord)]
pub struct BencodeText(pub Vec<u8>);

impl View for BencodeText {
    type V = Seq<u8>;

    open spec fn view(&self) -> Seq<u8> {
        self.0@
    }
}

impl PartialEq for BencodeText {
    fn eq(&self, other: &Self) -> bool {
        let r = self.0 == other.0;
        proof {
            if r {
                assert(self.0@ =~= other.0@);
            }
            if self.0@ == other.0@ {
                assert(r);
            }
        }
        r
    }
}

impl vstd::std_specs::cmp::PartialEqSpecImpl for BencodeText {
    open spec fn obeys_eq_spec() -> bool {
        true
    }

    open spec fn eq_spec(&self, other: &Self) -> bool {
        self@ == other@
    }
}

impl BencodeText {
    /// Copies the bytes into an owned byte string.
    pub fn new(data: &[u8]) -> (r: Self)
        ensures
            r@ == data@,
    {
        BencodeText(slice_to_vec(data))
    }

    /// Parses a length-prefixed byte string from the front of `input` and
    /// returns the unconsumed suffix beside it.
    pub fn parse(input: &[u8]) -> (r: Result<(&[u8], Self), ParseError>)
        ensures
            match r {
                Ok(p) => p_text(input@) == Ok::<(Seq<u8>, Seq<u8>), PErr>((p.0@, p.1@))
                    && p.0@.len() < input@.len(),
                Err(e) => is_err_with(p_text(input@), e@),
            },
    {
        proof {
            lemma_scan_consumes(input@, 0, 0, 58, usize_mod());
        }
        let (rest, str_len) = match parse_num_usize(input, 58) {
            Ok(p) => p,
            Err(e) => {
                return Err(e);
            },
        };
        if str_len > rest.len() {
            return Err(mk_err("String payload is too short", rest));
        }
        let text = slice_to_vec(slice_subrange(rest, 0, str_len));
        let remain = slice_subrange(rest, str_len, rest.len());
        Ok((remain, BencodeText(text)))
    }

    /// Appends the canonical encoding, decimal length then ':' then the raw
    /// bytes, to `out`.
    pub fn encode(&self, out: &mut Vec<u8>)
        ensures
            final(out)@ == old(out)@ + crate::bencode_model::enc_str(self@),
    {
        push_dec_u64(out, self.0.len() as u64);
        out.push(58);
        out.extend_from_slice(self.0.as_slice());
        assert(out@ =~= old(out)@ + crate::bencode_model::enc_str(self@));
    }
}


/// A parsed bencode document node: byte string, integer, list, or dictionary
/// whose entries are kept in raw-byte key order.
#[derive(Debug, Eq)]
pub enum BencodeValue {
    Data(BencodeText),
    Integer(i64),
    List(Vec<BencodeValue>),
    Dict(Vec<(BencodeText, BencodeValue)>),
}

impl View for BencodeValue {
    type V = Bval;

    open spec fn view(&self) -> Bval
        decreases self,
    {
        match self {
            BencodeValue::Data(t) => Bval::Str(t@),
            BencodeValue::Integer(i) => Bval::Int(*i),
            BencodeValue::List(l) => Bval::List(vals_view(l@)),
            BencodeValue::Dict(d) => Bval::Dict(entries_view(d@)),
        }
    }
}

/// Views of a sequence of nodes.
pub open spec fn vals_view(s: Seq<BencodeValue>) -> Seq<Bval>
    decreases s,
{
    Seq::new(
        s.len(),
        |i: int|
            if 0 <= i < s.len() {
                s[i]@
            } else {
                Bval::Int(0)
            },
    )
}

/// Views of a sequence of key/value pairs.
pub open spec fn entries_view(s: Seq<(BencodeText, BencodeValue)>) -> Seq<(Seq<u8>, Bval)>
    decreases s,
{
    Seq::new(
        s.len(),
        |i: int|
            if 0 <= i < s.len() {
                (s[i].0@, s[i].1@)
            } else {
                (Seq::empty(), Bval::Int(0))
            },
    )
}

/// Deep structural equality of two nodes.
fn value_eq(a: &BencodeValue, b: &BencodeValue) -> (r: bool)
    ensures
        r == (a@ == b@),
    decreases a, 0int,
{
    match (a, b) {
        (BencodeValue::Data(x), BencodeValue::Data(y)) => x == y,
        (BencodeValue::Integer(x), BencodeValue::Integer(y)) => x == y,
        (BencodeValue::List(x), BencodeValue::List(y)) => lists_eq(x, y),
        (BencodeValue::Dict(x), BencodeValue::Dict(y)) => entries_eq(x, y),
        _ => {
            assert(a@ != b@);
            false
        },
    }
}

/// Element-wise equality of two node vectors.
fn lists_eq(x: &Vec<BencodeValue>, y: &Vec<BencodeValue>) -> (r: bool)
    ensures
        r == (vals_view(x@) == vals_view(y@)),
    decreases x, 1int,
{
    if x.len() != y.len() {
        assert(vals_view(x@).len() == x@.len());
        assert(vals_view(y@).len() == y@.len());
        assert(vals_view(x@) != vals_view(y@));
        return false;
    }
    let n = x.len();
    let mut i: usize = 0;
    while i < n
        invariant
            i <= n,
            n == x@.len(),
            n == y@.len(),
            forall|j: int| 0 <= j < i ==> vals_view(x@)[j] == vals_view(y@)[j],
        decreases n - i,
    {
        if !value_eq(&x[i], &y[i]) {
            assert(vals_view(x@)[i as int] != vals_view(y@)[i as int]);
            return false;
        }
        i += 1;
    }
    assert(vals_view(x@) =~= vals_view(y@));
    true
}

/// Element-wise equality of two entry vectors.
fn entries_eq(
    x: &Vec<(BencodeText, BencodeValue)>,
    y: &Vec<(BencodeText, BencodeValue)>,
) -> (r: bool)
    ensures
        r == (entries_view(x@) == entries_view(y@)),
    decreases x, 1int,
{
    if x.len() != y.len() {
        assert(entries_view(x@).len() == x@.len());
        assert(entries_view(y@).len() == y@.len());
        assert(entries_view(x@) != entries_view(y@));
        return false;
    }
    let n = x.len();
    let mut i: usize = 0;
    while i < n
        invariant
            i <= n,
            n == x@.len(),
            n == y@.len(),
            forall|j: int| 0 <= j < i ==> entries_view(x@)[j] == entries_view(y@)[j],
        decreases n - i,
    {
        let keys_equal = x[i].0 == y[i].0;
        if !keys_equal {
            assert(entries_view(x@)[i as int] != entries_view(y@)[i as int]);
            return false;
        }
        if !value_eq(&x[i].1, &y[i].1) {
            assert(entries_view(x@)[i as int] != entries_view(y@)[i as int]);
            return false;
        }
        i += 1;
    }
    assert(entries_view(x@) =~= entries_view(y@));
    true
}

impl PartialEq for BencodeValue {
    fn eq(&self, other: &Self) -> bool {
        value_eq(self, other)
    }
}

impl vstd::std_specs::cmp::PartialEqSpecImpl for BencodeValue {
    open spec fn obeys_eq_spec() -> bool {
        true
    }

    open spec fn eq_spec(&self, other: &Self) -> bool {
        self@ == other@
    }
}

/// Two's-complement negation of a 64-bit pattern.
fn neg_u64(n: u64) -> (r: u64)
    ensures
        r as nat == neg_bits(n as nat),
{
    if n == 0 {
        proof {
            lemma_mod_multiples_vanish(1, 0, u64_mod() as int);
        }
        0
    } else {
        proof {
            lemma_small_mod((u64_mod() - n as nat) as nat, u64_mod());
        }
        (u64::MAX - n) + 1
    }
}

/// The signed value whose two's-complement bit pattern is `n`.
fn i64_bits(n: u64) -> (r: i64)
    ensures
        r == i64_from_bits(n as nat),
{
    if n <= 0x7fff_ffff_ffff_ffff {
        n as i64
    } else {
        -((u64::MAX - n) as i64) - 1
    }
}

/// Inserts `(k, v)` keeping keys strictly increasing; an equal key is
/// overwritten, so a later binding wins.
fn insert_entry(
    entries: Vec<(BencodeText, BencodeValue)>,
    k: BencodeText,
    v: BencodeValue,
) -> (r: Vec<(BencodeText, BencodeValue)>)
    ensures
        entries_view(r@) == dict_insert(entries_view(entries@), k@, v@),
    decreases entries@.len(),
{
    let ghost g = entries@;
    if entries.len() == 0 {
        let mut r = entries;
        r.push((k, v));
        assert(entries_view(r@) =~= dict_insert(entries_view(g), r@[0].0@, r@[0].1@));
        r
    } else {
        let c = lex_cmp(k.0.as_slice(), entries[0].0.0.as_slice());
        if c == -1 {
            let ghost kv = k@;
            let ghost vv = v@;
            let mut r = entries;
            r.insert(0, (k, v));
            assert(entries_view(r@) =~= seq![(kv, vv)] + entries_view(g));
            assert(entries_view(r@) =~= dict_insert(entries_view(g), kv, vv));
            r
        } else if c == 0 {
            let ghost kv = k@;
            let ghost vv = v@;
            let mut r = entries;
            let _ = r.remove(0);
            r.insert(0, (k, v));
            assert(entries_view(g).drop_first() =~= entries_view(g.drop_first()));
            assert(entries_view(r@) =~= seq![(kv, vv)] + entries_view(g).drop_first());
            assert(entries_view(r@) =~= dict_insert(entries_view(g), kv, vv));
            r
        } else {
            let ghost kv = k@;
            let ghost vv = v@;
            let mut r = entries;
            let head = r.remove(0);
            assert(entries_view(r@) =~= entries_view(g).drop_first());
            assert(entries_view(r@) =~= entries_view(g.drop_first()));
            let rest = insert_entry(r, k, v);
            let mut out = rest;
            out.insert(0, head);
            assert(entries_view(out@) =~= seq![entries_view(g)[0]] + dict_insert(
                entries_view(g).drop_first(),
                kv,
                vv,
            ));
            assert(entries_view(out@) =~= dict_insert(entries_view(g), kv, vv));
            out
        }
    }
}

impl BencodeValue {
    /// Parses one bencode value from the front of `input` and returns the
    /// unconsumed suffix beside it; full consumption is the caller's concern.
    pub fn parse(input: &[u8]) -> (r: Result<(&[u8], Self), ParseError>)
        ensures
            match r {
                Ok(p) => parse_value(input@) == Ok::<(Seq<u8>, Bval), PErr>((p.0@, p.1@))
                    && crate::bencode_model::wf(p.1@) && p.0@.len() < input@.len(),
                Err(e) => is_err_with(parse_value(input@), e@),
            },
        decreases input@.len(), 0int,
    {
        let n = input.len();
        proof {
            broadcast use vstd::slice::group_slice_axioms;

            assert(n == input@.len());
            crate::bencode_model::lemma_parse_value_wf(input@);
        }
        if n == 0 {
            return Err(mk_err("Input is empty", input));
        }
        let tag = input[0];
        if 48 <= tag && tag <= 57 {
            match BencodeText::parse(input) {
                Err(e) => Err(e),
                Ok((rest, t)) => Ok((rest, BencodeValue::Data(t))),
            }
        } else if tag == 105 {
            if input.len() >= 2 && input[1] == 45 {
                let sub = slice_subrange(input, 2, input.len());
                proof {
                    lemma_scan_consumes(sub@, 0, 0, 101, u64_mod());
                }
                match parse_num_u64(sub, 101) {
                    Err(e) => Err(e),
                    Ok((rest, n)) => {
                        let m = neg_u64(n);
                        Ok((rest, BencodeValue::Integer(i64_bits(m))))
                    },
                }
            } else {
                let sub = slice_subrange(input, 1, input.len());
                proof {
                    lemma_scan_consumes(sub@, 0, 0, 101, u64_mod());
                }
                match parse_num_u64(sub, 101) {
                    Err(e) => Err(e),
                    Ok((rest, n)) => Ok((rest, BencodeValue::Integer(i64_bits(n)))),
                }
            }
        } else if tag == 108 {
            let sub = slice_subrange(input, 1, input.len());
            match parse_list(sub, Vec::new()) {
                Err(e) => Err(e),
                Ok((rest, items)) => {
                    proof {
                        assert(vals_view(Seq::<BencodeValue>::empty()) =~= Seq::<
                            Bval,
                        >::empty());
                        assert(vals_view(items@) =~= Seq::<Bval>::empty() + vals_view(
                            items@,
                        ));
                    }
                    Ok((rest, BencodeValue::List(items)))
                },
            }
        } else if tag == 100 {
            let sub = slice_subrange(input, 1, input.len());
            match parse_dict(sub, Vec::new()) {
                Err(e) => Err(e),
                Ok((rest, entries)) => {
                    proof {
                        assert(entries_view(Seq::<(BencodeText, BencodeValue)>::empty()) =~= Seq::<
                            (Seq<u8>, Bval),
                        >::empty());
                    }
                    Ok((rest, BencodeValue::Dict(entries)))
                },
            }
        } else {
            Err(mk_err("Invalid Bencode content", input))
        }
    }

    /// Appends the canonical encoding of this value to `out`.
    pub fn encode(&self, out: &mut Vec<u8>)
        ensures
            final(out)@ == old(out)@ + crate::bencode_model::enc(self@),
        decreases self, 0int,
    {
        match self {
            BencodeValue::Data(t) => {
                t.encode(out);
            },
            BencodeValue::Integer(i) => {
                out.push(105);
                push_dec_i64(out, *i);
                out.push(101);
                assert(out@ =~= old(out)@ + crate::bencode_model::enc(self@));
            },
            BencodeValue::List(l) => {
                out.push(108);
                encode_items(l, 0, out);
                out.push(101);
                assert(vals_view(l@).subrange(0, l@.len() as int) =~= vals_view(l@));
                assert(out@ =~= old(out)@ + crate::bencode_model::enc(self@));
            },
            BencodeValue::Dict(d) => {
                out.push(100);
                encode_entries(d, 0, out);
                out.push(101);
                assert(entries_view(d@).subrange(0, d@.len() as int) =~= entries_view(d@));
                assert(out@ =~= old(out)@ + crate::bencode_model::enc(self@));
            },
        }
    }
}

/// Appends the encodings of the elements of `l` from index `i` on.
fn encode_items(l: &Vec<BencodeValue>, i: usize, out: &mut Vec<u8>)
    requires
        i <= l@.len(),
    ensures
        final(out)@ == old(out)@ + crate::bencode_model::enc_items(
            vals_view(l@).subrange(i as int, l@.len() as int),
        ),
    decreases l, l@.len() - i,
{
    let ghost s = vals_view(l@).subrange(i as int, l@.len() as int);
    if i < l.len() {
        let v = &l[i];
        v.encode(out);
        encode_items(l, i + 1, out);
        proof {
            assert(s.drop_first() =~= vals_view(l@).subrange(i + 1, l@.len() as int));
            assert(out@ =~= old(out)@ + crate::bencode_model::enc_items(s));
        }
    } else {
        assert(s =~= Seq::<Bval>::empty());
    }
}

/// Appends the key and value encodings of the entries of `d` from index `i` on.
fn encode_entries(d: &Vec<(BencodeText, BencodeValue)>, i: usize, out: &mut Vec<u8>)
    requires
        i <= d@.len(),
    ensures
        final(out)@ == old(out)@ + crate::bencode_model::enc_entries(
            entries_view(d@).subrange(i as int, d@.len() as int),
        ),
    decreases d, d@.len() - i,
{
    let ghost s = entries_view(d@).subrange(i as int, d@.len() as int);
    if i < d.len() {
        d[i].0.encode(out);
        d[i].1.encode(out);
        encode_entries(d, i + 1, out);
        proof {
            assert(s.drop_first() =~= entries_view(d@).subrange(i + 1, d@.len() as int));
            assert(out@ =~= old(out)@ + crate::bencode_model::enc_entries(s));
        }
    } else {
        assert(s =~= Seq::<(Seq<u8>, Bval)>::empty());
    }
}

/// Parses list elements up to the closing 'e', appending them to `acc`.
fn parse_list<'a>(input: &'a [u8], acc: Vec<BencodeValue>) -> (r: Result<
    (&'a [u8], Vec<BencodeValue>),
    ParseError,
>)
    ensures
        match r {
            Ok(p) => p_items(input@, input@.len()) matches Ok(q) && p.0@ == q.0 && vals_view(
                p.1@,
            ) == vals_view(acc@) + q.1 && p.0@.len() < input@.len(),
            Err(e) => is_err_with(p_items(input@, input@.len()), e@),
        },
    decreases input@.len(), 1int,
{
    if input.len() == 0 {
        return Err(mk_err("List miss end tag", input));
    }
    if input[0] == 101 {
        let rest = slice_subrange(input, 1, input.len());
        assert(vals_view(acc@) =~= vals_view(acc@) + Seq::<Bval>::empty());
        return Ok((rest, acc));
    }
    match BencodeValue::parse(input) {
        Err(e) => Err(e),
        Ok((rest, v)) => {
            proof {
                lemma_items_fuel(rest@, (input@.len() - 1) as nat);
            }
            let ghost vv = v@;
            let mut acc2 = acc;
            acc2.push(v);
            assert(vals_view(acc2@) =~= vals_view(acc@) + seq![vv]);
            match parse_list(rest, acc2) {
                Err(e) => Err(e),
                Ok(p) => {
                    proof {
                        let q = p_items(input@, input@.len())->Ok_0;
                        assert(vals_view(p.1@) =~= vals_view(acc@) + q.1);
                    }
                    Ok(p)
                },
            }
        },
    }
}

/// Parses dictionary entries up to the closing 'e', inserting each into `acc`
/// in encounter order.
fn parse_dict<'a>(input: &'a [u8], acc: Vec<(BencodeText, BencodeValue)>) -> (r: Result<
    (&'a [u8], Vec<(BencodeText, BencodeValue)>),
    ParseError,
>)
    ensures
        match r {
            Ok(p) => p_entries(input@, input@.len()) matches Ok(q) && p.0@ == q.0
                && entries_view(p.1@) == dict_fold(entries_view(acc@), q.1) && p.0@.len()
                < input@.len(),
            Err(e) => is_err_with(p_entries(input@, input@.len()), e@),
        },
    decreases input@.len(), 1int,
{
    if input.len() == 0 {
        return Err(mk_err("Dict miss end tag", input));
    }
    if input[0] == 101 {
        let rest = slice_subrange(input, 1, input.len());
        return Ok((rest, acc));
    }
    match BencodeText::parse(input) {
        Err(e) => Err(e),
        Ok((r1, key)) => {
            proof {
                lemma_value_fuel(r1@, input@.len());
            }
            match BencodeValue::parse(r1) {
                Err(e) => Err(e),
                Ok((r2, val)) => {
                    proof {
                        lemma_entries_fuel(r2@, (input@.len() - 1) as nat);
                    }
                    let ghost kv = key@;
                    let ghost vv = val@;
                    let ghost accv = entries_view(acc@);
                    let acc2 = insert_entry(acc, key, val);
                    match parse_dict(r2, acc2) {
                        Err(e) => Err(e),
                        Ok(p) => {
                            proof {
                                let tail = p_entries(r2@, r2@.len())->Ok_0.1;
                                assert((seq![(kv, vv)] + tail)[0] == (kv, vv));
                                assert((seq![(kv, vv)] + tail).drop_first() =~= tail);
                            }
                            Ok(p)
                        },
                    }
                },
            }
        },
    }
}


/// The value bound to `key` among `entries`, scanning from the front.
pub(crate) fn dict_get<'a>(
    entries: &'a Vec<(BencodeText, BencodeValue)>,
    key: &[u8],
) -> (r: Option<&'a BencodeValue>)
    ensures
        match r {
            Some(v) => crate::bencode_model::dict_lookup(entries_view(entries@), key@) == Some(
                v@,
            ),
            None => crate::bencode_model::dict_lookup(entries_view(entries@), key@) is None,
        },
{
    let ghost d = entries_view(entries@);
    proof {
        assert(d.skip(0) =~= d);
    }
    let n = entries.len();
    let mut i: usize = 0;
    while i < n
        invariant
            i <= n,
            n == entries@.len(),
            d == entries_view(entries@),
            crate::bencode_model::dict_lookup(d, key@) == crate::bencode_model::dict_lookup(
                d.skip(i as int),
                key@,
            ),
        decreases n - i,
    {
        let c = lex_cmp(entries[i].0.0.as_slice(), key);
        if c == 0 {
            assert(d.skip(i as int)[0] == d[i as int]);
            return Some(&entries[i].1);
        }
        proof {
            assert(d.skip(i as int)[0] == d[i as int]);
            assert(d.skip(i as int).drop_first() =~= d.skip(i as int + 1));
        }
        i += 1;
    }
    proof {
        assert(d.skip(n as int) =~= Seq::<(Seq<u8>, Bval)>::empty());
    }
    None
}

} // verus!
