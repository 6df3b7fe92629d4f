//! Mathematical model of the bencode format: the value tree, its canonical
//! encoding, and a byte-exact specification of the parser, including the
//! message of every parse error.
use vstd::prelude::*;

use vstd::arithmetic::div_mod::{lemma_fundamental_div_mod, lemma_small_mod};

use crate::digits::{dec_chars, dec_digits, dec_digits_i64};

verus! {

/// Abstract bencode value: byte string, integer, list, or key-ordered dictionary.
pub enum Bval {
    Str(Seq<u8>),
    Int(i64),
    List(Seq<Bval>),
    Dict(Seq<(Seq<u8>, Bval)>),
}

/// Strict lexicographic order on byte sequences (raw byte value order).
pub open spec fn lex_lt(a: Seq<u8>, b: Seq<u8>) -> bool
    decreases a.len(),
{
    if b.len() == 0 {
        false
    } else if a.len() == 0 {
        true
    } else if a[0] != b[0] {
        a[0] < b[0]
    } else {
        lex_lt(a.drop_first(), b.drop_first())
    }
}

/// Dictionary entries carry strictly increasing keys, so keys are unique and
/// the encoding of a dictionary is canonical.
pub open spec fn entries_sorted(d: Seq<(Seq<u8>, Bval)>) -> bool {
    forall|i: int, j: int|
        0 <= i < j < d.len() ==> #[trigger] lex_lt(d[i].0, d[j].0)
}

/// Well-formed value: dictionary keys sorted and unique at every level, and
/// every byte string short enough that its length survives a round trip
/// through the length prefix.
pub open spec fn wf(v: Bval) -> bool
    decreases v,
{
    match v {
        Bval::Str(s) => s.len() <= usize::MAX,
        Bval::Int(_) => true,
        Bval::List(l) => wf_items(l),
        Bval::Dict(d) => entries_sorted(d) && wf_entries(d),
    }
}

/// Every element of a list is well-formed.
pub open spec fn wf_items(l: Seq<Bval>) -> bool
    decreases l,
{
    l.len() == 0 || (wf(l[0]) && wf_items(l.drop_first()))
}

/// Every entry has a key short enough to round-trip and a well-formed value.
pub open spec fn wf_entries(d: Seq<(Seq<u8>, Bval)>) -> bool
    decreases d,
{
    d.len() == 0 || (d[0].0.len() <= usize::MAX && wf(d[0].1) && wf_entries(d.drop_first()))
}

/// Sorted insertion with replacement: the dictionary stays key-ordered and an
/// existing binding for the same key is overwritten.
pub open spec fn dict_insert(d: Seq<(Seq<u8>, Bval)>, k: Seq<u8>, v: Bval) -> Seq<
    (Seq<u8>, Bval),
>
    decreases d.len(),
{
    if d.len() == 0 {
        seq![(k, v)]
    } else if lex_lt(k, d[0].0) {
        seq![(k, v)] + d
    } else if k == d[0].0 {
        seq![(k, v)] + d.drop_first()
    } else {
        seq![d[0]] + dict_insert(d.drop_first(), k, v)
    }
}

/// Inserts the entries of `l` into `d`, in order from the front.
pub open spec fn dict_fold(d: Seq<(Seq<u8>, Bval)>, l: Seq<(Seq<u8>, Bval)>) -> Seq<
    (Seq<u8>, Bval),
>
    decreases l.len(),
{
    if l.len() == 0 {
        d
    } else {
        dict_fold(dict_insert(d, l[0].0, l[0].1), l.drop_first())
    }
}

/// Folds a list of entries, in encounter order, into a key-ordered dictionary;
/// a later entry for the same key wins.
pub open spec fn dict_from(l: Seq<(Seq<u8>, Bval)>) -> Seq<(Seq<u8>, Bval)> {
    dict_fold(seq![], l)
}

/// Binding of `k` in the entry list, if any.
pub open spec fn dict_lookup(d: Seq<(Seq<u8>, Bval)>, k: Seq<u8>) -> Option<Bval>
    decreases d.len(),
{
    if d.len() == 0 {
        None
    } else if d[0].0 == k {
        Some(d[0].1)
    } else {
        dict_lookup(d.drop_first(), k)
    }
}

/// Canonical encoding of a byte string: decimal length, ':', raw bytes.
pub open spec fn enc_str(s: Seq<u8>) -> Seq<u8> {
    dec_digits(s.len()) + seq![58u8] + s
}

/// Canonical encoding of a value.
pub open spec fn enc(v: Bval) -> Seq<u8>
    decreases v,
{
    match v {
        Bval::Str(s) => enc_str(s),
        Bval::Int(i) => seq![105u8] + dec_digits_i64(i) + seq![101u8],
        Bval::List(l) => seq![108u8] + enc_items(l) + seq![101u8],
        Bval::Dict(d) => seq![100u8] + enc_entries(d) + seq![101u8],
    }
}

/// Concatenated encodings of the elements of a list.
pub open spec fn enc_items(l: Seq<Bval>) -> Seq<u8>
    decreases l,
{
    if l.len() == 0 {
        seq![]
    } else {
        enc(l[0]) + enc_items(l.drop_first())
    }
}

/// Concatenated key/value encodings of the entries of a dictionary.
pub open spec fn enc_entries(d: Seq<(Seq<u8>, Bval)>) -> Seq<u8>
    decreases d,
{
    if d.len() == 0 {
        seq![]
    } else {
        enc_str(d[0].0) + enc(d[0].1) + enc_entries(d.drop_first())
    }
}

/// The ways parsing can fail; each variant carries the bytes that the error
/// message quotes.
pub enum PErr {
    /// The digit run ended without the expected terminator byte.
    NoEnd(Seq<u8>),
    /// The terminator came before any digit.
    EmptyNum(Seq<u8>),
    /// A byte that is neither a digit nor the terminator.
    NonDigit(u8, Seq<u8>),
    /// Fewer payload bytes remain than the declared string length.
    ShortStr(Seq<u8>),
    /// Nothing to parse.
    EmptyInput,
    /// A leading byte that starts no bencode form.
    BadTag(Seq<u8>),
    /// A list ran out of input before its 'e' terminator.
    ListNoEnd,
    /// A dictionary ran out of input before its 'e' terminator.
    DictNoEnd,
}

/// Debug-style rendering of the first `i` bytes of `s`, comma separated.
pub open spec fn dbg_pre(s: Seq<u8>, i: int) -> Seq<char>
    decreases i,
{
    if i <= 0 {
        seq![]
    } else if i == 1 {
        dec_chars(s[0] as nat)
    } else {
        dbg_pre(s, i - 1) + seq![',', ' '] + dec_chars(s[i - 1] as nat)
    }
}

/// Debug-style rendering of a byte sequence: "[52, 101]".
pub open spec fn dbg_chars(s: Seq<u8>) -> Seq<char> {
    seq!['['] + dbg_pre(s, s.len() as int) + seq![']']
}

/// The exact message text of a parse error.
pub open spec fn err_msg(e: PErr) -> Seq<char> {
    match e {
        PErr::NoEnd(c) => "String num does not contains end tag"@ + ": "@ + dbg_chars(c),
        PErr::EmptyNum(c) => "Number cannot be empty"@ + ": "@ + dbg_chars(c),
        PErr::NonDigit(b, c) => "String num is not a number="@ + dec_chars(b as nat) + ": "@
            + dbg_chars(c),
        PErr::ShortStr(c) => "String payload is too short"@ + ": "@ + dbg_chars(c),
        PErr::EmptyInput => "Input is empty"@ + ": "@ + dbg_chars(seq![]),
        PErr::BadTag(c) => "Invalid Bencode content"@ + ": "@ + dbg_chars(c),
        PErr::ListNoEnd => "List miss end tag"@ + ": "@ + dbg_chars(seq![]),
        PErr::DictNoEnd => "Dict miss end tag"@ + ": "@ + dbg_chars(seq![]),
    }
}

/// Whether `r` failed with an error whose message is exactly `msg`.
pub open spec fn is_err_with<A>(r: Result<A, PErr>, msg: Seq<char>) -> bool {
    match r {
        Ok(_) => false,
        Err(e) => msg == err_msg(e),
    }
}

/// One past the largest accumulator value, for length parsing.
pub open spec fn usize_mod() -> nat {
    usize::MAX as nat + 1
}

/// One past the largest accumulator value, for integer parsing.
pub open spec fn u64_mod() -> nat {
    0x1_0000_0000_0000_0000
}

/// One accumulation step: append digit byte `d` with wraparound at `m`.
pub open spec fn scan_step(acc: nat, d: u8, m: nat) -> nat {
    ((acc * 10 + (d - 48)) % (m as int)) as nat
}

/// Reads a decimal digit run from position `i` of `s` until the byte `end`,
/// accumulating with wraparound at `m`, exactly as repeated `*10 + digit`
/// steps on a machine integer would.
pub open spec fn scan_num(s: Seq<u8>, i: int, acc: nat, end: u8, m: nat) -> Result<
    (Seq<u8>, nat),
    PErr,
>
    decreases s.len() - i,
{
    if i >= s.len() {
        Err(PErr::NoEnd(s))
    } else if s[i] == end {
        if i == 0 {
            Err(PErr::EmptyNum(s))
        } else {
            Ok((s.subrange(i + 1, s.len() as int), acc))
        }
    } else if 48 <= s[i] <= 57 {
        scan_num(s, i + 1, scan_step(acc, s[i], m), end, m)
    } else {
        Err(PErr::NonDigit(s[i], s))
    }
}

/// Parses a length-prefixed byte string, `s` starting at its first digit.
pub open spec fn p_text(s: Seq<u8>) -> Result<(Seq<u8>, Seq<u8>), PErr> {
    match scan_num(s, 0, 0, 58, usize_mod()) {
        Err(e) => Err(e),
        Ok((rest, n)) => if n > rest.len() {
            Err(PErr::ShortStr(rest))
        } else {
            Ok((rest.subrange(n as int, rest.len() as int), rest.subrange(0, n as int)))
        },
    }
}

/// The signed 64-bit value whose two's-complement bit pattern is `n`.
pub open spec fn i64_from_bits(n: nat) -> i64 {
    if n < 0x8000_0000_0000_0000 {
        n as i64
    } else {
        (n - 0x1_0000_0000_0000_0000) as i64
    }
}

/// Two's-complement negation of a 64-bit pattern.
pub open spec fn neg_bits(n: nat) -> nat {
    (((u64_mod() - n) % (u64_mod() as int)) as nat)
}

/// Parses an integer, `s` starting at the 'i' tag.
pub open spec fn p_int(s: Seq<u8>) -> Result<(Seq<u8>, i64), PErr> {
    if s.len() >= 2 && s[1] == 45 {
        match scan_num(s.subrange(2, s.len() as int), 0, 0, 101, u64_mod()) {
            Err(e) => Err(e),
            Ok((rest, n)) => Ok((rest, i64_from_bits(neg_bits(n)))),
        }
    } else {
        match scan_num(s.subrange(1, s.len() as int), 0, 0, 101, u64_mod()) {
            Err(e) => Err(e),
            Ok((rest, n)) => Ok((rest, i64_from_bits(n))),
        }
    }
}

/// Parses one value. `f` is fuel that bounds list/dictionary nesting; any
/// `f >= s.len()` gives the same result (`lemma_value_fuel`).
pub open spec fn p_value(s: Seq<u8>, f: nat) -> Result<(Seq<u8>, Bval), PErr>
    decreases f, 0int,
{
    if s.len() == 0 {
        Err(PErr::EmptyInput)
    } else if 48 <= s[0] <= 57 {
        match p_text(s) {
            Err(e) => Err(e),
            Ok((r, t)) => Ok((r, Bval::Str(t))),
        }
    } else if s[0] == 105 {
        match p_int(s) {
            Err(e) => Err(e),
            Ok((r, i)) => Ok((r, Bval::Int(i))),
        }
    } else if s[0] == 108 {
        if f == 0 {
            Err(PErr::ListNoEnd)
        } else {
            match p_items(s.subrange(1, s.len() as int), (f - 1) as nat) {
                Err(e) => Err(e),
                Ok((r, l)) => Ok((r, Bval::List(l))),
            }
        }
    } else if s[0] == 100 {
        if f == 0 {
            Err(PErr::DictNoEnd)
        } else {
            match p_entries(s.subrange(1, s.len() as int), (f - 1) as nat) {
                Err(e) => Err(e),
                Ok((r, d)) => Ok((r, Bval::Dict(dict_from(d)))),
            }
        }
    } else {
        Err(PErr::BadTag(s))
    }
}

/// Parses list elements up to and including the 'e' terminator.
pub open spec fn p_items(s: Seq<u8>, f: nat) -> Result<(Seq<u8>, Seq<Bval>), PErr>
    decreases f, 1int,
{
    if s.len() == 0 {
        Err(PErr::ListNoEnd)
    } else if s[0] == 101 {
        Ok((s.subrange(1, s.len() as int), seq![]))
    } else if f == 0 {
        Err(PErr::ListNoEnd)
    } else {
        match p_value(s, f) {
            Err(e) => Err(e),
            Ok((r, v)) => match p_items(r, (f - 1) as nat) {
                Err(e) => Err(e),
                Ok((r2, l)) => Ok((r2, seq![v] + l)),
            },
        }
    }
}

/// Parses dictionary entries, in encounter order, up to and including the
/// 'e' terminator.
pub open spec fn p_entries(s: Seq<u8>, f: nat) -> Result<(Seq<u8>, Seq<(Seq<u8>, Bval)>), PErr>
    decreases f, 1int,
{
    if s.len() == 0 {
        Err(PErr::DictNoEnd)
    } else if s[0] == 101 {
        Ok((s.subrange(1, s.len() as int), seq![]))
    } else if f == 0 {
        Err(PErr::DictNoEnd)
    } else {
        match p_text(s) {
            Err(e) => Err(e),
            Ok((r1, k)) => match p_value(r1, f) {
                Err(e) => Err(e),
                Ok((r2, v)) => match p_entries(r2, (f - 1) as nat) {
                    Err(e) => Err(e),
                    Ok((r3, tail)) => Ok((r3, seq![(k, v)] + tail)),
                },
            },
        }
    }
}

/// The parser proper: fuel fixed at the input length.
pub open spec fn parse_value(s: Seq<u8>) -> Result<(Seq<u8>, Bval), PErr> {
    p_value(s, s.len())
}

/// Scanning a digit run consumes at least the terminator.
pub proof fn lemma_scan_consumes(s: Seq<u8>, i: int, acc: nat, end: u8, m: nat)
    requires
        0 <= i <= s.len(),
    ensures
        scan_num(s, i, acc, end, m) matches Ok((r, _)) ==> r.len() < s.len() - i,
    decreases s.len() - i,
{
    if i < s.len() && s[i] != end && 48 <= s[i] <= 57 {
        lemma_scan_consumes(s, i + 1, scan_step(acc, s[i], m), end, m);
    }
}

/// A successful text parse consumes at least the length prefix and ':'.
pub proof fn lemma_text_consumes(s: Seq<u8>)
    ensures
        p_text(s) matches Ok((r, _)) ==> r.len() < s.len(),
{
    lemma_scan_consumes(s, 0, 0, 58, usize_mod());
}

/// A successful integer parse consumes at least 'i', a digit, and 'e'.
pub proof fn lemma_int_consumes(s: Seq<u8>)
    requires
        s.len() > 0,
    ensures
        p_int(s) matches Ok((r, _)) ==> r.len() < s.len(),
{
    if s.len() >= 2 && s[1] == 45 {
        lemma_scan_consumes(s.subrange(2, s.len() as int), 0, 0, 101, u64_mod());
    } else {
        lemma_scan_consumes(s.subrange(1, s.len() as int), 0, 0, 101, u64_mod());
    }
}

/// Any fuel of at least the input length gives the parser's one true answer,
/// and a successful parse always consumes at least one byte.
pub proof fn lemma_value_fuel(s: Seq<u8>, f: nat)
    requires
        f >= s.len(),
    ensures
        p_value(s, f) == parse_value(s),
        p_value(s, f) matches Ok((r, _)) ==> r.len() < s.len(),
    decreases f, 0int,
{
    if s.len() == 0 {
    } else if 48 <= s[0] <= 57 {
        lemma_text_consumes(s);
    } else if s[0] == 105 {
        lemma_int_consumes(s);
    } else if s[0] == 108 {
        let s1 = s.subrange(1, s.len() as int);
        lemma_items_fuel(s1, (f - 1) as nat);
        lemma_items_fuel(s1, (s.len() - 1) as nat);
    } else if s[0] == 100 {
        let s1 = s.subrange(1, s.len() as int);
        lemma_entries_fuel(s1, (f - 1) as nat);
        lemma_entries_fuel(s1, (s.len() - 1) as nat);
    } else {
    }
}

/// Fuel irrelevance and consumption for list element parsing.
pub proof fn lemma_items_fuel(s: Seq<u8>, f: nat)
    requires
        f >= s.len(),
    ensures
        p_items(s, f) == p_items(s, s.len()),
        p_items(s, f) matches Ok((r, _)) ==> r.len() < s.len(),
    decreases f, 1int,
{
    if s.len() == 0 {
    } else if s[0] == 101 {
    } else {
        lemma_value_fuel(s, f);
        match p_value(s, f) {
            Err(_) => {},
            Ok((r, v)) => {
                lemma_items_fuel(r, (f - 1) as nat);
                lemma_items_fuel(r, r.len());
                if s.len() - 1 >= r.len() {
                    lemma_items_fuel(r, (s.len() - 1) as nat);
                }
            },
        }
    }
}

/// Fuel irrelevance and consumption for dictionary entry parsing.
pub proof fn lemma_entries_fuel(s: Seq<u8>, f: nat)
    requires
        f >= s.len(),
    ensures
        p_entries(s, f) == p_entries(s, s.len()),
        p_entries(s, f) matches Ok((r, _)) ==> r.len() < s.len(),
    decreases f, 1int,
{
    if s.len() == 0 {
    } else if s[0] == 101 {
    } else {
        lemma_text_consumes(s);
        match p_text(s) {
            Err(_) => {},
            Ok((r1, k)) => {
                lemma_value_fuel(r1, f);
                lemma_value_fuel(r1, r1.len());
                if s.len() >= r1.len() {
                    lemma_value_fuel(r1, s.len());
                }
                match p_value(r1, f) {
                    Err(_) => {},
                    Ok((r2, v)) => {
                        lemma_entries_fuel(r2, (f - 1) as nat);
                        lemma_entries_fuel(r2, r2.len());
                        if s.len() - 1 >= r2.len() {
                            lemma_entries_fuel(r2, (s.len() - 1) as nat);
                        }
                    },
                }
            },
        }
    }
}


/// Every byte of a decimal rendering is an ASCII digit.
pub proof fn lemma_dec_digits_are_digits(n: nat)
    ensures
        dec_digits(n).len() >= 1,
        forall|j: int| 0 <= j < dec_digits(n).len() ==> 48 <= #[trigger] dec_digits(n)[j] <= 57,
    decreases n,
{
    if n >= 10 {
        lemma_dec_digits_are_digits(n / 10);
    }
}

/// Left fold of accumulation steps over a digit run.
pub open spec fn val_of(acc: nat, ds: Seq<u8>, m: nat) -> nat
    decreases ds.len(),
{
    if ds.len() == 0 {
        acc
    } else {
        val_of(scan_step(acc, ds[0], m), ds.drop_first(), m)
    }
}

/// Folding one more digit is one more step.
pub proof fn lemma_val_push(acc: nat, ds: Seq<u8>, d: u8, m: nat)
    ensures
        val_of(acc, ds.push(d), m) == scan_step(val_of(acc, ds, m), d, m),
    decreases ds.len(),
{
    if ds.len() == 0 {
        assert(ds.push(d)[0] == d);
        assert(ds.push(d).drop_first() =~= Seq::<u8>::empty());
        assert(val_of(scan_step(acc, d, m), Seq::<u8>::empty(), m) == scan_step(acc, d, m));
        assert(val_of(acc, ds, m) == acc);
    } else {
        assert(ds.push(d)[0] == ds[0]);
        assert(ds.push(d).drop_first() =~= ds.drop_first().push(d));
        lemma_val_push(scan_step(acc, ds[0], m), ds.drop_first(), d, m);
    }
}

/// The digit run of `n` folds back to `n` whenever `n` is below the modulus.
pub proof fn lemma_val_dec_digits(n: nat, m: nat)
    requires
        n < m,
    ensures
        val_of(0, dec_digits(n), m) == n,
    decreases n,
{
    if n < 10 {
        let d = (48 + n) as u8;
        assert(dec_digits(n) =~= seq![d]);
        assert(seq![d].drop_first() =~= Seq::<u8>::empty());
        assert(val_of(scan_step(0, d, m), Seq::<u8>::empty(), m) == scan_step(0, d, m));
        assert(val_of(0, seq![d], m) == scan_step(0, d, m));
        lemma_small_mod(n, m);
    } else {
        lemma_val_dec_digits(n / 10, m);
        lemma_val_push(0, dec_digits(n / 10), (48 + n % 10) as u8, m);
        assert(val_of(0, dec_digits(n), m) == scan_step((n / 10) as nat, (48 + n % 10) as u8, m));
        lemma_fundamental_div_mod(n as int, 10);
        assert((n / 10) * 10 + (n % 10) == n);
        lemma_small_mod(n, m);
    }
}

/// Scanning across a digit run up to its terminator at `k` yields the folded
/// value and the bytes after the terminator.
pub proof fn lemma_scan_run(s: Seq<u8>, j: int, k: int, acc: nat, end: u8, m: nat)
    requires
        0 <= j <= k < s.len(),
        s[k] == end,
        forall|p: int| j <= p < k ==> 48 <= #[trigger] s[p] <= 57,
        !(48 <= end <= 57),
        j > 0 || j < k,
    ensures
        scan_num(s, j, acc, end, m) == Ok::<(Seq<u8>, nat), PErr>(
            (s.subrange(k + 1, s.len() as int), val_of(acc, s.subrange(j, k), m)),
        ),
    decreases k - j,
{
    if j == k {
        assert(s.subrange(j, k) =~= Seq::<u8>::empty());
    } else {
        lemma_scan_run(s, j + 1, k, scan_step(acc, s[j], m), end, m);
        assert(s.subrange(j, k)[0] == s[j]);
        assert(s.subrange(j, k).drop_first() =~= s.subrange(j + 1, k));
    }
}

/// Parsing the encoding of a byte string gives the string back.
pub proof fn lemma_text_round(s: Seq<u8>, rest: Seq<u8>)
    requires
        s.len() <= usize::MAX,
    ensures
        p_text(enc_str(s) + rest) == Ok::<(Seq<u8>, Seq<u8>), PErr>((rest, s)),
{
    let t = enc_str(s) + rest;
    let ds = dec_digits(s.len());
    lemma_dec_digits_are_digits(s.len());
    let k = ds.len() as int;
    assert(t[k] == 58);
    assert(forall|p: int| 0 <= p < k ==> 48 <= #[trigger] t[p] <= 57);
    lemma_scan_run(t, 0, k, 0, 58, usize_mod());
    assert(t.subrange(0, k) =~= ds);
    lemma_val_dec_digits(s.len(), usize_mod());
    let rest1 = t.subrange(k + 1, t.len() as int);
    assert(rest1 =~= s + rest);
    assert(rest1.subrange(s.len() as int, rest1.len() as int) =~= rest);
    assert(rest1.subrange(0, s.len() as int) =~= s);
}

/// Parsing the encoding of an integer gives the integer back, sign included.
pub proof fn lemma_int_round(i: i64, rest: Seq<u8>)
    ensures
        p_int(enc(Bval::Int(i)) + rest) == Ok::<(Seq<u8>, i64), PErr>((rest, i)),
{
    let t = enc(Bval::Int(i)) + rest;
    if i >= 0 {
        let ds = dec_digits(i as nat);
        lemma_dec_digits_are_digits(i as nat);
        let sub = t.subrange(1, t.len() as int);
        assert(sub =~= ds + seq![101u8] + rest);
        assert(t[1] == ds[0]);
        let k = ds.len() as int;
        assert(sub[k] == 101);
        assert(forall|p: int| 0 <= p < k ==> 48 <= #[trigger] sub[p] <= 57);
        lemma_scan_run(sub, 0, k, 0, 101, u64_mod());
        assert(sub.subrange(0, k) =~= ds);
        lemma_val_dec_digits(i as nat, u64_mod());
        assert(sub.subrange(k + 1, sub.len() as int) =~= rest);
    } else {
        let mag = (-(i as int)) as nat;
        let ds = dec_digits(mag);
        lemma_dec_digits_are_digits(mag);
        assert(t[1] == 45);
        let sub = t.subrange(2, t.len() as int);
        assert(sub =~= ds + seq![101u8] + rest);
        let k = ds.len() as int;
        assert(sub[k] == 101);
        assert(forall|p: int| 0 <= p < k ==> 48 <= #[trigger] sub[p] <= 57);
        lemma_scan_run(sub, 0, k, 0, 101, u64_mod());
        assert(sub.subrange(0, k) =~= ds);
        lemma_val_dec_digits(mag, u64_mod());
        assert(sub.subrange(k + 1, sub.len() as int) =~= rest);
        lemma_small_mod((u64_mod() - mag) as nat, u64_mod());
    }
}

/// An encoding is never empty and never opens with the terminator byte 'e'.
pub proof fn lemma_enc_first(v: Bval)
    ensures
        enc(v).len() >= 1,
        enc(v)[0] != 101,
{
    match v {
        Bval::Str(s) => {
            lemma_dec_digits_are_digits(s.len());
            assert(enc(v)[0] == dec_digits(s.len())[0]);
        },
        _ => {},
    }
}

/// Lexicographic order is asymmetric, irreflexive through inequality, and
/// connex: of two distinct strings one is below the other.
pub proof fn lemma_lex_props(a: Seq<u8>, b: Seq<u8>)
    ensures
        lex_lt(a, b) ==> !lex_lt(b, a),
        lex_lt(a, b) ==> a != b,
        (!lex_lt(a, b) && !lex_lt(b, a)) ==> a == b,
    decreases a.len(),
{
    if b.len() == 0 {
        if a.len() == 0 {
            assert(a =~= b);
        }
    } else if a.len() == 0 {
    } else if a[0] != b[0] {
    } else {
        lemma_lex_props(a.drop_first(), b.drop_first());
        if lex_lt(a, b) && a == b {
            assert(a.drop_first() == b.drop_first());
        }
        if !lex_lt(a, b) && !lex_lt(b, a) {
            assert(a.drop_first() == b.drop_first());
            assert(forall|i: int| 1 <= i < a.len() ==> #[trigger] a[i] == a.drop_first()[i - 1]);
            assert(forall|i: int| 1 <= i < b.len() ==> #[trigger] b[i] == b.drop_first()[i - 1]);
            assert(a =~= b);
        }
    }
}

/// Lexicographic order is transitive.
pub proof fn lemma_lex_trans(a: Seq<u8>, b: Seq<u8>, c: Seq<u8>)
    requires
        lex_lt(a, b),
        lex_lt(b, c),
    ensures
        lex_lt(a, c),
    decreases a.len(),
{
    if a.len() == 0 {
    } else {
        if a[0] == b[0] && b[0] == c[0] {
            lemma_lex_trans(a.drop_first(), b.drop_first(), c.drop_first());
        }
    }
}

/// Keys of every entry of `d` precede `k`.
pub open spec fn keys_below(d: Seq<(Seq<u8>, Bval)>, k: Seq<u8>) -> bool {
    forall|i: int| 0 <= i < d.len() ==> lex_lt(#[trigger] d[i].0, k)
}

/// Inserting a key above every present key appends the entry.
pub proof fn lemma_insert_after_all(d: Seq<(Seq<u8>, Bval)>, k: Seq<u8>, v: Bval)
    requires
        keys_below(d, k),
    ensures
        dict_insert(d, k, v) == d.push((k, v)),
    decreases d.len(),
{
    if d.len() == 0 {
        assert(seq![(k, v)] =~= d.push((k, v)));
    } else {
        lemma_lex_props(d[0].0, k);
        assert(forall|i: int|
            0 <= i < d.drop_first().len() ==> lex_lt(#[trigger] d.drop_first()[i].0, k));
        lemma_insert_after_all(d.drop_first(), k, v);
        assert(seq![d[0]] + d.drop_first().push((k, v)) =~= d.push((k, v)));
    }
}

/// Folding an already sorted run of entries onto a compatible prefix merely
/// appends it.
pub proof fn lemma_fold_sorted_append(acc: Seq<(Seq<u8>, Bval)>, l: Seq<(Seq<u8>, Bval)>)
    requires
        entries_sorted(acc + l),
    ensures
        dict_fold(acc, l) == acc + l,
    decreases l.len(),
{
    if l.len() == 0 {
        assert(acc + l =~= acc);
    } else {
        let al = acc + l;
        assert(forall|i: int| 0 <= i < acc.len() ==> acc[i] == al[i]);
        assert(al[acc.len() as int] == l[0]);
        assert(keys_below(acc, l[0].0)) by {
            assert(forall|i: int| 0 <= i < acc.len() ==> lex_lt(#[trigger] al[i].0, l[0].0));
        }
        lemma_insert_after_all(acc, l[0].0, l[0].1);
        assert((l[0].0, l[0].1) == l[0]);
        let acc2 = acc.push(l[0]);
        assert(acc2 + l.drop_first() =~= acc + l);
        lemma_fold_sorted_append(acc2, l.drop_first());
    }
}

/// A sorted dictionary is its own canonical form.
pub proof fn lemma_dict_from_sorted(d: Seq<(Seq<u8>, Bval)>)
    requires
        entries_sorted(d),
    ensures
        dict_from(d) == d,
{
    assert(Seq::<(Seq<u8>, Bval)>::empty() + d =~= d);
    lemma_fold_sorted_append(seq![], d);
}

/// Law: parsing the encoding of any well-formed value consumes exactly the
/// encoding and yields the value back, whatever bytes follow it.
pub proof fn lemma_parse_encode_round_trip(v: Bval, rest: Seq<u8>)
    requires
        wf(v),
    ensures
        parse_value(enc(v) + rest) == Ok::<(Seq<u8>, Bval), PErr>((rest, v)),
    decreases v,
{
    let t = enc(v) + rest;
    match v {
        Bval::Str(s) => {
            lemma_dec_digits_are_digits(s.len());
            assert(t[0] == dec_digits(s.len())[0]);
            assert(t =~= enc_str(s) + rest);
            lemma_text_round(s, rest);
        },
        Bval::Int(i) => {
            assert(t[0] == 105);
            lemma_int_round(i, rest);
        },
        Bval::List(l) => {
            assert(t[0] == 108);
            let s1 = t.subrange(1, t.len() as int);
            assert(s1 =~= enc_items(l) + seq![101u8] + rest);
            lemma_items_round(l, rest);
        },
        Bval::Dict(d) => {
            assert(t[0] == 100);
            let s1 = t.subrange(1, t.len() as int);
            assert(s1 =~= enc_entries(d) + seq![101u8] + rest);
            lemma_entries_round(d, rest);
            lemma_dict_from_sorted(d);
        },
    }
}

/// Round trip of a list body: its element encodings followed by 'e'.
pub proof fn lemma_items_round(l: Seq<Bval>, rest: Seq<u8>)
    requires
        wf_items(l),
    ensures
        p_items(
            enc_items(l) + seq![101u8] + rest,
            (enc_items(l) + seq![101u8] + rest).len(),
        ) == Ok::<(Seq<u8>, Seq<Bval>), PErr>((rest, l)),
    decreases l,
{
    let s = enc_items(l) + seq![101u8] + rest;
    if l.len() == 0 {
        assert(s[0] == 101);
        assert(s.subrange(1, s.len() as int) =~= rest);
        assert(l =~= Seq::<Bval>::empty());
    } else {
        let v0 = l[0];
        let rest1 = enc_items(l.drop_first()) + seq![101u8] + rest;
        assert(s =~= enc(v0) + rest1);
        lemma_enc_first(v0);
        assert(s[0] == enc(v0)[0]);
        lemma_parse_encode_round_trip(v0, rest1);
        lemma_items_fuel(rest1, (s.len() - 1) as nat);
        lemma_items_round(l.drop_first(), rest);
        assert(seq![v0] + l.drop_first() =~= l);
    }
}

/// Round trip of a dictionary body: its key and value encodings followed by
/// 'e', read back in encounter order.
pub proof fn lemma_entries_round(d: Seq<(Seq<u8>, Bval)>, rest: Seq<u8>)
    requires
        wf_entries(d),
    ensures
        p_entries(
            enc_entries(d) + seq![101u8] + rest,
            (enc_entries(d) + seq![101u8] + rest).len(),
        ) == Ok::<(Seq<u8>, Seq<(Seq<u8>, Bval)>), PErr>((rest, d)),
    decreases d,
{
    let s = enc_entries(d) + seq![101u8] + rest;
    if d.len() == 0 {
        assert(s[0] == 101);
        assert(s.subrange(1, s.len() as int) =~= rest);
        assert(d =~= Seq::<(Seq<u8>, Bval)>::empty());
    } else {
        let k0 = d[0].0;
        let v0 = d[0].1;
        let rest2 = enc_entries(d.drop_first()) + seq![101u8] + rest;
        let tail1 = enc(v0) + rest2;
        assert(s =~= enc_str(k0) + tail1);
        lemma_dec_digits_are_digits(k0.len());
        assert(s[0] == dec_digits(k0.len())[0]);
        lemma_text_round(k0, tail1);
        lemma_value_fuel(tail1, s.len());
        lemma_parse_encode_round_trip(v0, rest2);
        lemma_enc_first(v0);
        lemma_entries_fuel(rest2, (s.len() - 1) as nat);
        lemma_entries_round(d.drop_first(), rest);
        assert((k0, v0) == d[0]);
        assert(seq![(k0, v0)] + d.drop_first() =~= d);
    }
}

/// Law: encoding is idempotent across a parse - re-encoding what the parser
/// made of a well-formed value's encoding gives the same bytes, and nothing
/// is left over.
pub proof fn lemma_encode_parse_idempotent(v: Bval)
    requires
        wf(v),
    ensures
        parse_value(enc(v)) matches Ok(p) && p.0 == Seq::<u8>::empty() && enc(p.1) == enc(v),
{
    lemma_parse_encode_round_trip(v, seq![]);
    assert(enc(v) + Seq::<u8>::empty() =~= enc(v));
}


/// Whether some entry of `d` has key `key`.
pub open spec fn contains_key(d: Seq<(Seq<u8>, Bval)>, key: Seq<u8>) -> bool {
    exists|j: int| 0 <= j < d.len() && (#[trigger] d[j]).0 == key
}

/// All keys of `l` are distinct.
pub open spec fn distinct_keys(l: Seq<(Seq<u8>, Bval)>) -> bool {
    forall|i: int, j: int| 0 <= i < j < l.len() ==> (#[trigger] l[i]).0 != (#[trigger] l[j]).0
}

/// After an insert, the inserted key holds the new value and every other key
/// keeps its old binding.
pub proof fn lemma_insert_lookup(d: Seq<(Seq<u8>, Bval)>, k: Seq<u8>, v: Bval, k2: Seq<u8>)
    ensures
        dict_lookup(dict_insert(d, k, v), k2) == if k2 == k {
            Some(v)
        } else {
            dict_lookup(d, k2)
        },
    decreases d.len(),
{
    let r = dict_insert(d, k, v);
    if d.len() == 0 {
        assert(r.drop_first() =~= Seq::<(Seq<u8>, Bval)>::empty());
    } else if lex_lt(k, d[0].0) {
        assert(r.drop_first() =~= d);
        lemma_lex_props(k, d[0].0);
    } else if k == d[0].0 {
        assert(r.drop_first() =~= d.drop_first());
    } else {
        assert(r[0] == d[0]);
        assert(r.drop_first() =~= dict_insert(d.drop_first(), k, v));
        lemma_insert_lookup(d.drop_first(), k, v, k2);
    }
}

/// Inserting keeps the keys sorted, and introduces no key but `k`.
pub proof fn lemma_insert_sorted(d: Seq<(Seq<u8>, Bval)>, k: Seq<u8>, v: Bval)
    requires
        entries_sorted(d),
    ensures
        entries_sorted(dict_insert(d, k, v)),
        forall|idx: int|
            0 <= idx < dict_insert(d, k, v).len() ==> (#[trigger] dict_insert(d, k, v)[idx]).0
                == k || contains_key(d, dict_insert(d, k, v)[idx].0),
    decreases d.len(),
{
    let r = dict_insert(d, k, v);
    if d.len() == 0 {
    } else if lex_lt(k, d[0].0) {
        assert forall|i: int, j: int| 0 <= i < j < r.len() implies lex_lt(r[i].0, r[j].0) by {
            if i == 0 {
                if j > 1 {
                    assert(lex_lt(d[0].0, d[j - 1].0));
                    lemma_lex_trans(k, d[0].0, d[j - 1].0);
                }
            } else {
                assert(lex_lt(d[i - 1].0, d[j - 1].0));
            }
        }
        assert forall|idx: int|
            0 <= idx < r.len() implies (r[idx].0 == k || contains_key(d, r[idx].0)) by {
            if idx > 0 {
                assert(d[idx - 1].0 == r[idx].0);
            }
        }
    } else if k == d[0].0 {
        assert forall|i: int, j: int| 0 <= i < j < r.len() implies lex_lt(r[i].0, r[j].0) by {
            assert(r[i].0 == d[i].0);
            assert(r[j].0 == d[j].0);
            assert(lex_lt(d[i].0, d[j].0));
        }
        assert forall|idx: int|
            0 <= idx < r.len() implies (r[idx].0 == k || contains_key(d, r[idx].0)) by {
            if idx > 0 {
                assert(d[idx].0 == r[idx].0);
            }
        }
    } else {
        lemma_lex_props(k, d[0].0);
        let tail = d.drop_first();
        assert forall|i: int, j: int| 0 <= i < j < tail.len() implies lex_lt(
            tail[i].0,
            tail[j].0,
        ) by {
            assert(tail[i] == d[i + 1]);
            assert(tail[j] == d[j + 1]);
            assert(lex_lt(d[i + 1].0, d[j + 1].0));
        }
        lemma_insert_sorted(tail, k, v);
        let rt = dict_insert(tail, k, v);
        assert(r =~= seq![d[0]] + rt);
        assert forall|i: int, j: int| 0 <= i < j < r.len() implies lex_lt(r[i].0, r[j].0) by {
            if i == 0 {
                let key = r[j].0;
                assert(rt[j - 1].0 == key);
                if key == k {
                } else {
                    let m = choose|m: int| 0 <= m < tail.len() && (#[trigger] tail[m]).0 == key;
                    assert(tail[m] == d[m + 1]);
                    assert(lex_lt(d[0].0, d[m + 1].0));
                }
            } else {
                assert(lex_lt(rt[i - 1].0, rt[j - 1].0));
            }
        }
        assert forall|idx: int|
            0 <= idx < r.len() implies (r[idx].0 == k || contains_key(d, r[idx].0)) by {
            if idx == 0 {
                assert(d[0].0 == r[0].0);
            } else {
                assert(r[idx] == rt[idx - 1]);
                if rt[idx - 1].0 == k {
                } else {
                    let key = rt[idx - 1].0;
                    let m = choose|m: int| 0 <= m < tail.len() && (#[trigger] tail[m]).0 == key;
                    assert(d[m + 1].0 == r[idx].0);
                }
            }
        }
    }
}

/// Folding bindings keeps the dictionary sorted.
pub proof fn lemma_fold_sorted(acc: Seq<(Seq<u8>, Bval)>, l: Seq<(Seq<u8>, Bval)>)
    requires
        entries_sorted(acc),
    ensures
        entries_sorted(dict_fold(acc, l)),
    decreases l.len(),
{
    if l.len() > 0 {
        lemma_insert_sorted(acc, l[0].0, l[0].1);
        lemma_fold_sorted(dict_insert(acc, l[0].0, l[0].1), l.drop_first());
    }
}

/// The binding a list of entries gives `k`: the last occurrence wins.
pub open spec fn list_lookup(l: Seq<(Seq<u8>, Bval)>, k: Seq<u8>) -> Option<Bval>
    decreases l.len(),
{
    if l.len() == 0 {
        None
    } else {
        match list_lookup(l.drop_first(), k) {
            Some(v) => Some(v),
            None => if l[0].0 == k {
                Some(l[0].1)
            } else {
                None
            },
        }
    }
}

/// Lookup through a fold: bindings of the list shadow those already present.
pub proof fn lemma_fold_lookup(acc: Seq<(Seq<u8>, Bval)>, l: Seq<(Seq<u8>, Bval)>, k: Seq<u8>)
    ensures
        dict_lookup(dict_fold(acc, l), k) == (match list_lookup(l, k) {
            Some(v) => Some(v),
            None => dict_lookup(acc, k),
        }),
    decreases l.len(),
{
    if l.len() > 0 {
        lemma_fold_lookup(dict_insert(acc, l[0].0, l[0].1), l.drop_first(), k);
        lemma_insert_lookup(acc, l[0].0, l[0].1, k);
    }
}

/// A found binding is an entry of the list; an absent key matches no entry.
pub proof fn lemma_list_lookup_contains(l: Seq<(Seq<u8>, Bval)>, k: Seq<u8>)
    ensures
        match list_lookup(l, k) {
            Some(v) => l.contains((k, v)),
            None => forall|i: int| 0 <= i < l.len() ==> (#[trigger] l[i]).0 != k,
        },
    decreases l.len(),
{
    if l.len() == 0 {
    } else {
        let tail = l.drop_first();
        lemma_list_lookup_contains(tail, k);
        match list_lookup(tail, k) {
            Some(v) => {
                let j = choose|j: int| 0 <= j < tail.len() && tail[j] == (k, v);
                assert(l[j + 1] == (k, v));
            },
            None => {
                if l[0].0 == k {
                    assert(l[0] == (k, l[0].1));
                } else {
                    assert forall|i: int| 0 <= i < l.len() implies (#[trigger] l[i]).0 != k by {
                        if i > 0 {
                            assert(l[i] == tail[i - 1]);
                        }
                    }
                }
            },
        }
    }
}

/// With distinct keys, a present binding is the one the lookup answers.
pub proof fn lemma_distinct_lookup(l: Seq<(Seq<u8>, Bval)>, k: Seq<u8>, v: Bval)
    requires
        distinct_keys(l),
        l.contains((k, v)),
    ensures
        list_lookup(l, k) == Some(v),
    decreases l.len(),
{
    let i = choose|i: int| 0 <= i < l.len() && l[i] == (k, v);
    let tail = l.drop_first();
    assert forall|p: int, q: int|
        0 <= p < q < tail.len() implies (#[trigger] tail[p]).0 != (#[trigger] tail[q]).0 by {
        assert(tail[p] == l[p + 1]);
        assert(tail[q] == l[q + 1]);
    }
    if i == 0 {
        lemma_list_lookup_contains(tail, k);
        match list_lookup(tail, k) {
            Some(v2) => {
                let j = choose|j: int| 0 <= j < tail.len() && tail[j] == (k, v2);
                assert(l[j + 1] == tail[j]);
                assert(l[0].0 == l[j + 1].0);
                assert(false);
            },
            None => {},
        }
        assert(l[0] == (k, v));
    } else {
        assert(tail[i - 1] == (k, v));
        assert(tail.contains((k, v)));
        lemma_distinct_lookup(tail, k, v);
    }
}

/// A dictionary answers a key exactly when some entry carries it.
pub proof fn lemma_dict_lookup_present(d: Seq<(Seq<u8>, Bval)>, k: Seq<u8>)
    ensures
        match dict_lookup(d, k) {
            Some(_) => contains_key(d, k),
            None => !contains_key(d, k),
        },
    decreases d.len(),
{
    if d.len() == 0 {
    } else if d[0].0 == k {
        assert(contains_key(d, k));
    } else {
        let tail = d.drop_first();
        lemma_dict_lookup_present(tail, k);
        match dict_lookup(tail, k) {
            Some(_) => {
                let j = choose|j: int| 0 <= j < tail.len() && (#[trigger] tail[j]).0 == k;
                assert(d[j + 1] == tail[j]);
                assert(contains_key(d, k));
            },
            None => {
                if contains_key(d, k) {
                    let j = choose|j: int| 0 <= j < d.len() && (#[trigger] d[j]).0 == k;
                    assert(j > 0);
                    assert(tail[j - 1] == d[j]);
                    assert(contains_key(tail, k));
                    assert(false);
                }
            },
        }
    }
}

/// Two sorted dictionaries that answer every key alike are the same sequence.
pub proof fn lemma_sorted_same_lookups(d1: Seq<(Seq<u8>, Bval)>, d2: Seq<(Seq<u8>, Bval)>)
    requires
        entries_sorted(d1),
        entries_sorted(d2),
        forall|k: Seq<u8>| #[trigger] dict_lookup(d1, k) == dict_lookup(d2, k),
    ensures
        d1 == d2,
    decreases d1.len(),
{
    if d1.len() == 0 {
        if d2.len() > 0 {
            assert(dict_lookup(d2, d2[0].0) == Some(d2[0].1));
            assert(dict_lookup(d1, d2[0].0) is None);
            assert(false);
        }
        assert(d1 =~= d2);
    } else if d2.len() == 0 {
        assert(dict_lookup(d1, d1[0].0) == Some(d1[0].1));
        assert(dict_lookup(d2, d1[0].0) is None);
        assert(false);
    } else {
        let k1 = d1[0].0;
        let k2 = d2[0].0;
        assert(dict_lookup(d1, k1) == Some(d1[0].1));
        lemma_dict_lookup_present(d2, k1);
        let j = choose|j: int| 0 <= j < d2.len() && (#[trigger] d2[j]).0 == k1;
        if j > 0 {
            assert(lex_lt(d2[0].0, d2[j].0));
        }
        assert(dict_lookup(d2, k2) == Some(d2[0].1));
        lemma_dict_lookup_present(d1, k2);
        let j2 = choose|j: int| 0 <= j < d1.len() && (#[trigger] d1[j]).0 == k2;
        if j2 > 0 {
            assert(lex_lt(d1[0].0, d1[j2].0));
        }
        lemma_lex_props(k1, k2);
        assert(k1 == k2);
        assert(d1[0].1 == d2[0].1);
        assert((d1[0].0, d1[0].1) == d1[0]);
        assert((d2[0].0, d2[0].1) == d2[0]);
        assert(d1[0] == d2[0]);
        let t1 = d1.drop_first();
        let t2 = d2.drop_first();
        assert forall|p: int, q: int| 0 <= p < q < t1.len() implies lex_lt(t1[p].0, t1[q].0) by {
            assert(t1[p] == d1[p + 1]);
            assert(t1[q] == d1[q + 1]);
            assert(lex_lt(d1[p + 1].0, d1[q + 1].0));
        }
        assert forall|p: int, q: int| 0 <= p < q < t2.len() implies lex_lt(t2[p].0, t2[q].0) by {
            assert(t2[p] == d2[p + 1]);
            assert(t2[q] == d2[q + 1]);
            assert(lex_lt(d2[p + 1].0, d2[q + 1].0));
        }
        assert forall|k: Seq<u8>| #[trigger] dict_lookup(t1, k) == dict_lookup(t2, k) by {
            if k == k1 {
                lemma_dict_lookup_present(t1, k);
                lemma_dict_lookup_present(t2, k);
                if contains_key(t1, k) {
                    let m = choose|m: int| 0 <= m < t1.len() && (#[trigger] t1[m]).0 == k;
                    assert(t1[m] == d1[m + 1]);
                    assert(lex_lt(d1[0].0, d1[m + 1].0));
                    lemma_lex_props(k1, k1);
                    assert(false);
                }
                if contains_key(t2, k) {
                    let m = choose|m: int| 0 <= m < t2.len() && (#[trigger] t2[m]).0 == k;
                    assert(t2[m] == d2[m + 1]);
                    assert(lex_lt(d2[0].0, d2[m + 1].0));
                    lemma_lex_props(k1, k1);
                    assert(false);
                }
            } else {
                assert(dict_lookup(d1, k) == dict_lookup(t1, k));
                assert(dict_lookup(d2, k) == dict_lookup(t2, k));
            }
        }
        lemma_sorted_same_lookups(t1, t2);
        assert forall|i: int| 0 <= i < d1.len() implies d1[i] == d2[i] by {
            if i > 0 {
                assert(d1[i] == t1[i - 1]);
                assert(d2[i] == t2[i - 1]);
            }
        }
        assert(d1 =~= d2);
    }
}

/// Law: a dictionary built from distinct-keyed bindings does not depend on
/// the order the bindings are inserted in, so its canonical encoding does not
/// either.
pub proof fn lemma_dict_order_independent(l1: Seq<(Seq<u8>, Bval)>, l2: Seq<(Seq<u8>, Bval)>)
    requires
        l1.to_multiset() == l2.to_multiset(),
        distinct_keys(l1),
        distinct_keys(l2),
    ensures
        dict_from(l1) == dict_from(l2),
        enc(Bval::Dict(dict_from(l1))) == enc(Bval::Dict(dict_from(l2))),
{
    broadcast use vstd::seq_lib::group_to_multiset_ensures;

    lemma_fold_sorted(seq![], l1);
    lemma_fold_sorted(seq![], l2);
    assert forall|k: Seq<u8>| #[trigger] dict_lookup(dict_from(l1), k) == dict_lookup(
        dict_from(l2),
        k,
    ) by {
        lemma_fold_lookup(seq![], l1, k);
        lemma_fold_lookup(seq![], l2, k);
        lemma_list_lookup_contains(l1, k);
        lemma_list_lookup_contains(l2, k);
        match list_lookup(l1, k) {
            Some(v) => {
                assert(l1.contains((k, v)));
                assert(l1.to_multiset().count((k, v)) > 0);
                assert(l2.contains((k, v)));
                lemma_distinct_lookup(l2, k, v);
            },
            None => {
                match list_lookup(l2, k) {
                    Some(v) => {
                        assert(l2.contains((k, v)));
                        assert(l2.to_multiset().count((k, v)) > 0);
                        assert(l1.contains((k, v)));
                        let i = choose|i: int| 0 <= i < l1.len() && l1[i] == (k, v);
                        assert(l1[i].0 != k);
                        assert(false);
                    },
                    None => {},
                }
            },
        }
    }
    lemma_sorted_same_lookups(dict_from(l1), dict_from(l2));
}


/// Entry-list well-formedness is element-wise.
pub proof fn lemma_wf_entries_index(d: Seq<(Seq<u8>, Bval)>)
    ensures
        wf_entries(d) <==> (forall|i: int|
            0 <= i < d.len() ==> ((#[trigger] d[i]).0.len() <= usize::MAX && wf(d[i].1))),
    decreases d.len(),
{
    if d.len() > 0 {
        let tail = d.drop_first();
        lemma_wf_entries_index(tail);
        if wf_entries(d) {
            assert forall|i: int|
                0 <= i < d.len() implies ((#[trigger] d[i]).0.len() <= usize::MAX && wf(
                d[i].1,
            )) by {
                if i > 0 {
                    assert(d[i] == tail[i - 1]);
                    assert(tail[i - 1].0.len() <= usize::MAX && wf(tail[i - 1].1));
                }
            }
        }
        if forall|i: int|
            0 <= i < d.len() ==> ((#[trigger] d[i]).0.len() <= usize::MAX && wf(d[i].1)) {
            assert forall|i: int|
                0 <= i < tail.len() implies ((#[trigger] tail[i]).0.len() <= usize::MAX && wf(
                tail[i].1,
            )) by {
                assert(tail[i] == d[i + 1]);
            }
        }
    }
}

/// Every entry after an insert is the inserted pair or an old entry.
pub proof fn lemma_insert_elems(d: Seq<(Seq<u8>, Bval)>, k: Seq<u8>, v: Bval)
    ensures
        forall|idx: int|
            0 <= idx < dict_insert(d, k, v).len() ==> (#[trigger] dict_insert(d, k, v)[idx]) == (
            k,
            v,
        ) || d.contains(dict_insert(d, k, v)[idx]),
    decreases d.len(),
{
    let r = dict_insert(d, k, v);
    if d.len() == 0 {
    } else if lex_lt(k, d[0].0) {
        assert forall|idx: int|
            0 <= idx < r.len() implies ((#[trigger] r[idx]) == (k, v) || d.contains(r[idx])) by {
            if idx > 0 {
                assert(r[idx] == d[idx - 1]);
                assert(d.contains(d[idx - 1]));
            }
        }
    } else if k == d[0].0 {
        assert forall|idx: int|
            0 <= idx < r.len() implies ((#[trigger] r[idx]) == (k, v) || d.contains(r[idx])) by {
            if idx > 0 {
                assert(r[idx] == d[idx]);
                assert(d.contains(d[idx]));
            }
        }
    } else {
        let tail = d.drop_first();
        lemma_insert_elems(tail, k, v);
        let rt = dict_insert(tail, k, v);
        assert forall|idx: int|
            0 <= idx < r.len() implies ((#[trigger] r[idx]) == (k, v) || d.contains(r[idx])) by {
            if idx == 0 {
                assert(r[0] == d[0]);
                assert(d.contains(d[0]));
            } else {
                assert(r[idx] == rt[idx - 1]);
                if rt[idx - 1] == (k, v) {
                } else {
                    assert(tail.contains(rt[idx - 1]));
                    let m = choose|m: int| 0 <= m < tail.len() && tail[m] == rt[idx - 1];
                    assert(d[m + 1] == tail[m]);
                    assert(d.contains(d[m + 1]));
                }
            }
        }
    }
}

/// Inserting a well-formed binding keeps the entries well-formed.
pub proof fn lemma_insert_wf_entries(d: Seq<(Seq<u8>, Bval)>, k: Seq<u8>, v: Bval)
    requires
        wf_entries(d),
        k.len() <= usize::MAX,
        wf(v),
    ensures
        wf_entries(dict_insert(d, k, v)),
{
    lemma_wf_entries_index(d);
    lemma_insert_elems(d, k, v);
    let r = dict_insert(d, k, v);
    lemma_wf_entries_index(r);
    assert forall|i: int|
        0 <= i < r.len() implies ((#[trigger] r[i]).0.len() <= usize::MAX && wf(r[i].1)) by {
        if r[i] == (k, v) {
        } else {
            let m = choose|m: int| 0 <= m < d.len() && d[m] == r[i];
            assert(d[m].0.len() <= usize::MAX && wf(d[m].1));
        }
    }
}

/// Folding well-formed bindings keeps the dictionary well-formed.
pub proof fn lemma_fold_wf_entries(acc: Seq<(Seq<u8>, Bval)>, l: Seq<(Seq<u8>, Bval)>)
    requires
        wf_entries(acc),
        wf_entries(l),
    ensures
        wf_entries(dict_fold(acc, l)),
    decreases l.len(),
{
    if l.len() > 0 {
        lemma_insert_wf_entries(acc, l[0].0, l[0].1);
        lemma_fold_wf_entries(dict_insert(acc, l[0].0, l[0].1), l.drop_first());
    }
}

/// Whatever the fuel, a parsed value is well-formed.
pub proof fn lemma_value_wf(s: Seq<u8>, f: nat)
    requires
        f >= s.len(),
        s.len() <= usize::MAX,
    ensures
        p_value(s, f) matches Ok(p) ==> wf(p.1),
    decreases f, 0int,
{
    if s.len() == 0 {
    } else if 48 <= s[0] <= 57 {
        lemma_scan_consumes(s, 0, 0, 58, usize_mod());
    } else if s[0] == 105 {
    } else if s[0] == 108 {
        if f > 0 {
            lemma_items_wf(s.subrange(1, s.len() as int), (f - 1) as nat);
        }
    } else if s[0] == 100 {
        if f > 0 {
            let s1 = s.subrange(1, s.len() as int);
            lemma_entries_wf(s1, (f - 1) as nat);
            match p_entries(s1, (f - 1) as nat) {
                Err(_) => {},
                Ok(q) => {
                    lemma_fold_sorted(seq![], q.1);
                    lemma_fold_wf_entries(seq![], q.1);
                },
            }
        }
    } else {
    }
}

/// Whatever the fuel, parsed list elements are well-formed.
pub proof fn lemma_items_wf(s: Seq<u8>, f: nat)
    requires
        f >= s.len(),
        s.len() <= usize::MAX,
    ensures
        p_items(s, f) matches Ok(p) ==> wf_items(p.1),
    decreases f, 1int,
{
    if s.len() == 0 {
    } else if s[0] == 101 {
    } else if f == 0 {
    } else {
        lemma_value_wf(s, f);
        lemma_value_fuel(s, f);
        match p_value(s, f) {
            Err(_) => {},
            Ok(p) => {
                let r = p.0;
                let v = p.1;
                lemma_items_wf(r, (f - 1) as nat);
                match p_items(r, (f - 1) as nat) {
                    Err(_) => {},
                    Ok(q) => {
                        let out = seq![v] + q.1;
                        assert(out[0] == v);
                        assert(out.drop_first() =~= q.1);
                    },
                }
            },
        }
    }
}

/// Whatever the fuel, parsed dictionary bindings are well-formed.
pub proof fn lemma_entries_wf(s: Seq<u8>, f: nat)
    requires
        f >= s.len(),
        s.len() <= usize::MAX,
    ensures
        p_entries(s, f) matches Ok(p) ==> wf_entries(p.1),
    decreases f, 1int,
{
    if s.len() == 0 {
    } else if s[0] == 101 {
    } else if f == 0 {
    } else {
        lemma_scan_consumes(s, 0, 0, 58, usize_mod());
        match p_text(s) {
            Err(_) => {},
            Ok(t) => {
                let r1 = t.0;
                let k = t.1;
                lemma_value_wf(r1, f);
                lemma_value_fuel(r1, f);
                match p_value(r1, f) {
                    Err(_) => {},
                    Ok(p) => {
                        let r2 = p.0;
                        let v = p.1;
                        lemma_entries_wf(r2, (f - 1) as nat);
                        match p_entries(r2, (f - 1) as nat) {
                            Err(_) => {},
                            Ok(q) => {
                                let out = seq![(k, v)] + q.1;
                                assert(out[0] == (k, v));
                                assert(out.drop_first() =~= q.1);
                            },
                        }
                    },
                }
            },
        }
    }
}

/// Law: whatever the parser accepts is well-formed - in particular every
/// parsed dictionary keeps its keys unique and in raw byte order, at every
/// nesting level.
pub proof fn lemma_parse_value_wf(s: Seq<u8>)
    requires
        s.len() <= usize::MAX,
    ensures
        parse_value(s) matches Ok(p) ==> wf(p.1),
{
    lemma_value_wf(s, s.len());
}

} // verus!
