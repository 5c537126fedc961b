//! The persisted-document codec.
//!
//! A recorded interaction is stored as one self-describing JSON document (see
//! [`StoredEntry`]).  The library defines the document bytes itself: the
//! encoder emits a canonical form (fixed key order, no whitespace, sorted
//! headers), and only that form decodes to an entry.  The version question is
//! answered before the structural one: the reader checks the leading
//! `format_version` field first, and bytes without the canonical prefix are
//! judged as general JSON, where a lenient probe looks the version member up
//! whatever the layout.  A document of another format version — canonical or
//! not — is therefore a plain miss, never an error; an error is reported only
//! for bytes that are not JSON at all, or that claim the current version
//! without being the canonical document.

use vstd::prelude::*;
use vstd::arithmetic::div_mod::{lemma_div_decreases, lemma_fundamental_div_mod};
use vstd::utf8::{valid_utf8, decode_utf8};
use base64::Engine;

verus! {

/// Relies on `String::from_utf8`: per its documentation it returns the string
/// holding the given bytes exactly when they are valid UTF-8, and fails
/// otherwise.
#[verifier::external_body]
pub(crate) fn string_from_utf8(v: &Vec<u8>) -> (r: Option<String>)
    ensures
        r is Some <==> valid_utf8(v@),
        r matches Some(s) ==> s@ == decode_utf8(v@),
{
    String::from_utf8(v.clone()).ok()
}

// ---------------------------------------------------------------------------
// Canonical decimal numbers.
// ---------------------------------------------------------------------------
/// The ASCII digit for one decimal digit value.
pub open spec fn digit_byte(d: int) -> u8 {
    (0x30 + d) as u8
}

/// Whether a byte is an ASCII digit.
pub open spec fn is_digit(c: u8) -> bool {
    0x30 <= c <= 0x39
}

/// The canonical decimal encoding of a number: no sign, no leading zeros.
pub open spec fn enc_u64(n: int) -> Seq<u8>
    decreases n,
    when n >= 0
    via enc_u64_decreases
{
    if n < 10 {
        seq![digit_byte(n)]
    } else {
        enc_u64(n / 10).push(digit_byte(n % 10))
    }
}

#[via_fn]
proof fn enc_u64_decreases(n: int) {
    if n >= 10 {
        lemma_div_decreases(n, 10);
    }
}

/// How many leading bytes of `b` are ASCII digits.
pub open spec fn digit_run(b: Seq<u8>) -> int
    decreases b.len(),
{
    if b.len() == 0 || !is_digit(b[0]) {
        0
    } else {
        1 + digit_run(b.skip(1))
    }
}

/// A digit run is never negative.
pub proof fn lemma_digit_run_nonneg(b: Seq<u8>)
    ensures
        digit_run(b) >= 0,
    decreases b.len(),
{
    if b.len() > 0 && is_digit(b[0]) {
        lemma_digit_run_nonneg(b.skip(1));
    }
}

/// The value of a string of ASCII digits.
pub open spec fn digits_val(s: Seq<u8>) -> int
    decreases s.len(),
{
    if s.len() == 0 {
        0
    } else {
        digits_val(s.take(s.len() - 1)) * 10 + (s[s.len() - 1] - 0x30)
    }
}

/// Parse a canonical decimal `u64`: a maximal run of digits without a
/// leading zero, whose value fits in 64 bits.
pub open spec fn sp_u64(b: Seq<u8>) -> Option<(u64, Seq<u8>)> {
    let k = digit_run(b);
    if k == 0 {
        None
    } else if b[0] == 0x30 && k > 1 {
        None
    } else if digits_val(b.take(k)) > u64::MAX {
        None
    } else {
        Some((digits_val(b.take(k)) as u64, b.skip(k)))
    }
}

/// Every byte of a canonical numeral is a digit, and only the numeral of
/// zero starts with the zero digit.
pub proof fn lemma_enc_u64_shape(n: int)
    requires
        n >= 0,
    ensures
        enc_u64(n).len() >= 1,
        forall|i: int| 0 <= i < enc_u64(n).len() ==> is_digit(#[trigger] enc_u64(n)[i]),
        enc_u64(n)[0] == 0x30 <==> n == 0,
    decreases n,
{
    if n < 10 {
    } else {
        lemma_div_decreases(n, 10);
        vstd::arithmetic::div_mod::lemma_div_pos_is_pos(n, 10);
        lemma_fundamental_div_mod(n, 10);
        lemma_enc_u64_shape(n / 10);
        let e = enc_u64(n);
        let p = enc_u64(n / 10);
        assert(e == p.push(digit_byte(n % 10)));
        assert(0 <= n % 10 < 10);
        assert forall|i: int| 0 <= i < e.len() implies is_digit(#[trigger] e[i]) by {
            if i < p.len() {
                assert(e[i] == p[i]);
            } else {
                assert(e[i] == digit_byte(n % 10));
            }
        }
        assert(n / 10 > 0);
        assert(e[0] == p[0]);
    }
}

/// The canonical numeral of `n` evaluates back to `n`.
pub proof fn lemma_digits_val_enc(n: int)
    requires
        n >= 0,
    ensures
        digits_val(enc_u64(n)) == n,
    decreases n,
{
    if n < 10 {
        let e = enc_u64(n);
        assert(e.len() == 1);
        assert(e.take(0) =~= Seq::<u8>::empty());
        assert(digits_val(e) == digits_val(e.take(0)) * 10 + (e[0] - 0x30));
    } else {
        lemma_div_decreases(n, 10);
        lemma_fundamental_div_mod(n, 10);
        lemma_digits_val_enc(n / 10);
        let e = enc_u64(n);
        let p = enc_u64(n / 10);
        assert(e == p.push(digit_byte(n % 10)));
        assert(e.take(e.len() - 1) =~= p);
        assert(0 <= n % 10 < 10);
        assert(e[e.len() - 1] == digit_byte(n % 10));
        assert(digits_val(e) == digits_val(p) * 10 + (n % 10));
    }
}

/// A run of digits followed by a non-digit has exactly that run length.
pub proof fn lemma_digit_run_exact(b: Seq<u8>, k: int)
    requires
        0 <= k <= b.len(),
        forall|i: int| 0 <= i < k ==> is_digit(#[trigger] b[i]),
        k == b.len() || !is_digit(b[k]),
    ensures
        digit_run(b) == k,
    decreases k,
{
    if k == 0 {
    } else {
        assert(is_digit(b[0]));
        let t = b.skip(1);
        assert forall|i: int| 0 <= i < k - 1 implies is_digit(#[trigger] t[i]) by {
            assert(t[i] == b[i + 1]);
        }
        if k - 1 < t.len() {
            assert(t[k - 1] == b[k]);
        }
        lemma_digit_run_exact(t, k - 1);
    }
}

/// Digit values only grow as more digits are read.
pub proof fn lemma_digits_val_mono(s: Seq<u8>, m: int, k: int)
    requires
        0 <= m <= k <= s.len(),
        forall|i: int| 0 <= i < s.len() ==> is_digit(#[trigger] s[i]),
    ensures
        digits_val(s.take(m)) <= digits_val(s.take(k)),
        digits_val(s.take(m)) >= 0,
    decreases k - m,
{
    if m == 0 {
        assert(s.take(0) =~= Seq::<u8>::empty());
    }
    if m == k {
        lemma_digits_val_nonneg(s.take(m));
    } else {
        lemma_digits_val_mono(s, m, k - 1);
        lemma_digits_val_nonneg(s.take(k - 1));
        let t = s.take(k);
        assert(t.take(t.len() - 1) =~= s.take(k - 1));
        assert(is_digit(s[k - 1]));
        assert(digits_val(s.take(k)) == digits_val(s.take(k - 1)) * 10 + (s[k - 1] - 0x30));
        assert(digits_val(s.take(k - 1)) * 10 >= digits_val(s.take(k - 1))) by (nonlinear_arith)
            requires
                digits_val(s.take(k - 1)) >= 0,
        ;
    }
}

/// The value of an all-digit string is not negative.
pub proof fn lemma_digits_val_nonneg(s: Seq<u8>)
    requires
        forall|i: int| 0 <= i < s.len() ==> is_digit(#[trigger] s[i]),
    ensures
        digits_val(s) >= 0,
    decreases s.len(),
{
    if s.len() > 0 {
        let t = s.take(s.len() - 1);
        assert forall|i: int| 0 <= i < t.len() implies is_digit(#[trigger] t[i]) by {
            assert(t[i] == s[i]);
        }
        lemma_digits_val_nonneg(t);
        assert(is_digit(s[s.len() - 1]));
        assert(digits_val(t) * 10 >= 0) by (nonlinear_arith)
            requires
                digits_val(t) >= 0,
        ;
    }
}

/// Round trip for numbers: parsing a canonical numeral followed by anything
/// that does not extend it yields the number and the rest.
pub proof fn lemma_sp_u64_enc(n: u64, rest: Seq<u8>)
    requires
        rest.len() == 0 || !is_digit(rest[0]),
    ensures
        sp_u64(enc_u64(n as int) + rest) == Some((n, rest)),
{
    let e = enc_u64(n as int);
    let b = e + rest;
    lemma_enc_u64_shape(n as int);
    lemma_digits_val_enc(n as int);
    assert forall|i: int| 0 <= i < e.len() implies is_digit(#[trigger] b[i]) by {
        assert(b[i] == e[i]);
    }
    if e.len() < b.len() {
        assert(b[e.len() as int] == rest[0]);
    }
    lemma_digit_run_exact(b, e.len() as int);
    assert(b.take(e.len() as int) =~= e);
    assert(b[0] == e[0]);
    assert(b.skip(e.len() as int) =~= rest);
    if n == 0 {
        assert(e.len() == 1);
    } else {
        assert(b[0] != 0x30);
    }
}

// ---------------------------------------------------------------------------
// JSON strings over raw bytes.
// ---------------------------------------------------------------------------
/// The lowercase hex digit for one value below 16.
pub open spec fn hex_byte(d: int) -> u8 {
    if d < 10 {
        (0x30 + d) as u8
    } else {
        (0x57 + d) as u8
    }
}

/// Whether a byte is a lowercase hex digit, and its value.
pub open spec fn is_hex(c: u8) -> bool {
    (0x30 <= c <= 0x39) || (0x61 <= c <= 0x66)
}

pub open spec fn hex_val(c: u8) -> int {
    if c <= 0x39 {
        c - 0x30
    } else {
        c - 0x57
    }
}

/// How one byte of string content is written: quote and backslash are
/// escaped, control bytes become `\u00XX` with lowercase hex, everything
/// else stands for itself.
pub open spec fn esc_byte(c: u8) -> Seq<u8> {
    if c == 0x22 {
        seq![0x5c, 0x22]
    } else if c == 0x5c {
        seq![0x5c, 0x5c]
    } else if c < 0x20 {
        seq![0x5c, 0x75, 0x30, 0x30, hex_byte(c as int / 16), hex_byte(c as int % 16)]
    } else {
        seq![c]
    }
}

/// The escaped form of a whole byte string (without the quotes).
pub open spec fn enc_str_bytes(s: Seq<u8>) -> Seq<u8>
    decreases s.len(),
{
    if s.len() == 0 {
        Seq::empty()
    } else {
        esc_byte(s[0]) + enc_str_bytes(s.skip(1))
    }
}

/// A quoted JSON string holding the escaped bytes.
pub open spec fn enc_string(s: Seq<u8>) -> Seq<u8> {
    seq![0x22u8] + enc_str_bytes(s) + seq![0x22u8]
}

/// Parse string content up to and including the closing quote, undoing the
/// escapes the encoder writes; reject raw control bytes and unknown escapes.
pub open spec fn sp_str_chars(b: Seq<u8>) -> Option<(Seq<u8>, Seq<u8>)>
    decreases b.len(),
{
    if b.len() == 0 {
        None
    } else if b[0] == 0x22 {
        Some((Seq::empty(), b.skip(1)))
    } else if b[0] == 0x5c {
        if b.len() >= 2 && (b[1] == 0x22 || b[1] == 0x5c) {
            match sp_str_chars(b.skip(2)) {
                Some((s, rest)) => Some((seq![b[1]] + s, rest)),
                None => None,
            }
        } else if b.len() >= 6 && b[1] == 0x75 && b[2] == 0x30 && b[3] == 0x30 && is_hex(b[4])
            && is_hex(b[5]) && hex_val(b[4]) * 16 + hex_val(b[5]) < 0x20 {
            match sp_str_chars(b.skip(6)) {
                Some((s, rest)) => Some(
                    (seq![(hex_val(b[4]) * 16 + hex_val(b[5])) as u8] + s, rest),
                ),
                None => None,
            }
        } else {
            None
        }
    } else if b[0] < 0x20 {
        None
    } else {
        match sp_str_chars(b.skip(1)) {
            Some((s, rest)) => Some((seq![b[0]] + s, rest)),
            None => None,
        }
    }
}

/// Parse a whole quoted string into the characters its bytes encode.
pub open spec fn sp_jstring(b: Seq<u8>) -> Option<(Seq<char>, Seq<u8>)> {
    if b.len() > 0 && b[0] == 0x22 {
        match sp_str_chars(b.skip(1)) {
            Some((raw, rest)) => if valid_utf8(raw) {
                Some((decode_utf8(raw), rest))
            } else {
                None
            },
            None => None,
        }
    } else {
        None
    }
}

/// The document form of a string value: its UTF-8 bytes, escaped and quoted.
pub open spec fn enc_jstring(s: Seq<char>) -> Seq<u8> {
    enc_string(vstd::utf8::encode_utf8(s))
}

/// Escaping distributes over concatenation.
pub proof fn lemma_enc_str_bytes_concat(a: Seq<u8>, b: Seq<u8>)
    ensures
        enc_str_bytes(a + b) == enc_str_bytes(a) + enc_str_bytes(b),
    decreases a.len(),
{
    if a.len() == 0 {
        assert(a + b =~= b);
        assert(enc_str_bytes(a) + enc_str_bytes(b) =~= enc_str_bytes(b));
    } else {
        assert((a + b).skip(1) =~= a.skip(1) + b);
        assert((a + b)[0] == a[0]);
        lemma_enc_str_bytes_concat(a.skip(1), b);
        assert(enc_str_bytes(a + b) == esc_byte(a[0]) + (enc_str_bytes(a.skip(1)) + enc_str_bytes(
            b,
        )));
        assert(esc_byte(a[0]) + (enc_str_bytes(a.skip(1)) + enc_str_bytes(b)) =~= (esc_byte(a[0])
            + enc_str_bytes(a.skip(1))) + enc_str_bytes(b));
    }
}

/// Round trip for string content: the escaped bytes followed by a closing
/// quote parse back to the original bytes.
pub proof fn lemma_sp_str_chars_enc(s: Seq<u8>, rest: Seq<u8>)
    ensures
        sp_str_chars(enc_str_bytes(s) + seq![0x22u8] + rest) == Some((s, rest)),
    decreases s.len(),
{
    if s.len() == 0 {
        let b = enc_str_bytes(s) + seq![0x22u8] + rest;
        assert(b =~= seq![0x22u8] + rest);
        assert(b[0] == 0x22);
        assert(b.skip(1) =~= rest);
        assert(Seq::<u8>::empty() =~= s);
    } else {
        lemma_sp_str_chars_enc(s.skip(1), rest);
        let c = s[0];
        let e = esc_byte(c);
        let tailenc = enc_str_bytes(s.skip(1)) + seq![0x22u8] + rest;
        let b = enc_str_bytes(s) + seq![0x22u8] + rest;
        assert(enc_str_bytes(s) == e + enc_str_bytes(s.skip(1)));
        assert(b =~= e + tailenc);
        if c == 0x22 {
            assert(b[0] == 0x5c);
            assert(b[1] == 0x22);
            assert(b.skip(2) =~= tailenc);
            assert(seq![b[1]] + s.skip(1) =~= s);
        } else if c == 0x5c {
            assert(b[0] == 0x5c);
            assert(b[1] == 0x5c);
            assert(b.skip(2) =~= tailenc);
            assert(seq![b[1]] + s.skip(1) =~= s);
        } else if c < 0x20 {
            assert(b[0] == 0x5c);
            assert(b[1] == 0x75);
            assert(b[2] == 0x30);
            assert(b[3] == 0x30);
            assert(b[4] == hex_byte(c as int / 16));
            assert(b[5] == hex_byte(c as int % 16));
            lemma_fundamental_div_mod(c as int, 16);
            assert(0 <= c as int % 16 < 16);
            assert(0 <= c as int / 16 < 2);
            assert(is_hex(b[4]));
            assert(is_hex(b[5]));
            assert(hex_val(b[4]) == c as int / 16);
            assert(hex_val(b[5]) == c as int % 16);
            assert(hex_val(b[4]) * 16 + hex_val(b[5]) == c as int);
            assert(b.skip(6) =~= tailenc);
            assert(seq![c] + s.skip(1) =~= s);
        } else {
            assert(b[0] == c);
            assert(b.skip(1) =~= tailenc);
            assert(seq![c] + s.skip(1) =~= s);
        }
    }
}

/// Round trip for whole string values.
pub proof fn lemma_sp_jstring_enc(s: Seq<char>, rest: Seq<u8>)
    ensures
        sp_jstring(enc_jstring(s) + rest) == Some((s, rest)),
{
    let raw = vstd::utf8::encode_utf8(s);
    let b = enc_jstring(s) + rest;
    assert(b =~= seq![0x22u8] + (enc_str_bytes(raw) + seq![0x22u8] + rest));
    assert(b[0] == 0x22);
    assert(b.skip(1) =~= enc_str_bytes(raw) + seq![0x22u8] + rest);
    lemma_sp_str_chars_enc(raw, rest);
    vstd::utf8::encode_utf8_valid_utf8(s);
    vstd::utf8::encode_utf8_decode_utf8(s);
}

/// A quoted string takes at least its two quotes.
pub proof fn lemma_enc_jstring_len(s: Seq<char>)
    ensures
        enc_jstring(s).len() >= 2,
        enc_jstring(s)[0] == 0x22,
{
    assert(enc_jstring(s)[0] == 0x22);
}

// ---------------------------------------------------------------------------
// The fixed key skeleton of the document.
// ---------------------------------------------------------------------------
/// `{"format_version":`
pub open spec fn lit_fv() -> Seq<u8> {
    seq![
        0x7bu8,
        0x22,
        0x66,
        0x6f,
        0x72,
        0x6d,
        0x61,
        0x74,
        0x5f,
        0x76,
        0x65,
        0x72,
        0x73,
        0x69,
        0x6f,
        0x6e,
        0x22,
        0x3a,
    ]
}

/// `,"request":`
pub open spec fn lit_request() -> Seq<u8> {
    seq![0x2cu8, 0x22, 0x72, 0x65, 0x71, 0x75, 0x65, 0x73, 0x74, 0x22, 0x3a]
}

/// `{"url":`
pub open spec fn lit_url() -> Seq<u8> {
    seq![0x7bu8, 0x22, 0x75, 0x72, 0x6c, 0x22, 0x3a]
}

/// `,"method":`
pub open spec fn lit_method() -> Seq<u8> {
    seq![0x2cu8, 0x22, 0x6d, 0x65, 0x74, 0x68, 0x6f, 0x64, 0x22, 0x3a]
}

/// `,"headers":`
pub open spec fn lit_headers() -> Seq<u8> {
    seq![0x2cu8, 0x22, 0x68, 0x65, 0x61, 0x64, 0x65, 0x72, 0x73, 0x22, 0x3a]
}

/// `,"body":`
pub open spec fn lit_body() -> Seq<u8> {
    seq![0x2cu8, 0x22, 0x62, 0x6f, 0x64, 0x79, 0x22, 0x3a]
}

/// `,"response":`
pub open spec fn lit_response() -> Seq<u8> {
    seq![0x2cu8, 0x22, 0x72, 0x65, 0x73, 0x70, 0x6f, 0x6e, 0x73, 0x65, 0x22, 0x3a]
}

/// `,"status":`
pub open spec fn lit_status() -> Seq<u8> {
    seq![0x2cu8, 0x22, 0x73, 0x74, 0x61, 0x74, 0x75, 0x73, 0x22, 0x3a]
}

/// `null`
pub open spec fn lit_null() -> Seq<u8> {
    seq![0x6eu8, 0x75, 0x6c, 0x6c]
}

/// Consume an expected literal.
pub open spec fn sp_lit(b: Seq<u8>, l: Seq<u8>) -> Option<Seq<u8>> {
    if l.len() <= b.len() && b.take(l.len() as int) == l {
        Some(b.skip(l.len() as int))
    } else {
        None
    }
}

pub proof fn lemma_sp_lit(l: Seq<u8>, rest: Seq<u8>)
    ensures
        sp_lit(l + rest, l) == Some(rest),
{
    assert((l + rest).take(l.len() as int) =~= l);
    assert((l + rest).skip(l.len() as int) =~= rest);
}

// ---------------------------------------------------------------------------
// The header object.
// ---------------------------------------------------------------------------
use crate::headers::HeaderPair;

/// One `"name":"value"` member.
pub open spec fn enc_hdr_pair(p: HeaderPair) -> Seq<u8> {
    enc_jstring(p.0) + seq![0x3au8] + enc_jstring(p.1)
}

/// The members of a non-empty header object, separated by commas.
pub open spec fn enc_hdr_items(hs: Seq<HeaderPair>) -> Seq<u8>
    decreases hs.len(),
{
    if hs.len() <= 1 {
        enc_hdr_pair(hs[0])
    } else {
        enc_hdr_pair(hs[0]) + seq![0x2cu8] + enc_hdr_items(hs.skip(1))
    }
}

/// A header object: the entries in their canonical order.
pub open spec fn enc_hdrs(hs: Seq<HeaderPair>) -> Seq<u8> {
    if hs.len() == 0 {
        seq![0x7bu8, 0x7du8]
    } else {
        seq![0x7bu8] + enc_hdr_items(hs) + seq![0x7du8]
    }
}

/// Parse the members of a non-empty header object up to and including the
/// closing brace.
pub open spec fn sp_hdr_items(b: Seq<u8>) -> Option<(Seq<HeaderPair>, Seq<u8>)>
    decreases b.len(),
{
    match sp_jstring(b) {
        None => None,
        Some((name, r1)) => if r1.len() >= 1 && r1[0] == 0x3a {
            match sp_jstring(r1.skip(1)) {
                None => None,
                Some((value, r2)) => if r2.len() >= 1 && r2[0] == 0x2c {
                    if r2.skip(1).len() < b.len() {
                        match sp_hdr_items(r2.skip(1)) {
                            None => None,
                            Some((tail, r3)) => Some((seq![(name, value)] + tail, r3)),
                        }
                    } else {
                        None
                    }
                } else if r2.len() >= 1 && r2[0] == 0x7d {
                    Some((seq![(name, value)], r2.skip(1)))
                } else {
                    None
                },
            }
        } else {
            None
        },
    }
}

/// Parse a header object.
pub open spec fn sp_hdrs(b: Seq<u8>) -> Option<(Seq<HeaderPair>, Seq<u8>)> {
    if b.len() >= 2 && b[0] == 0x7b && b[1] == 0x7d {
        Some((Seq::empty(), b.skip(2)))
    } else if b.len() >= 1 && b[0] == 0x7b {
        sp_hdr_items(b.skip(1))
    } else {
        None
    }
}

/// Round trip for the members of a non-empty header object.
#[verifier::rlimit(60)]
pub proof fn lemma_sp_hdr_items_enc(hs: Seq<HeaderPair>, rest: Seq<u8>)
    requires
        hs.len() >= 1,
    ensures
        sp_hdr_items(enc_hdr_items(hs) + seq![0x7du8] + rest) == Some((hs, rest)),
    decreases hs.len(),
{
    let p = hs[0];
    lemma_enc_jstring_len(p.0);
    lemma_enc_jstring_len(p.1);
    if hs.len() == 1 {
        let b = enc_hdr_items(hs) + seq![0x7du8] + rest;
        let after_name = seq![0x3au8] + enc_jstring(p.1) + seq![0x7du8] + rest;
        assert(b =~= enc_jstring(p.0) + after_name);
        lemma_sp_jstring_enc(p.0, after_name);
        assert(after_name[0] == 0x3a);
        let after_colon = enc_jstring(p.1) + (seq![0x7du8] + rest);
        assert(after_name.skip(1) =~= after_colon);
        lemma_sp_jstring_enc(p.1, seq![0x7du8] + rest);
        let r2 = seq![0x7du8] + rest;
        assert(r2[0] == 0x7d);
        assert(r2[0] != 0x2c);
        assert(r2.skip(1) =~= rest);
        assert(seq![(p.0, p.1)] =~= hs);
    } else {
        let tail = hs.skip(1);
        let tailenc = enc_hdr_items(tail) + seq![0x7du8] + rest;
        let b = enc_hdr_items(hs) + seq![0x7du8] + rest;
        let after_name = seq![0x3au8] + enc_jstring(p.1) + seq![0x2cu8] + tailenc;
        assert(b =~= enc_jstring(p.0) + after_name) by {
            assert(enc_hdr_items(hs) == enc_hdr_pair(p) + seq![0x2cu8] + enc_hdr_items(tail));
            assert(b =~= (enc_jstring(p.0) + seq![0x3au8] + enc_jstring(p.1)) + seq![0x2cu8]
                + enc_hdr_items(tail) + seq![0x7du8] + rest);
        }
        lemma_sp_jstring_enc(p.0, after_name);
        assert(after_name[0] == 0x3a);
        let after_colon = enc_jstring(p.1) + (seq![0x2cu8] + tailenc);
        assert(after_name.skip(1) =~= after_colon);
        lemma_sp_jstring_enc(p.1, seq![0x2cu8] + tailenc);
        let r2 = seq![0x2cu8] + tailenc;
        assert(r2[0] == 0x2c);
        assert(r2.skip(1) =~= tailenc);
        // The recursion consumes at least the first member, so the guard holds.
        assert(tailenc.len() < b.len()) by {
            assert(b.len() == enc_jstring(p.0).len() + 1 + enc_jstring(p.1).len() + 1
                + tailenc.len());
        }
        lemma_sp_hdr_items_enc(tail, rest);
        assert(seq![(p.0, p.1)] + tail =~= hs);
    }
}

/// Round trip for header objects.
pub proof fn lemma_sp_hdrs_enc(hs: Seq<HeaderPair>, rest: Seq<u8>)
    ensures
        sp_hdrs(enc_hdrs(hs) + rest) == Some((hs, rest)),
{
    if hs.len() == 0 {
        let b = enc_hdrs(hs) + rest;
        assert(b[0] == 0x7b);
        assert(b[1] == 0x7d);
        assert(b.skip(2) =~= rest);
        assert(Seq::<HeaderPair>::empty() =~= hs);
    } else {
        let b = enc_hdrs(hs) + rest;
        assert(b[0] == 0x7b);
        lemma_enc_jstring_len(hs[0].0);
        assert(enc_hdr_items(hs)[0] == 0x22) by {
            if hs.len() == 1 {
                assert(enc_hdr_items(hs) == enc_hdr_pair(hs[0]));
                assert(enc_hdr_pair(hs[0])[0] == enc_jstring(hs[0].0)[0]);
            } else {
                assert(enc_hdr_items(hs)[0] == enc_hdr_pair(hs[0])[0]);
                assert(enc_hdr_pair(hs[0])[0] == enc_jstring(hs[0].0)[0]);
            }
        }
        assert(b[1] == enc_hdr_items(hs)[0]);
        assert(b[1] != 0x7d);
        assert(b.skip(1) =~= enc_hdr_items(hs) + seq![0x7du8] + rest);
        lemma_sp_hdr_items_enc(hs, rest);
    }
}

// ---------------------------------------------------------------------------
// The request body: `null` or an array of byte values.
// ---------------------------------------------------------------------------
/// The comma-separated numerals of a non-empty byte array.
pub open spec fn enc_u8_items(s: Seq<u8>) -> Seq<u8>
    decreases s.len(),
{
    if s.len() <= 1 {
        enc_u64(s[0] as int)
    } else {
        enc_u64(s[0] as int) + seq![0x2cu8] + enc_u8_items(s.skip(1))
    }
}

/// A body value: `null` when absent, else the bytes as a decimal array.
pub open spec fn enc_req_body(b: Option<Seq<u8>>) -> Seq<u8> {
    match b {
        Option::None => lit_null(),
        Option::Some(s) => if s.len() == 0 {
            seq![0x5bu8, 0x5du8]
        } else {
            seq![0x5bu8] + enc_u8_items(s) + seq![0x5du8]
        },
    }
}

/// Parse the members of a non-empty byte array up to and including the
/// closing bracket; each value must fit in a byte.
pub open spec fn sp_u8_items(b: Seq<u8>) -> Option<(Seq<u8>, Seq<u8>)>
    decreases b.len(),
{
    match sp_u64(b) {
        None => None,
        Some((n, r1)) => if n > 255 {
            None
        } else if r1.len() >= 1 && r1[0] == 0x2c {
            if r1.skip(1).len() < b.len() {
                match sp_u8_items(r1.skip(1)) {
                    None => None,
                    Some((tail, r2)) => Some((seq![n as u8] + tail, r2)),
                }
            } else {
                None
            }
        } else if r1.len() >= 1 && r1[0] == 0x5d {
            Some((seq![n as u8], r1.skip(1)))
        } else {
            None
        },
    }
}

/// Parse a body value.
pub open spec fn sp_req_body(b: Seq<u8>) -> Option<(Option<Seq<u8>>, Seq<u8>)> {
    if b.len() >= 1 && b[0] == 0x6e {
        match sp_lit(b, lit_null()) {
            Some(rest) => Some((Option::None, rest)),
            None => None,
        }
    } else if b.len() >= 2 && b[0] == 0x5b && b[1] == 0x5d {
        Some((Option::Some(Seq::empty()), b.skip(2)))
    } else if b.len() >= 1 && b[0] == 0x5b {
        match sp_u8_items(b.skip(1)) {
            Some((s, rest)) => Some((Option::Some(s), rest)),
            None => None,
        }
    } else {
        None
    }
}

/// Round trip for the members of a non-empty byte array.
pub proof fn lemma_sp_u8_items_enc(s: Seq<u8>, rest: Seq<u8>)
    requires
        s.len() >= 1,
        rest.len() == 0 || !is_digit(rest[0]),
    ensures
        sp_u8_items(enc_u8_items(s) + seq![0x5du8] + rest) == Some((s, rest)),
    decreases s.len(),
{
    let n = s[0];
    lemma_enc_u64_shape(n as int);
    if s.len() == 1 {
        let b = enc_u8_items(s) + seq![0x5du8] + rest;
        let after = seq![0x5du8] + rest;
        assert(b =~= enc_u64(n as int) + after);
        assert(after[0] == 0x5d);
        assert(!is_digit(after[0]));
        lemma_sp_u64_enc(n as u64, after);
        assert(after[0] != 0x2c);
        assert(after.skip(1) =~= rest);
        assert(seq![n] =~= s);
    } else {
        let tail = s.skip(1);
        let tailenc = enc_u8_items(tail) + seq![0x5du8] + rest;
        let b = enc_u8_items(s) + seq![0x5du8] + rest;
        let after = seq![0x2cu8] + tailenc;
        assert(b =~= enc_u64(n as int) + after) by {
            assert(enc_u8_items(s) == enc_u64(n as int) + seq![0x2cu8] + enc_u8_items(tail));
        }
        assert(after[0] == 0x2c);
        assert(!is_digit(after[0]));
        lemma_sp_u64_enc(n as u64, after);
        assert(after.skip(1) =~= tailenc);
        assert(tailenc.len() < b.len()) by {
            assert(b.len() == enc_u64(n as int).len() + 1 + tailenc.len());
        }
        lemma_sp_u8_items_enc(tail, rest);
        assert(seq![n] + tail =~= s);
    }
}

/// Round trip for body values.
pub proof fn lemma_sp_req_body_enc(body: Option<Seq<u8>>, rest: Seq<u8>)
    requires
        rest.len() == 0 || !is_digit(rest[0]),
    ensures
        sp_req_body(enc_req_body(body) + rest) == Some((body, rest)),
{
    match body {
        Option::None => {
            let b = enc_req_body(body) + rest;
            assert(b[0] == 0x6e);
            lemma_sp_lit(lit_null(), rest);
        },
        Option::Some(s) => {
            if s.len() == 0 {
                let b = enc_req_body(body) + rest;
                assert(b[0] == 0x5b);
                assert(b[1] == 0x5d);
                assert(b.skip(2) =~= rest);
                assert(Seq::<u8>::empty() =~= s);
            } else {
                let b = enc_req_body(body) + rest;
                assert(b[0] == 0x5b);
                lemma_enc_u64_shape(s[0] as int);
                assert(enc_u8_items(s)[0] == enc_u64(s[0] as int)[0]);
                assert(is_digit(b[1])) by {
                    assert(b[1] == enc_u8_items(s)[0]);
                }
                assert(b[1] != 0x5d);
                assert(b.skip(1) =~= enc_u8_items(s) + seq![0x5du8] + rest);
                lemma_sp_u8_items_enc(s, rest);
            }
        },
    }
}

// ---------------------------------------------------------------------------
// The whole document.
// ---------------------------------------------------------------------------
use crate::request::ReqModel;

/// The version of the storage format.  The engine only replays documents of
/// the same version; everything else is treated as absent and recorded again.
pub const FORMAT_VERSION: u8 = 3;

/// The stored response at the mathematical level.  The body is kept in the
/// form the document holds it: the base64 text that stands for the bytes.
pub ghost struct StoredRespModel {
    pub url: Seq<char>,
    pub status: u16,
    pub headers: Seq<HeaderPair>,
    pub body_b64: Seq<char>,
}

/// The mathematical content of one stored document.
pub ghost struct DocModel {
    pub version: u8,
    pub request: ReqModel,
    pub response: StoredRespModel,
}

/// The request object of the document.
pub open spec fn enc_req(r: ReqModel) -> Seq<u8> {
    lit_url() + enc_jstring(r.url) + lit_method() + enc_jstring(r.method) + lit_headers()
        + enc_hdrs(r.headers) + lit_body() + enc_req_body(r.body) + seq![0x7du8]
}

/// The response object of the document.
pub open spec fn enc_resp(r: StoredRespModel) -> Seq<u8> {
    lit_url() + enc_jstring(r.url) + lit_status() + enc_u64(r.status as int) + lit_headers()
        + enc_hdrs(r.headers) + lit_body() + enc_jstring(r.body_b64) + seq![0x7du8]
}

/// The canonical bytes of one stored document.
pub open spec fn spec_enc_doc(d: DocModel) -> Seq<u8> {
    lit_fv() + enc_u64(d.version as int) + lit_request() + enc_req(d.request) + lit_response()
        + enc_resp(d.response) + seq![0x7du8]
}

/// Parse the request object.
pub open spec fn sp_req(b: Seq<u8>) -> Option<(ReqModel, Seq<u8>)> {
    match sp_lit(b, lit_url()) {
        None => None,
        Some(b1) => match sp_jstring(b1) {
            None => None,
            Some((url, b2)) => match sp_lit(b2, lit_method()) {
                None => None,
                Some(b3) => match sp_jstring(b3) {
                    None => None,
                    Some((method, b4)) => match sp_lit(b4, lit_headers()) {
                        None => None,
                        Some(b5) => match sp_hdrs(b5) {
                            None => None,
                            Some((headers, b6)) => match sp_lit(b6, lit_body()) {
                                None => None,
                                Some(b7) => match sp_req_body(b7) {
                                    None => None,
                                    Some((body, b8)) => if b8.len() >= 1 && b8[0] == 0x7d {
                                        Some(
                                            (
                                                ReqModel { url: url, method: method, headers: headers, body: body },
                                                b8.skip(1),
                                            ),
                                        )
                                    } else {
                                        None
                                    },
                                },
                            },
                        },
                    },
                },
            },
        },
    }
}

/// Parse the response object.
pub open spec fn sp_resp(b: Seq<u8>) -> Option<(StoredRespModel, Seq<u8>)> {
    match sp_lit(b, lit_url()) {
        None => None,
        Some(b1) => match sp_jstring(b1) {
            None => None,
            Some((url, b2)) => match sp_lit(b2, lit_status()) {
                None => None,
                Some(b3) => match sp_u64(b3) {
                    None => None,
                    Some((status, b4)) => if status > u16::MAX {
                        None
                    } else {
                        match sp_lit(b4, lit_headers()) {
                            None => None,
                            Some(b5) => match sp_hdrs(b5) {
                                None => None,
                                Some((headers, b6)) => match sp_lit(b6, lit_body()) {
                                    None => None,
                                    Some(b7) => match sp_jstring(b7) {
                                        None => None,
                                        Some((body_b64, b8)) => if b8.len() >= 1 && b8[0]
                                            == 0x7d {
                                            Some(
                                                (
                                                    StoredRespModel {
                                                        url,
                                                        status: status as u16,
                                                        headers,
                                                        body_b64,
                                                    },
                                                    b8.skip(1),
                                                ),
                                            )
                                        } else {
                                            None
                                        },
                                    },
                                },
                            },
                        }
                    },
                },
            },
        },
    }
}

/// What reading a document can find.
pub ghost enum DocOutcome {
    /// A well-formed document of the current format version.
    Valid(DocModel),
    /// A document whose leading `format_version` is another version: treated
    /// as absent, never as an error.
    VersionMismatch,
    /// Anything else: not a document this library wrote.
    Malformed,
}

/// The part of a document after a current version field.
pub open spec fn sp_doc_rest(b2: Seq<u8>) -> DocOutcome {
    match sp_lit(b2, lit_request()) {
        None => DocOutcome::Malformed,
        Some(b3) => match sp_req(b3) {
            None => DocOutcome::Malformed,
            Some((request, b4)) => match sp_lit(b4, lit_response()) {
                None => DocOutcome::Malformed,
                Some(b5) => match sp_resp(b5) {
                    None => DocOutcome::Malformed,
                    Some((response, b6)) => {
                        if b6.len() == 1 && b6[0] == 0x7d {
                            DocOutcome::Valid(
                                DocModel {
                                    version: FORMAT_VERSION,
                                    request: request,
                                    response: response,
                                },
                            )
                        } else {
                            DocOutcome::Malformed
                        }
                    },
                },
            },
        },
    }
}


// ---------------------------------------------------------------------------
// Lenient scanning of foreign documents.
//
// Documents this library writes are canonical and are read by the strict
// grammar below.  Stored bytes without the canonical version prefix are
// still judged as general JSON before anything is called an error: a
// well-formed document whose top-level object does not carry the current
// format version — version absent, written with whitespace, after other
// members, or not a plain integer — is a miss, never a decode error.
// ---------------------------------------------------------------------------
/// JSON blanks.
pub open spec fn is_ws(c: u8) -> bool {
    c == 0x20 || c == 0x09 || c == 0x0a || c == 0x0d
}

/// Skip blanks.
pub open spec fn sp_ws(b: Seq<u8>) -> Seq<u8>
    decreases b.len(),
{
    if b.len() > 0 && is_ws(b[0]) {
        sp_ws(b.skip(1))
    } else {
        b
    }
}

/// The escape letters JSON allows after a backslash, besides `u`.
pub open spec fn is_simple_escape(c: u8) -> bool {
    c == 0x22 || c == 0x5c || c == 0x2f || c == 0x62 || c == 0x66 || c == 0x6e || c == 0x72 || c
        == 0x74
}

/// A hex digit of either case.
pub open spec fn is_hex_any(c: u8) -> bool {
    is_digit(c) || (0x61 <= c <= 0x66) || (0x41 <= c <= 0x46)
}

/// Scan string content after the opening quote: the raw bytes between the
/// quotes (escape sequences kept as written) and the rest after the closing
/// quote.
pub open spec fn sp_scan_string(b: Seq<u8>) -> Option<(Seq<u8>, Seq<u8>)>
    decreases b.len(),
{
    if b.len() == 0 {
        None
    } else if b[0] == 0x22 {
        Some((Seq::empty(), b.skip(1)))
    } else if b[0] == 0x5c {
        if b.len() >= 2 && is_simple_escape(b[1]) {
            match sp_scan_string(b.skip(2)) {
                Some((s, rest)) => Some((seq![b[0], b[1]] + s, rest)),
                None => None,
            }
        } else if b.len() >= 6 && b[1] == 0x75 && is_hex_any(b[2]) && is_hex_any(b[3]) && is_hex_any(
            b[4],
        ) && is_hex_any(b[5]) {
            match sp_scan_string(b.skip(6)) {
                Some((s, rest)) => Some((b.take(6) + s, rest)),
                None => None,
            }
        } else {
            None
        }
    } else if b[0] < 0x20 {
        None
    } else {
        match sp_scan_string(b.skip(1)) {
            Some((s, rest)) => Some((seq![b[0]] + s, rest)),
            None => None,
        }
    }
}

/// Scan a JSON number: optional sign, an integer part without leading
/// zeros, an optional fraction, an optional exponent.
pub open spec fn sp_scan_number(b: Seq<u8>) -> Option<Seq<u8>> {
    let b1 = if b.len() > 0 && b[0] == 0x2d {
        b.skip(1)
    } else {
        b
    };
    if b1.len() == 0 || !is_digit(b1[0]) {
        None
    } else {
        let k: int = if b1[0] == 0x30 {
            1
        } else {
            digit_run(b1)
        };
        let b2 = b1.skip(k);
        let after_frac: Option<Seq<u8>> = if b2.len() >= 1 && b2[0] == 0x2e {
            let m = digit_run(b2.skip(1));
            if m == 0 {
                None
            } else {
                Some(b2.skip(1 + m))
            }
        } else {
            Some(b2)
        };
        match after_frac {
            None => None,
            Some(b3) => if b3.len() >= 1 && (b3[0] == 0x65 || b3[0] == 0x45) {
                let b4 = if b3.len() >= 2 && (b3[1] == 0x2b || b3[1] == 0x2d) {
                    b3.skip(2)
                } else {
                    b3.skip(1)
                };
                let m2 = digit_run(b4);
                if m2 == 0 {
                    None
                } else {
                    Some(b4.skip(m2))
                }
            } else {
                Some(b3)
            },
        }
    }
}

/// `true`
pub open spec fn lit_true() -> Seq<u8> {
    seq![0x74u8, 0x72, 0x75, 0x65]
}

/// `false`
pub open spec fn lit_false() -> Seq<u8> {
    seq![0x66u8, 0x61, 0x6c, 0x73, 0x65]
}

/// Scan one JSON value starting at the first byte (blanks already
/// skipped).  The length guards before the recursive calls keep the
/// recursion well founded; scanning itself never lengthens its input, so
/// they always pass.
pub open spec fn sp_scan_value(b: Seq<u8>) -> Option<Seq<u8>>
    decreases b.len(), 0int,
{
    if b.len() == 0 {
        None
    } else if b[0] == 0x22 {
        match sp_scan_string(b.skip(1)) {
            Some((s, rest)) => Some(rest),
            None => None,
        }
    } else if b[0] == 0x5b {
        let b1 = sp_ws(b.skip(1));
        if b1.len() >= 1 && b1[0] == 0x5d {
            Some(b1.skip(1))
        } else if b1.len() < b.len() {
            sp_scan_items(b1)
        } else {
            None
        }
    } else if b[0] == 0x7b {
        let b1 = sp_ws(b.skip(1));
        if b1.len() >= 1 && b1[0] == 0x7d {
            Some(b1.skip(1))
        } else if b1.len() < b.len() {
            sp_scan_members(b1)
        } else {
            None
        }
    } else if b[0] == 0x74 {
        sp_lit(b, lit_true())
    } else if b[0] == 0x66 {
        sp_lit(b, lit_false())
    } else if b[0] == 0x6e {
        sp_lit(b, lit_null())
    } else if b[0] == 0x2d || is_digit(b[0]) {
        sp_scan_number(b)
    } else {
        None
    }
}

/// Scan the members of a non-empty array, at the first value.
pub open spec fn sp_scan_items(b: Seq<u8>) -> Option<Seq<u8>>
    decreases b.len(), 1int,
{
    match sp_scan_value(b) {
        None => None,
        Some(r) => {
            let r1 = sp_ws(r);
            if r1.len() >= 1 && r1[0] == 0x2c {
                let r2 = sp_ws(r1.skip(1));
                if r2.len() < b.len() {
                    sp_scan_items(r2)
                } else {
                    None
                }
            } else if r1.len() >= 1 && r1[0] == 0x5d {
                Some(r1.skip(1))
            } else {
                None
            }
        },
    }
}

/// Scan the members of a non-empty object, at the first key.
pub open spec fn sp_scan_members(b: Seq<u8>) -> Option<Seq<u8>>
    decreases b.len(), 1int,
{
    if b.len() == 0 || b[0] != 0x22 {
        None
    } else {
        match sp_scan_string(b.skip(1)) {
            None => None,
            Some((key, r)) => {
                let r1 = sp_ws(r);
                if r1.len() >= 1 && r1[0] == 0x3a {
                    let r2 = sp_ws(r1.skip(1));
                    let scanned: Option<Seq<u8>> = if r2.len() < b.len() {
                        sp_scan_value(r2)
                    } else {
                        None
                    };
                    match scanned {
                        None => None,
                        Some(r3) => {
                            let r4 = sp_ws(r3);
                            if r4.len() >= 1 && r4[0] == 0x2c {
                                let r5 = sp_ws(r4.skip(1));
                                if r5.len() < b.len() {
                                    sp_scan_members(r5)
                                } else {
                                    None
                                }
                            } else if r4.len() >= 1 && r4[0] == 0x7d {
                                Some(r4.skip(1))
                            } else {
                                None
                            }
                        },
                    }
                } else {
                    None
                }
            },
        }
    }
}

/// Whether the bytes are one well-formed JSON value with nothing but
/// blanks around it.  The scan is bytewise; it does not judge the text's
/// UTF-8 validity.
pub open spec fn spec_is_json(b: Seq<u8>) -> bool {
    match sp_scan_value(sp_ws(b)) {
        Some(rest) => sp_ws(rest).len() == 0,
        None => false,
    }
}

/// The bytes of the version member's name.
pub open spec fn fv_name() -> Seq<u8> {
    seq![
        0x66u8,
        0x6f,
        0x72,
        0x6d,
        0x61,
        0x74,
        0x5f,
        0x76,
        0x65,
        0x72,
        0x73,
        0x69,
        0x6f,
        0x6e,
    ]
}

/// Walk the members of the top-level object, at a key: the value of the
/// first member named `format_version` (the name matched as written), when
/// that value is a plain decimal integer followed by a member boundary.
pub open spec fn sp_find_version(b: Seq<u8>) -> Option<u64>
    decreases b.len(),
{
    if b.len() == 0 || b[0] != 0x22 {
        None
    } else {
        match sp_scan_string(b.skip(1)) {
            None => None,
            Some((key, r)) => {
                let r1 = sp_ws(r);
                if r1.len() == 0 || r1[0] != 0x3a {
                    None
                } else {
                    let r2 = sp_ws(r1.skip(1));
                    if key == fv_name() {
                        match sp_u64(r2) {
                            None => None,
                            Some((n, r3)) => {
                                let r4 = sp_ws(r3);
                                if r4.len() >= 1 && (r4[0] == 0x2c || r4[0] == 0x7d) {
                                    Some(n)
                                } else {
                                    None
                                }
                            },
                        }
                    } else {
                        let scanned: Option<Seq<u8>> = if r2.len() < b.len() {
                            sp_scan_value(r2)
                        } else {
                            None
                        };
                        match scanned {
                            None => None,
                            Some(r3) => {
                                let r4 = sp_ws(r3);
                                if r4.len() >= 1 && r4[0] == 0x2c {
                                    let r5 = sp_ws(r4.skip(1));
                                    if r5.len() < b.len() {
                                        sp_find_version(r5)
                                    } else {
                                        None
                                    }
                                } else {
                                    None
                                }
                            },
                        }
                    }
                }
            },
        }
    }
}

/// The format version a lenient reading finds: the `format_version` member
/// of the top-level object.
pub open spec fn spec_version_of(b: Seq<u8>) -> Option<u64> {
    let b1 = sp_ws(b);
    if b1.len() >= 1 && b1[0] == 0x7b {
        sp_find_version(sp_ws(b1.skip(1)))
    } else {
        None
    }
}

/// The judgment of stored bytes without the canonical version prefix: not
/// JSON at all is an error; well-formed JSON claiming the current version is
/// an error too, since the canonical reading must then succeed and did not;
/// any other well-formed JSON is a miss.
pub open spec fn spec_probe_fallback(b: Seq<u8>) -> DocOutcome {
    if !spec_is_json(b) {
        DocOutcome::Malformed
    } else if spec_version_of(b) == Some(FORMAT_VERSION as u64) {
        DocOutcome::Malformed
    } else {
        DocOutcome::VersionMismatch
    }
}

/// Read one stored document.  A document with the canonical version prefix
/// is judged by that version alone: a foreign version is a miss whatever
/// follows, and the current version demands the canonical layout.  Anything
/// else is judged as general JSON: a miss unless it claims the current
/// version or is not JSON at all.
pub open spec fn spec_decode_doc(b: Seq<u8>) -> DocOutcome {
    match sp_lit(b, lit_fv()) {
        None => spec_probe_fallback(b),
        Some(b1) => match sp_u64(b1) {
            None => spec_probe_fallback(b),
            Some((v, b2)) => {
                if v != FORMAT_VERSION {
                    DocOutcome::VersionMismatch
                } else {
                    sp_doc_rest(b2)
                }
            },
        },
    }
}

/// Round trip for the request object.
#[verifier::rlimit(100)]
pub proof fn lemma_sp_req_enc(r: ReqModel, rest: Seq<u8>)
    ensures
        sp_req(enc_req(r) + rest) == Some((r, rest)),
{
    let b = enc_req(r) + rest;
    let x4 = seq![0x7du8] + rest;
    let x3 = enc_req_body(r.body) + x4;
    let x2m = lit_body() + x3;
    let x2 = enc_hdrs(r.headers) + x2m;
    let x1m = lit_headers() + x2;
    let x1 = enc_jstring(r.method) + x1m;
    let x0m = lit_method() + x1;
    let x0 = enc_jstring(r.url) + x0m;
    assert(b =~= lit_url() + x0);
    lemma_sp_lit(lit_url(), x0);
    lemma_sp_jstring_enc(r.url, x0m);
    assert(x0m =~= lit_method() + x1);
    lemma_sp_lit(lit_method(), x1);
    lemma_sp_jstring_enc(r.method, x1m);
    assert(x1m =~= lit_headers() + x2);
    lemma_sp_lit(lit_headers(), x2);
    lemma_sp_hdrs_enc(r.headers, x2m);
    assert(x2m =~= lit_body() + x3);
    lemma_sp_lit(lit_body(), x3);
    assert(x3[0] == enc_req_body(r.body)[0] || x3[0] == x4[0]);
    assert(!is_digit(x4[0]));
    lemma_sp_req_body_enc(r.body, x4);
    assert(x4[0] == 0x7d);
    assert(x4.skip(1) =~= rest);
}

/// Round trip for the response object.
#[verifier::rlimit(100)]
pub proof fn lemma_sp_resp_enc(r: StoredRespModel, rest: Seq<u8>)
    ensures
        sp_resp(enc_resp(r) + rest) == Some((r, rest)),
{
    let b = enc_resp(r) + rest;
    let x4 = seq![0x7du8] + rest;
    let x3 = enc_jstring(r.body_b64) + x4;
    let x2m = lit_body() + x3;
    let x2 = enc_hdrs(r.headers) + x2m;
    let x1m = lit_headers() + x2;
    let x1 = enc_u64(r.status as int) + x1m;
    let x0m = lit_status() + x1;
    let x0 = enc_jstring(r.url) + x0m;
    assert(b =~= lit_url() + x0);
    lemma_sp_lit(lit_url(), x0);
    lemma_sp_jstring_enc(r.url, x0m);
    assert(x0m =~= lit_status() + x1);
    lemma_sp_lit(lit_status(), x1);
    assert(x1m[0] == 0x2c);
    assert(!is_digit(x1m[0]));
    lemma_sp_u64_enc(r.status as u64, x1m);
    lemma_sp_lit(lit_headers(), x2);
    lemma_sp_hdrs_enc(r.headers, x2m);
    assert(x2m =~= lit_body() + x3);
    lemma_sp_lit(lit_body(), x3);
    lemma_sp_jstring_enc(r.body_b64, x4);
    assert(x4[0] == 0x7d);
    assert(x4.skip(1) =~= rest);
}

/// The round trip of the document codec: the reader reads back exactly the
/// document the writer wrote; a document of another format version is a
/// version mismatch, never a decode of stale data.
#[verifier::rlimit(60)]
pub proof fn lemma_decode_encode_doc(d: DocModel)
    ensures
        spec_decode_doc(spec_enc_doc(d)) == (if d.version == FORMAT_VERSION {
            DocOutcome::Valid(d)
        } else {
            DocOutcome::VersionMismatch
        }),
{
    let b = spec_enc_doc(d);
    let x3 = seq![0x7du8];
    let x2 = enc_resp(d.response) + x3;
    let x1m = lit_response() + x2;
    let x1 = enc_req(d.request) + x1m;
    let x0m = lit_request() + x1;
    let x0 = enc_u64(d.version as int) + x0m;
    assert(b =~= lit_fv() + x0);
    lemma_sp_lit(lit_fv(), x0);
    assert(x0m[0] == 0x2c);
    assert(!is_digit(x0m[0]));
    lemma_sp_u64_enc(d.version as u64, x0m);
    if d.version == FORMAT_VERSION {
        lemma_sp_lit(lit_request(), x1);
        lemma_sp_req_enc(d.request, x1m);
        lemma_sp_lit(lit_response(), x2);
        lemma_sp_resp_enc(d.response, x3);
        assert(x3.len() == 1 && x3[0] == 0x7d);
    }
}

// ---------------------------------------------------------------------------
// The executable writer.
// ---------------------------------------------------------------------------
use crate::headers::{Headers, pairs_view};
use crate::request::Request;
use crate::response::{Response, RespModel};

/// One recorded interaction: the request made, the response received, and
/// the format version the document was written with.
#[derive(Debug, Clone, PartialEq, Eq)]
pub struct StoredEntry {
    /// The request whose response was recorded.
    pub request: Request,
    /// The recorded response.
    pub response: Response,
    /// The format version of the document.
    pub format_version: u8,
}

/// The base64 text that stands for the given bytes under the standard
/// alphabet with padding; a function of the bytes alone.
pub uninterp spec fn base64_of(bytes: Seq<u8>) -> Seq<char>;

/// Relies on base64's standard-alphabet encoder: the text it returns is a
/// function of the input bytes alone.
#[verifier::external_body]
fn base64_encode(b: &Vec<u8>) -> (r: String)
    ensures
        r@ == base64_of(b@),
{
    base64::engine::general_purpose::STANDARD.encode(b.as_slice())
}

/// Relies on base64's standard-alphabet decoder: it inverts the encoder, so
/// on any text the encoder can produce it returns the encoded bytes.
#[verifier::external_body]
fn base64_decode(s: &str) -> (r: Option<Vec<u8>>)
    ensures
        r matches Some(v) ==> forall|b: Seq<u8>| s@ == #[trigger] base64_of(b) ==> v@ == b,
        r is None ==> forall|b: Seq<u8>| s@ != #[trigger] base64_of(b),
{
    base64::engine::general_purpose::STANDARD.decode(s.as_bytes()).ok()
}

/// The document content that stands for a recorded interaction: the response
/// body is carried as its base64 text.
pub open spec fn doc_of_entry(request: ReqModel, response: RespModel, version: u8) -> DocModel {
    DocModel {
        version: version,
        request: request,
        response: StoredRespModel {
            url: response.url,
            status: response.status,
            headers: response.headers,
            body_b64: base64_of(response.body),
        },
    }
}

/// An entry agrees with a document when all plain fields are equal and the
/// entry's response body is what the document's base64 text stands for.
pub open spec fn entry_matches_doc(req: ReqModel, resp: RespModel, ver: u8, d: DocModel) -> bool {
    &&& req == d.request
    &&& ver == d.version
    &&& resp.url == d.response.url
    &&& resp.status == d.response.status
    &&& resp.headers == d.response.headers
    &&& forall|bs: Seq<u8>| d.response.body_b64 == #[trigger] base64_of(bs) ==> resp.body == bs
}

fn lit_fv_vec() -> (r: Vec<u8>)
    ensures
        r@ == lit_fv(),
{
    let v: Vec<u8> = vec![
        0x7b,
        0x22,
        0x66,
        0x6f,
        0x72,
        0x6d,
        0x61,
        0x74,
        0x5f,
        0x76,
        0x65,
        0x72,
        0x73,
        0x69,
        0x6f,
        0x6e,
        0x22,
        0x3a,
    ];
    proof {
        assert(v@ =~= lit_fv());
    }
    v
}

fn lit_request_vec() -> (r: Vec<u8>)
    ensures
        r@ == lit_request(),
{
    let v: Vec<u8> = vec![0x2c, 0x22, 0x72, 0x65, 0x71, 0x75, 0x65, 0x73, 0x74, 0x22, 0x3a];
    proof {
        assert(v@ =~= lit_request());
    }
    v
}

fn lit_url_vec() -> (r: Vec<u8>)
    ensures
        r@ == lit_url(),
{
    let v: Vec<u8> = vec![0x7b, 0x22, 0x75, 0x72, 0x6c, 0x22, 0x3a];
    proof {
        assert(v@ =~= lit_url());
    }
    v
}

fn lit_method_vec() -> (r: Vec<u8>)
    ensures
        r@ == lit_method(),
{
    let v: Vec<u8> = vec![0x2c, 0x22, 0x6d, 0x65, 0x74, 0x68, 0x6f, 0x64, 0x22, 0x3a];
    proof {
        assert(v@ =~= lit_method());
    }
    v
}

fn lit_headers_vec() -> (r: Vec<u8>)
    ensures
        r@ == lit_headers(),
{
    let v: Vec<u8> = vec![0x2c, 0x22, 0x68, 0x65, 0x61, 0x64, 0x65, 0x72, 0x73, 0x22, 0x3a];
    proof {
        assert(v@ =~= lit_headers());
    }
    v
}

fn lit_body_vec() -> (r: Vec<u8>)
    ensures
        r@ == lit_body(),
{
    let v: Vec<u8> = vec![0x2c, 0x22, 0x62, 0x6f, 0x64, 0x79, 0x22, 0x3a];
    proof {
        assert(v@ =~= lit_body());
    }
    v
}

fn lit_response_vec() -> (r: Vec<u8>)
    ensures
        r@ == lit_response(),
{
    let v: Vec<u8> = vec![0x2c, 0x22, 0x72, 0x65, 0x73, 0x70, 0x6f, 0x6e, 0x73, 0x65, 0x22, 0x3a];
    proof {
        assert(v@ =~= lit_response());
    }
    v
}

fn lit_status_vec() -> (r: Vec<u8>)
    ensures
        r@ == lit_status(),
{
    let v: Vec<u8> = vec![0x2c, 0x22, 0x73, 0x74, 0x61, 0x74, 0x75, 0x73, 0x22, 0x3a];
    proof {
        assert(v@ =~= lit_status());
    }
    v
}

fn lit_null_vec() -> (r: Vec<u8>)
    ensures
        r@ == lit_null(),
{
    let v: Vec<u8> = vec![0x6e, 0x75, 0x6c, 0x6c];
    proof {
        assert(v@ =~= lit_null());
    }
    v
}

/// Write the canonical numeral of `n`.
fn emit_u64(out: &mut Vec<u8>, n: u64)
    ensures
        final(out)@ == old(out)@ + enc_u64(n as int),
    decreases n,
{
    if n < 10 {
        out.push(0x30 + n as u8);
        proof {
            assert(out@ =~= old(out)@ + enc_u64(n as int));
        }
    } else {
        let ghost mid = out@;
        emit_u64(out, n / 10);
        out.push(0x30 + (n % 10) as u8);
        proof {
            assert(out@ =~= old(out)@ + enc_u64(n as int));
        }
    }
}

fn hex_b(d: u8) -> (r: u8)
    requires
        d < 16,
    ensures
        r == hex_byte(d as int),
{
    if d < 10 {
        0x30 + d
    } else {
        0x57 + d
    }
}

/// Appending one more byte extends the escaped form by that byte's escape.
proof fn lemma_enc_str_bytes_snoc(s: Seq<u8>, i: int)
    requires
        0 <= i < s.len(),
    ensures
        enc_str_bytes(s.take(i + 1)) == enc_str_bytes(s.take(i)) + esc_byte(s[i]),
{
    assert(s.take(i + 1) =~= s.take(i) + seq![s[i]]);
    lemma_enc_str_bytes_concat(s.take(i), seq![s[i]]);
    let one = seq![s[i]];
    assert(one.len() == 1 && one[0] == s[i]);
    assert(one.skip(1) =~= Seq::<u8>::empty());
    assert(enc_str_bytes(one) == esc_byte(s[i]) + enc_str_bytes(one.skip(1)));
    assert(enc_str_bytes(one) =~= esc_byte(s[i]));
}

/// Write a quoted, escaped string value.
fn emit_jstring(out: &mut Vec<u8>, s: &str)
    ensures
        final(out)@ == old(out)@ + enc_jstring(s@),
{
    let b = s.as_bytes_vec();
    out.push(0x22);
    let n = b.len();
    let mut i: usize = 0;
    while i < n
        invariant
            i <= n,
            n == b@.len(),
            b@ == vstd::utf8::encode_utf8(s@),
            out@ == old(out)@ + seq![0x22u8] + enc_str_bytes(b@.take(i as int)),
        decreases n - i,
    {
        let ghost prev = out@;
        let c = b[i];
        if c == 0x22 {
            out.push(0x5c);
            out.push(0x22);
        } else if c == 0x5c {
            out.push(0x5c);
            out.push(0x5c);
        } else if c < 0x20 {
            out.push(0x5c);
            out.push(0x75);
            out.push(0x30);
            out.push(0x30);
            out.push(hex_b(c / 16));
            out.push(hex_b(c % 16));
        } else {
            out.push(c);
        }
        proof {
            assert(out@ =~= prev + esc_byte(b@[i as int]));
            lemma_enc_str_bytes_snoc(b@, i as int);
            assert(out@ =~= old(out)@ + seq![0x22u8] + enc_str_bytes(b@.take(i + 1)));
        }
        i = i + 1;
    }
    out.push(0x22);
    proof {
        assert(b@.take(n as int) =~= b@);
        assert(out@ =~= old(out)@ + enc_jstring(s@));
    }
}

/// Write the members of a non-empty header object from position `i` on,
/// with the closing brace left to the caller.
fn emit_hdr_items(out: &mut Vec<u8>, h: &Headers, i: usize)
    requires
        i < h@.len(),
    ensures
        final(out)@ == old(out)@ + enc_hdr_items(h@.skip(i as int)),
    decreases h@.len() - i,
{
    let entries = h.entries();
    let n = entries.len();
    proof {
        assert(i < n);
    }
    emit_jstring(out, entries[i].0.as_str());
    out.push(0x3a);
    emit_jstring(out, entries[i].1.as_str());
    proof {
        assert(h@.skip(i as int)[0] == h@[i as int]);
        assert(out@ =~= old(out)@ + enc_hdr_pair(h@.skip(i as int)[0]));
    }
    if i + 1 < n {
        out.push(0x2c);
        emit_hdr_items(out, h, i + 1);
        proof {
            assert(h@.skip(i as int).skip(1) =~= h@.skip(i as int + 1));
            assert(h@.skip(i as int).len() > 1);
            assert(out@ =~= old(out)@ + (enc_hdr_pair(h@.skip(i as int)[0]) + seq![0x2cu8]
                + enc_hdr_items(h@.skip(i as int + 1))));
        }
    } else {
        proof {
            assert(h@.skip(i as int).len() == 1);
        }
    }
}

/// Write a header object.
fn emit_hdrs(out: &mut Vec<u8>, h: &Headers)
    ensures
        final(out)@ == old(out)@ + enc_hdrs(h@),
{
    out.push(0x7b);
    if h.len() == 0 {
        out.push(0x7d);
        proof {
            assert(out@ =~= old(out)@ + enc_hdrs(h@));
        }
    } else {
        emit_hdr_items(out, h, 0);
        out.push(0x7d);
        proof {
            assert(h@.skip(0) =~= h@);
            assert(out@ =~= old(out)@ + enc_hdrs(h@));
        }
    }
}

/// Write the numerals of a non-empty byte array from position `i` on.
fn emit_u8_items(out: &mut Vec<u8>, b: &Vec<u8>, i: usize)
    requires
        i < b@.len(),
    ensures
        final(out)@ == old(out)@ + enc_u8_items(b@.skip(i as int)),
    decreases b@.len() - i,
{
    let n = b.len();
    proof {
        assert(i < n);
    }
    emit_u64(out, b[i] as u64);
    proof {
        assert(b@.skip(i as int)[0] == b@[i as int]);
    }
    if i + 1 < n {
        out.push(0x2c);
        emit_u8_items(out, b, i + 1);
        proof {
            assert(b@.skip(i as int).skip(1) =~= b@.skip(i as int + 1));
            assert(b@.skip(i as int).len() > 1);
            assert(out@ =~= old(out)@ + (enc_u64(b@.skip(i as int)[0] as int) + seq![0x2cu8]
                + enc_u8_items(b@.skip(i as int + 1))));
        }
    } else {
        proof {
            assert(b@.skip(i as int).len() == 1);
        }
    }
}

/// Write a body value: `null` or the byte array.
fn emit_req_body(out: &mut Vec<u8>, b: &Option<Vec<u8>>)
    ensures
        final(out)@ == old(out)@ + enc_req_body(match b {
            Option::Some(v) => Option::Some(v@),
            Option::None => Option::None,
        }),
{
    match b {
        None => {
            let mut l = lit_null_vec();
            out.append(&mut l);
        },
        Some(v) => {
            out.push(0x5b);
            if v.len() > 0 {
                emit_u8_items(out, v, 0);
                proof {
                    assert(v@.skip(0) =~= v@);
                }
            }
            out.push(0x5d);
            proof {
                if v@.len() == 0 {
                    assert(out@ =~= old(out)@ + seq![0x5bu8, 0x5du8]);
                } else {
                    assert(out@ =~= old(out)@ + (seq![0x5bu8] + enc_u8_items(v@) + seq![0x5du8]));
                }
            }
        },
    }
}

/// Write the request object; the canonical bytes of a request, which also
/// feed the fingerprint.
pub fn encode_request(r: &Request) -> (out: Vec<u8>)
    ensures
        out@ == enc_req(r@),
{
    let mut out: Vec<u8> = Vec::new();
    let mut l = lit_url_vec();
    out.append(&mut l);
    emit_jstring(&mut out, r.url.as_str());
    let mut l = lit_method_vec();
    out.append(&mut l);
    emit_jstring(&mut out, r.method.as_str());
    let mut l = lit_headers_vec();
    out.append(&mut l);
    emit_hdrs(&mut out, &r.headers);
    let mut l = lit_body_vec();
    out.append(&mut l);
    emit_req_body(&mut out, &r.body);
    out.push(0x7d);
    proof {
        assert(out@ =~= enc_req(r@));
    }
    out
}

/// Write one whole document recording a response to a request.
#[verifier::rlimit(100)]
pub fn encode_entry(request: &Request, response: &Response, version: u8) -> (out: Vec<u8>)
    ensures
        out@ == spec_enc_doc(doc_of_entry(request@, response@, version)),
{
    let mut out: Vec<u8> = Vec::new();
    let mut l = lit_fv_vec();
    out.append(&mut l);
    emit_u64(&mut out, version as u64);
    let mut l = lit_request_vec();
    out.append(&mut l);
    let mut req = encode_request(request);
    out.append(&mut req);
    let mut l = lit_response_vec();
    out.append(&mut l);
    let mut l = lit_url_vec();
    out.append(&mut l);
    emit_jstring(&mut out, response.url.as_str());
    let mut l = lit_status_vec();
    out.append(&mut l);
    emit_u64(&mut out, response.status as u64);
    let mut l = lit_headers_vec();
    out.append(&mut l);
    emit_hdrs(&mut out, &response.headers);
    let mut l = lit_body_vec();
    out.append(&mut l);
    let b64 = base64_encode(&response.body);
    emit_jstring(&mut out, b64.as_str());
    out.push(0x7d);
    out.push(0x7d);
    proof {
        let d = doc_of_entry(request@, response@, version);
        assert(out@ =~= spec_enc_doc(d));
    }
    out
}

// ---------------------------------------------------------------------------
// The executable reader.
// ---------------------------------------------------------------------------
/// Skipping twice is skipping the sum.
proof fn lemma_skip_skip(v: Seq<u8>, i: int, k: int)
    requires
        0 <= i,
        0 <= k,
        i + k <= v.len(),
    ensures
        v.skip(i).skip(k) =~= v.skip(i + k),
{
}

/// Consume the expected literal at position `i`.
fn parse_lit(v: &Vec<u8>, i: usize, lit: &Vec<u8>) -> (r: Option<usize>)
    requires
        i <= v@.len(),
    ensures
        match r {
            Some(j) => i <= j <= v@.len() && sp_lit(v@.skip(i as int), lit@) == Some(
                v@.skip(j as int),
            ),
            None => sp_lit(v@.skip(i as int), lit@) is None,
        },
{
    let ghost b = v@.skip(i as int);
    let n = v.len();
    let m = lit.len();
    if n - i < m {
        proof {
            assert(b.len() < lit@.len());
        }
        return None;
    }
    let mut k: usize = 0;
    while k < m
        invariant
            k <= m,
            i <= v@.len(),
            m <= v@.len() - i,
            n == v@.len(),
            m == lit@.len(),
            b == v@.skip(i as int),
            forall|t: int| 0 <= t < k ==> b[t] == lit@[t],
        decreases m - k,
    {
        if v[i + k] != lit[k] {
            proof {
                assert(b[k as int] == v@[i + k as int]);
                assert(b.take(m as int)[k as int] != lit@[k as int]);
                assert(b.take(m as int) != lit@);
            }
            return None;
        }
        proof {
            assert(b[k as int] == v@[i + k as int]);
        }
        k = k + 1;
    }
    proof {
        assert(b.take(m as int) =~= lit@);
        lemma_skip_skip(v@, i as int, m as int);
    }
    Some(i + m)
}

/// Parse a canonical decimal `u64` at position `i`.
fn parse_u64(v: &Vec<u8>, i: usize) -> (r: Option<(u64, usize)>)
    requires
        i <= v@.len(),
    ensures
        match r {
            Some((n, j)) => i <= j <= v@.len() && sp_u64(v@.skip(i as int)) == Some(
                (n, v@.skip(j as int)),
            ),
            None => sp_u64(v@.skip(i as int)) is None,
        },
{
    let ghost b = v@.skip(i as int);
    let n = v.len();
    let mut k: usize = 0;
    while i + k < n && 0x30 <= v[i + k] && v[i + k] <= 0x39
        invariant
            i + k <= n,
            n == v@.len(),
            b == v@.skip(i as int),
            forall|t: int| 0 <= t < k ==> is_digit(#[trigger] b[t]),
        decreases n - i - k,
    {
        proof {
            assert(b[k as int] == v@[i + k as int]);
        }
        k = k + 1;
    }
    proof {
        if i + k < n {
            assert(b[k as int] == v@[i + k as int]);
            assert(!is_digit(b[k as int]));
        }
        lemma_digit_run_exact(b, k as int);
    }
    if k == 0 {
        return None;
    }
    proof {
        assert(b[0] == v@[i as int]);
    }
    if v[i] == 0x30 && k > 1 {
        return None;
    }
    let ghost digits = b.take(k as int);
    proof {
        assert forall|t: int| 0 <= t < digits.len() implies is_digit(#[trigger] digits[t]) by {
            assert(digits[t] == b[t]);
        }
    }
    let mut acc: u64 = 0;
    let mut m: usize = 0;
    while m < k
        invariant
            m <= k,
            k <= n - i,
            i <= n,
            n == v@.len(),
            b == v@.skip(i as int),
            digits == b.take(k as int),
            forall|t: int| 0 <= t < digits.len() ==> is_digit(#[trigger] digits[t]),
            digits.len() == k,
            k >= 1,
            digit_run(b) == k,
            !(b[0] == 0x30 && k > 1),
            acc == digits_val(digits.take(m as int)),
        decreases k - m,
    {
        proof {
            assert(digits[m as int] == b[m as int]);
            assert(b[m as int] == v@[i + m as int]);
            assert(is_digit(digits[m as int]));
        }
        let d: u8 = v[i + m] - 0x30;
        if acc > (u64::MAX - d as u64) / 10 {
            proof {
                lemma_fundamental_div_mod(u64::MAX - d as u64, 10);
                let q = (u64::MAX - d as u64) / 10 as int;
                assert(acc * 10 + d > u64::MAX) by (nonlinear_arith)
                    requires
                        acc > q,
                        u64::MAX - d == 10 * q + ((u64::MAX - d) as int % 10),
                        0 <= (u64::MAX - d) as int % 10 < 10,
                        d <= 9,
                ;
                assert(digits.take(m + 1).take(m as int) =~= digits.take(m as int));
                assert(digits.take(m + 1)[m as int] == digits[m as int]);
                assert(digits_val(digits.take(m + 1)) == acc * 10 + d);
                lemma_digits_val_mono(digits, m + 1, k as int);
                assert(digits.take(k as int) =~= digits);
                assert(digits_val(digits) > u64::MAX);
            }
            return None;
        }
        proof {
            lemma_fundamental_div_mod(u64::MAX - d as u64, 10);
            let q = (u64::MAX - d as u64) / 10 as int;
            assert(acc * 10 + d <= u64::MAX) by (nonlinear_arith)
                requires
                    acc <= q,
                    u64::MAX - d == 10 * q + ((u64::MAX - d) as int % 10),
                    0 <= (u64::MAX - d) as int % 10 < 10,
                    d <= 9,
            ;
            assert(digits.take(m + 1).take(m as int) =~= digits.take(m as int));
            assert(digits.take(m + 1)[m as int] == digits[m as int]);
        }
        acc = acc * 10 + d as u64;
        m = m + 1;
    }
    proof {
        assert(digits.take(k as int) =~= digits);
        assert(digits_val(digits) == acc);
        lemma_skip_skip(v@, i as int, k as int);
    }
    Some((acc, i + k))
}

fn is_hex_b(c: u8) -> (r: bool)
    ensures
        r == is_hex(c),
{
    (0x30 <= c && c <= 0x39) || (0x61 <= c && c <= 0x66)
}

fn hex_val_b(c: u8) -> (r: u8)
    requires
        is_hex(c),
    ensures
        r == hex_val(c),
        r < 16,
{
    if c <= 0x39 {
        c - 0x30
    } else {
        c - 0x57
    }
}

/// Parse string content up to and including the closing quote.
fn parse_str_chars(v: &Vec<u8>, i: usize) -> (r: Option<(Vec<u8>, usize)>)
    requires
        i <= v@.len(),
    ensures
        match r {
            Some((s, j)) => i < j <= v@.len() && sp_str_chars(v@.skip(i as int)) == Some(
                (s@, v@.skip(j as int)),
            ),
            None => sp_str_chars(v@.skip(i as int)) is None,
        },
    decreases v@.len() - i,
{
    let ghost b = v@.skip(i as int);
    let n = v.len();
    if i >= n {
        return None;
    }
    let c = v[i];
    proof {
        assert(b[0] == v@[i as int]);
    }
    if c == 0x22 {
        let out: Vec<u8> = Vec::new();
        proof {
            lemma_skip_skip(v@, i as int, 1);
            assert(out@ =~= Seq::<u8>::empty());
        }
        return Some((out, i + 1));
    }
    if c == 0x5c {
        if i + 1 < n && (v[i + 1] == 0x22 || v[i + 1] == 0x5c) {
            proof {
                assert(b[1] == v@[i + 1 as int]);
                assert(b.len() >= 2);
            }
            let e = v[i + 1];
            match parse_str_chars(v, i + 2) {
                Some((mut s, j)) => {
                    let ghost tail = s@;
                    s.insert(0, e);
                    proof {
                        lemma_skip_skip(v@, i as int, 2);
                        assert(s@ =~= seq![b[1]] + tail);
                    }
                    Some((s, j))
                },
                None => {
                    proof {
                        lemma_skip_skip(v@, i as int, 2);
                    }
                    None
                },
            }
        } else if n - i > 5 && v[i + 1] == 0x75 && v[i + 2] == 0x30 && v[i + 3] == 0x30 && is_hex_b(
            v[i + 4],
        ) && is_hex_b(v[i + 5]) && hex_val_b(v[i + 4]) * 16 + hex_val_b(v[i + 5]) < 0x20 {
            proof {
                assert(b.len() >= 6);
                assert(b[1] == v@[i + 1 as int]);
                assert(b[2] == v@[i + 2 as int]);
                assert(b[3] == v@[i + 3 as int]);
                assert(b[4] == v@[i + 4 as int]);
                assert(b[5] == v@[i + 5 as int]);
            }
            let hv: u8 = hex_val_b(v[i + 4]) * 16 + hex_val_b(v[i + 5]);
            match parse_str_chars(v, i + 6) {
                Some((mut s, j)) => {
                    let ghost tail = s@;
                    s.insert(0, hv);
                    proof {
                        lemma_skip_skip(v@, i as int, 6);
                        assert(s@ =~= seq![(hex_val(b[4]) * 16 + hex_val(b[5])) as u8] + tail);
                    }
                    Some((s, j))
                },
                None => {
                    proof {
                        lemma_skip_skip(v@, i as int, 6);
                    }
                    None
                },
            }
        } else {
            proof {
                if b.len() >= 2 {
                    assert(b[1] == v@[i + 1 as int]);
                }
                if b.len() >= 6 {
                    assert(b[2] == v@[i + 2 as int]);
                    assert(b[3] == v@[i + 3 as int]);
                    assert(b[4] == v@[i + 4 as int]);
                    assert(b[5] == v@[i + 5 as int]);
                }
            }
            None
        }
    } else if c < 0x20 {
        None
    } else {
        match parse_str_chars(v, i + 1) {
            Some((mut s, j)) => {
                let ghost tail = s@;
                s.insert(0, c);
                proof {
                    lemma_skip_skip(v@, i as int, 1);
                    assert(s@ =~= seq![b[0]] + tail);
                }
                Some((s, j))
            },
            None => {
                proof {
                    lemma_skip_skip(v@, i as int, 1);
                }
                None
            },
        }
    }
}

/// Parse a quoted string value into the string its bytes encode.
fn parse_jstring(v: &Vec<u8>, i: usize) -> (r: Option<(String, usize)>)
    requires
        i <= v@.len(),
    ensures
        match r {
            Some((s, j)) => i < j <= v@.len() && sp_jstring(v@.skip(i as int)) == Some(
                (s@, v@.skip(j as int)),
            ),
            None => sp_jstring(v@.skip(i as int)) is None,
        },
{
    let ghost b = v@.skip(i as int);
    if i >= v.len() {
        return None;
    }
    proof {
        assert(b[0] == v@[i as int]);
    }
    if v[i] != 0x22 {
        return None;
    }
    proof {
        lemma_skip_skip(v@, i as int, 1);
    }
    match parse_str_chars(v, i + 1) {
        None => None,
        Some((raw, j)) => match string_from_utf8(&raw) {
            Some(s) => Some((s, j)),
            None => None,
        },
    }
}

/// Parse the members of a non-empty header object.
fn parse_hdr_items(v: &Vec<u8>, i: usize) -> (r: Option<(Vec<(String, String)>, usize)>)
    requires
        i <= v@.len(),
    ensures
        match r {
            Some((pairs, j)) => i < j <= v@.len() && sp_hdr_items(v@.skip(i as int)) == Some(
                (pairs_view(pairs@), v@.skip(j as int)),
            ),
            None => sp_hdr_items(v@.skip(i as int)) is None,
        },
    decreases v@.len() - i,
{
    let ghost b = v@.skip(i as int);
    match parse_jstring(v, i) {
        None => None,
        Some((name, j1)) => {
            if j1 >= v.len() {
                return None;
            }
            proof {
                assert(v@.skip(j1 as int)[0] == v@[j1 as int]);
            }
            if v[j1] != 0x3a {
                return None;
            }
            proof {
                lemma_skip_skip(v@, j1 as int, 1);
            }
            match parse_jstring(v, j1 + 1) {
                None => None,
                Some((value, j2)) => {
                    let ghost r2 = v@.skip(j2 as int);
                    if j2 < v.len() && v[j2] == 0x2c {
                        proof {
                            assert(r2[0] == v@[j2 as int]);
                            lemma_skip_skip(v@, j2 as int, 1);
                            assert(r2.skip(1).len() < b.len());
                        }
                        match parse_hdr_items(v, j2 + 1) {
                            None => None,
                            Some((mut pairs, j3)) => {
                                let ghost tail = pairs@;
                                pairs.insert(0, (name, value));
                                proof {
                                    assert(pairs_view(pairs@) =~= seq![
                                        (name@, value@),
                                    ] + pairs_view(tail));
                                }
                                Some((pairs, j3))
                            },
                        }
                    } else if j2 < v.len() && v[j2] == 0x7d {
                        proof {
                            assert(r2[0] == v@[j2 as int]);
                            lemma_skip_skip(v@, j2 as int, 1);
                        }
                        let mut pairs: Vec<(String, String)> = Vec::new();
                        pairs.push((name, value));
                        proof {
                            assert(pairs_view(pairs@) =~= seq![(name@, value@)]);
                        }
                        Some((pairs, j2 + 1))
                    } else {
                        proof {
                            if r2.len() >= 1 {
                                assert(r2[0] == v@[j2 as int]);
                            }
                        }
                        None
                    }
                },
            }
        },
    }
}

/// Parse a header object into its entries, in document order.
fn parse_hdrs(v: &Vec<u8>, i: usize) -> (r: Option<(Headers, usize)>)
    requires
        i <= v@.len(),
    ensures
        match r {
            Some((h, j)) => i < j <= v@.len() && sp_hdrs(v@.skip(i as int)) == Some(
                (h@, v@.skip(j as int)),
            ),
            None => sp_hdrs(v@.skip(i as int)) is None,
        },
{
    let ghost b = v@.skip(i as int);
    if i >= v.len() {
        return None;
    }
    proof {
        assert(b[0] == v@[i as int]);
        if i + 1 < v@.len() {
            assert(b[1] == v@[i + 1 as int]);
        }
    }
    if v[i] != 0x7b {
        return None;
    }
    if i + 1 < v.len() && v[i + 1] == 0x7d {
        proof {
            lemma_skip_skip(v@, i as int, 2);
            assert(pairs_view(Seq::<(String, String)>::empty()) =~= Seq::<HeaderPair>::empty());
        }
        let pairs: Vec<(String, String)> = Vec::new();
        return Some((Headers::from_entries(pairs), i + 2));
    }
    proof {
        lemma_skip_skip(v@, i as int, 1);
    }
    match parse_hdr_items(v, i + 1) {
        None => None,
        Some((pairs, j)) => Some((Headers::from_entries(pairs), j)),
    }
}

/// Parse the members of a non-empty byte array.
fn parse_u8_items(v: &Vec<u8>, i: usize) -> (r: Option<(Vec<u8>, usize)>)
    requires
        i <= v@.len(),
    ensures
        match r {
            Some((s, j)) => i < j <= v@.len() && sp_u8_items(v@.skip(i as int)) == Some(
                (s@, v@.skip(j as int)),
            ),
            None => sp_u8_items(v@.skip(i as int)) is None,
        },
    decreases v@.len() - i,
{
    let ghost b = v@.skip(i as int);
    match parse_u64(v, i) {
        None => None,
        Some((x, j1)) => {
            if x > 255 {
                return None;
            }
            let ghost r1 = v@.skip(j1 as int);
            proof {
                if r1.len() >= 1 {
                    assert(r1[0] == v@[j1 as int]);
                }
            }
            if j1 < v.len() && v[j1] == 0x2c {
                proof {
                    lemma_skip_skip(v@, j1 as int, 1);
                    assert(enc_u64(x as int).len() >= 1) by {
                        lemma_enc_u64_shape(x as int);
                    }
                    assert(r1.skip(1).len() < b.len()) by {
                        assert(j1 > i) by {
                            if j1 == i {
                                assert(sp_u64(b) == Some((x, b)));
                                assert(digit_run(b) >= 1);
                                assert(b.skip(digit_run(b)).len() < b.len());
                            }
                        }
                    };
                }
                match parse_u8_items(v, j1 + 1) {
                    None => None,
                    Some((mut s, j2)) => {
                        let ghost tail = s@;
                        s.insert(0, x as u8);
                        proof {
                            assert(s@ =~= seq![x as u8] + tail);
                        }
                        Some((s, j2))
                    },
                }
            } else if j1 < v.len() && v[j1] == 0x5d {
                proof {
                    lemma_skip_skip(v@, j1 as int, 1);
                    assert(j1 > i) by {
                        if j1 == i {
                            assert(sp_u64(b) == Some((x, b)));
                            assert(digit_run(b) >= 1);
                            assert(b.skip(digit_run(b)).len() < b.len());
                        }
                    };
                }
                let mut s: Vec<u8> = Vec::new();
                s.push(x as u8);
                proof {
                    assert(s@ =~= seq![x as u8]);
                }
                Some((s, j1 + 1))
            } else {
                None
            }
        },
    }
}

/// Parse a body value: `null` or a byte array.
fn parse_req_body(v: &Vec<u8>, i: usize) -> (r: Option<(Option<Vec<u8>>, usize)>)
    requires
        i <= v@.len(),
    ensures
        match r {
            Some((body, j)) => i < j <= v@.len() && sp_req_body(v@.skip(i as int)) == Some(
                (
                    match body {
                        Option::Some(s) => Option::Some(s@),
                        Option::None => Option::None,
                    },
                    v@.skip(j as int),
                ),
            ),
            None => sp_req_body(v@.skip(i as int)) is None,
        },
{
    let ghost b = v@.skip(i as int);
    if i >= v.len() {
        return None;
    }
    proof {
        assert(b[0] == v@[i as int]);
        if i + 1 < v@.len() {
            assert(b[1] == v@[i + 1 as int]);
        }
    }
    if v[i] == 0x6e {
        let nl = lit_null_vec();
        match parse_lit(v, i, &nl) {
            None => None,
            Some(j) => Some((None, j)),
        }
    } else if i + 1 < v.len() && v[i] == 0x5b && v[i + 1] == 0x5d {
        let s: Vec<u8> = Vec::new();
        proof {
            lemma_skip_skip(v@, i as int, 2);
            assert(s@ =~= Seq::<u8>::empty());
        }
        Some((Some(s), i + 2))
    } else if v[i] == 0x5b {
        proof {
            lemma_skip_skip(v@, i as int, 1);
        }
        match parse_u8_items(v, i + 1) {
            None => None,
            Some((s, j)) => Some((Some(s), j)),
        }
    } else {
        None
    }
}

/// Parse the request object.
#[verifier::rlimit(100)]
fn parse_req(v: &Vec<u8>, i: usize) -> (r: Option<(Request, usize)>)
    requires
        i <= v@.len(),
    ensures
        match r {
            Some((req, j)) => i <= j <= v@.len() && sp_req(v@.skip(i as int)) == Some(
                (req@, v@.skip(j as int)),
            ),
            None => sp_req(v@.skip(i as int)) is None,
        },
{
    let lu = lit_url_vec();
    let b1 = match parse_lit(v, i, &lu) {
        None => {
            return None;
        },
        Some(j) => j,
    };
    let (url, b2) = match parse_jstring(v, b1) {
        None => {
            return None;
        },
        Some(x) => x,
    };
    let lm = lit_method_vec();
    let b3 = match parse_lit(v, b2, &lm) {
        None => {
            return None;
        },
        Some(j) => j,
    };
    let (method, b4) = match parse_jstring(v, b3) {
        None => {
            return None;
        },
        Some(x) => x,
    };
    let lh = lit_headers_vec();
    let b5 = match parse_lit(v, b4, &lh) {
        None => {
            return None;
        },
        Some(j) => j,
    };
    let (headers, b6) = match parse_hdrs(v, b5) {
        None => {
            return None;
        },
        Some(x) => x,
    };
    let lb = lit_body_vec();
    let b7 = match parse_lit(v, b6, &lb) {
        None => {
            return None;
        },
        Some(j) => j,
    };
    let (body, b8) = match parse_req_body(v, b7) {
        None => {
            return None;
        },
        Some(x) => x,
    };
    proof {
        if b8 < v@.len() {
            assert(v@.skip(b8 as int)[0] == v@[b8 as int]);
        }
    }
    if b8 < v.len() && v[b8] == 0x7d {
        proof {
            lemma_skip_skip(v@, b8 as int, 1);
        }
        Some((Request { url, method, headers, body }, b8 + 1))
    } else {
        None
    }
}

/// The response half of a parsed document, with the body still in its
/// base64 text form.
#[derive(Debug, Clone, PartialEq, Eq)]
pub struct StoredResp {
    /// The final URL of the stored response.
    pub url: String,
    /// The status code of the stored response.
    pub status: u16,
    /// The headers of the stored response.
    pub headers: Headers,
    /// The base64 text that stands for the body bytes.
    pub body_b64: String,
}

impl View for StoredResp {
    type V = StoredRespModel;

    open spec fn view(&self) -> StoredRespModel {
        StoredRespModel {
            url: self.url@,
            status: self.status,
            headers: self.headers@,
            body_b64: self.body_b64@,
        }
    }
}

/// One parsed document of the current format version.
#[derive(Debug, Clone, PartialEq, Eq)]
pub struct StoredDoc {
    /// The format version the document was written with.
    pub version: u8,
    /// The stored request.
    pub request: Request,
    /// The stored response.
    pub response: StoredResp,
}

impl View for StoredDoc {
    type V = DocModel;

    open spec fn view(&self) -> DocModel {
        DocModel { version: self.version, request: self.request@, response: self.response@ }
    }
}

/// Parse the response object.
#[verifier::rlimit(100)]
fn parse_resp(v: &Vec<u8>, i: usize) -> (r: Option<(StoredResp, usize)>)
    requires
        i <= v@.len(),
    ensures
        match r {
            Some((resp, j)) => i <= j <= v@.len() && sp_resp(v@.skip(i as int)) == Some(
                (resp@, v@.skip(j as int)),
            ),
            None => sp_resp(v@.skip(i as int)) is None,
        },
{
    let lu = lit_url_vec();
    let b1 = match parse_lit(v, i, &lu) {
        None => {
            return None;
        },
        Some(j) => j,
    };
    let (url, b2) = match parse_jstring(v, b1) {
        None => {
            return None;
        },
        Some(x) => x,
    };
    let ls = lit_status_vec();
    let b3 = match parse_lit(v, b2, &ls) {
        None => {
            return None;
        },
        Some(j) => j,
    };
    let (status, b4) = match parse_u64(v, b3) {
        None => {
            return None;
        },
        Some(x) => x,
    };
    if status > 65535 {
        return None;
    }
    let lh = lit_headers_vec();
    let b5 = match parse_lit(v, b4, &lh) {
        None => {
            return None;
        },
        Some(j) => j,
    };
    let (headers, b6) = match parse_hdrs(v, b5) {
        None => {
            return None;
        },
        Some(x) => x,
    };
    let lb = lit_body_vec();
    let b7 = match parse_lit(v, b6, &lb) {
        None => {
            return None;
        },
        Some(j) => j,
    };
    let (body_b64, b8) = match parse_jstring(v, b7) {
        None => {
            return None;
        },
        Some(x) => x,
    };
    proof {
        if b8 < v@.len() {
            assert(v@.skip(b8 as int)[0] == v@[b8 as int]);
        }
    }
    if b8 < v.len() && v[b8] == 0x7d {
        proof {
            lemma_skip_skip(v@, b8 as int, 1);
        }
        Some((StoredResp { url, status: status as u16, headers, body_b64 }, b8 + 1))
    } else {
        None
    }
}

/// What reading a stored document can find, at the executable level.
#[derive(Debug, Clone, PartialEq, Eq)]
pub enum DecodeOutcome {
    /// A well-formed document of the current format version.
    Valid(StoredDoc),
    /// A document of another format version: a miss, not an error.
    VersionMismatch,
    /// Bytes this library's writer cannot have produced.
    Malformed,
}

/// Read the part of a document after a current version field.
#[verifier::rlimit(100)]
fn decode_doc_rest(v: &Vec<u8>, i: usize) -> (r: Option<StoredDoc>)
    requires
        i <= v@.len(),
    ensures
        r matches Some(doc) ==> sp_doc_rest(v@.skip(i as int)) == DocOutcome::Valid(doc@),
        r is None ==> sp_doc_rest(v@.skip(i as int)) is Malformed,
{
    let lr = lit_request_vec();
    let b3 = match parse_lit(v, i, &lr) {
        None => {
            return None;
        },
        Some(j) => j,
    };
    let (request, b4) = match parse_req(v, b3) {
        None => {
            return None;
        },
        Some(x) => x,
    };
    let lp = lit_response_vec();
    let b5 = match parse_lit(v, b4, &lp) {
        None => {
            return None;
        },
        Some(j) => j,
    };
    let (response, b6) = match parse_resp(v, b5) {
        None => {
            return None;
        },
        Some(x) => x,
    };
    proof {
        if b6 < v@.len() {
            assert(v@.skip(b6 as int)[0] == v@[b6 as int]);
        }
    }
    if b6 < v.len() && v.len() - b6 == 1 && v[b6] == 0x7d {
        proof {
            assert(v@.skip(b6 as int).len() == 1);
        }
        Some(StoredDoc { version: FORMAT_VERSION, request, response })
    } else {
        None
    }
}


// ---------------------------------------------------------------------------
// The executable lenient scanner.
// ---------------------------------------------------------------------------
fn lit_true_vec() -> (r: Vec<u8>)
    ensures
        r@ == lit_true(),
{
    let v: Vec<u8> = vec![0x74, 0x72, 0x75, 0x65];
    proof {
        assert(v@ =~= lit_true());
    }
    v
}

fn lit_false_vec() -> (r: Vec<u8>)
    ensures
        r@ == lit_false(),
{
    let v: Vec<u8> = vec![0x66, 0x61, 0x6c, 0x73, 0x65];
    proof {
        assert(v@ =~= lit_false());
    }
    v
}

fn fv_name_vec() -> (r: Vec<u8>)
    ensures
        r@ == fv_name(),
{
    let v: Vec<u8> = vec![
        0x66,
        0x6f,
        0x72,
        0x6d,
        0x61,
        0x74,
        0x5f,
        0x76,
        0x65,
        0x72,
        0x73,
        0x69,
        0x6f,
        0x6e,
    ];
    proof {
        assert(v@ =~= fv_name());
    }
    v
}

/// Skip blanks from position `i` on.
fn skip_ws(v: &Vec<u8>, i: usize) -> (j: usize)
    requires
        i <= v@.len(),
    ensures
        i <= j <= v@.len(),
        v@.skip(j as int) == sp_ws(v@.skip(i as int)),
{
    let n = v.len();
    let mut j = i;
    while j < n && (v[j] == 0x20 || v[j] == 0x09 || v[j] == 0x0a || v[j] == 0x0d)
        invariant
            i <= j <= n,
            n == v@.len(),
            sp_ws(v@.skip(i as int)) == sp_ws(v@.skip(j as int)),
        decreases n - j,
    {
        proof {
            assert(v@.skip(j as int)[0] == v@[j as int]);
            lemma_skip_skip(v@, j as int, 1);
        }
        j = j + 1;
    }
    proof {
        if j < n {
            assert(v@.skip(j as int)[0] == v@[j as int]);
        }
        assert(sp_ws(v@.skip(j as int)) == v@.skip(j as int));
    }
    j
}

fn simple_escape(c: u8) -> (r: bool)
    ensures
        r == is_simple_escape(c),
{
    c == 0x22 || c == 0x5c || c == 0x2f || c == 0x62 || c == 0x66 || c == 0x6e || c == 0x72 || c
        == 0x74
}

fn hex_any(c: u8) -> (r: bool)
    ensures
        r == is_hex_any(c),
{
    (0x30 <= c && c <= 0x39) || (0x61 <= c && c <= 0x66) || (0x41 <= c && c <= 0x46)
}

/// Scan string content up to and including the closing quote, keeping the
/// raw bytes as written.
fn scan_string(v: &Vec<u8>, i: usize) -> (r: Option<(Vec<u8>, usize)>)
    requires
        i <= v@.len(),
    ensures
        match r {
            Some((s, j)) => i < j <= v@.len() && sp_scan_string(v@.skip(i as int)) == Some(
                (s@, v@.skip(j as int)),
            ),
            None => sp_scan_string(v@.skip(i as int)) is None,
        },
    decreases v@.len() - i,
{
    let ghost b = v@.skip(i as int);
    let n = v.len();
    if i >= n {
        return None;
    }
    let c = v[i];
    proof {
        assert(b[0] == v@[i as int]);
    }
    if c == 0x22 {
        let out: Vec<u8> = Vec::new();
        proof {
            lemma_skip_skip(v@, i as int, 1);
            assert(out@ =~= Seq::<u8>::empty());
        }
        return Some((out, i + 1));
    }
    if c == 0x5c {
        proof {
            if n - i >= 2 {
                assert(b[1] == v@[i + 1 as int]);
            }
        }
        if i + 1 < n && simple_escape(v[i + 1]) {
            let e = v[i + 1];
            match scan_string(v, i + 2) {
                Some((mut s, j)) => {
                    let ghost tail = s@;
                    s.insert(0, e);
                    s.insert(0, c);
                    proof {
                        lemma_skip_skip(v@, i as int, 2);
                        assert(s@ =~= seq![b[0], b[1]] + tail);
                    }
                    Some((s, j))
                },
                None => {
                    proof {
                        lemma_skip_skip(v@, i as int, 2);
                    }
                    None
                },
            }
        } else if n - i > 5 && v[i + 1] == 0x75 && hex_any(v[i + 2]) && hex_any(v[i + 3]) && hex_any(
            v[i + 4],
        ) && hex_any(v[i + 5]) {
            proof {
                assert(b.len() >= 6);
                assert(b[2] == v@[i + 2 as int]);
                assert(b[3] == v@[i + 3 as int]);
                assert(b[4] == v@[i + 4 as int]);
                assert(b[5] == v@[i + 5 as int]);
            }
            match scan_string(v, i + 6) {
                Some((mut s, j)) => {
                    let ghost tail = s@;
                    s.insert(0, v[i + 5]);
                    s.insert(0, v[i + 4]);
                    s.insert(0, v[i + 3]);
                    s.insert(0, v[i + 2]);
                    s.insert(0, v[i + 1]);
                    s.insert(0, c);
                    proof {
                        lemma_skip_skip(v@, i as int, 6);
                        assert(s@ =~= b.take(6) + tail);
                    }
                    Some((s, j))
                },
                None => {
                    proof {
                        lemma_skip_skip(v@, i as int, 6);
                    }
                    None
                },
            }
        } else {
            proof {
                if b.len() >= 6 {
                    assert(b[2] == v@[i + 2 as int]);
                    assert(b[3] == v@[i + 3 as int]);
                    assert(b[4] == v@[i + 4 as int]);
                    assert(b[5] == v@[i + 5 as int]);
                }
            }
            None
        }
    } else if c < 0x20 {
        None
    } else {
        match scan_string(v, i + 1) {
            Some((mut s, j)) => {
                let ghost tail = s@;
                s.insert(0, c);
                proof {
                    lemma_skip_skip(v@, i as int, 1);
                    assert(s@ =~= seq![b[0]] + tail);
                }
                Some((s, j))
            },
            None => {
                proof {
                    lemma_skip_skip(v@, i as int, 1);
                }
                None
            },
        }
    }
}

/// The length of the digit run at position `i`.
fn count_digits(v: &Vec<u8>, i: usize) -> (k: usize)
    requires
        i <= v@.len(),
    ensures
        i + k <= v@.len(),
        k as int == digit_run(v@.skip(i as int)),
{
    let ghost b = v@.skip(i as int);
    let n = v.len();
    let mut k: usize = 0;
    while i + k < n && 0x30 <= v[i + k] && v[i + k] <= 0x39
        invariant
            i + k <= n,
            n == v@.len(),
            b == v@.skip(i as int),
            forall|t: int| 0 <= t < k ==> is_digit(#[trigger] b[t]),
        decreases n - i - k,
    {
        proof {
            assert(b[k as int] == v@[i + k as int]);
        }
        k = k + 1;
    }
    proof {
        if i + k < n {
            assert(b[k as int] == v@[i + k as int]);
            assert(!is_digit(b[k as int]));
        }
        lemma_digit_run_exact(b, k as int);
    }
    k
}

/// Scan a JSON number at position `i`.
#[verifier::rlimit(100)]
fn scan_number(v: &Vec<u8>, i: usize) -> (r: Option<usize>)
    requires
        i <= v@.len(),
    ensures
        match r {
            Some(j) => i < j <= v@.len() && sp_scan_number(v@.skip(i as int)) == Some(
                v@.skip(j as int),
            ),
            None => sp_scan_number(v@.skip(i as int)) is None,
        },
{
    let ghost b = v@.skip(i as int);
    let n = v.len();
    proof {
        if i < n {
            assert(b[0] == v@[i as int]);
        }
    }
    let i1 = if i < n && v[i] == 0x2d {
        proof {
            lemma_skip_skip(v@, i as int, 1);
        }
        i + 1
    } else {
        i
    };
    let ghost b1 = v@.skip(i1 as int);
    proof {
        if i1 < n {
            assert(b1[0] == v@[i1 as int]);
        }
    }
    if i1 >= n || !(0x30 <= v[i1] && v[i1] <= 0x39) {
        return None;
    }
    let k = if v[i1] == 0x30 {
        1
    } else {
        count_digits(v, i1)
    };
    let i2 = i1 + k;
    proof {
        if v@[i1 as int] != 0x30 {
            lemma_digit_run_nonneg(b1.skip(1));
            assert(digit_run(b1) >= 1);
        }
        lemma_skip_skip(v@, i1 as int, k as int);
        if i2 < n {
            assert(v@.skip(i2 as int)[0] == v@[i2 as int]);
        }
    }
    let ghost b2 = v@.skip(i2 as int);
    let i3 = if i2 < n && v[i2] == 0x2e {
        proof {
            lemma_skip_skip(v@, i2 as int, 1);
        }
        let m = count_digits(v, i2 + 1);
        if m == 0 {
            return None;
        }
        proof {
            lemma_skip_skip(v@, i2 as int, 1 + m as int);
        }
        i2 + 1 + m
    } else {
        i2
    };
    let ghost b3 = v@.skip(i3 as int);
    proof {
        if i3 < n {
            assert(b3[0] == v@[i3 as int]);
        }
    }
    if i3 < n && (v[i3] == 0x65 || v[i3] == 0x45) {
        proof {
            if i3 + 1 < n {
                assert(b3[1] == v@[i3 + 1 as int]);
            }
        }
        let i4 = if i3 + 1 < n && (v[i3 + 1] == 0x2b || v[i3 + 1] == 0x2d) {
            proof {
                lemma_skip_skip(v@, i3 as int, 2);
            }
            i3 + 2
        } else {
            proof {
                lemma_skip_skip(v@, i3 as int, 1);
            }
            i3 + 1
        };
        let m2 = count_digits(v, i4);
        if m2 == 0 {
            return None;
        }
        proof {
            lemma_skip_skip(v@, i4 as int, m2 as int);
        }
        Some(i4 + m2)
    } else {
        Some(i3)
    }
}

/// Scan one JSON value at position `i` (blanks already skipped).
fn scan_value(v: &Vec<u8>, i: usize) -> (r: Option<usize>)
    requires
        i <= v@.len(),
    ensures
        match r {
            Some(j) => i < j <= v@.len() && sp_scan_value(v@.skip(i as int)) == Some(
                v@.skip(j as int),
            ),
            None => sp_scan_value(v@.skip(i as int)) is None,
        },
    decreases v@.len() - i, 0int,
{
    let ghost b = v@.skip(i as int);
    let n = v.len();
    if i >= n {
        return None;
    }
    let c = v[i];
    proof {
        assert(b[0] == v@[i as int]);
    }
    if c == 0x22 {
        proof {
            lemma_skip_skip(v@, i as int, 1);
        }
        match scan_string(v, i + 1) {
            Some((_, j)) => Some(j),
            None => None,
        }
    } else if c == 0x5b {
        proof {
            lemma_skip_skip(v@, i as int, 1);
        }
        let i1 = skip_ws(v, i + 1);
        let ghost b1 = sp_ws(b.skip(1));
        proof {
            assert(b1 == v@.skip(i1 as int));
            if i1 < n {
                assert(b1[0] == v@[i1 as int]);
            }
            assert(b1.len() < b.len());
        }
        if i1 < n && v[i1] == 0x5d {
            proof {
                lemma_skip_skip(v@, i1 as int, 1);
            }
            Some(i1 + 1)
        } else {
            scan_items(v, i1)
        }
    } else if c == 0x7b {
        proof {
            lemma_skip_skip(v@, i as int, 1);
        }
        let i1 = skip_ws(v, i + 1);
        let ghost b1 = sp_ws(b.skip(1));
        proof {
            assert(b1 == v@.skip(i1 as int));
            if i1 < n {
                assert(b1[0] == v@[i1 as int]);
            }
            assert(b1.len() < b.len());
        }
        if i1 < n && v[i1] == 0x7d {
            proof {
                lemma_skip_skip(v@, i1 as int, 1);
            }
            Some(i1 + 1)
        } else {
            scan_members(v, i1)
        }
    } else if c == 0x74 {
        let l = lit_true_vec();
        parse_lit(v, i, &l)
    } else if c == 0x66 {
        let l = lit_false_vec();
        parse_lit(v, i, &l)
    } else if c == 0x6e {
        let l = lit_null_vec();
        parse_lit(v, i, &l)
    } else if c == 0x2d || (0x30 <= c && c <= 0x39) {
        scan_number(v, i)
    } else {
        None
    }
}

/// Scan the members of a non-empty array, at the first value.
fn scan_items(v: &Vec<u8>, i: usize) -> (r: Option<usize>)
    requires
        i <= v@.len(),
    ensures
        match r {
            Some(j) => i < j <= v@.len() && sp_scan_items(v@.skip(i as int)) == Some(
                v@.skip(j as int),
            ),
            None => sp_scan_items(v@.skip(i as int)) is None,
        },
    decreases v@.len() - i, 1int,
{
    let ghost b = v@.skip(i as int);
    let n = v.len();
    match scan_value(v, i) {
        None => None,
        Some(j) => {
            let j1 = skip_ws(v, j);
            let ghost r1 = sp_ws(v@.skip(j as int));
            proof {
                assert(r1 == v@.skip(j1 as int));
                if j1 < n {
                    assert(r1[0] == v@[j1 as int]);
                }
            }
            if j1 < n && v[j1] == 0x2c {
                proof {
                    lemma_skip_skip(v@, j1 as int, 1);
                }
                let j2 = skip_ws(v, j1 + 1);
                proof {
                    assert(sp_ws(r1.skip(1)) == v@.skip(j2 as int));
                    assert(v@.skip(j2 as int).len() < b.len());
                }
                scan_items(v, j2)
            } else if j1 < n && v[j1] == 0x5d {
                proof {
                    lemma_skip_skip(v@, j1 as int, 1);
                }
                Some(j1 + 1)
            } else {
                None
            }
        },
    }
}

/// Scan the members of a non-empty object, at the first key.
fn scan_members(v: &Vec<u8>, i: usize) -> (r: Option<usize>)
    requires
        i <= v@.len(),
    ensures
        match r {
            Some(j) => i < j <= v@.len() && sp_scan_members(v@.skip(i as int)) == Some(
                v@.skip(j as int),
            ),
            None => sp_scan_members(v@.skip(i as int)) is None,
        },
    decreases v@.len() - i, 1int,
{
    let ghost b = v@.skip(i as int);
    let n = v.len();
    if i >= n {
        return None;
    }
    proof {
        assert(b[0] == v@[i as int]);
    }
    if v[i] != 0x22 {
        return None;
    }
    proof {
        lemma_skip_skip(v@, i as int, 1);
    }
    match scan_string(v, i + 1) {
        None => None,
        Some((_, j)) => {
            let j1 = skip_ws(v, j);
            let ghost r1 = sp_ws(v@.skip(j as int));
            proof {
                assert(r1 == v@.skip(j1 as int));
                if j1 < n {
                    assert(r1[0] == v@[j1 as int]);
                }
            }
            if j1 < n && v[j1] == 0x3a {
                proof {
                    lemma_skip_skip(v@, j1 as int, 1);
                }
                let j2 = skip_ws(v, j1 + 1);
                proof {
                    assert(sp_ws(r1.skip(1)) == v@.skip(j2 as int));
                    assert(v@.skip(j2 as int).len() < b.len());
                }
                match scan_value(v, j2) {
                    None => None,
                    Some(j3) => {
                        let j4 = skip_ws(v, j3);
                        let ghost r4 = sp_ws(v@.skip(j3 as int));
                        proof {
                            assert(r4 == v@.skip(j4 as int));
                            if j4 < n {
                                assert(r4[0] == v@[j4 as int]);
                            }
                        }
                        if j4 < n && v[j4] == 0x2c {
                            proof {
                                lemma_skip_skip(v@, j4 as int, 1);
                            }
                            let j5 = skip_ws(v, j4 + 1);
                            proof {
                                assert(sp_ws(r4.skip(1)) == v@.skip(j5 as int));
                                assert(v@.skip(j5 as int).len() < b.len());
                            }
                            scan_members(v, j5)
                        } else if j4 < n && v[j4] == 0x7d {
                            proof {
                                lemma_skip_skip(v@, j4 as int, 1);
                            }
                            Some(j4 + 1)
                        } else {
                            None
                        }
                    },
                }
            } else {
                None
            }
        },
    }
}

/// Walk the members of the top-level object for the `format_version` value.
fn find_version(v: &Vec<u8>, i: usize) -> (r: Option<u64>)
    requires
        i <= v@.len(),
    ensures
        r == sp_find_version(v@.skip(i as int)),
    decreases v@.len() - i,
{
    let ghost b = v@.skip(i as int);
    let n = v.len();
    if i >= n {
        return None;
    }
    proof {
        assert(b[0] == v@[i as int]);
    }
    if v[i] != 0x22 {
        return None;
    }
    proof {
        lemma_skip_skip(v@, i as int, 1);
    }
    match scan_string(v, i + 1) {
        None => None,
        Some((key, j)) => {
            let j1 = skip_ws(v, j);
            let ghost r1 = sp_ws(v@.skip(j as int));
            proof {
                assert(r1 == v@.skip(j1 as int));
                if j1 < n {
                    assert(r1[0] == v@[j1 as int]);
                }
            }
            if !(j1 < n && v[j1] == 0x3a) {
                return None;
            }
            proof {
                lemma_skip_skip(v@, j1 as int, 1);
            }
            let j2 = skip_ws(v, j1 + 1);
            proof {
                assert(sp_ws(r1.skip(1)) == v@.skip(j2 as int));
            }
            let fv = fv_name_vec();
            if crate::request::bytes_eq(&key, &fv) {
                match parse_u64(v, j2) {
                    None => None,
                    Some((x, j3)) => {
                        let j4 = skip_ws(v, j3);
                        let ghost r4 = sp_ws(v@.skip(j3 as int));
                        proof {
                            assert(r4 == v@.skip(j4 as int));
                            if j4 < n {
                                assert(r4[0] == v@[j4 as int]);
                            }
                        }
                        if j4 < n && (v[j4] == 0x2c || v[j4] == 0x7d) {
                            Some(x)
                        } else {
                            None
                        }
                    },
                }
            } else {
                proof {
                    assert(v@.skip(j2 as int).len() < b.len());
                }
                match scan_value(v, j2) {
                    None => None,
                    Some(j3) => {
                        let j4 = skip_ws(v, j3);
                        let ghost r4 = sp_ws(v@.skip(j3 as int));
                        proof {
                            assert(r4 == v@.skip(j4 as int));
                            if j4 < n {
                                assert(r4[0] == v@[j4 as int]);
                            }
                        }
                        if j4 < n && v[j4] == 0x2c {
                            proof {
                                lemma_skip_skip(v@, j4 as int, 1);
                            }
                            let j5 = skip_ws(v, j4 + 1);
                            proof {
                                assert(sp_ws(r4.skip(1)) == v@.skip(j5 as int));
                                assert(v@.skip(j5 as int).len() < b.len());
                            }
                            find_version(v, j5)
                        } else {
                            None
                        }
                    },
                }
            }
        },
    }
}

/// Whether the bytes are one well-formed JSON value.
fn is_json(v: &Vec<u8>) -> (r: bool)
    ensures
        r == spec_is_json(v@),
{
    proof {
        assert(v@.skip(0) =~= v@);
    }
    let i0 = skip_ws(v, 0);
    match scan_value(v, i0) {
        None => false,
        Some(j) => {
            let j1 = skip_ws(v, j);
            proof {
                assert(v@.skip(j1 as int).len() == v@.len() - j1);
            }
            j1 == v.len()
        },
    }
}

/// The format version a lenient reading of the bytes finds.
fn version_of(v: &Vec<u8>) -> (r: Option<u64>)
    ensures
        r == spec_version_of(v@),
{
    proof {
        assert(v@.skip(0) =~= v@);
    }
    let i0 = skip_ws(v, 0);
    let ghost b1 = sp_ws(v@);
    proof {
        assert(b1 == v@.skip(i0 as int));
        if i0 < v@.len() {
            assert(b1[0] == v@[i0 as int]);
        }
    }
    if i0 < v.len() && v[i0] == 0x7b {
        proof {
            lemma_skip_skip(v@, i0 as int, 1);
        }
        let i1 = skip_ws(v, i0 + 1);
        proof {
            assert(sp_ws(b1.skip(1)) == v@.skip(i1 as int));
        }
        find_version(v, i1)
    } else {
        None
    }
}

/// Judge stored bytes that are not in the canonical layout.
fn probe_fallback(v: &Vec<u8>) -> (r: DecodeOutcome)
    ensures
        match spec_probe_fallback(v@) {
            DocOutcome::Malformed => r is Malformed,
            DocOutcome::VersionMismatch => r is VersionMismatch,
            DocOutcome::Valid(_) => false,
        },
{
    if !is_json(v) {
        DecodeOutcome::Malformed
    } else {
        match version_of(v) {
            Some(x) => if x == FORMAT_VERSION as u64 {
                DecodeOutcome::Malformed
            } else {
                DecodeOutcome::VersionMismatch
            },
            None => DecodeOutcome::VersionMismatch,
        }
    }
}

/// Read one stored document, exactly as the document grammar defines it.
pub fn decode_doc(v: &Vec<u8>) -> (r: DecodeOutcome)
    ensures
        match spec_decode_doc(v@) {
            DocOutcome::Valid(d) => r matches DecodeOutcome::Valid(doc) && doc@ == d,
            DocOutcome::VersionMismatch => r is VersionMismatch,
            DocOutcome::Malformed => r is Malformed,
        },
{
    let ghost b = v@;
    proof {
        assert(v@.skip(0) =~= v@);
    }
    let lf = lit_fv_vec();
    let b1 = match parse_lit(v, 0, &lf) {
        None => {
            return probe_fallback(v);
        },
        Some(j) => j,
    };
    let (ver, b2) = match parse_u64(v, b1) {
        None => {
            return probe_fallback(v);
        },
        Some(x) => x,
    };
    if ver != FORMAT_VERSION as u64 {
        return DecodeOutcome::VersionMismatch;
    }
    match decode_doc_rest(v, b2) {
        Some(doc) => DecodeOutcome::Valid(doc),
        None => DecodeOutcome::Malformed,
    }
}

/// Turn a parsed document back into an entry by decoding the base64 body.
/// On any document the writer produced, this succeeds and returns the entry
/// whose response body the base64 text stands for.
pub fn doc_to_entry(doc: StoredDoc) -> (r: Option<StoredEntry>)
    ensures
        r matches Some(e) ==> entry_matches_doc(e.request@, e.response@, e.format_version, doc@),
        (exists|bs: Seq<u8>| doc@.response.body_b64 == #[trigger] base64_of(bs)) ==> r is Some,
{
    match base64_decode(doc.response.body_b64.as_str()) {
        None => None,
        Some(body) => Some(
            StoredEntry {
                request: doc.request,
                response: Response {
                    url: doc.response.url,
                    status: doc.response.status,
                    headers: doc.response.headers,
                    body,
                },
                format_version: doc.version,
            },
        ),
    }
}

} // verus!

