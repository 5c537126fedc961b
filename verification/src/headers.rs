use vstd::prelude::*;
use vstd::utf8::{encode_utf8, encode_utf8_decode_utf8, encode_scalar, char_is_scalar, is_scalar};
use vstd::string::StrSliceExecFns;

verus! {

/// One header entry at the mathematical level: a name and a value.
pub type HeaderPair = (Seq<char>, Seq<char>);

/// Strict lexicographic order on byte sequences.
pub open spec fn bytes_lt(a: Seq<u8>, b: Seq<u8>) -> bool
    decreases a.len(),
{
    if b.len() == 0 {
        false
    } else if a.len() == 0 {
        true
    } else if a[0] < b[0] {
        true
    } else if a[0] > b[0] {
        false
    } else {
        bytes_lt(a.skip(1), b.skip(1))
    }
}

/// The canonical order of header names: the lexicographic order of their
/// UTF-8 encodings (the order a string-keyed ordered map uses).
pub open spec fn name_lt(a: Seq<char>, b: Seq<char>) -> bool {
    bytes_lt(encode_utf8(a), encode_utf8(b))
}

/// ASCII case folding of one character: uppercase ASCII letters become
/// lowercase, everything else stands.  Header names are case-insensitive,
/// so the canonical map folds them on insertion.
pub open spec fn fold_char(c: char) -> char {
    if 0x41 <= c as u32 <= 0x5a {
        ((c as u32) + 0x20) as char
    } else {
        c
    }
}

/// The canonical (folded) form of a header name.
pub open spec fn fold_name(s: Seq<char>) -> Seq<char> {
    Seq::new(s.len(), |i: int| fold_char(s[i]))
}

/// ASCII case folding of one byte.
pub open spec fn fold_byte(b: u8) -> u8 {
    if 0x41 <= b <= 0x5a {
        (b + 0x20) as u8
    } else {
        b
    }
}

pub open spec fn fold_bytes(s: Seq<u8>) -> Seq<u8> {
    Seq::new(s.len(), |i: int| fold_byte(s[i]))
}

/// Folding the UTF-8 bytes of one character is encoding its folded form:
/// an ASCII letter is one byte in the letter range, and every byte of a
/// multi-byte encoding has its high bit set, outside that range.
proof fn lemma_fold_scalar(c: char)
    ensures
        fold_bytes(encode_scalar(c as u32)) == encode_scalar(fold_char(c) as u32),
{
    char_is_scalar(c);
    let v = c as u32;
    if 0x41 <= v <= 0x5a {
        let f = fold_char(c);
        let w: u32 = (v + 0x20) as u32;
        assert(f as u32 == w);
        assert(encode_scalar(v) =~= seq![(v & 0x7F) as u8]);
        assert((v & 0x7F) as u8 == v as u8) by (bit_vector)
            requires
                v <= 0x7F,
        ;
        assert((w & 0x7F) as u8 == (v as u8 + 0x20) as u8) by (bit_vector)
            requires
                0x41 <= v <= 0x5a && w == v + 0x20,
        ;
        assert(fold_bytes(encode_scalar(v)) =~= seq![fold_byte(v as u8)]);
        assert(encode_scalar(f as u32) =~= seq![(w & 0x7F) as u8]);
    } else if v <= 0x7F {
        assert(encode_scalar(v) =~= seq![(v & 0x7F) as u8]);
        assert((v & 0x7F) as u8 == v as u8) by (bit_vector)
            requires
                v <= 0x7F,
        ;
        assert(!(0x41 <= v as u8 <= 0x5a));
        assert(fold_bytes(encode_scalar(v)) =~= encode_scalar(v));
    } else {
        assert(fold_char(c) == c);
        assert(forall|i: int|
            0 <= i < encode_scalar(v).len() ==> (#[trigger] encode_scalar(v)[i]) >= 0x80) by {
            lemma_encode_scalar_high(v);
        }
        assert(fold_bytes(encode_scalar(v)) =~= encode_scalar(v));
    }
}

/// Every byte of a multi-byte UTF-8 encoding has its high bit set.
proof fn lemma_encode_scalar_high(v: u32)
    requires
        is_scalar(v),
        v > 0x7F,
    ensures
        forall|i: int| 0 <= i < encode_scalar(v).len() ==> (#[trigger] encode_scalar(v)[i]) >= 0x80,
{
    assert(0xC0 | ((v >> 6) & 0x1F) as u8 >= 0x80) by (bit_vector);
    assert(0xE0 | ((v >> 12) & 0x0F) as u8 >= 0x80) by (bit_vector);
    assert(0xF0 | ((v >> 18) & 0x7) as u8 >= 0x80) by (bit_vector);
    assert(0x80 | (v & 0x3F) as u8 >= 0x80) by (bit_vector);
    assert(0x80 | ((v >> 6) & 0x3F) as u8 >= 0x80) by (bit_vector);
    assert(0x80 | ((v >> 12) & 0x3F) as u8 >= 0x80) by (bit_vector);
}

proof fn lemma_fold_bytes_concat(a: Seq<u8>, b: Seq<u8>)
    ensures
        fold_bytes(a + b) == fold_bytes(a) + fold_bytes(b),
{
    assert(fold_bytes(a + b) =~= fold_bytes(a) + fold_bytes(b));
}

/// Folding the UTF-8 bytes of a string is encoding its folded name.
pub proof fn lemma_fold_utf8(s: Seq<char>)
    ensures
        fold_bytes(encode_utf8(s)) == encode_utf8(fold_name(s)),
    decreases s.len(),
{
    if s.len() == 0 {
        assert(fold_name(s) =~= Seq::<char>::empty());
        assert(fold_bytes(encode_utf8(s)) =~= encode_utf8(fold_name(s)));
    } else {
        lemma_fold_scalar(s[0]);
        lemma_fold_bytes_concat(encode_scalar(s[0] as u32), encode_utf8(s.drop_first()));
        lemma_fold_utf8(s.drop_first());
        assert(fold_name(s).len() > 0);
        assert(fold_name(s)[0] == fold_char(s[0]));
        assert(fold_name(s).drop_first() =~= fold_name(s.drop_first()));
        assert(encode_utf8(fold_name(s)) == encode_scalar(fold_name(s)[0] as u32) + encode_utf8(
            fold_name(s).drop_first(),
        ));
    }
}

/// The lowercase form of a header name.
fn fold_ascii(name: &str) -> (r: String)
    ensures
        r@ == fold_name(name@),
{
    let b = name.as_bytes_vec();
    let n = b.len();
    let mut out: Vec<u8> = Vec::new();
    let mut i: usize = 0;
    while i < n
        invariant
            i <= n,
            n == b@.len(),
            out@ == fold_bytes(b@.take(i as int)),
        decreases n - i,
    {
        let c = b[i];
        if 0x41 <= c && c <= 0x5a {
            out.push(c + 0x20);
        } else {
            out.push(c);
        }
        proof {
            assert(out@ =~= fold_bytes(b@.take(i as int + 1)));
        }
        i = i + 1;
    }
    proof {
        assert(b@.take(n as int) =~= b@);
        lemma_fold_utf8(name@);
        vstd::utf8::encode_utf8_valid_utf8(fold_name(name@));
        vstd::utf8::encode_utf8_decode_utf8(fold_name(name@));
        assert(out@ == encode_utf8(fold_name(name@)));
    }
    match crate::codec::string_from_utf8(&out) {
        Some(s) => s,
        None => unreached(),
    }
}

/// A sequence of header entries is canonical when the names are strictly
/// ascending; in particular every name occurs at most once.
pub open spec fn hdrs_sorted(h: Seq<HeaderPair>) -> bool {
    forall|i: int, j: int| 0 <= i < j < h.len() ==> #[trigger] name_lt(h[i].0, h[j].0)
}

/// Insertion into a canonical entry sequence: an entry with the same name is
/// replaced, otherwise the new entry is placed at its ordered position.
pub open spec fn spec_insert(h: Seq<HeaderPair>, name: Seq<char>, value: Seq<char>) -> Seq<
    HeaderPair,
>
    decreases h.len(),
{
    if h.len() == 0 {
        seq![(name, value)]
    } else if name_lt(name, h[0].0) {
        seq![(name, value)] + h
    } else if name == h[0].0 {
        seq![(name, value)] + h.skip(1)
    } else {
        seq![h[0]] + spec_insert(h.skip(1), name, value)
    }
}

pub proof fn lemma_bytes_lt_trichotomy(a: Seq<u8>, b: Seq<u8>)
    ensures
        bytes_lt(a, b) || bytes_lt(b, a) || a == b,
        !(bytes_lt(a, b) && bytes_lt(b, a)),
        bytes_lt(a, b) ==> a != b,
        bytes_lt(b, a) ==> a != b,
    decreases a.len(),
{
    if a.len() == 0 && b.len() == 0 {
        assert(a =~= b);
    } else if a.len() > 0 && b.len() > 0 && a[0] == b[0] {
        lemma_bytes_lt_trichotomy(a.skip(1), b.skip(1));
        if a.skip(1) == b.skip(1) {
            assert forall|i: int| 0 <= i < a.len() implies a[i] == b[i] by {
                if i > 0 {
                    assert(a[i] == a.skip(1)[i - 1]);
                    assert(b[i] == b.skip(1)[i - 1]);
                }
            }
            assert(a =~= b);
        }
        if a == b {
            assert(a.skip(1) =~= b.skip(1));
        }
    } else if a.len() > 0 && b.len() > 0 {
        assert(a[0] != b[0]);
        assert(a != b);
    }
}

pub proof fn lemma_bytes_lt_trans(a: Seq<u8>, b: Seq<u8>, c: Seq<u8>)
    requires
        bytes_lt(a, b),
        bytes_lt(b, c),
    ensures
        bytes_lt(a, c),
    decreases a.len(),
{
    if a.len() == 0 {
        assert(b.len() > 0);
        assert(c.len() > 0);
    } else {
        assert(b.len() > 0);
        assert(c.len() > 0);
        if a[0] == b[0] && b[0] == c[0] {
            lemma_bytes_lt_trans(a.skip(1), b.skip(1), c.skip(1));
        }
    }
}

/// If two sequences agree up to position `i` and the first is either
/// exhausted there or has the smaller byte, it is lexicographically smaller.
pub proof fn lemma_bytes_lt_prefix(a: Seq<u8>, b: Seq<u8>, i: int)
    requires
        0 <= i <= a.len(),
        i <= b.len(),
        a.take(i) == b.take(i),
        (i < a.len() && i < b.len() && a[i] < b[i]) || (i == a.len() && i < b.len()),
    ensures
        bytes_lt(a, b),
    decreases i,
{
    if i == 0 {
    } else {
        assert(a.take(i)[0] == a[0]);
        assert(b.take(i)[0] == b[0]);
        assert(a[0] == b[0]);
        assert(a.skip(1).take(i - 1) =~= a.take(i).skip(1));
        assert(b.skip(1).take(i - 1) =~= b.take(i).skip(1));
        assert(a.skip(1).take(i - 1) == b.skip(1).take(i - 1));
        if i < a.len() {
            assert(a.skip(1)[i - 1] == a[i]);
            assert(b.skip(1)[i - 1] == b[i]);
        }
        lemma_bytes_lt_prefix(a.skip(1), b.skip(1), i - 1);
    }
}

/// UTF-8 encoding is injective, so equal encodings mean equal names.
pub proof fn lemma_name_eq(a: Seq<char>, b: Seq<char>)
    requires
        encode_utf8(a) == encode_utf8(b),
    ensures
        a == b,
{
    encode_utf8_decode_utf8(a);
    encode_utf8_decode_utf8(b);
}

pub proof fn lemma_name_trichotomy(a: Seq<char>, b: Seq<char>)
    ensures
        name_lt(a, b) || name_lt(b, a) || a == b,
        !(name_lt(a, b) && name_lt(b, a)),
        name_lt(a, b) ==> a != b,
        name_lt(b, a) ==> a != b,
{
    lemma_bytes_lt_trichotomy(encode_utf8(a), encode_utf8(b));
    if encode_utf8(a) == encode_utf8(b) {
        lemma_name_eq(a, b);
    }
}

pub proof fn lemma_name_lt_trans(a: Seq<char>, b: Seq<char>, c: Seq<char>)
    requires
        name_lt(a, b),
        name_lt(b, c),
    ensures
        name_lt(a, c),
{
    lemma_bytes_lt_trans(encode_utf8(a), encode_utf8(b), encode_utf8(c));
}

/// The tail of a canonical sequence is canonical.
pub proof fn lemma_sorted_tail(h: Seq<HeaderPair>)
    requires
        hdrs_sorted(h),
        h.len() > 0,
    ensures
        hdrs_sorted(h.skip(1)),
{
    assert forall|i: int, j: int| 0 <= i < j < h.skip(1).len() implies #[trigger] name_lt(
        h.skip(1)[i].0,
        h.skip(1)[j].0,
    ) by {
        assert(h.skip(1)[i] == h[i + 1]);
        assert(h.skip(1)[j] == h[j + 1]);
        assert(name_lt(h[i + 1].0, h[j + 1].0));
    }
}

/// Every name in `spec_insert(h, n, v)` is either `n` or a name of `h`.
pub proof fn lemma_spec_insert_names(h: Seq<HeaderPair>, n: Seq<char>, v: Seq<char>)
    ensures
        forall|k: int|
            0 <= k < spec_insert(h, n, v).len() ==> (#[trigger] spec_insert(h, n, v)[k].0 == n
                || exists|j: int| 0 <= j < h.len() && h[j].0 == spec_insert(h, n, v)[k].0),
    decreases h.len(),
{
    if h.len() == 0 {
    } else if name_lt(n, h[0].0) {
        let res = spec_insert(h, n, v);
        assert forall|k: int| 0 <= k < res.len() implies (#[trigger] res[k].0 == n || exists|j: int|
            0 <= j < h.len() && h[j].0 == res[k].0) by {
            if k > 0 {
                assert(res[k] == h[k - 1]);
            }
        }
    } else if n == h[0].0 {
        let res = spec_insert(h, n, v);
        assert forall|k: int| 0 <= k < res.len() implies (#[trigger] res[k].0 == n || exists|j: int|
            0 <= j < h.len() && h[j].0 == res[k].0) by {
            if k > 0 {
                assert(res[k] == h.skip(1)[k - 1]);
                assert(h.skip(1)[k - 1] == h[k]);
            }
        }
    } else {
        lemma_spec_insert_names(h.skip(1), n, v);
        let res = spec_insert(h, n, v);
        let sub = spec_insert(h.skip(1), n, v);
        assert forall|k: int| 0 <= k < res.len() implies (#[trigger] res[k].0 == n || exists|j: int|
            0 <= j < h.len() && h[j].0 == res[k].0) by {
            if k == 0 {
                assert(res[0] == h[0]);
                assert(h[0].0 == res[0].0);
            } else {
                assert(res[k] == sub[k - 1]);
                if sub[k - 1].0 != n {
                    let j = choose|j: int|
                        0 <= j < h.skip(1).len() && h.skip(1)[j].0 == sub[k - 1].0;
                    assert(h.skip(1)[j] == h[j + 1]);
                    assert(h[j + 1].0 == res[k].0);
                }
            }
        }
    }
}

/// Insertion keeps the entries canonical.
pub proof fn lemma_spec_insert_sorted(h: Seq<HeaderPair>, n: Seq<char>, v: Seq<char>)
    requires
        hdrs_sorted(h),
    ensures
        hdrs_sorted(spec_insert(h, n, v)),
    decreases h.len(),
{
    if h.len() == 0 {
    } else if name_lt(n, h[0].0) {
        let res = seq![(n, v)] + h;
        assert forall|i: int, j: int| 0 <= i < j < res.len() implies #[trigger] name_lt(
            res[i].0,
            res[j].0,
        ) by {
            if i == 0 {
                assert(res[j] == h[j - 1]);
                if j == 1 {
                } else {
                    assert(name_lt(h[0].0, h[j - 1].0));
                    lemma_name_lt_trans(n, h[0].0, h[j - 1].0);
                }
            } else {
                assert(res[i] == h[i - 1]);
                assert(res[j] == h[j - 1]);
                assert(name_lt(h[i - 1].0, h[j - 1].0));
            }
        }
    } else if n == h[0].0 {
        let res = seq![(n, v)] + h.skip(1);
        assert forall|i: int, j: int| 0 <= i < j < res.len() implies #[trigger] name_lt(
            res[i].0,
            res[j].0,
        ) by {
            if i == 0 {
                assert(res[j] == h.skip(1)[j - 1]);
                assert(h.skip(1)[j - 1] == h[j]);
                assert(name_lt(h[0].0, h[j].0));
            } else {
                assert(res[i] == h[i]);
                assert(res[j] == h[j]);
                assert(name_lt(h[i].0, h[j].0));
            }
        }
    } else {
        lemma_name_trichotomy(n, h[0].0);
        assert(name_lt(h[0].0, n));
        lemma_sorted_tail(h);
        lemma_spec_insert_sorted(h.skip(1), n, v);
        lemma_spec_insert_names(h.skip(1), n, v);
        let sub = spec_insert(h.skip(1), n, v);
        let res = seq![h[0]] + sub;
        assert forall|i: int, j: int| 0 <= i < j < res.len() implies #[trigger] name_lt(
            res[i].0,
            res[j].0,
        ) by {
            if i == 0 {
                assert(res[j] == sub[j - 1]);
                if sub[j - 1].0 == n {
                    assert(name_lt(h[0].0, n));
                } else {
                    let m = choose|m: int|
                        0 <= m < h.skip(1).len() && h.skip(1)[m].0 == sub[j - 1].0;
                    assert(h.skip(1)[m] == h[m + 1]);
                    assert(name_lt(h[0].0, h[m + 1].0));
                }
            } else {
                assert(res[i] == sub[i - 1]);
                assert(res[j] == sub[j - 1]);
                assert(name_lt(sub[i - 1].0, sub[j - 1].0));
            }
        }
    }
}

/// Where an insertion lands: if the first `i` names are smaller than `n`,
/// the new entry stands at position `i`, replacing an entry of the same name.
pub proof fn lemma_spec_insert_at(h: Seq<HeaderPair>, n: Seq<char>, v: Seq<char>, i: int)
    requires
        0 <= i <= h.len(),
        forall|k: int| 0 <= k < i ==> #[trigger] name_lt(h[k].0, n),
        i < h.len() ==> (h[i].0 == n || name_lt(n, h[i].0)),
    ensures
        i < h.len() && h[i].0 == n ==> spec_insert(h, n, v) == h.take(i) + seq![(n, v)] + h.skip(
            i + 1,
        ),
        !(i < h.len() && h[i].0 == n) ==> spec_insert(h, n, v) == h.take(i) + seq![(n, v)]
            + h.skip(i),
    decreases i,
{
    if i == 0 {
        if h.len() == 0 {
            assert(spec_insert(h, n, v) =~= h.take(0) + seq![(n, v)] + h.skip(0));
        } else if h[0].0 == n {
            lemma_name_trichotomy(n, h[0].0);
            assert(!name_lt(n, h[0].0));
            assert(spec_insert(h, n, v) == seq![(n, v)] + h.skip(1));
            assert(spec_insert(h, n, v) =~= h.take(0) + seq![(n, v)] + h.skip(1));
        } else {
            assert(name_lt(n, h[0].0));
            assert(spec_insert(h, n, v) == seq![(n, v)] + h);
            assert(spec_insert(h, n, v) =~= h.take(0) + seq![(n, v)] + h.skip(0));
        }
    } else {
        assert(name_lt(h[0].0, n));
        lemma_name_trichotomy(n, h[0].0);
        assert(!name_lt(n, h[0].0));
        assert(n != h[0].0);
        let t = h.skip(1);
        assert forall|k: int| 0 <= k < i - 1 implies #[trigger] name_lt(t[k].0, n) by {
            assert(t[k] == h[k + 1]);
            assert(name_lt(h[k + 1].0, n));
        }
        if i - 1 < t.len() {
            assert(t[i - 1] == h[i]);
        }
        lemma_spec_insert_at(t, n, v, i - 1);
        assert(spec_insert(h, n, v) == seq![h[0]] + spec_insert(t, n, v));
        if i < h.len() && h[i].0 == n {
            assert(t.skip(i) =~= h.skip(i + 1));
            assert(seq![h[0]] + (t.take(i - 1) + seq![(n, v)] + t.skip(i)) =~= h.take(i) + seq![
                (n, v),
            ] + h.skip(i + 1));
        } else {
            assert(seq![h[0]] + (t.take(i - 1) + seq![(n, v)] + t.skip(i - 1)) =~= h.take(i)
                + seq![(n, v)] + h.skip(i));
        }
    }
}

/// A canonical request header map: entries are kept sorted by name, with at
/// most one entry per name, so two maps built by inserting the same headers
/// in any order are equal values.
#[derive(Debug, PartialEq, Eq)]
pub struct Headers {
    entries: Vec<(String, String)>,
}

impl Clone for Headers {
    /// An equal map: same entries in the same order.
    fn clone(&self) -> (r: Self)
        ensures
            r@ == self@,
    {
        let mut entries: Vec<(String, String)> = Vec::new();
        let n = self.entries.len();
        let mut i: usize = 0;
        while i < n
            invariant
                i <= n,
                n == self.entries@.len(),
                entries@.len() == i,
                forall|k: int|
                    0 <= k < i ==> (#[trigger] entries@[k]).0@ == self.entries@[k].0@
                        && entries@[k].1@ == self.entries@[k].1@,
            decreases n - i,
        {
            entries.push((self.entries[i].0.clone(), self.entries[i].1.clone()));
            i = i + 1;
        }
        let r = Headers { entries };
        proof {
            assert(r@ =~= self@);
        }
        r
    }
}

/// The mathematical content of a list of owned name/value pairs.
pub open spec fn pairs_view(v: Seq<(String, String)>) -> Seq<HeaderPair> {
    Seq::new(v.len(), |i: int| (v[i].0@, v[i].1@))
}

impl View for Headers {
    type V = Seq<HeaderPair>;

    closed spec fn view(&self) -> Seq<HeaderPair> {
        pairs_view(self.entries@)
    }
}

/// Three-way comparison of byte vectors under `bytes_lt`:
/// `-1` for smaller, `0` for equal, `1` for greater.
fn byte_cmp(a: &Vec<u8>, b: &Vec<u8>) -> (r: i8)
    ensures
        r == -1i8 || r == 0i8 || r == 1i8,
        (r == -1i8) <==> bytes_lt(a@, b@),
        (r == 0i8) <==> a@ == b@,
        (r == 1i8) <==> bytes_lt(b@, a@),
{
    let alen = a.len();
    let blen = b.len();
    let mut i: usize = 0;
    loop
        invariant
            i <= alen,
            i <= blen,
            alen == a@.len(),
            blen == b@.len(),
            a@.take(i as int) == b@.take(i as int),
        ensures
            i <= alen,
            i <= blen,
            i >= alen || i >= blen,
            alen == a@.len(),
            blen == b@.len(),
            a@.take(i as int) == b@.take(i as int),
        decreases alen - i,
    {
        if i >= alen || i >= blen {
            break;
        }
        let x = a[i];
        let y = b[i];
        if x < y {
            proof {
                lemma_bytes_lt_prefix(a@, b@, i as int);
                lemma_bytes_lt_trichotomy(a@, b@);
            }
            return -1;
        }
        if y < x {
            proof {
                lemma_bytes_lt_prefix(b@, a@, i as int);
                lemma_bytes_lt_trichotomy(a@, b@);
            }
            return 1;
        }
        proof {
            assert(a@.take(i + 1) =~= b@.take(i + 1));
        }
        i = i + 1;
    }
    if alen == blen {
        proof {
            assert(a@.take(alen as int) =~= a@);
            assert(b@.take(blen as int) =~= b@);
            lemma_bytes_lt_trichotomy(a@, b@);
        }
        0
    } else if alen < blen {
        proof {
            assert(i == alen);
            lemma_bytes_lt_prefix(a@, b@, alen as int);
            lemma_bytes_lt_trichotomy(a@, b@);
        }
        -1
    } else {
        proof {
            assert(i == blen);
            lemma_bytes_lt_prefix(b@, a@, blen as int);
            lemma_bytes_lt_trichotomy(a@, b@);
        }
        1
    }
}

impl Headers {
    /// An empty header map.
    pub fn new() -> (r: Headers)
        ensures
            r@ == Seq::<HeaderPair>::empty(),
            r.wf(),
    {
        let r = Headers { entries: Vec::new() };
        proof {
            assert(r@ =~= Seq::<HeaderPair>::empty());
        }
        r
    }

    /// The entries are canonical: strictly ascending names.
    pub open spec fn wf(&self) -> bool {
        hdrs_sorted(self@)
    }

    /// A header map holding exactly the given entries, in the given order.
    /// The reader of stored documents uses this to hold the entries a
    /// document carries, whatever their order.
    pub fn from_entries(entries: Vec<(String, String)>) -> (r: Headers)
        ensures
            r@ == pairs_view(entries@),
    {
        Headers { entries }
    }

    /// How many headers are set.
    pub fn len(&self) -> (r: usize)
        ensures
            r == self@.len(),
    {
        self.entries.len()
    }

    /// The canonical (sorted) name/value entries.
    pub fn entries(&self) -> (r: &Vec<(String, String)>)
        ensures
            r@.len() == self@.len(),
            forall|i: int|
                0 <= i < r@.len() ==> (#[trigger] r@[i]).0@ == self@[i].0 && r@[i].1@
                    == self@[i].1,
    {
        &self.entries
    }

    /// Set the header `name` to `value`.  The name is folded to its ASCII
    /// lowercase form, so names are matched case-insensitively.  An existing
    /// entry of the same (folded) name is replaced; otherwise the entry is
    /// placed at its ordered position, so the result does not depend on the
    /// order of insertions.
    pub fn insert(&mut self, name: &str, value: &str)
        ensures
            final(self)@ == spec_insert(old(self)@, fold_name(name@), value@),
            old(self).wf() ==> final(self).wf(),
    {
        let ghost h = old(self)@;
        let folded = fold_ascii(name);
        let nb = folded.as_str().as_bytes_vec();
        let mut i: usize = 0;
        let mut replace = false;
        loop
            invariant_except_break
                !replace,
            invariant
                *self == *old(self),
                self@ == h,
                i <= self.entries.len(),
                self.entries@.len() == h.len(),
                nb@ == encode_utf8(folded@),
                folded@ == fold_name(name@),
                forall|k: int| 0 <= k < i ==> #[trigger] name_lt(h[k].0, folded@),
            ensures
                *self == *old(self),
                self@ == h,
                self.entries@.len() == h.len(),
                i <= h.len(),
                folded@ == fold_name(name@),
                forall|k: int| 0 <= k < i ==> #[trigger] name_lt(h[k].0, folded@),
                replace ==> i < h.len() && h[i as int].0 == folded@,
                !replace ==> (i == h.len() || name_lt(folded@, h[i as int].0)),
            decreases self.entries.len() - i,
        {
            if i >= self.entries.len() {
                break;
            }
            let eb = self.entries[i].0.as_str().as_bytes_vec();
            proof {
                assert(h[i as int].0 == self.entries@[i as int].0@);
                assert(eb@ == encode_utf8(h[i as int].0));
            }
            let c = byte_cmp(&nb, &eb);
            if c == 0 {
                proof {
                    lemma_name_eq(folded@, h[i as int].0);
                }
                replace = true;
                break;
            }
            if c == -1 {
                break;
            }
            proof {
                assert(bytes_lt(eb@, nb@));
                assert(name_lt(h[i as int].0, folded@));
            }
            i = i + 1;
        }
        let ghost nm = folded@;
        if replace {
            self.entries.remove(i);
        }
        self.entries.insert(i, (folded, value.to_owned()));
        proof {
            if !replace && i < h.len() {
                lemma_name_trichotomy(nm, h[i as int].0);
            }
            lemma_spec_insert_at(h, nm, value@, i as int);
            if replace {
                assert(self@ =~= h.take(i as int) + seq![(nm, value@)] + h.skip(i as int + 1));
            } else {
                assert(self@ =~= h.take(i as int) + seq![(nm, value@)] + h.skip(i as int));
            }
            if old(self).wf() {
                lemma_spec_insert_sorted(h, nm, value@);
            }
        }
    }

    /// Whether the two maps hold exactly the same entries in the same order.
    pub fn same_entries(&self, other: &Headers) -> (r: bool)
        ensures
            r == (self@ == other@),
    {
        if self.entries.len() != other.entries.len() {
            proof {
                assert(self@.len() != other@.len());
            }
            return false;
        }
        let n = self.entries.len();
        let mut i: usize = 0;
        while i < n
            invariant
                i <= n,
                n == self@.len(),
                n == other@.len(),
                n == self.entries.len(),
                n == other.entries.len(),
                forall|k: int| 0 <= k < i ==> self@[k] == other@[k],
            decreases n - i,
        {
            proof {
                assert(self@[i as int] == (self.entries@[i as int].0@, self.entries@[i as int].1@));
                assert(other@[i as int] == (
                    other.entries@[i as int].0@,
                    other.entries@[i as int].1@,
                ));
            }
            if !(self.entries[i].0 == other.entries[i].0) {
                proof {
                    assert(self@[i as int].0 != other@[i as int].0);
                }
                return false;
            }
            if !(self.entries[i].1 == other.entries[i].1) {
                proof {
                    assert(self@[i as int].1 != other@[i as int].1);
                }
                return false;
            }
            i = i + 1;
        }
        proof {
            assert(self@ =~= other@);
        }
        true
    }
}

/// Header order is irrelevant: inserting two distinct names in either order
/// into the same canonical map yields the same map.  Canonical maps make the
/// fingerprint and the stub key independent of header insertion order.
pub proof fn lemma_insert_commutes(
    h: Seq<HeaderPair>,
    n1: Seq<char>,
    v1: Seq<char>,
    n2: Seq<char>,
    v2: Seq<char>,
)
    requires
        hdrs_sorted(h),
        n1 != n2,
    ensures
        spec_insert(spec_insert(h, n1, v1), n2, v2) == spec_insert(spec_insert(h, n2, v2), n1, v1),
    decreases h.len(),
{
    lemma_name_trichotomy(n1, n2);
    if h.len() == 0 {
        if name_lt(n1, n2) {
            lemma_insert_empty_two(n1, v1, n2, v2);
            lemma_insert_empty_two_rev(n1, v1, n2, v2);
        } else {
            assert(name_lt(n2, n1));
            lemma_insert_empty_two(n2, v2, n1, v1);
            lemma_insert_empty_two_rev(n2, v2, n1, v1);
        }
    } else {
        let m = h[0].0;
        lemma_name_trichotomy(n1, m);
        lemma_name_trichotomy(n2, m);
        lemma_sorted_tail(h);
        if name_lt(m, n1) && name_lt(m, n2) {
            // Both insertions pass over the head and commute in the tail.
            let s1 = spec_insert(h, n1, v1);
            let s2 = spec_insert(h, n2, v2);
            assert(s1 == seq![h[0]] + spec_insert(h.skip(1), n1, v1));
            assert(s2 == seq![h[0]] + spec_insert(h.skip(1), n2, v2));
            assert(s1.len() > 0 && s1[0] == h[0]);
            assert(s2.len() > 0 && s2[0] == h[0]);
            assert(s1.skip(1) =~= spec_insert(h.skip(1), n1, v1));
            assert(s2.skip(1) =~= spec_insert(h.skip(1), n2, v2));
            assert(!name_lt(n2, s1[0].0) && n2 != s1[0].0);
            assert(!name_lt(n1, s2[0].0) && n1 != s2[0].0);
            assert(spec_insert(s1, n2, v2) == seq![h[0]] + spec_insert(s1.skip(1), n2, v2));
            assert(spec_insert(s2, n1, v1) == seq![h[0]] + spec_insert(s2.skip(1), n1, v1));
            lemma_insert_commutes(h.skip(1), n1, v1, n2, v2);
            assert(spec_insert(s1.skip(1), n2, v2) == spec_insert(s2.skip(1), n1, v1));
        } else if name_lt(n1, n2) {
            lemma_both_before_head(h, n1, v1, n2, v2);
        } else {
            assert(name_lt(n2, n1));
            lemma_both_before_head(h, n2, v2, n1, v1);
        }
    }
}

/// Inserting `a` then `b` into the empty map, with `a`'s name smaller,
/// gives the two entries in order.
proof fn lemma_insert_empty_two(a: Seq<char>, va: Seq<char>, b: Seq<char>, vb: Seq<char>)
    requires
        name_lt(a, b),
    ensures
        spec_insert(spec_insert(Seq::<HeaderPair>::empty(), a, va), b, vb) == seq![
            (a, va),
            (b, vb),
        ],
{
    lemma_name_trichotomy(a, b);
    let s1 = spec_insert(Seq::<HeaderPair>::empty(), a, va);
    assert(s1 == seq![(a, va)]);
    assert(s1.len() == 1);
    assert(s1[0] == (a, va));
    assert(!name_lt(b, s1[0].0));
    assert(b != s1[0].0);
    assert(spec_insert(s1, b, vb) == seq![s1[0]] + spec_insert(s1.skip(1), b, vb));
    assert(s1.skip(1) =~= Seq::<HeaderPair>::empty());
    assert(spec_insert(s1.skip(1), b, vb) == seq![(b, vb)]);
    assert(seq![s1[0]] + seq![(b, vb)] =~= seq![(a, va), (b, vb)]);
}

/// Inserting `b` then `a` into the empty map, with `a`'s name smaller,
/// also gives the two entries in order.
proof fn lemma_insert_empty_two_rev(a: Seq<char>, va: Seq<char>, b: Seq<char>, vb: Seq<char>)
    requires
        name_lt(a, b),
    ensures
        spec_insert(spec_insert(Seq::<HeaderPair>::empty(), b, vb), a, va) == seq![
            (a, va),
            (b, vb),
        ],
{
    lemma_name_trichotomy(a, b);
    let s2 = spec_insert(Seq::<HeaderPair>::empty(), b, vb);
    assert(s2 == seq![(b, vb)]);
    assert(s2.len() == 1);
    assert(s2[0] == (b, vb));
    assert(name_lt(a, s2[0].0));
    assert(spec_insert(s2, a, va) == seq![(a, va)] + s2);
    assert(seq![(a, va)] + s2 =~= seq![(a, va), (b, vb)]);
}

/// Helper for the commutation proof: the case where the smaller name `a`
/// does not pass over the head of the sequence.
proof fn lemma_both_before_head(
    h: Seq<HeaderPair>,
    a: Seq<char>,
    va: Seq<char>,
    b: Seq<char>,
    vb: Seq<char>,
)
    requires
        hdrs_sorted(h),
        h.len() > 0,
        name_lt(a, b),
        !(name_lt(h[0].0, a) && name_lt(h[0].0, b)),
    ensures
        spec_insert(spec_insert(h, a, va), b, vb) == spec_insert(spec_insert(h, b, vb), a, va),
{
    let m = h[0].0;
    lemma_name_trichotomy(a, m);
    lemma_name_trichotomy(b, m);
    lemma_name_trichotomy(a, b);
    if name_lt(b, m) || b == m {
        // Both entries land before any larger head; `a` lands before `b`.
        assert(name_lt(a, m)) by {
            if b == m {
            } else {
                lemma_name_lt_trans(a, b, m);
            }
        }
        let s1 = spec_insert(h, a, va);
        assert(s1 == seq![(a, va)] + h);
        assert(s1.len() > 0);
        assert(s1[0] == (a, va));
        assert(!name_lt(b, s1[0].0));
        assert(b != s1[0].0);
        assert(s1.skip(1) =~= h);
        assert(spec_insert(s1, b, vb) == seq![s1[0]] + spec_insert(h, b, vb));
        let s2 = spec_insert(h, b, vb);
        if b == m {
            assert(s2 == seq![(b, vb)] + h.skip(1));
            assert(s2.len() > 0);
            assert(s2[0] == (b, vb));
            assert(name_lt(a, s2[0].0));
            assert(spec_insert(s2, a, va) == seq![(a, va)] + s2);
            assert(seq![(a, va)] + s2 =~= seq![s1[0]] + spec_insert(h, b, vb));
        } else {
            assert(s2 == seq![(b, vb)] + h);
            assert(s2.len() > 0);
            assert(s2[0] == (b, vb));
            assert(name_lt(a, s2[0].0));
            assert(spec_insert(s2, a, va) == seq![(a, va)] + s2);
            assert(seq![(a, va)] + s2 =~= seq![s1[0]] + spec_insert(h, b, vb));
        }
    } else {
        // `b` passes over the head, `a` does not: a <= m < b.
        assert(name_lt(m, b));
        let s1 = spec_insert(h, a, va);
        let s2 = spec_insert(h, b, vb);
        assert(s2 == seq![h[0]] + spec_insert(h.skip(1), b, vb));
        assert(s2.len() > 0);
        assert(s2[0] == h[0]);
        if a == m {
            assert(s1 == seq![(a, va)] + h.skip(1));
            assert(s1.len() > 0);
            assert(s1[0] == (a, va));
            assert(name_lt(s1[0].0, b));
            assert(!name_lt(b, s1[0].0));
            assert(b != s1[0].0);
            assert(spec_insert(s1, b, vb) == seq![s1[0]] + spec_insert(s1.skip(1), b, vb));
            assert(s1.skip(1) =~= h.skip(1));
            assert(s2[0].0 == a);
            assert(!name_lt(a, s2[0].0));
            assert(spec_insert(s2, a, va) == seq![(a, va)] + s2.skip(1));
            assert(s2.skip(1) =~= spec_insert(h.skip(1), b, vb));
            assert(spec_insert(s1, b, vb) =~= spec_insert(s2, a, va));
        } else {
            assert(name_lt(a, m));
            assert(s1 == seq![(a, va)] + h);
            assert(s1.len() > 0);
            assert(s1[0] == (a, va));
            assert(!name_lt(b, s1[0].0));
            assert(b != s1[0].0);
            assert(spec_insert(s1, b, vb) == seq![s1[0]] + spec_insert(s1.skip(1), b, vb));
            assert(s1.skip(1) =~= h);
            assert(name_lt(a, s2[0].0));
            assert(spec_insert(s2, a, va) == seq![(a, va)] + s2);
            assert(spec_insert(s1, b, vb) =~= spec_insert(s2, a, va));
        }
    }
}

} // verus!
