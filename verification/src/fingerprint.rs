use vstd::prelude::*;
use vstd::arithmetic::div_mod::{lemma_div_decreases, lemma_fundamental_div_mod};
use vstd::string::StringExecFns;
use crate::codec::enc_req;
use crate::codec::encode_request;
use crate::request::{Request, ReqModel};

verus! {

/// The 64-bit XXH64 digest of the given bytes under the given seed; a
/// function of seed and bytes alone.
pub uninterp spec fn xxhash64_of(seed: u64, bytes: Seq<u8>) -> u64;

/// Relies on twox-hash's `XxHash64::oneshot`: the digest is computed from
/// the seed and the input bytes alone.
#[verifier::external_body]
fn xxhash64(seed: u64, data: &Vec<u8>) -> (r: u64)
    ensures
        r == xxhash64_of(seed, data@),
{
    twox_hash::XxHash64::oneshot(seed, data.as_slice())
}

/// The seed the fingerprint hashes with.
pub const FINGERPRINT_SEED: u64 = 42;

/// The fingerprint of a request: the digest of its canonical encoding.
/// Equal requests therefore always have equal fingerprints, and the
/// canonical header order makes the fingerprint independent of the order
/// headers were inserted in.
pub open spec fn spec_fingerprint(r: ReqModel) -> u64 {
    xxhash64_of(FINGERPRINT_SEED, enc_req(r))
}

/// Compute the fingerprint used to name a request's replay file.
pub fn fingerprint(r: &Request) -> (h: u64)
    ensures
        h == spec_fingerprint(r@),
{
    let bytes = encode_request(r);
    xxhash64(FINGERPRINT_SEED, &bytes)
}

/// The lowercase hex digit character for a value below 16.
pub open spec fn hex_digit(d: int) -> char {
    if d == 0 {
        '0'
    } else if d == 1 {
        '1'
    } else if d == 2 {
        '2'
    } else if d == 3 {
        '3'
    } else if d == 4 {
        '4'
    } else if d == 5 {
        '5'
    } else if d == 6 {
        '6'
    } else if d == 7 {
        '7'
    } else if d == 8 {
        '8'
    } else if d == 9 {
        '9'
    } else if d == 10 {
        'a'
    } else if d == 11 {
        'b'
    } else if d == 12 {
        'c'
    } else if d == 13 {
        'd'
    } else if d == 14 {
        'e'
    } else {
        'f'
    }
}

/// The lowercase hex numeral of a number, without leading zeros.
pub open spec fn hex_of(n: int) -> Seq<char>
    decreases n,
    when n >= 0
    via hex_of_decreases
{
    if n < 16 {
        seq![hex_digit(n)]
    } else {
        hex_of(n / 16).push(hex_digit(n % 16))
    }
}

#[via_fn]
proof fn hex_of_decreases(n: int) {
    if n >= 16 {
        lemma_div_decreases(n, 16);
    }
}

/// Distinct digit values have distinct digit characters.
proof fn lemma_hex_digit_injective(a: int, b: int)
    requires
        0 <= a < 16,
        0 <= b < 16,
        hex_digit(a) == hex_digit(b),
    ensures
        a == b,
{
}

/// Distinct numbers have distinct hex numerals, so distinct fingerprints
/// name distinct files.
pub proof fn lemma_hex_of_injective(a: int, b: int)
    requires
        a >= 0,
        b >= 0,
        hex_of(a) == hex_of(b),
    ensures
        a == b,
    decreases a,
{
    if a < 16 && b < 16 {
        assert(hex_of(a)[0] == hex_digit(a));
        assert(hex_of(b)[0] == hex_digit(b));
        lemma_hex_digit_injective(a, b);
    } else if a < 16 {
        lemma_div_decreases(b, 16);
        lemma_hex_of_len(b / 16);
        assert(hex_of(b).len() >= 2);
        assert(hex_of(a).len() == 1);
    } else if b < 16 {
        lemma_div_decreases(a, 16);
        lemma_hex_of_len(a / 16);
        assert(hex_of(a).len() >= 2);
        assert(hex_of(b).len() == 1);
    } else {
        lemma_div_decreases(a, 16);
        lemma_div_decreases(b, 16);
        lemma_fundamental_div_mod(a, 16);
        lemma_fundamental_div_mod(b, 16);
        let ha = hex_of(a);
        let hb = hex_of(b);
        assert(ha == hex_of(a / 16).push(hex_digit(a % 16)));
        assert(hb == hex_of(b / 16).push(hex_digit(b % 16)));
        assert(ha.last() == hex_digit(a % 16));
        assert(hb.last() == hex_digit(b % 16));
        lemma_hex_digit_injective(a % 16, b % 16);
        assert(ha.drop_last() =~= hex_of(a / 16));
        assert(hb.drop_last() =~= hex_of(b / 16));
        lemma_hex_of_injective(a / 16, b / 16);
    }
}

/// A hex numeral has at least one character.
pub proof fn lemma_hex_of_len(n: int)
    requires
        n >= 0,
    ensures
        hex_of(n).len() >= 1,
{
}

/// The character of one hex digit value, as a one-character string.
fn hex_digit_str(d: u8) -> (r: &'static str)
    requires
        d < 16,
    ensures
        r@ == seq![hex_digit(d as int)],
{
    proof {
        reveal_strlit("0");
        reveal_strlit("1");
        reveal_strlit("2");
        reveal_strlit("3");
        reveal_strlit("4");
        reveal_strlit("5");
        reveal_strlit("6");
        reveal_strlit("7");
        reveal_strlit("8");
        reveal_strlit("9");
        reveal_strlit("a");
        reveal_strlit("b");
        reveal_strlit("c");
        reveal_strlit("d");
        reveal_strlit("e");
        reveal_strlit("f");
    }
    let r: &'static str = if d == 0 {
        "0"
    } else if d == 1 {
        "1"
    } else if d == 2 {
        "2"
    } else if d == 3 {
        "3"
    } else if d == 4 {
        "4"
    } else if d == 5 {
        "5"
    } else if d == 6 {
        "6"
    } else if d == 7 {
        "7"
    } else if d == 8 {
        "8"
    } else if d == 9 {
        "9"
    } else if d == 10 {
        "a"
    } else if d == 11 {
        "b"
    } else if d == 12 {
        "c"
    } else if d == 13 {
        "d"
    } else if d == 14 {
        "e"
    } else {
        "f"
    };
    proof {
        assert(r@ =~= seq![hex_digit(d as int)]);
    }
    r
}

/// Append the hex numeral of `n`.
fn hex_append(out: &mut String, n: u64)
    ensures
        final(out)@ == old(out)@ + hex_of(n as int),
    decreases n,
{
    if n < 16 {
        out.append(hex_digit_str(n as u8));
        proof {
            assert(out@ =~= old(out)@ + hex_of(n as int));
        }
    } else {
        hex_append(out, n / 16);
        out.append(hex_digit_str((n % 16) as u8));
        proof {
            assert(out@ =~= old(out)@ + hex_of(n as int));
        }
    }
}

/// The lowercase hex numeral of `n`, without leading zeros.
pub fn u64_to_hex(n: u64) -> (r: String)
    ensures
        r@ == hex_of(n as int),
{
    let mut out = String::new();
    hex_append(&mut out, n);
    proof {
        assert(out@ =~= hex_of(n as int));
    }
    out
}

} // verus!
