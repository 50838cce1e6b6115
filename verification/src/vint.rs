//! The variable-length integer used throughout the format: little-endian
//! groups of seven bits, the high bit of every byte but the last being set.

use vstd::prelude::*;
use vstd::slice::slice_subrange;
use crate::error::{ParseError, Parsed, RarError, carries, parses_as, surfaced, within};

verus! {

/// The longest encoding, in bytes, whose value can fit in 64 bits.
pub const MAX_VINT_BYTES: usize = 10;

/// The number read from a run of groups: the low seven bits of each byte,
/// least significant group first.
pub open spec fn vint_value(s: Seq<u8>) -> nat
    decreases s.len(),
{
    if s.len() == 0 {
        0
    } else {
        ((s[0] % 128) as nat) + 128 * vint_value(s.skip(1))
    }
}

/// `k` is the index of the first byte of `s` whose high bit is clear.
pub open spec fn is_vint_end(s: Seq<u8>, k: int) -> bool {
    &&& 0 <= k < s.len()
    &&& s[k] < 128
    &&& forall|j: int| 0 <= j < k ==> s[j] >= 128
}

/// Decoding of the integer at the front of `s`.
///
/// Without a terminating byte the integer is incomplete. An encoding of more
/// than ten bytes, or one whose value exceeds 64 bits, is malformed.
#[verifier::opaque]
pub open spec fn spec_vint(s: Seq<u8>) -> Parsed<u64> {
    if exists|k: int| is_vint_end(s, k) {
        let k = choose|k: int| is_vint_end(s, k);
        let v = vint_value(s.subrange(0, k + 1));
        if k >= MAX_VINT_BYTES || v > u64::MAX {
            Err(ParseError::Malformed)
        } else {
            Ok(((k + 1) as nat, v as u64))
        }
    } else {
        Err(ParseError::Incomplete)
    }
}

/// The canonical encoding of `v`: as many groups as `v` has significant
/// seven-bit digits, and one group for zero.
pub open spec fn vint_encoding(v: nat) -> Seq<u8>
    decreases v,
{
    if v < 128 {
        seq![v as u8]
    } else {
        seq![((v % 128) + 128) as u8] + vint_encoding(v / 128)
    }
}

/// An encoding is canonical when its last group is not a redundant zero.
pub open spec fn is_canonical(s: Seq<u8>) -> bool {
    s.len() == 1 || (s.len() > 1 && s.last() % 128 != 0)
}

/// 128 to the power `n`.
pub open spec fn pow128(n: nat) -> nat
    decreases n,
{
    if n == 0 {
        1
    } else {
        128 * pow128((n - 1) as nat)
    }
}

/// A byte has at most one first terminator before it.
pub proof fn lemma_vint_end_unique(s: Seq<u8>, a: int, b: int)
    requires
        is_vint_end(s, a),
        is_vint_end(s, b),
    ensures
        a == b,
{
    if a < b {
        assert(s[a] >= 128);
    } else if b < a {
        assert(s[b] >= 128);
    }
}

/// A run of `n` groups holds a number below `128^n`.
pub proof fn lemma_vint_value_bound(s: Seq<u8>)
    ensures
        vint_value(s) < pow128(s.len()),
    decreases s.len(),
{
    if s.len() > 0 {
        lemma_vint_value_bound(s.skip(1));
    }
}

proof fn lemma_pow128_monotonic(a: nat, b: nat)
    requires
        a <= b,
    ensures
        pow128(a) <= pow128(b),
    decreases b,
{
    if a < b {
        lemma_pow128_monotonic(a, (b - 1) as nat);
    }
}

proof fn lemma_pow128_ten()
    ensures
        pow128(10) == 0x40_0000_0000_0000_0000,
{
    reveal_with_fuel(pow128, 11);
}

/// Shape of the canonical encoding of `v`: it ends at its last byte, holds
/// `v`, carries no redundant zero group, and is no longer than `v` requires.
proof fn lemma_encoding_shape(v: nat)
    ensures
        vint_encoding(v).len() >= 1,
        is_vint_end(vint_encoding(v), vint_encoding(v).len() - 1),
        vint_value(vint_encoding(v)) == v,
        is_canonical(vint_encoding(v)),
        v >= pow128((vint_encoding(v).len() - 1) as nat) || vint_encoding(v).len() == 1,
    decreases v,
{
    let e = vint_encoding(v);
    if v < 128 {
        assert(e.skip(1).len() == 0);
        assert(vint_value(e.skip(1)) == 0);
        assert(e[0] == v);
    } else {
        let g = ((v % 128) + 128) as u8;
        assert(g % 128 == v % 128);
        let t = vint_encoding(v / 128);
        lemma_encoding_shape(v / 128);
        assert(e == seq![g] + t);
        assert(e.skip(1) =~= t);
        assert(e[0] == g);
        assert(e.last() == t.last());
        assert forall|j: int| 0 <= j < e.len() - 1 implies e[j] >= 128 by {
            if j > 0 {
                assert(e[j] == t[j - 1]);
            }
        }
    }
}

/// A run whose last group is not zero holds a positive number.
proof fn lemma_vint_value_positive(s: Seq<u8>)
    requires
        s.len() >= 1,
        s.last() % 128 != 0,
    ensures
        vint_value(s) >= 1,
    decreases s.len(),
{
    if s.len() > 1 {
        assert(s.skip(1).last() == s.last());
        lemma_vint_value_positive(s.skip(1));
    } else {
        assert(s.skip(1).len() == 0);
    }
}

/// A canonical run that ends at its last byte is the encoding of its value.
proof fn lemma_canonical_run(s: Seq<u8>)
    requires
        s.len() >= 1,
        is_vint_end(s, s.len() - 1),
        is_canonical(s),
    ensures
        s == vint_encoding(vint_value(s)),
    decreases s.len(),
{
    let t = s.skip(1);
    if s.len() == 1 {
        assert(t.len() == 0);
        assert(s =~= seq![s[0]]);
    } else {
        assert(t.last() == s.last());
        assert forall|j: int| 0 <= j < t.len() - 1 implies t[j] >= 128 by {
            assert(t[j] == s[j + 1]);
        }
        assert(is_vint_end(t, t.len() - 1));
        lemma_vint_value_positive(t);
        lemma_canonical_run(t);
        let v = vint_value(s);
        assert(s[0] >= 128);
        assert(v % 128 == (s[0] % 128) as nat);
        assert(v / 128 == vint_value(t));
        assert(s =~= seq![s[0]] + t);
    }
}

/// Decoding the canonical encoding of `v`, whatever bytes follow it, yields
/// `v` and accepts exactly the encoding.
pub proof fn lemma_decode_encode(v: u64, rest: Seq<u8>)
    ensures
        spec_vint(vint_encoding(v as nat) + rest) == Ok::<(nat, u64), ParseError>(
            (vint_encoding(v as nat).len(), v),
        ),
{
    reveal(spec_vint);
    let e = vint_encoding(v as nat);
    let s = e + rest;
    let k = e.len() - 1;
    lemma_encoding_shape(v as nat);
    assert(is_vint_end(s, k)) by {
        assert(s[k] == e[k]);
        assert forall|j: int| 0 <= j < k implies s[j] >= 128 by {
            assert(s[j] == e[j]);
        }
    }
    let c = choose|c: int| is_vint_end(s, c);
    lemma_vint_end_unique(s, c, k);
    assert(s.subrange(0, k + 1) =~= e);
    if k >= 10 {
        lemma_pow128_monotonic(10, k as nat);
        lemma_pow128_ten();
    }
}

/// The encoding of a 64-bit number is canonical and at most ten bytes long.
pub proof fn lemma_encoding_canonical(v: u64)
    ensures
        is_canonical(vint_encoding(v as nat)),
        1 <= vint_encoding(v as nat).len() <= MAX_VINT_BYTES,
{
    lemma_encoding_shape(v as nat);
    let k = vint_encoding(v as nat).len() - 1;
    if k >= 10 {
        lemma_pow128_monotonic(10, k as nat);
        lemma_pow128_ten();
    }
}

/// The canonical encoding is the only canonical byte string that decodes,
/// as a whole, to `v`.
pub proof fn lemma_canonical_encoding_unique(s: Seq<u8>, v: u64)
    requires
        spec_vint(s) == Ok::<(nat, u64), ParseError>((s.len(), v)),
        is_canonical(s),
    ensures
        s == vint_encoding(v as nat),
{
    reveal(spec_vint);
    let k = choose|k: int| is_vint_end(s, k);
    assert(k + 1 == s.len());
    assert(s.subrange(0, k + 1) =~= s);
    lemma_canonical_run(s);
}

/// An integer takes at least one byte, at most ten, and never more than the
/// window holds.
pub proof fn lemma_vint_extent(s: Seq<u8>)
    ensures
        spec_vint(s) matches Ok((n, _)) ==> 1 <= n <= s.len() && n <= MAX_VINT_BYTES,
{
    reveal(spec_vint);
}

/// The integer read from a window is read from every extension of it.
pub proof fn lemma_vint_stable(s: Seq<u8>, t: Seq<u8>)
    requires
        s.is_prefix_of(t),
    ensures
        carries(spec_vint(s), spec_vint(t)),
        within(spec_vint(s), s.len()),
{
    reveal(spec_vint);
    if exists|k: int| is_vint_end(s, k) {
        let k = choose|k: int| is_vint_end(s, k);
        assert(is_vint_end(t, k)) by {
            assert(t[k] == s[k]);
            assert forall|j: int| 0 <= j < k implies t[j] >= 128 by {
                assert(t[j] == s[j]);
            }
        }
        let c = choose|c: int| is_vint_end(t, c);
        lemma_vint_end_unique(t, c, k);
        assert(t.subrange(0, k + 1) =~= s.subrange(0, k + 1));
    }
}

/// A run of continuation bytes that reaches the end of the input is
/// incomplete, whatever its length, and so surfaces from a stream as
/// truncated, never as a failed parse.
pub proof fn lemma_unterminated_vint_is_truncated(s: Seq<u8>)
    requires
        forall|i: int| 0 <= i < s.len() ==> s[i] >= 128,
    ensures
        spec_vint(s) == Err::<(nat, u64), ParseError>(ParseError::Incomplete),
        surfaced(ParseError::Incomplete) == RarError::Truncated,
{
    reveal(spec_vint);
    assert forall|k: int| !is_vint_end(s, k) by {
        if 0 <= k < s.len() {
            assert(s[k] >= 128);
        }
    }
}

/// Whether the continuation bit of a byte is set.
pub fn is_vint_bit(a: u8) -> (r: bool)
    ensures
        r == (a >= 128),
{
    a >= 0x80
}

/// Splits a byte into its continuation bit and its seven data bits.
pub fn split_vint(i: u8) -> (r: (u8, u8))
    ensures
        r.0 == i / 128,
        r.1 == i % 128,
{
    (i / 128, i % 128)
}

/// The longest non-empty prefix of continuation bytes.
pub open spec fn spec_collect_vint(s: Seq<u8>) -> Parsed<Seq<u8>> {
    if exists|k: int| is_vint_end(s, k) {
        let k = choose|k: int| is_vint_end(s, k);
        if k == 0 {
            Err(ParseError::Malformed)
        } else {
            Ok((k as nat, s.subrange(0, k)))
        }
    } else {
        Err(ParseError::Incomplete)
    }
}

/// Collects the leading bytes that have the continuation bit set.
///
/// Fails as malformed when the first byte has none, and as incomplete when
/// the window ends before a byte without the bit is seen.
pub fn collect_vint(input: &[u8]) -> (r: Result<(&[u8], &[u8]), ParseError>)
    ensures
        match spec_collect_vint(input@) {
            Ok((used, run)) => {
                &&& r matches Ok((rest, taken))
                &&& used <= input@.len()
                &&& rest@ == input@.skip(used as int)
                &&& taken@ == run
            },
            Err(e) => r matches Err(e2) && e2 == e,
        },
{
    let n = input.len();
    let mut k: usize = 0;
    while k < n && is_vint_bit(input[k])
        invariant
            k <= n,
            n == input@.len(),
            forall|j: int| 0 <= j < k ==> input@[j] >= 128,
        decreases n - k,
    {
        k += 1;
    }
    if k == n {
        assert(!exists|e: int| is_vint_end(input@, e));
        return Err(ParseError::Incomplete);
    }
    proof {
        assert(is_vint_end(input@, k as int));
        let c = choose|e: int| is_vint_end(input@, e);
        lemma_vint_end_unique(input@, c, k as int);
    }
    if k == 0 {
        return Err(ParseError::Malformed);
    }
    Ok((slice_subrange(input, k, n), slice_subrange(input, 0, k)))
}

/// The first byte of the window.
pub open spec fn spec_take_one(s: Seq<u8>) -> Parsed<Seq<u8>> {
    if s.len() == 0 {
        Err(ParseError::Incomplete)
    } else {
        Ok((1, s.subrange(0, 1)))
    }
}

/// Takes one byte off the front of the window.
pub fn take_one(input: &[u8]) -> (r: Result<(&[u8], &[u8]), ParseError>)
    ensures
        match spec_take_one(input@) {
            Ok((used, run)) => {
                &&& r matches Ok((rest, taken))
                &&& rest@ == input@.skip(used as int)
                &&& taken@ == run
            },
            Err(e) => r matches Err(e2) && e2 == e,
        },
{
    if input.len() == 0 {
        return Err(ParseError::Incomplete);
    }
    Ok((slice_subrange(input, 1, input.len()), slice_subrange(input, 0, 1)))
}

/// Reads the variable-length integer at the front of the window.
pub fn vint(input: &[u8]) -> (r: Result<(&[u8], u64), ParseError>)
    ensures
        parses_as(input@, r, spec_vint(input@)),
{
    reveal(spec_vint);
    let n = input.len();
    let mut k: usize = 0;
    while k < n && is_vint_bit(input[k])
        invariant
            k <= n,
            n == input@.len(),
            forall|j: int| 0 <= j < k ==> input@[j] >= 128,
        decreases n - k,
    {
        k += 1;
    }
    if k == n {
        assert(!exists|e: int| is_vint_end(input@, e));
        return Err(ParseError::Incomplete);
    }
    proof {
        assert(is_vint_end(input@, k as int));
        let c = choose|e: int| is_vint_end(input@, e);
        lemma_vint_end_unique(input@, c, k as int);
    }
    if k >= MAX_VINT_BYTES {
        return Err(ParseError::Malformed);
    }
    let mut acc: u128 = 0;
    let mut i: usize = k + 1;
    assert(input@.subrange(i as int, k + 1).len() == 0);
    while i > 0
        invariant
            i <= k + 1,
            k < MAX_VINT_BYTES,
            k < input@.len(),
            acc == vint_value(input@.subrange(i as int, k + 1)),
        decreases i,
    {
        i -= 1;
        proof {
            let hi = input@.subrange(i + 1, k + 1);
            let all = input@.subrange(i as int, k + 1);
            assert(all.skip(1) =~= hi);
            assert(all[0] == input@[i as int]);
            lemma_vint_value_bound(hi);
            lemma_pow128_monotonic(hi.len(), 9);
            lemma_pow128_monotonic(9, 10);
            lemma_pow128_ten();
        }
        acc = acc * 128 + (input[i] % 128) as u128;
    }
    if acc > u64::MAX as u128 {
        Err(ParseError::Malformed)
    } else {
        Ok((slice_subrange(input, k + 1, n), acc as u64))
    }
}

/// Writes `v` in its canonical encoding.
pub fn encode(v: u64) -> (r: Vec<u8>)
    ensures
        r@ == vint_encoding(v as nat),
{
    let mut out: Vec<u8> = Vec::new();
    let mut rest: u64 = v;
    while rest >= 128
        invariant
            out@ + vint_encoding(rest as nat) == vint_encoding(v as nat),
        decreases rest,
    {
        let group: u8 = (rest % 128) as u8 + 128;
        proof {
            let ghost tail = vint_encoding((rest / 128) as nat);
            assert(vint_encoding(rest as nat) == seq![group] + tail);
            assert(out@.push(group) + tail =~= out@ + (seq![group] + tail));
        }
        out.push(group);
        rest = rest / 128;
    }
    proof {
        assert(out@.push(rest as u8) =~= out@ + seq![rest as u8]);
    }
    out.push(rest as u8);
    out
}

} // verus!
