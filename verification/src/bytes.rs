//! Fixed-width fields: counted byte runs and the 32- and 64-bit integers of
//! the header and extra-area layouts.

use vstd::prelude::*;
use vstd::slice::slice_subrange;
use crate::error::{ParseError, Parsed, carries, parses_as, within};

verus! {

/// The first `n` bytes of the window.
pub open spec fn spec_take(s: Seq<u8>, n: nat) -> Parsed<Seq<u8>> {
    if s.len() < n {
        Err(ParseError::Incomplete)
    } else {
        Ok((n, s.subrange(0, n as int)))
    }
}

/// A big-endian 32-bit integer at the front of the window.
pub open spec fn spec_be_u32(s: Seq<u8>) -> Parsed<u32> {
    if s.len() < 4 {
        Err(ParseError::Incomplete)
    } else {
        Ok((4, (s[0] * 0x100_0000 + s[1] * 0x1_0000 + s[2] * 0x100 + s[3]) as u32))
    }
}

/// A little-endian 32-bit integer at the front of the window.
pub open spec fn spec_le_u32(s: Seq<u8>) -> Parsed<u32> {
    if s.len() < 4 {
        Err(ParseError::Incomplete)
    } else {
        Ok((4, (s[3] * 0x100_0000 + s[2] * 0x1_0000 + s[1] * 0x100 + s[0]) as u32))
    }
}

/// A little-endian 64-bit integer at the front of the window.
pub open spec fn spec_le_u64(s: Seq<u8>) -> Parsed<u64> {
    if s.len() < 8 {
        Err(ParseError::Incomplete)
    } else {
        Ok(
            (
                8,
                (s[7] * 0x100_0000_0000_0000 + s[6] * 0x1_0000_0000_0000 + s[5]
                    * 0x100_0000_0000 + s[4] * 0x1_0000_0000 + s[3] * 0x100_0000 + s[2]
                    * 0x1_0000 + s[1] * 0x100 + s[0]) as u64,
            ),
        )
    }
}

/// The fixed byte string `t` at the front of the window. A window that
/// differs from `t` where both have bytes is malformed; a window that is a
/// proper prefix of `t` is incomplete.
pub open spec fn spec_tag(s: Seq<u8>, t: Seq<u8>) -> Parsed<Seq<u8>> {
    let m = if s.len() < t.len() {
        s.len()
    } else {
        t.len()
    };
    if s.subrange(0, m as int) != t.subrange(0, m as int) {
        Err(ParseError::Malformed)
    } else if m < t.len() {
        Err(ParseError::Incomplete)
    } else {
        Ok((t.len(), t))
    }
}

/// A counted run taken from a window is taken from every extension of it.
pub proof fn lemma_take_stable(s: Seq<u8>, t: Seq<u8>, n: nat)
    requires
        s.is_prefix_of(t),
    ensures
        carries(spec_take(s, n), spec_take(t, n)),
        within(spec_take(s, n), s.len()),
{
    if s.len() >= n {
        assert(s.subrange(0, n as int) =~= t.subrange(0, n as int));
    }
}

/// A tag found or refuted on a window is so on every extension of it.
pub proof fn lemma_tag_stable(s: Seq<u8>, t: Seq<u8>, pattern: Seq<u8>)
    requires
        s.is_prefix_of(t),
    ensures
        carries(spec_tag(s, pattern), spec_tag(t, pattern)),
        within(spec_tag(s, pattern), s.len()),
{
    let m = if s.len() < pattern.len() {
        s.len()
    } else {
        pattern.len()
    };
    let m2 = if t.len() < pattern.len() {
        t.len()
    } else {
        pattern.len()
    };
    if s.subrange(0, m as int) != pattern.subrange(0, m as int) {
        assert(!(s.subrange(0, m as int) =~= pattern.subrange(0, m as int)));
        let i = choose|i: int|
            0 <= i < m && s.subrange(0, m as int)[i] != pattern.subrange(0, m as int)[i];
        assert(t.subrange(0, m2 as int)[i] == s[i]);
        assert(pattern.subrange(0, m2 as int)[i] == pattern[i]);
        assert(s.subrange(0, m as int)[i] == s[i]);
        assert(pattern.subrange(0, m as int)[i] == pattern[i]);
    } else if m == pattern.len() {
        assert(t.subrange(0, m2 as int) =~= s.subrange(0, m as int));
    }
}

/// A big-endian field read from a window is read from every extension.
pub proof fn lemma_be_u32_stable(s: Seq<u8>, t: Seq<u8>)
    requires
        s.is_prefix_of(t),
    ensures
        carries(spec_be_u32(s), spec_be_u32(t)),
        within(spec_be_u32(s), s.len()),
{
    if s.len() >= 4 {
        assert(t[0] == s[0] && t[1] == s[1] && t[2] == s[2] && t[3] == s[3]);
    }
}

/// Takes the fixed byte string `pattern` off the front of the window.
pub fn tag<'a>(input: &'a [u8], pattern: &[u8]) -> (r: Result<(&'a [u8], &'a [u8]), ParseError>)
    ensures
        match spec_tag(input@, pattern@) {
            Ok((used, run)) => {
                &&& r matches Ok((rest, taken))
                &&& used <= input@.len()
                &&& rest@ == input@.skip(used as int)
                &&& taken@ == run
            },
            Err(e) => r matches Err(e2) && e2 == e,
        },
{
    let m = if input.len() < pattern.len() {
        input.len()
    } else {
        pattern.len()
    };
    let mut i: usize = 0;
    while i < m
        invariant
            i <= m,
            m <= input@.len(),
            m <= pattern@.len(),
            forall|j: int| 0 <= j < i ==> input@[j] == pattern@[j],
        decreases m - i,
    {
        if input[i] != pattern[i] {
            assert(input@.subrange(0, m as int)[i as int] != pattern@.subrange(0, m as int)[i as int]);
            return Err(ParseError::Malformed);
        }
        i += 1;
    }
    assert(input@.subrange(0, m as int) =~= pattern@.subrange(0, m as int));
    if m < pattern.len() {
        return Err(ParseError::Incomplete);
    }
    assert(pattern@.subrange(0, m as int) =~= pattern@);
    Ok((slice_subrange(input, m, input.len()), slice_subrange(input, 0, m)))
}

/// Takes `n` bytes off the front of the window.
pub fn take(input: &[u8], n: u64) -> (r: Result<(&[u8], &[u8]), ParseError>)
    ensures
        match spec_take(input@, n as nat) {
            Ok((used, run)) => {
                &&& r matches Ok((rest, taken))
                &&& rest@ == input@.skip(used as int)
                &&& taken@ == run
            },
            Err(e) => r matches Err(e2) && e2 == e,
        },
{
    if (input.len() as u64) < n {
        return Err(ParseError::Incomplete);
    }
    let k = n as usize;
    Ok((slice_subrange(input, k, input.len()), slice_subrange(input, 0, k)))
}

/// `nom::be_u32` on a byte slice: with fewer than four bytes it asks for
/// more input; otherwise it returns the first four bytes read as a
/// big-endian number, and the slice after them.
#[verifier::external_body]
pub(crate) fn be_u32(input: &[u8]) -> (r: Result<(&[u8], u32), ParseError>)
    ensures
        parses_as(input@, r, spec_be_u32(input@)),
{
    match nom::be_u32(input) {
        Ok((rest, value)) => Ok((rest, value)),
        Err(nom::Err::Incomplete(_)) => Err(ParseError::Incomplete),
        Err(_) => Err(ParseError::Malformed),
    }
}

/// `nom::le_u32` on a byte slice: with fewer than four bytes it asks for
/// more input; otherwise it returns the first four bytes read as a
/// little-endian number, and the slice after them.
#[verifier::external_body]
pub(crate) fn le_u32(input: &[u8]) -> (r: Result<(&[u8], u32), ParseError>)
    ensures
        parses_as(input@, r, spec_le_u32(input@)),
{
    match nom::le_u32(input) {
        Ok((rest, value)) => Ok((rest, value)),
        Err(nom::Err::Incomplete(_)) => Err(ParseError::Incomplete),
        Err(_) => Err(ParseError::Malformed),
    }
}

/// `nom::le_u64` on a byte slice: with fewer than eight bytes it asks for
/// more input; otherwise it returns the first eight bytes read as a
/// little-endian number, and the slice after them.
#[verifier::external_body]
pub(crate) fn le_u64(input: &[u8]) -> (r: Result<(&[u8], u64), ParseError>)
    ensures
        parses_as(input@, r, spec_le_u64(input@)),
{
    match nom::le_u64(input) {
        Ok((rest, value)) => Ok((rest, value)),
        Err(nom::Err::Incomplete(_)) => Err(ParseError::Incomplete),
        Err(_) => Err(ParseError::Malformed),
    }
}

} // verus!
