//! The signature that opens every volume.

use vstd::prelude::*;
use vstd::seq_lib::lemma_seq_skip_of_skip;
use crate::bytes::{lemma_tag_stable, spec_tag, tag};
use crate::error::{ParseError, Parsed, carries, lemma_prefix_skip, parses_as, within};

verus! {

/// The format generation that a signature announces.
#[derive(PartialEq, Eq, Debug, Clone, Copy, Structural)]
pub enum SignatureBlock {
    RAR5,
    RAR4,
}

/// An earlier name of the signature.
pub type RarSignature = SignatureBlock;

/// The four bytes `Rar!` that open both signatures.
pub open spec fn rar_prefix() -> Seq<u8> {
    seq![0x52u8, 0x61u8, 0x72u8, 0x21u8]
}

/// What follows the common prefix in the signature of the current format.
pub open spec fn rar5_suffix() -> Seq<u8> {
    seq![0x1Au8, 0x07u8, 0x01u8, 0x00u8]
}

/// What follows the common prefix in the signature of the older format.
pub open spec fn rar4_suffix() -> Seq<u8> {
    seq![0x1Au8, 0x07u8, 0x00u8]
}

/// The common prefix followed by `suffix`; the value is the pair of both.
pub open spec fn spec_signature_with(s: Seq<u8>, suffix: Seq<u8>) -> Parsed<(Seq<u8>, Seq<u8>)> {
    match spec_tag(s, rar_prefix()) {
        Err(e) => Err(e),
        Ok((n0, prefix)) => match spec_tag(s.skip(n0 as int), suffix) {
            Err(e) => Err(e),
            Ok((n1, rest)) => Ok((n0 + n1, (prefix, rest))),
        },
    }
}

/// Either signature: the current format is tried first, and the older one
/// only where the window cannot be the current one.
#[verifier::opaque]
pub open spec fn spec_rar_signature(s: Seq<u8>) -> Parsed<SignatureBlock> {
    match spec_signature_with(s, rar5_suffix()) {
        Ok((n, _)) => Ok((n, SignatureBlock::RAR5)),
        Err(ParseError::Malformed) => match spec_signature_with(s, rar4_suffix()) {
            Ok((n, _)) => Ok((n, SignatureBlock::RAR4)),
            Err(e) => Err(e),
        },
        Err(e) => Err(e),
    }
}

/// A signature read from a window is read from every extension of it.
pub proof fn lemma_signature_with_stable(s: Seq<u8>, t: Seq<u8>, suffix: Seq<u8>)
    requires
        s.is_prefix_of(t),
    ensures
        carries(spec_signature_with(s, suffix), spec_signature_with(t, suffix)),
        within(spec_signature_with(s, suffix), s.len()),
{
    lemma_tag_stable(s, t, rar_prefix());
    if let Ok((n0, _)) = spec_tag(s, rar_prefix()) {
        lemma_prefix_skip(s, t, n0);
        lemma_tag_stable(s.skip(n0 as int), t.skip(n0 as int), suffix);
    }
}

/// The format recognised on a window is recognised on every extension.
pub proof fn lemma_rar_signature_stable(s: Seq<u8>, t: Seq<u8>)
    requires
        s.is_prefix_of(t),
    ensures
        carries(spec_rar_signature(s), spec_rar_signature(t)),
        within(spec_rar_signature(s), s.len()),
{
    reveal(spec_rar_signature);
    lemma_signature_with_stable(s, t, rar5_suffix());
    lemma_signature_with_stable(s, t, rar4_suffix());
}

/// Takes the common prefix `Rar!`.
pub fn rar_pre_signature(input: &[u8]) -> (r: Result<(&[u8], &[u8]), ParseError>)
    ensures
        match spec_tag(input@, rar_prefix()) {
            Ok((used, run)) => {
                &&& r matches Ok((rest, taken))
                &&& used <= input@.len()
                &&& rest@ == input@.skip(used as int)
                &&& taken@ == run
            },
            Err(e) => r matches Err(e2) && e2 == e,
        },
{
    let prefix: [u8; 4] = [0x52, 0x61, 0x72, 0x21];
    assert(prefix@ =~= rar_prefix());
    tag(input, prefix.as_slice())
}

/// Takes the common prefix and then `suffix`.
fn signature_with<'a>(input: &'a [u8], suffix: &[u8]) -> (r: Result<
    (&'a [u8], (&'a [u8], &'a [u8])),
    ParseError,
>)
    ensures
        match spec_signature_with(input@, suffix@) {
            Ok((used, (prefix, rest))) => {
                &&& r matches Ok((remainder, (a, b)))
                &&& used <= input@.len()
                &&& remainder@ == input@.skip(used as int)
                &&& a@ == prefix
                &&& b@ == rest
            },
            Err(e) => r matches Err(e2) && e2 == e,
        },
{
    broadcast use lemma_seq_skip_of_skip;

    let (i, a) = rar_pre_signature(input)?;
    let (i, b) = tag(i, suffix)?;
    Ok((i, (a, b)))
}

/// Takes the signature of the current format.
pub fn rar5_signature(input: &[u8]) -> (r: Result<(&[u8], (&[u8], &[u8])), ParseError>)
    ensures
        match spec_signature_with(input@, rar5_suffix()) {
            Ok((used, (prefix, rest))) => {
                &&& r matches Ok((remainder, (a, b)))
                &&& used <= input@.len()
                &&& remainder@ == input@.skip(used as int)
                &&& a@ == prefix
                &&& b@ == rest
            },
            Err(e) => r matches Err(e2) && e2 == e,
        },
{
    let suffix: [u8; 4] = [0x1A, 0x07, 0x01, 0x00];
    assert(suffix@ =~= rar5_suffix());
    signature_with(input, suffix.as_slice())
}

/// Takes the signature of the older format.
pub fn rar4_signature(input: &[u8]) -> (r: Result<(&[u8], (&[u8], &[u8])), ParseError>)
    ensures
        match spec_signature_with(input@, rar4_suffix()) {
            Ok((used, (prefix, rest))) => {
                &&& r matches Ok((remainder, (a, b)))
                &&& used <= input@.len()
                &&& remainder@ == input@.skip(used as int)
                &&& a@ == prefix
                &&& b@ == rest
            },
            Err(e) => r matches Err(e2) && e2 == e,
        },
{
    let suffix: [u8; 3] = [0x1A, 0x07, 0x00];
    assert(suffix@ =~= rar4_suffix());
    signature_with(input, suffix.as_slice())
}

/// Recognises the signature of a volume.
pub fn rar_signature(input: &[u8]) -> (r: Result<(&[u8], SignatureBlock), ParseError>)
    ensures
        parses_as(input@, r, spec_rar_signature(input@)),
{
    reveal(spec_rar_signature);
    match rar5_signature(input) {
        Ok((rest, _)) => Ok((rest, SignatureBlock::RAR5)),
        Err(ParseError::Malformed) => match rar4_signature(input) {
            Ok((rest, _)) => Ok((rest, SignatureBlock::RAR4)),
            Err(e) => Err(e),
        },
        Err(e) => Err(e),
    }
}

impl SignatureBlock {
    /// Recognises the signature of a volume.
    pub fn parse(inp: &[u8]) -> (r: Result<(&[u8], SignatureBlock), ParseError>)
        ensures
            parses_as(inp@, r, spec_rar_signature(inp@)),
    {
        rar_signature(inp)
    }
}

} // verus!
