//! The block that closes a volume.

use vstd::prelude::*;
use vstd::seq_lib::lemma_seq_skip_of_skip;
use crate::error::{ParseError, Parsed, carries, lemma_prefix_skip, parses_as, within};
use crate::header::{Flags, Header, Typ, header, lemma_header_stable, spec_header};
use crate::util::{bit_at, get_bit_at};
use crate::vint::{lemma_vint_stable, spec_vint, vint};

verus! {

/// The end-of-archive block.
#[derive(PartialEq, Eq, Debug, Clone, Copy, Structural)]
pub struct EndBlock {
    pub head: Header,
    /// No further volume follows this one.
    pub last_volume: bool,
}

impl Default for EndBlock {
    fn default() -> (r: EndBlock)
        ensures
            r == (EndBlock {
                head: Header {
                    crc: 0,
                    size: 0,
                    typ: Typ::Unknown,
                    flags: Flags::none(),
                    extra_area_size: 0,
                    data_area_size: 0,
                },
                last_volume: false,
            }),
    {
        EndBlock { head: Header::default(), last_volume: false }
    }
}

/// The end block: the header, which must announce this type, and a flags
/// field whose bit 0, when clear, marks the last volume.
#[verifier::opaque]
pub open spec fn spec_end_block(s: Seq<u8>) -> Parsed<EndBlock> {
    match spec_header(s) {
        Err(e) => Err(e),
        Ok((n0, head)) => if head.typ != Typ::EndArchive {
            Err(ParseError::WrongType)
        } else {
            match spec_vint(s.skip(n0 as int)) {
                Err(e) => Err(e),
                Ok((n1, flags)) => Ok((n0 + n1, EndBlock { head, last_volume: !bit_at(flags, 0) })),
            }
        },
    }
}

/// An end block read from a window is read from every extension of it.
pub proof fn lemma_end_block_stable(s: Seq<u8>, t: Seq<u8>)
    requires
        s.is_prefix_of(t),
    ensures
        carries(spec_end_block(s), spec_end_block(t)),
        within(spec_end_block(s), s.len()),
{
    reveal(spec_end_block);
    lemma_header_stable(s, t);
    if let Ok((n0, _)) = spec_header(s) {
        lemma_prefix_skip(s, t, n0);
        lemma_vint_stable(s.skip(n0 as int), t.skip(n0 as int));
    }
}

/// Reads the end block.
pub fn end_block(inp: &[u8]) -> (r: Result<(&[u8], EndBlock), ParseError>)
    ensures
        parses_as(inp@, r, spec_end_block(inp@)),
{
    broadcast use lemma_seq_skip_of_skip;

    reveal(spec_end_block);
    let (input, head) = header(inp)?;
    if head.typ != Typ::EndArchive {
        return Err(ParseError::WrongType);
    }
    let (input, lv) = vint(input)?;
    let last_volume = !get_bit_at(lv, 0);
    Ok((input, EndBlock { head, last_volume }))
}

impl EndBlock {
    /// Reads the end block.
    pub fn parse(inp: &[u8]) -> (r: Result<(&[u8], EndBlock), ParseError>)
        ensures
            parses_as(inp@, r, spec_end_block(inp@)),
    {
        end_block(inp)
    }
}

} // verus!
