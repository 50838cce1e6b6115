//! The main archive block, present once in every volume.

use vstd::prelude::*;
use vstd::seq_lib::lemma_seq_skip_of_skip;
use vstd::std_specs::convert::FromSpecImpl;
use crate::bytes::{lemma_take_stable, spec_take, take};
use crate::error::{ParseError, Parsed, carries, lemma_prefix_skip, parses_as, within};
use crate::header::{Flags, Header, Typ, header, lemma_header_stable, spec_header};
use crate::util::{bit_at, get_bit_at};
use crate::vint::{lemma_vint_stable, spec_vint, vint};

verus! {

/// Flags of the main archive block.
#[derive(PartialEq, Eq, Debug, Clone, Copy, Structural)]
pub struct ArchiveFlags {
    /// The archive is part of a multi-volume set.
    pub multivolume: bool,
    /// The volume number field is present, as in all volumes but the first.
    pub volume_number: bool,
    /// The archive is solid.
    pub solid: bool,
    /// A recovery record is present.
    pub recovery: bool,
    /// The archive is locked.
    pub locked: bool,
}

impl ArchiveFlags {
    /// All flags cleared.
    pub open spec fn none() -> ArchiveFlags {
        ArchiveFlags {
            multivolume: false,
            volume_number: false,
            solid: false,
            recovery: false,
            locked: false,
        }
    }

    /// The flags that a bitfield stands for, bit 0 being the first.
    pub open spec fn of_bits(i: u64) -> ArchiveFlags {
        ArchiveFlags {
            multivolume: bit_at(i, 0),
            volume_number: bit_at(i, 1),
            solid: bit_at(i, 2),
            recovery: bit_at(i, 3),
            locked: bit_at(i, 4),
        }
    }

    /// All flags cleared.
    pub fn new() -> (r: ArchiveFlags)
        ensures
            r == ArchiveFlags::none(),
    {
        ArchiveFlags {
            multivolume: false,
            volume_number: false,
            solid: false,
            recovery: false,
            locked: false,
        }
    }
}

impl Default for ArchiveFlags {
    fn default() -> (r: ArchiveFlags)
        ensures
            r == ArchiveFlags::none(),
    {
        ArchiveFlags::new()
    }
}

impl FromSpecImpl<u64> for ArchiveFlags {
    open spec fn obeys_from_spec() -> bool {
        true
    }

    open spec fn from_spec(i: u64) -> ArchiveFlags {
        ArchiveFlags::of_bits(i)
    }
}

impl From<u64> for ArchiveFlags {
    fn from(i: u64) -> (r: ArchiveFlags) {
        ArchiveFlags {
            multivolume: get_bit_at(i, 0),
            volume_number: get_bit_at(i, 1),
            solid: get_bit_at(i, 2),
            recovery: get_bit_at(i, 3),
            locked: get_bit_at(i, 4),
        }
    }
}

/// The main archive block.
#[derive(PartialEq, Eq, Debug, Clone, Copy, Structural)]
pub struct ArchiveBlock {
    pub head: Header,
    pub flags: ArchiveFlags,
    /// Number of the volume within its set, zero for the first.
    pub volume_number: u64,
}

impl Default for ArchiveBlock {
    fn default() -> (r: ArchiveBlock)
        ensures
            r == (ArchiveBlock {
                head: Header {
                    crc: 0,
                    size: 0,
                    typ: Typ::Unknown,
                    flags: Flags::none(),
                    extra_area_size: 0,
                    data_area_size: 0,
                },
                flags: ArchiveFlags::none(),
                volume_number: 0,
            }),
    {
        ArchiveBlock { head: Header::default(), flags: ArchiveFlags::new(), volume_number: 0 }
    }
}

/// The variable-length integer standing at the front of `s` when `present`,
/// and zero otherwise.
pub open spec fn spec_optional_vint(s: Seq<u8>, present: bool) -> Parsed<u64> {
    if present {
        spec_vint(s)
    } else {
        Ok((0, 0))
    }
}

/// A region of `size` bytes when `present`, which is passed over.
pub open spec fn spec_optional_region(s: Seq<u8>, present: bool, size: u64) -> Parsed<()> {
    if present {
        match spec_take(s, size as nat) {
            Err(e) => Err(e),
            Ok((n, _)) => Ok((n, ())),
        }
    } else {
        Ok((0, ()))
    }
}

/// The main archive block: the header, which must announce this type, the
/// archive flags, the volume number where flagged, and the extra area, whose
/// content is passed over.
#[verifier::opaque]
pub open spec fn spec_archive(s: Seq<u8>) -> Parsed<ArchiveBlock> {
    match spec_header(s) {
        Err(e) => Err(e),
        Ok((n0, head)) => if head.typ != Typ::MainArchive {
            Err(ParseError::WrongType)
        } else {
            match spec_vint(s.skip(n0 as int)) {
                Err(e) => Err(e),
                Ok((n1, raw_flags)) => {
                    let flags = ArchiveFlags::of_bits(raw_flags);
                    match spec_optional_vint(s.skip((n0 + n1) as int), flags.volume_number) {
                        Err(e) => Err(e),
                        Ok((n2, volume_number)) => match spec_optional_region(
                            s.skip((n0 + n1 + n2) as int),
                            head.flags.extra_area,
                            head.extra_area_size,
                        ) {
                            Err(e) => Err(e),
                            Ok((n3, _)) => Ok(
                                (n0 + n1 + n2 + n3, ArchiveBlock { head, flags, volume_number }),
                            ),
                        },
                    }
                },
            }
        },
    }
}

/// An archive block read from a window is read from every extension of it.
pub proof fn lemma_archive_stable(s: Seq<u8>, t: Seq<u8>)
    requires
        s.is_prefix_of(t),
    ensures
        carries(spec_archive(s), spec_archive(t)),
        within(spec_archive(s), s.len()),
{
    reveal(spec_archive);
    lemma_header_stable(s, t);
    if let Ok((n0, head)) = spec_header(s) {
        lemma_prefix_skip(s, t, n0);
        lemma_vint_stable(s.skip(n0 as int), t.skip(n0 as int));
        if let Ok((n1, raw_flags)) = spec_vint(s.skip(n0 as int)) {
            let flags = ArchiveFlags::of_bits(raw_flags);
            lemma_prefix_skip(s, t, n0 + n1);
            lemma_vint_stable(s.skip((n0 + n1) as int), t.skip((n0 + n1) as int));
            if let Ok((n2, _)) = spec_optional_vint(
                s.skip((n0 + n1) as int),
                flags.volume_number,
            ) {
                lemma_prefix_skip(s, t, n0 + n1 + n2);
                lemma_take_stable(
                    s.skip((n0 + n1 + n2) as int),
                    t.skip((n0 + n1 + n2) as int),
                    head.extra_area_size as nat,
                );
            }
        }
    }
}

/// Reads a variable-length integer when `present`, and nothing otherwise.
fn optional_vint(input: &[u8], present: bool) -> (r: Result<(&[u8], u64), ParseError>)
    ensures
        parses_as(input@, r, spec_optional_vint(input@, present)),
{
    if present {
        vint(input)
    } else {
        assert(input@.skip(0) =~= input@);
        Ok((input, 0))
    }
}

/// Passes over a region of `size` bytes when `present`.
fn optional_region(input: &[u8], present: bool, size: u64) -> (r: Result<(&[u8], ()), ParseError>)
    ensures
        parses_as(input@, r, spec_optional_region(input@, present, size)),
{
    if present {
        let (rest, _) = take(input, size)?;
        Ok((rest, ()))
    } else {
        assert(input@.skip(0) =~= input@);
        Ok((input, ()))
    }
}

/// Reads the main archive block.
pub fn archive(inp: &[u8]) -> (r: Result<(&[u8], ArchiveBlock), ParseError>)
    ensures
        parses_as(inp@, r, spec_archive(inp@)),
{
    broadcast use lemma_seq_skip_of_skip;

    reveal(spec_archive);
    let (input, head) = header(inp)?;
    if head.typ != Typ::MainArchive {
        return Err(ParseError::WrongType);
    }
    let (input, flags) = vint(input)?;
    let flags = ArchiveFlags::from(flags);
    let (input, volume_number) = optional_vint(input, flags.volume_number)?;
    let (input, _) = optional_region(input, head.flags.extra_area, head.extra_area_size)?;
    Ok((input, ArchiveBlock { head, flags, volume_number }))
}

impl ArchiveBlock {
    /// Reads the main archive block.
    pub fn parse(inp: &[u8]) -> (r: Result<(&[u8], ArchiveBlock), ParseError>)
        ensures
            parses_as(inp@, r, spec_archive(inp@)),
    {
        archive(inp)
    }
}

} // verus!
