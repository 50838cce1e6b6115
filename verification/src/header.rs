//! The framing header that precedes every block.

use vstd::prelude::*;
use vstd::std_specs::convert::FromSpecImpl;
use crate::bytes::{be_u32, lemma_be_u32_stable, spec_be_u32};
use vstd::seq_lib::lemma_seq_skip_of_skip;
use crate::error::{ParseError, Parsed, carries, lemma_prefix_skip, parses_as, within};
use crate::util::{bit_at, get_bit_at};
use crate::vint::{lemma_vint_extent, lemma_vint_stable, spec_vint, vint};

verus! {

/// The kind of a block, as announced by its header.
#[derive(PartialEq, Eq, Debug, Clone, Copy, Structural)]
pub enum Typ {
    MainArchive,
    File,
    Service,
    Encryption,
    EndArchive,
    Unknown,
}

impl Typ {
    /// The block type that a type code stands for.
    pub open spec fn of_code(i: u64) -> Typ {
        if i == 1 {
            Typ::MainArchive
        } else if i == 2 {
            Typ::File
        } else if i == 3 {
            Typ::Service
        } else if i == 4 {
            Typ::Encryption
        } else if i == 5 {
            Typ::EndArchive
        } else {
            Typ::Unknown
        }
    }
}

impl FromSpecImpl<u64> for Typ {
    open spec fn obeys_from_spec() -> bool {
        true
    }

    open spec fn from_spec(i: u64) -> Typ {
        Typ::of_code(i)
    }
}

impl From<u64> for Typ {
    fn from(i: u64) -> (r: Typ) {
        match i {
            1 => Typ::MainArchive,
            2 => Typ::File,
            3 => Typ::Service,
            4 => Typ::Encryption,
            5 => Typ::EndArchive,
            _ => Typ::Unknown,
        }
    }
}

impl Default for Typ {
    fn default() -> (r: Typ)
        ensures
            r == Typ::Unknown,
    {
        Typ::Unknown
    }
}

/// Flags of a block header.
#[derive(PartialEq, Eq, Debug, Clone, Copy, Structural)]
pub struct Flags {
    /// An extra area follows the header fields.
    pub extra_area: bool,
    /// A data area follows the header.
    pub data_area: bool,
    /// A block of unknown type carrying this flag is skipped.
    pub skip: bool,
    /// The data area continues from the previous volume.
    pub data_prev: bool,
    /// The data area continues in the next volume.
    pub data_next: bool,
    /// The block depends on the preceding file block.
    pub preceding: bool,
    /// A child block is preserved when its host block is modified.
    pub preserve: bool,
}

impl Flags {
    /// All flags cleared.
    pub open spec fn none() -> Flags {
        Flags {
            extra_area: false,
            data_area: false,
            skip: false,
            data_prev: false,
            data_next: false,
            preceding: false,
            preserve: false,
        }
    }

    /// The flags that a bitfield stands for, bit 0 being the first.
    pub open spec fn of_bits(i: u64) -> Flags {
        Flags {
            extra_area: bit_at(i, 0),
            data_area: bit_at(i, 1),
            skip: bit_at(i, 2),
            data_prev: bit_at(i, 3),
            data_next: bit_at(i, 4),
            preceding: bit_at(i, 5),
            preserve: bit_at(i, 6),
        }
    }

    /// All flags cleared.
    pub fn new() -> (r: Flags)
        ensures
            r == Flags::none(),
    {
        Flags {
            extra_area: false,
            data_area: false,
            skip: false,
            data_prev: false,
            data_next: false,
            preceding: false,
            preserve: false,
        }
    }
}

impl Default for Flags {
    fn default() -> (r: Flags)
        ensures
            r == Flags::none(),
    {
        Flags::new()
    }
}

impl FromSpecImpl<u64> for Flags {
    open spec fn obeys_from_spec() -> bool {
        true
    }

    open spec fn from_spec(i: u64) -> Flags {
        Flags::of_bits(i)
    }
}

impl From<u64> for Flags {
    fn from(i: u64) -> (r: Flags) {
        Flags {
            extra_area: get_bit_at(i, 0),
            data_area: get_bit_at(i, 1),
            skip: get_bit_at(i, 2),
            data_prev: get_bit_at(i, 3),
            data_next: get_bit_at(i, 4),
            preceding: get_bit_at(i, 5),
            preserve: get_bit_at(i, 6),
        }
    }
}

/// The header common to all blocks.
#[derive(PartialEq, Eq, Debug, Clone, Copy, Structural)]
pub struct Header {
    /// Checksum of the header bytes that follow it.
    pub crc: u32,
    /// Size of the header after the size field.
    pub size: u64,
    pub typ: Typ,
    pub flags: Flags,
    /// Size of the extra area, zero when there is none.
    pub extra_area_size: u64,
    /// Size of the data area, zero when there is none.
    pub data_area_size: u64,
}

impl Header {
    /// A header without extra or data area.
    pub fn new(crc: u32, size: u64, typ: Typ, flags: Flags) -> (r: Header)
        ensures
            r == (Header { crc, size, typ, flags, extra_area_size: 0, data_area_size: 0 }),
    {
        Header { crc, size, typ, flags, extra_area_size: 0, data_area_size: 0 }
    }
}

impl Default for Header {
    fn default() -> (r: Header)
        ensures
            r == (Header {
                crc: 0,
                size: 0,
                typ: Typ::Unknown,
                flags: Flags::none(),
                extra_area_size: 0,
                data_area_size: 0,
            }),
    {
        Header::new(0, 0, Typ::Unknown, Flags::new())
    }
}

/// The fixed part of a header: checksum, size, type and flags.
pub open spec fn spec_base_header(s: Seq<u8>) -> Parsed<Header> {
    match spec_be_u32(s) {
        Err(e) => Err(e),
        Ok((n0, crc)) => match spec_vint(s.skip(n0 as int)) {
            Err(e) => Err(e),
            Ok((n1, size)) => match spec_vint(s.skip((n0 + n1) as int)) {
                Err(e) => Err(e),
                Ok((n2, typ)) => match spec_vint(s.skip((n0 + n1 + n2) as int)) {
                    Err(e) => Err(e),
                    Ok((n3, flags)) => Ok(
                        (
                            n0 + n1 + n2 + n3,
                            Header {
                                crc,
                                size,
                                typ: Typ::of_code(typ),
                                flags: Flags::of_bits(flags),
                                extra_area_size: 0,
                                data_area_size: 0,
                            },
                        ),
                    ),
                },
            },
        },
    }
}

/// The whole header: the fixed part, then the size of the extra area and the
/// size of the data area, each present only when its flag is set.
#[verifier::opaque]
pub open spec fn spec_header(s: Seq<u8>) -> Parsed<Header> {
    match spec_base_header(s) {
        Err(e) => Err(e),
        Ok((n0, base)) => {
            let extra: Parsed<u64> = if base.flags.extra_area {
                spec_vint(s.skip(n0 as int))
            } else {
                Ok((0, 0))
            };
            match extra {
                Err(e) => Err(e),
                Ok((n1, extra_area_size)) => {
                    let data: Parsed<u64> = if base.flags.data_area {
                        spec_vint(s.skip((n0 + n1) as int))
                    } else {
                        Ok((0, 0))
                    };
                    match data {
                        Err(e) => Err(e),
                        Ok((n2, data_area_size)) => Ok(
                            (
                                n0 + n1 + n2,
                                Header {
                                    crc: base.crc,
                                    size: base.size,
                                    typ: base.typ,
                                    flags: base.flags,
                                    extra_area_size,
                                    data_area_size,
                                },
                            ),
                        ),
                    }
                },
            }
        },
    }
}

/// The fixed part of a header read from a window is read from every
/// extension of it.
pub proof fn lemma_base_header_stable(s: Seq<u8>, t: Seq<u8>)
    requires
        s.is_prefix_of(t),
    ensures
        carries(spec_base_header(s), spec_base_header(t)),
        within(spec_base_header(s), s.len()),
{
    lemma_be_u32_stable(s, t);
    if let Ok((n0, _)) = spec_be_u32(s) {
        lemma_prefix_skip(s, t, n0);
        lemma_vint_stable(s.skip(n0 as int), t.skip(n0 as int));
        if let Ok((n1, _)) = spec_vint(s.skip(n0 as int)) {
            lemma_prefix_skip(s, t, n0 + n1);
            lemma_vint_stable(s.skip((n0 + n1) as int), t.skip((n0 + n1) as int));
            if let Ok((n2, _)) = spec_vint(s.skip((n0 + n1) as int)) {
                lemma_prefix_skip(s, t, n0 + n1 + n2);
                lemma_vint_stable(
                    s.skip((n0 + n1 + n2) as int),
                    t.skip((n0 + n1 + n2) as int),
                );
            }
        }
    }
}

/// A header read from a window is read from every extension of it.
pub proof fn lemma_header_stable(s: Seq<u8>, t: Seq<u8>)
    requires
        s.is_prefix_of(t),
    ensures
        carries(spec_header(s), spec_header(t)),
        within(spec_header(s), s.len()),
{
    reveal(spec_header);
    lemma_base_header_stable(s, t);
    if let Ok((n0, base)) = spec_base_header(s) {
        lemma_prefix_skip(s, t, n0);
        lemma_vint_stable(s.skip(n0 as int), t.skip(n0 as int));
        let extra: Parsed<u64> = if base.flags.extra_area {
            spec_vint(s.skip(n0 as int))
        } else {
            Ok((0, 0))
        };
        if let Ok((n1, _)) = extra {
            lemma_prefix_skip(s, t, n0 + n1);
            lemma_vint_stable(s.skip((n0 + n1) as int), t.skip((n0 + n1) as int));
        }
    }
}

/// Reads the fixed part of a block header.
pub fn base_header(input: &[u8]) -> (r: Result<(&[u8], Header), ParseError>)
    ensures
        parses_as(input@, r, spec_base_header(input@)),
{
    broadcast use lemma_seq_skip_of_skip;

    let (i1, crc) = be_u32(input)?;
    let (i2, size) = vint(i1)?;
    let (i3, typ) = vint(i2)?;
    let (i4, flags) = vint(i3)?;
    Ok((i4, Header::new(crc, size, Typ::from(typ), Flags::from(flags))))
}

/// Reads a block header.
pub fn header(input: &[u8]) -> (r: Result<(&[u8], Header), ParseError>)
    ensures
        parses_as(input@, r, spec_header(input@)),
{
    broadcast use lemma_seq_skip_of_skip;

    reveal(spec_header);
    let (mut rest, mut bh) = base_header(input)?;
    if bh.flags.extra_area {
        let (i, s) = vint(rest)?;
        rest = i;
        bh.extra_area_size = s;
    }
    if bh.flags.data_area {
        let (i, s) = vint(rest)?;
        rest = i;
        bh.data_area_size = s;
    }
    Ok((rest, bh))
}

/// A header takes at least its checksum and its size field, which are so
/// read on their own.
pub proof fn lemma_header_extent(s: Seq<u8>)
    ensures
        spec_header(s) matches Ok((n, _)) ==> {
            &&& 5 <= n <= s.len()
            &&& spec_be_u32(s) is Ok
            &&& spec_vint(s.skip(4)) matches Ok((n1, _))
            &&& 4 + n1 <= n
        },
{
    reveal(spec_header);
    lemma_vint_extent(s.skip(4));
    if let Ok((n0, base)) = spec_base_header(s) {
        lemma_vint_extent(s.skip(n0 as int));
        if let Ok((n1, _)) = spec_vint(s.skip(4)) {
            lemma_vint_extent(s.skip((4 + n1) as int));
            if let Ok((n2, _)) = spec_vint(s.skip((4 + n1) as int)) {
                lemma_vint_extent(s.skip((4 + n1 + n2) as int));
            }
        }
        let extra: Parsed<u64> = if base.flags.extra_area {
            spec_vint(s.skip(n0 as int))
        } else {
            Ok((0, 0))
        };
        if let Ok((m1, _)) = extra {
            lemma_vint_extent(s.skip((n0 + m1) as int));
        }
    }
}

/// The header of the block at the front of `s`, and the number of bytes
/// of the block that follow the header fields.
///
/// A block extends over its checksum and size field, over as many bytes as
/// the size field says, over its extra area and over its data area. A size
/// that ends the block before the end of the header fields is malformed.
#[verifier::opaque]
pub open spec fn spec_block(s: Seq<u8>) -> Parsed<(Header, nat)> {
    match spec_header(s) {
        Err(e) => Err(e),
        Ok((n, head)) => match spec_vint(s.skip(4)) {
            Err(e) => Err(e),
            Ok((n1, _)) => {
                let extent = 4 + n1 + head.size + head.extra_area_size + head.data_area_size;
                if extent < n {
                    Err(ParseError::Malformed)
                } else {
                    Ok((n, (head, (extent - n) as nat)))
                }
            },
        },
    }
}

/// The header of a block takes at least five bytes.
pub proof fn lemma_block_extent(s: Seq<u8>)
    ensures
        spec_block(s) matches Ok((n, _)) ==> 5 <= n <= s.len(),
{
    reveal(spec_block);
    lemma_header_extent(s);
}

/// What follows the header in its block is counted in less than 67 bits.
pub proof fn lemma_block_bounded(s: Seq<u8>)
    ensures
        spec_block(s) matches Ok((_, (_, rest))) ==> rest <= 0x4_0000_0000_0000_0000,
{
    reveal(spec_block);
    lemma_header_extent(s);
    lemma_vint_extent(s.skip(4));
}

/// A block header read from a window, with the extent of its block, is
/// read from every extension of the window.
pub proof fn lemma_block_stable(s: Seq<u8>, t: Seq<u8>)
    requires
        s.is_prefix_of(t),
    ensures
        carries(spec_block(s), spec_block(t)),
        within(spec_block(s), s.len()),
{
    reveal(spec_block);
    lemma_header_stable(s, t);
    lemma_header_extent(s);
    if spec_header(s) is Ok {
        lemma_prefix_skip(s, t, 4);
        lemma_vint_stable(s.skip(4), t.skip(4));
    }
}

/// Reads a block header and computes what follows it in its block.
pub fn block(input: &[u8]) -> (r: Result<(&[u8], (Header, u128)), ParseError>)
    ensures
        match spec_block(input@) {
            Ok((used, (head, rest))) => {
                &&& r matches Ok((remainder, (h, n)))
                &&& used <= input@.len()
                &&& remainder@ == input@.skip(used as int)
                &&& h == head
                &&& n == rest
            },
            Err(e) => r matches Err(e2) && e2 == e,
        },
{
    broadcast use lemma_seq_skip_of_skip;

    reveal(spec_block);
    proof {
        lemma_header_extent(input@);
    }
    let (after, head) = header(input)?;
    let (i1, _) = be_u32(input)?;
    let (i2, _) = vint(i1)?;
    let used: usize = input.len() - after.len();
    let size_field: usize = i1.len() - i2.len();
    proof {
        lemma_vint_extent(i1@);
    }
    let extent: u128 = 4u128 + size_field as u128 + head.size as u128
        + head.extra_area_size as u128 + head.data_area_size as u128;
    if extent < used as u128 {
        return Err(ParseError::Malformed);
    }
    Ok((after, (head, extent - used as u128)))
}

} // verus!
