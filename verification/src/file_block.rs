//! File and service blocks: the description of one member of the archive.

use vstd::prelude::*;
use vstd::seq_lib::lemma_seq_skip_of_skip;
use vstd::slice::slice_to_vec;
use vstd::std_specs::convert::FromSpecImpl;
use crate::bytes::{be_u32, lemma_be_u32_stable, lemma_take_stable, spec_be_u32, spec_take, take};
use crate::error::{
    ParseError, Parsed, carries, lemma_prefix_skip, parses_as, parses_as_view, within,
};
use crate::extra_block::{ExtraAreaBlock, ExtraAreaBlockView, spec_extra_area};
use crate::header::{
    Flags, Header, Typ, header, lemma_header_extent, lemma_header_stable, spec_header,
};
use crate::util::{bit_at, get_bit_at};
use crate::vint::{lemma_vint_stable, spec_vint, vint};

verus! {

/// Flags of a file block.
#[derive(PartialEq, Eq, Debug, Clone, Copy, Structural)]
pub struct FileFlags {
    /// The member is a directory.
    pub directory: bool,
    /// A modification time in Unix format is present.
    pub time: bool,
    /// A checksum of the data is present.
    pub crc: bool,
    /// The unpacked size is unknown.
    pub unknown_size: bool,
}

impl FileFlags {
    /// All flags cleared.
    pub open spec fn none() -> FileFlags {
        FileFlags { directory: false, time: false, crc: false, unknown_size: false }
    }

    /// The flags that a bitfield stands for, bit 0 being the first.
    pub open spec fn of_bits(i: u64) -> FileFlags {
        FileFlags {
            directory: bit_at(i, 0),
            time: bit_at(i, 1),
            crc: bit_at(i, 2),
            unknown_size: bit_at(i, 3),
        }
    }

    /// All flags cleared.
    pub fn new() -> (r: FileFlags)
        ensures
            r == FileFlags::none(),
    {
        FileFlags { directory: false, time: false, crc: false, unknown_size: false }
    }
}

impl Default for FileFlags {
    fn default() -> (r: FileFlags)
        ensures
            r == FileFlags::none(),
    {
        FileFlags::new()
    }
}

impl FromSpecImpl<u64> for FileFlags {
    open spec fn obeys_from_spec() -> bool {
        true
    }

    open spec fn from_spec(i: u64) -> FileFlags {
        FileFlags::of_bits(i)
    }
}

impl From<u64> for FileFlags {
    fn from(i: u64) -> (r: FileFlags) {
        FileFlags {
            directory: get_bit_at(i, 0),
            time: get_bit_at(i, 1),
            crc: get_bit_at(i, 2),
            unknown_size: get_bit_at(i, 3),
        }
    }
}

/// The operating system that created a member.
#[derive(PartialEq, Eq, Debug, Clone, Copy, Structural)]
pub enum OsFlags {
    WINDOWS,
    UNIX,
    UNKNOWN,
}

impl OsFlags {
    /// The system that a tag stands for: 0 is Windows and 1 is Unix.
    pub open spec fn of_code(i: u64) -> OsFlags {
        if i == 0 {
            OsFlags::WINDOWS
        } else if i == 1 {
            OsFlags::UNIX
        } else {
            OsFlags::UNKNOWN
        }
    }
}

impl FromSpecImpl<u64> for OsFlags {
    open spec fn obeys_from_spec() -> bool {
        true
    }

    open spec fn from_spec(i: u64) -> OsFlags {
        OsFlags::of_code(i)
    }
}

impl From<u64> for OsFlags {
    fn from(i: u64) -> (r: OsFlags) {
        if i == 0 {
            return OsFlags::WINDOWS;
        }
        if i == 1 {
            return OsFlags::UNIX;
        }
        OsFlags::UNKNOWN
    }
}

impl Default for OsFlags {
    fn default() -> (r: OsFlags)
        ensures
            r == OsFlags::UNKNOWN,
    {
        OsFlags::UNKNOWN
    }
}

/// The compression method of a member.
#[derive(PartialEq, Eq, Debug, Clone, Copy, Structural)]
pub enum CompressionFlags {
    Save,
    Fastest,
    Fast,
    Normal,
    Good,
    Best,
    Unknown,
}

impl CompressionFlags {
    /// The method that a method code stands for.
    pub open spec fn of_code(i: u8) -> CompressionFlags {
        if i == 0 {
            CompressionFlags::Save
        } else if i == 1 {
            CompressionFlags::Fastest
        } else if i == 2 {
            CompressionFlags::Fast
        } else if i == 3 {
            CompressionFlags::Normal
        } else if i == 4 {
            CompressionFlags::Good
        } else if i == 5 {
            CompressionFlags::Best
        } else {
            CompressionFlags::Unknown
        }
    }
}

impl FromSpecImpl<u8> for CompressionFlags {
    open spec fn obeys_from_spec() -> bool {
        true
    }

    open spec fn from_spec(i: u8) -> CompressionFlags {
        CompressionFlags::of_code(i)
    }
}

impl From<u8> for CompressionFlags {
    fn from(i: u8) -> (r: CompressionFlags) {
        match i {
            0 => CompressionFlags::Save,
            1 => CompressionFlags::Fastest,
            2 => CompressionFlags::Fast,
            3 => CompressionFlags::Normal,
            4 => CompressionFlags::Good,
            5 => CompressionFlags::Best,
            _ => CompressionFlags::Unknown,
        }
    }
}

impl Default for CompressionFlags {
    fn default() -> (r: CompressionFlags)
        ensures
            r == CompressionFlags::Unknown,
    {
        CompressionFlags::Unknown
    }
}

/// The compression descriptor of a member.
#[derive(PartialEq, Eq, Debug, Clone, Copy, Structural)]
pub struct Compression {
    /// Version of the compression format.
    pub version: u8,
    /// The dictionary is shared with the preceding members.
    pub solid: bool,
    /// The compression method.
    pub flag: CompressionFlags,
    /// Binary logarithm of the dictionary size in units of 128 bytes.
    pub dictonary: u8,
}

/// 2 to the power `n`.
pub open spec fn pow2(n: nat) -> nat
    decreases n,
{
    if n == 0 {
        1
    } else {
        2 * pow2((n - 1) as nat)
    }
}

impl Compression {
    /// The descriptor held by a raw field: bits 0 to 3 are the dictionary
    /// exponent, bits 4 to 7 the method, bit 8 the solid flag and bits 9 to
    /// 14 the format version.
    pub open spec fn of_raw(raw: u64) -> Compression {
        Compression {
            version: ((raw / 512) % 64) as u8,
            solid: (raw / 256) % 2 == 1,
            flag: CompressionFlags::of_code(((raw / 16) % 16) as u8),
            dictonary: (raw % 16) as u8,
        }
    }

    /// The compression descriptor field.
    pub open spec fn spec_parse(s: Seq<u8>) -> Parsed<Compression> {
        match spec_vint(s) {
            Err(e) => Err(e),
            Ok((n, raw)) => Ok((n, Compression::of_raw(raw))),
        }
    }

    /// The largest dictionary exponent whose size fits in 32 bits.
    pub const MAX_DICTIONARY_EXPONENT: u8 = 24;

    /// Reads a compression descriptor.
    pub fn parse(inp: &[u8]) -> (r: Result<(&[u8], Compression), ParseError>)
        ensures
            parses_as(inp@, r, Compression::spec_parse(inp@)),
            r matches Ok((_, c)) ==> c.dictonary <= 15 && c.version <= 63,
    {
        let (rest, raw) = vint(inp)?;
        let c = Compression {
            version: ((raw / 512) % 64) as u8,
            solid: (raw / 256) % 2 == 1,
            flag: CompressionFlags::from(((raw / 16) % 16) as u8),
            dictonary: (raw % 16) as u8,
        };
        Ok((rest, c))
    }

    /// The dictionary size in bytes: 128 shifted left by the exponent.
    pub fn get_directonary(&self) -> (r: u32)
        requires
            self.dictonary <= Compression::MAX_DICTIONARY_EXPONENT,
        ensures
            r == 128 * pow2(self.dictonary as nat),
    {
        let mut r: u32 = 128;
        let mut i: u8 = 0;
        while i < self.dictonary
            invariant
                i <= self.dictonary <= 24,
                r == 128 * pow2(i as nat),
            decreases self.dictonary - i,
        {
            proof {
                lemma_pow2_monotonic((i + 1) as nat, 24);
                lemma_pow2_24();
            }
            r = r * 2;
            i += 1;
        }
        r
    }
}

proof fn lemma_pow2_monotonic(a: nat, b: nat)
    requires
        a <= b,
    ensures
        pow2(a) <= pow2(b),
    decreases b,
{
    if a < b {
        lemma_pow2_monotonic(a, (b - 1) as nat);
    }
}

proof fn lemma_pow2_24()
    ensures
        pow2(24) == 0x100_0000,
{
    reveal_with_fuel(pow2, 25);
}

impl Default for Compression {
    fn default() -> (r: Compression)
        ensures
            r == (Compression {
                version: 0,
                solid: false,
                flag: CompressionFlags::Unknown,
                dictonary: 0,
            }),
    {
        Compression { version: 0, solid: false, flag: CompressionFlags::Unknown, dictonary: 0 }
    }
}

/// A file or service block.
#[derive(PartialEq, Eq, Debug, Clone)]
pub struct FileBlock {
    pub head: Header,
    pub flags: FileFlags,
    /// Size of the member once unpacked.
    pub unpacked_size: u64,
    /// Attributes of the member, as the creating system wrote them.
    pub attributes: u64,
    /// Modification time in Unix seconds, zero when absent.
    pub mtime: u32,
    /// Checksum of the data, zero when absent.
    pub data_crc: u32,
    pub compression: Compression,
    pub creation_os: OsFlags,
    /// Length of the name in bytes.
    pub name_len: u64,
    /// The name as the raw bytes stored in the block.
    pub name: Vec<u8>,
    pub extra: ExtraAreaBlock,
}

/// A shorter name for a file block.
pub type File = FileBlock;

/// Mathematical content of a [`FileBlock`].
pub struct FileBlockView {
    pub head: Header,
    pub flags: FileFlags,
    pub unpacked_size: u64,
    pub attributes: u64,
    pub mtime: u32,
    pub data_crc: u32,
    pub compression: Compression,
    pub creation_os: OsFlags,
    pub name_len: u64,
    pub name: Seq<u8>,
    pub extra: ExtraAreaBlockView,
}

impl View for FileBlock {
    type V = FileBlockView;

    open spec fn view(&self) -> FileBlockView {
        FileBlockView {
            head: self.head,
            flags: self.flags,
            unpacked_size: self.unpacked_size,
            attributes: self.attributes,
            mtime: self.mtime,
            data_crc: self.data_crc,
            compression: self.compression,
            creation_os: self.creation_os,
            name_len: self.name_len,
            name: self.name@,
            extra: self.extra@,
        }
    }
}

impl Default for FileBlock {
    fn default() -> (r: FileBlock)
        ensures
            r@ == (FileBlockView {
                head: Header {
                    crc: 0,
                    size: 0,
                    typ: Typ::Unknown,
                    flags: Flags::none(),
                    extra_area_size: 0,
                    data_area_size: 0,
                },
                flags: FileFlags::none(),
                unpacked_size: 0,
                attributes: 0,
                mtime: 0,
                data_crc: 0,
                compression: Compression {
                    version: 0,
                    solid: false,
                    flag: CompressionFlags::Unknown,
                    dictonary: 0,
                },
                creation_os: OsFlags::UNKNOWN,
                name_len: 0,
                name: Seq::<u8>::empty(),
                extra: ExtraAreaBlockView::empty(),
            }),
    {
        FileBlock {
            head: Header::default(),
            flags: FileFlags::new(),
            unpacked_size: 0,
            attributes: 0,
            mtime: 0,
            data_crc: 0,
            compression: Compression::default(),
            creation_os: OsFlags::UNKNOWN,
            name_len: 0,
            name: Vec::new(),
            extra: ExtraAreaBlock::default(),
        }
    }
}

/// The big-endian 32-bit field standing at the front of `s` when `present`,
/// and zero otherwise.
pub open spec fn spec_optional_be_u32(s: Seq<u8>, present: bool) -> Parsed<u32> {
    if present {
        spec_be_u32(s)
    } else {
        Ok((0, 0))
    }
}

/// The sizes and times of a member: flags, unpacked size, attributes, then
/// the modification time and the data checksum where flagged.
#[derive(Clone, Copy)]
pub struct FileSizes {
    pub flags: FileFlags,
    pub unpacked_size: u64,
    pub attributes: u64,
    pub mtime: u32,
    pub data_crc: u32,
}

/// The fields of a file block from its flags to its data checksum.
pub open spec fn spec_file_sizes(s: Seq<u8>) -> Parsed<FileSizes> {
    match spec_vint(s) {
        Err(e) => Err(e),
        Ok((n0, raw_flags)) => match spec_vint(s.skip(n0 as int)) {
            Err(e) => Err(e),
            Ok((n1, unpacked_size)) => match spec_vint(s.skip((n0 + n1) as int)) {
                Err(e) => Err(e),
                Ok((n2, attributes)) => {
                    let flags = FileFlags::of_bits(raw_flags);
                    match spec_optional_be_u32(s.skip((n0 + n1 + n2) as int), flags.time) {
                        Err(e) => Err(e),
                        Ok((n3, mtime)) => match spec_optional_be_u32(
                            s.skip((n0 + n1 + n2 + n3) as int),
                            flags.crc,
                        ) {
                            Err(e) => Err(e),
                            Ok((n4, data_crc)) => Ok(
                                (
                                    n0 + n1 + n2 + n3 + n4,
                                    FileSizes { flags, unpacked_size, attributes, mtime, data_crc },
                                ),
                            ),
                        },
                    }
                },
            },
        },
    }
}

/// How a member is stored and named.
pub struct FileNaming {
    pub compression: Compression,
    pub creation_os: OsFlags,
    pub name_len: u64,
    pub name: Seq<u8>,
}

/// The fields of a file block from its compression descriptor to its name.
pub open spec fn spec_file_naming(s: Seq<u8>) -> Parsed<FileNaming> {
    match Compression::spec_parse(s) {
        Err(e) => Err(e),
        Ok((n0, compression)) => match spec_vint(s.skip(n0 as int)) {
            Err(e) => Err(e),
            Ok((n1, os)) => match spec_vint(s.skip((n0 + n1) as int)) {
                Err(e) => Err(e),
                Ok((n2, name_len)) => match spec_take(
                    s.skip((n0 + n1 + n2) as int),
                    name_len as nat,
                ) {
                    Err(e) => Err(e),
                    Ok((n3, name)) => Ok(
                        (
                            n0 + n1 + n2 + n3,
                            FileNaming {
                                compression,
                                creation_os: OsFlags::of_code(os),
                                name_len,
                                name,
                            },
                        ),
                    ),
                },
            },
        },
    }
}

/// The extra area announced by `head`: a region of the announced size whose
/// records must fill it. Without the flag there is no region.
pub open spec fn spec_file_extra(s: Seq<u8>, head: Header) -> Parsed<ExtraAreaBlockView> {
    if head.flags.extra_area {
        match spec_take(s, head.extra_area_size as nat) {
            Err(e) => Err(e),
            Ok((n, region)) => match spec_extra_area(region) {
                Err(_) => Err(ParseError::Malformed),
                Ok((_, extra)) => Ok((n, extra)),
            },
        }
    } else {
        Ok((0, ExtraAreaBlockView::empty()))
    }
}

/// A file or service block: the header, which must announce one of these
/// two types, then sizes, naming and the extra area.
#[verifier::opaque]
pub open spec fn spec_file(s: Seq<u8>) -> Parsed<FileBlockView> {
    match spec_header(s) {
        Err(e) => Err(e),
        Ok((n0, head)) => if head.typ != Typ::File && head.typ != Typ::Service {
            Err(ParseError::WrongType)
        } else {
            match spec_file_sizes(s.skip(n0 as int)) {
                Err(e) => Err(e),
                Ok((n1, sizes)) => match spec_file_naming(s.skip((n0 + n1) as int)) {
                    Err(e) => Err(e),
                    Ok((n2, naming)) => match spec_file_extra(
                        s.skip((n0 + n1 + n2) as int),
                        head,
                    ) {
                        Err(e) => Err(e),
                        Ok((n3, extra)) => Ok(
                            (
                                n0 + n1 + n2 + n3,
                                FileBlockView {
                                    head,
                                    flags: sizes.flags,
                                    unpacked_size: sizes.unpacked_size,
                                    attributes: sizes.attributes,
                                    mtime: sizes.mtime,
                                    data_crc: sizes.data_crc,
                                    compression: naming.compression,
                                    creation_os: naming.creation_os,
                                    name_len: naming.name_len,
                                    name: naming.name,
                                    extra,
                                },
                            ),
                        ),
                    },
                },
            }
        },
    }
}

/// The sizes read from a window are read from every extension of it.
pub proof fn lemma_file_sizes_stable(s: Seq<u8>, t: Seq<u8>)
    requires
        s.is_prefix_of(t),
    ensures
        carries(spec_file_sizes(s), spec_file_sizes(t)),
        within(spec_file_sizes(s), s.len()),
{
    lemma_vint_stable(s, t);
    if let Ok((n0, raw_flags)) = spec_vint(s) {
        let flags = FileFlags::of_bits(raw_flags);
        lemma_prefix_skip(s, t, n0);
        lemma_vint_stable(s.skip(n0 as int), t.skip(n0 as int));
        if let Ok((n1, _)) = spec_vint(s.skip(n0 as int)) {
            lemma_prefix_skip(s, t, n0 + n1);
            lemma_vint_stable(s.skip((n0 + n1) as int), t.skip((n0 + n1) as int));
            if let Ok((n2, _)) = spec_vint(s.skip((n0 + n1) as int)) {
                lemma_prefix_skip(s, t, n0 + n1 + n2);
                lemma_be_u32_stable(
                    s.skip((n0 + n1 + n2) as int),
                    t.skip((n0 + n1 + n2) as int),
                );
                if let Ok((n3, _)) = spec_optional_be_u32(
                    s.skip((n0 + n1 + n2) as int),
                    flags.time,
                ) {
                    lemma_prefix_skip(s, t, n0 + n1 + n2 + n3);
                    lemma_be_u32_stable(
                        s.skip((n0 + n1 + n2 + n3) as int),
                        t.skip((n0 + n1 + n2 + n3) as int),
                    );
                }
            }
        }
    }
}

/// The naming read from a window is read from every extension of it.
pub proof fn lemma_file_naming_stable(s: Seq<u8>, t: Seq<u8>)
    requires
        s.is_prefix_of(t),
    ensures
        carries(spec_file_naming(s), spec_file_naming(t)),
        within(spec_file_naming(s), s.len()),
{
    lemma_vint_stable(s, t);
    if let Ok((n0, _)) = Compression::spec_parse(s) {
        lemma_prefix_skip(s, t, n0);
        lemma_vint_stable(s.skip(n0 as int), t.skip(n0 as int));
        if let Ok((n1, _)) = spec_vint(s.skip(n0 as int)) {
            lemma_prefix_skip(s, t, n0 + n1);
            lemma_vint_stable(s.skip((n0 + n1) as int), t.skip((n0 + n1) as int));
            if let Ok((n2, name_len)) = spec_vint(s.skip((n0 + n1) as int)) {
                lemma_prefix_skip(s, t, n0 + n1 + n2);
                lemma_take_stable(
                    s.skip((n0 + n1 + n2) as int),
                    t.skip((n0 + n1 + n2) as int),
                    name_len as nat,
                );
            }
        }
    }
}

/// A file block read from a window is read from every extension of it.
pub proof fn lemma_file_stable(s: Seq<u8>, t: Seq<u8>)
    requires
        s.is_prefix_of(t),
    ensures
        carries(spec_file(s), spec_file(t)),
        within(spec_file(s), s.len()),
{
    reveal(spec_file);
    lemma_header_stable(s, t);
    if let Ok((n0, head)) = spec_header(s) {
        lemma_prefix_skip(s, t, n0);
        lemma_file_sizes_stable(s.skip(n0 as int), t.skip(n0 as int));
        if let Ok((n1, _)) = spec_file_sizes(s.skip(n0 as int)) {
            lemma_prefix_skip(s, t, n0 + n1);
            lemma_file_naming_stable(s.skip((n0 + n1) as int), t.skip((n0 + n1) as int));
            if let Ok((n2, _)) = spec_file_naming(s.skip((n0 + n1) as int)) {
                lemma_prefix_skip(s, t, n0 + n1 + n2);
                lemma_take_stable(
                    s.skip((n0 + n1 + n2) as int),
                    t.skip((n0 + n1 + n2) as int),
                    head.extra_area_size as nat,
                );
            }
        }
    }
}

/// A file block takes at least the five bytes of a header, announces one
/// of its two types and holds a name of the announced length.
pub proof fn lemma_file_extent(s: Seq<u8>)
    ensures
        spec_file(s) matches Ok((n, f)) ==> {
            &&& 5 <= n <= s.len()
            &&& f.head.typ == Typ::File || f.head.typ == Typ::Service
            &&& f.name.len() == f.name_len
        },
{
    reveal(spec_file);
    lemma_header_extent(s);
    lemma_file_stable(s, s);
}

/// Reads a big-endian 32-bit field when `present`, and nothing otherwise.
fn optional_be_u32(input: &[u8], present: bool) -> (r: Result<(&[u8], u32), ParseError>)
    ensures
        parses_as(input@, r, spec_optional_be_u32(input@, present)),
{
    if present {
        be_u32(input)
    } else {
        assert(input@.skip(0) =~= input@);
        Ok((input, 0))
    }
}

/// Reads the extra area that `head` announces.
fn file_extra<'a>(input: &'a [u8], head: &Header) -> (r: Result<
    (&'a [u8], ExtraAreaBlock),
    ParseError,
>)
    ensures
        parses_as_view(input@, r, spec_file_extra(input@, *head)),
{
    if head.flags.extra_area {
        let (rest, region) = take(input, head.extra_area_size)?;
        match ExtraAreaBlock::parse(region) {
            Ok((_, extra)) => Ok((rest, extra)),
            Err(_) => Err(ParseError::Malformed),
        }
    } else {
        assert(input@.skip(0) =~= input@);
        Ok((input, ExtraAreaBlock::default()))
    }
}

/// Reads the fields of a file block from its flags to its data checksum.
fn file_sizes(input: &[u8]) -> (r: Result<(&[u8], FileSizes), ParseError>)
    ensures
        parses_as(input@, r, spec_file_sizes(input@)),
{
    broadcast use lemma_seq_skip_of_skip;

    let (input, flags) = vint(input)?;
    let flags = FileFlags::from(flags);
    let (input, unpacked_size) = vint(input)?;
    let (input, attributes) = vint(input)?;
    let (input, mtime) = optional_be_u32(input, flags.time)?;
    let (input, data_crc) = optional_be_u32(input, flags.crc)?;
    Ok((input, FileSizes { flags, unpacked_size, attributes, mtime, data_crc }))
}

/// Reads the fields of a file block from its compression descriptor to its
/// name, which is returned as the last component.
fn file_naming(input: &[u8]) -> (r: Result<(&[u8], (Compression, OsFlags, u64, &[u8])), ParseError>)
    ensures
        match spec_file_naming(input@) {
            Ok((used, naming)) => {
                &&& r matches Ok((rest, (compression, creation_os, name_len, name)))
                &&& used <= input@.len()
                &&& rest@ == input@.skip(used as int)
                &&& compression == naming.compression
                &&& creation_os == naming.creation_os
                &&& name_len == naming.name_len
                &&& name@ == naming.name
            },
            Err(e) => r matches Err(e2) && e2 == e,
        },
{
    broadcast use lemma_seq_skip_of_skip;

    let (input, compression) = Compression::parse(input)?;
    let (input, os) = vint(input)?;
    let (input, name_len) = vint(input)?;
    let (input, name) = take(input, name_len)?;
    Ok((input, (compression, OsFlags::from(os), name_len, name)))
}

/// Reads a file or service block.
pub fn file(inp: &[u8]) -> (r: Result<(&[u8], FileBlock), ParseError>)
    ensures
        parses_as_view(inp@, r, spec_file(inp@)),
{
    broadcast use lemma_seq_skip_of_skip;

    reveal(spec_file);
    let (input, head) = header(inp)?;
    if head.typ != Typ::File && head.typ != Typ::Service {
        return Err(ParseError::WrongType);
    }
    let (input, sizes) = file_sizes(input)?;
    let (input, (compression, creation_os, name_len, name)) = file_naming(input)?;
    let (input, extra) = file_extra(input, &head)?;
    let file = FileBlock {
        head,
        flags: sizes.flags,
        unpacked_size: sizes.unpacked_size,
        attributes: sizes.attributes,
        mtime: sizes.mtime,
        data_crc: sizes.data_crc,
        compression,
        creation_os,
        name_len,
        name: slice_to_vec(name),
        extra,
    };
    Ok((input, file))
}

impl FileBlock {
    /// A copy of the block.
    pub fn duplicate(&self) -> (r: FileBlock)
        ensures
            r@ == self@,
    {
        FileBlock {
            head: self.head,
            flags: self.flags,
            unpacked_size: self.unpacked_size,
            attributes: self.attributes,
            mtime: self.mtime,
            data_crc: self.data_crc,
            compression: self.compression,
            creation_os: self.creation_os,
            name_len: self.name_len,
            name: slice_to_vec(self.name.as_slice()),
            extra: self.extra,
        }
    }

    /// Reads a file or service block.
    pub fn parse(inp: &[u8]) -> (r: Result<(&[u8], FileBlock), ParseError>)
        ensures
            parses_as_view(inp@, r, spec_file(inp@)),
    {
        file(inp)
    }
}

} // verus!
