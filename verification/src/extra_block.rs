//! The extra area of a file block: a run of size-prefixed, typed records
//! carrying optional attributes of the member.

use vstd::prelude::*;
use vstd::seq_lib::lemma_seq_skip_of_skip;
use crate::bytes::{le_u32, le_u64, spec_le_u32, spec_le_u64, spec_take, take};
use crate::error::{ParseError, Parsed, parses_as, parses_as_view};
use crate::util::{array12, array16, bit_at, get_bit_at};
use crate::vint::{lemma_vint_extent, spec_vint, vint};

verus! {

/// Record type of the file encryption record.
pub const RECORD_FILE_ENCRYPTION: u64 = 0x01;

/// Record type of the file time record.
pub const RECORD_FILE_TIME: u64 = 0x03;

/// Seconds between 1601-01-01 and 1970-01-01.
pub const WINDOWS_EPOCH_OFFSET: i64 = 11_644_473_600;

/// Number of 100 ns ticks in a second.
pub const WINDOWS_TICKS_PER_SECOND: u64 = 10_000_000;

/// The earliest time that a timestamp field can hold: the first tick of
/// the Windows epoch, 1601-01-01 00:00:00 UTC.
pub const MIN_TIMESTAMP: i64 = -11_644_473_600;

/// The latest time that a timestamp field can hold: the last tick that
/// 64 bits can count, in the year 60056.
pub const MAX_TIMESTAMP: i64 = 1_833_029_933_770;

/// `chrono::NaiveDateTime::from_timestamp_opt(secs, 0)`, read back with
/// `timestamp()`. chrono represents every instant of the years -262143 to
/// 262142, which hold all times that a timestamp field can hold; for those
/// it yields the instant, whose timestamp is documented to round-trip, so
/// that the seconds come back unchanged. Other seconds are left out.
#[verifier::external_body]
pub(crate) fn checked_timestamp(secs: i64) -> (r: Option<i64>)
    requires
        MIN_TIMESTAMP <= secs <= MAX_TIMESTAMP,
    ensures
        r == Some(secs),
{
    #[allow(deprecated)]
    chrono::NaiveDateTime::from_timestamp_opt(secs, 0).map(|t| t.and_utc().timestamp())
}

/// Times of a member, in seconds since 1970-01-01 00:00:00 UTC. A time that
/// is not recorded is absent.
#[derive(PartialEq, Eq, Debug, Clone, Copy, Structural)]
pub struct FileTimeBlock {
    pub modification_time: Option<i64>,
    pub creation_time: Option<i64>,
    pub access_time: Option<i64>,
}

impl Default for FileTimeBlock {
    fn default() -> (r: FileTimeBlock)
        ensures
            r == (FileTimeBlock {
                modification_time: None,
                creation_time: None,
                access_time: None,
            }),
    {
        FileTimeBlock { modification_time: None, creation_time: None, access_time: None }
    }
}

/// Seconds since the Unix epoch of a Windows FILETIME tick count.
pub open spec fn windows_ticks_to_unix(ticks: u64) -> i64 {
    ((ticks / WINDOWS_TICKS_PER_SECOND) as int - WINDOWS_EPOCH_OFFSET as int) as i64
}

/// One timestamp field: four bytes of Unix seconds, or eight bytes of
/// Windows ticks, both little-endian. Every such field holds a time that
/// the calendar represents, so that the time is present and equals the
/// seconds read or converted.
pub open spec fn spec_parse_timestamp(s: Seq<u8>, unix_time: bool) -> Parsed<Option<i64>> {
    if unix_time {
        match spec_le_u32(s) {
            Err(e) => Err(e),
            Ok((n, t)) => Ok((n, Some(t as i64))),
        }
    } else {
        match spec_le_u64(s) {
            Err(e) => Err(e),
            Ok((n, t)) => Ok((n, Some(windows_ticks_to_unix(t)))),
        }
    }
}

/// The seconds converted from any tick count lie between the earliest and
/// the latest time of a timestamp field.
pub proof fn lemma_windows_ticks_in_range(ticks: u64)
    ensures
        MIN_TIMESTAMP <= windows_ticks_to_unix(ticks) <= MAX_TIMESTAMP,
        windows_ticks_to_unix(ticks) == ticks / WINDOWS_TICKS_PER_SECOND - WINDOWS_EPOCH_OFFSET,
{
}

/// The timestamp field standing at the front of `s` when `present`.
pub open spec fn spec_optional_timestamp(s: Seq<u8>, present: bool, unix_time: bool) -> Parsed<
    Option<i64>,
> {
    if present {
        spec_parse_timestamp(s, unix_time)
    } else {
        Ok((0, None))
    }
}

/// The body of a file time record: a flags field, then the modification,
/// creation and access time, each present when its flag is set.
pub open spec fn spec_file_time(s: Seq<u8>) -> Parsed<FileTimeBlock> {
    match spec_vint(s) {
        Err(e) => Err(e),
        Ok((n0, flags)) => {
            let unix_time = bit_at(flags, 0);
            match spec_optional_timestamp(s.skip(n0 as int), bit_at(flags, 1), unix_time) {
                Err(e) => Err(e),
                Ok((n1, modification_time)) => match spec_optional_timestamp(
                    s.skip((n0 + n1) as int),
                    bit_at(flags, 2),
                    unix_time,
                ) {
                    Err(e) => Err(e),
                    Ok((n2, creation_time)) => match spec_optional_timestamp(
                        s.skip((n0 + n1 + n2) as int),
                        bit_at(flags, 3),
                        unix_time,
                    ) {
                        Err(e) => Err(e),
                        Ok((n3, access_time)) => Ok(
                            (
                                n0 + n1 + n2 + n3,
                                FileTimeBlock { modification_time, creation_time, access_time },
                            ),
                        ),
                    },
                },
            }
        },
    }
}

/// Reads a timestamp when `present`, and nothing otherwise.
fn optional_timestamp(input: &[u8], present: bool, unix_time: bool) -> (r: Result<
    (&[u8], Option<i64>),
    ParseError,
>)
    ensures
        parses_as(input@, r, spec_optional_timestamp(input@, present, unix_time)),
{
    if present {
        FileTimeBlock::parse_timestamp(input, unix_time)
    } else {
        assert(input@.skip(0) =~= input@);
        Ok((input, None))
    }
}

impl FileTimeBlock {
    /// Reads the body of a file time record.
    pub fn parse(input: &[u8]) -> (r: Result<(&[u8], FileTimeBlock), ParseError>)
        ensures
            parses_as(input@, r, spec_file_time(input@)),
    {
        broadcast use lemma_seq_skip_of_skip;

        let (inp, flags) = vint(input)?;
        let unix_time = get_bit_at(flags, 0);
        let (inp, modification_time) = optional_timestamp(inp, get_bit_at(flags, 1), unix_time)?;
        let (inp, creation_time) = optional_timestamp(inp, get_bit_at(flags, 2), unix_time)?;
        let (inp, access_time) = optional_timestamp(inp, get_bit_at(flags, 3), unix_time)?;
        Ok((inp, FileTimeBlock { modification_time, creation_time, access_time }))
    }

    /// Reads one timestamp in Unix or in Windows format.
    pub fn parse_timestamp(input: &[u8], unix_time: bool) -> (r: Result<
        (&[u8], Option<i64>),
        ParseError,
    >)
        ensures
            parses_as(input@, r, spec_parse_timestamp(input@, unix_time)),
    {
        if unix_time {
            let (i, t) = le_u32(input)?;
            Ok((i, checked_timestamp(t as i64)))
        } else {
            let (i, t) = le_u64(input)?;
            proof {
                lemma_windows_ticks_in_range(t);
            }
            let secs: i64 = (t / WINDOWS_TICKS_PER_SECOND) as i64 - WINDOWS_EPOCH_OFFSET;
            Ok((i, checked_timestamp(secs)))
        }
    }
}

/// Version of the encryption of a member.
#[derive(PartialEq, Eq, Debug, Clone, Copy, Structural)]
pub enum FileEncryptionVersion {
    Aes256,
    Unknown,
}

impl FileEncryptionVersion {
    /// The version that a version code stands for.
    pub open spec fn of_code(version: u64) -> FileEncryptionVersion {
        if version == 0 {
            FileEncryptionVersion::Aes256
        } else {
            FileEncryptionVersion::Unknown
        }
    }

    /// The version field of a file encryption record.
    pub open spec fn spec_parse(s: Seq<u8>) -> Parsed<FileEncryptionVersion> {
        match spec_vint(s) {
            Err(e) => Err(e),
            Ok((n, version)) => Ok((n, FileEncryptionVersion::of_code(version))),
        }
    }

    /// Reads the version field of a file encryption record.
    pub fn parse(input: &[u8]) -> (r: Result<(&[u8], FileEncryptionVersion), ParseError>)
        ensures
            parses_as(input@, r, FileEncryptionVersion::spec_parse(input@)),
    {
        let (inp, version) = vint(input)?;
        if version == 0 {
            Ok((inp, FileEncryptionVersion::Aes256))
        } else {
            Ok((inp, FileEncryptionVersion::Unknown))
        }
    }
}

impl Default for FileEncryptionVersion {
    fn default() -> (r: FileEncryptionVersion)
        ensures
            r == FileEncryptionVersion::Aes256,
    {
        FileEncryptionVersion::Aes256
    }
}

/// Flags of a file encryption record.
#[derive(PartialEq, Eq, Debug, Clone, Copy, Structural)]
pub struct FileEncryptionBlockFlags {
    /// Password check data is present.
    pub pw_check_data: bool,
    /// Checksums are tweaked with a key-dependent value.
    pub tweaked_crc: bool,
}

impl FileEncryptionBlockFlags {
    /// The flags that a bitfield stands for.
    pub open spec fn of_bits(flags: u64) -> FileEncryptionBlockFlags {
        FileEncryptionBlockFlags { pw_check_data: bit_at(flags, 0), tweaked_crc: bit_at(flags, 1) }
    }

    /// The flags field of a file encryption record.
    pub open spec fn spec_parse(s: Seq<u8>) -> Parsed<FileEncryptionBlockFlags> {
        match spec_vint(s) {
            Err(e) => Err(e),
            Ok((n, flags)) => Ok((n, FileEncryptionBlockFlags::of_bits(flags))),
        }
    }

    /// Reads the flags field of a file encryption record.
    pub fn parse(input: &[u8]) -> (r: Result<(&[u8], FileEncryptionBlockFlags), ParseError>)
        ensures
            parses_as(input@, r, FileEncryptionBlockFlags::spec_parse(input@)),
    {
        let (inp, flags) = vint(input)?;
        let febf = FileEncryptionBlockFlags {
            pw_check_data: get_bit_at(flags, 0),
            tweaked_crc: get_bit_at(flags, 1),
        };
        Ok((inp, febf))
    }
}

impl Default for FileEncryptionBlockFlags {
    fn default() -> (r: FileEncryptionBlockFlags)
        ensures
            r == (FileEncryptionBlockFlags { pw_check_data: false, tweaked_crc: false }),
    {
        FileEncryptionBlockFlags { pw_check_data: false, tweaked_crc: false }
    }
}

/// What is needed to decrypt a member.
#[derive(PartialEq, Eq, Debug, Clone, Copy)]
pub struct FileEncryptionBlock {
    pub version: FileEncryptionVersion,
    pub flags: FileEncryptionBlockFlags,
    /// Binary logarithm of the number of key derivation rounds.
    pub kdf_count: u8,
    pub salt: [u8; 16],
    /// Initialization vector of the cipher.
    pub init: [u8; 16],
    /// Password check material, zero when absent.
    pub pw_check: [u8; 12],
}

/// Mathematical content of a [`FileEncryptionBlock`].
pub struct FileEncryptionBlockView {
    pub version: FileEncryptionVersion,
    pub flags: FileEncryptionBlockFlags,
    pub kdf_count: u8,
    pub salt: Seq<u8>,
    pub init: Seq<u8>,
    pub pw_check: Seq<u8>,
}

impl View for FileEncryptionBlock {
    type V = FileEncryptionBlockView;

    open spec fn view(&self) -> FileEncryptionBlockView {
        FileEncryptionBlockView {
            version: self.version,
            flags: self.flags,
            kdf_count: self.kdf_count,
            salt: self.salt@,
            init: self.init@,
            pw_check: self.pw_check@,
        }
    }
}

impl Default for FileEncryptionBlock {
    fn default() -> (r: FileEncryptionBlock)
        ensures
            r.version == FileEncryptionVersion::Aes256,
            r.flags == (FileEncryptionBlockFlags { pw_check_data: false, tweaked_crc: false }),
            r.kdf_count == 0,
            r.salt@ == Seq::new(16, |i: int| 0u8),
            r.init@ == Seq::new(16, |i: int| 0u8),
            r.pw_check@ == Seq::new(12, |i: int| 0u8),
    {
        let r = FileEncryptionBlock {
            version: FileEncryptionVersion::Aes256,
            flags: FileEncryptionBlockFlags { pw_check_data: false, tweaked_crc: false },
            kdf_count: 0,
            salt: [0u8;16],
            init: [0u8;16],
            pw_check: [0u8;12],
        };
        assert(r.salt@ =~= Seq::new(16, |i: int| 0u8));
        assert(r.init@ =~= Seq::new(16, |i: int| 0u8));
        assert(r.pw_check@ =~= Seq::new(12, |i: int| 0u8));
        r
    }
}

/// The password check material standing at the front of `s` when `present`,
/// and twelve zero bytes otherwise.
pub open spec fn spec_pw_check(s: Seq<u8>, present: bool) -> Parsed<Seq<u8>> {
    if present {
        spec_take(s, 12)
    } else {
        Ok((0, Seq::new(12, |i: int| 0u8)))
    }
}

/// The body of a file encryption record: version, flags, one byte of key
/// derivation count, sixteen bytes of salt, sixteen bytes of initialization
/// vector and, when flagged, twelve bytes of password check material.
pub open spec fn spec_file_encryption(s: Seq<u8>) -> Parsed<FileEncryptionBlockView> {
    match FileEncryptionVersion::spec_parse(s) {
        Err(e) => Err(e),
        Ok((n0, version)) => match FileEncryptionBlockFlags::spec_parse(s.skip(n0 as int)) {
            Err(e) => Err(e),
            Ok((n1, flags)) => match spec_take(s.skip((n0 + n1) as int), 1) {
                Err(e) => Err(e),
                Ok((n2, kdf)) => match spec_take(s.skip((n0 + n1 + n2) as int), 16) {
                    Err(e) => Err(e),
                    Ok((n3, salt)) => match spec_take(s.skip((n0 + n1 + n2 + n3) as int), 16) {
                        Err(e) => Err(e),
                        Ok((n4, init)) => match spec_pw_check(
                            s.skip((n0 + n1 + n2 + n3 + n4) as int),
                            flags.pw_check_data,
                        ) {
                            Err(e) => Err(e),
                            Ok((n5, pw_check)) => Ok(
                                (
                                    n0 + n1 + n2 + n3 + n4 + n5,
                                    FileEncryptionBlockView {
                                        version,
                                        flags,
                                        kdf_count: kdf[0],
                                        salt,
                                        init,
                                        pw_check,
                                    },
                                ),
                            ),
                        },
                    },
                },
            },
        },
    }
}

impl FileEncryptionBlock {
    /// Reads the body of a file encryption record.
    pub fn parse(input: &[u8]) -> (r: Result<(&[u8], FileEncryptionBlock), ParseError>)
        ensures
            parses_as_view(input@, r, spec_file_encryption(input@)),
    {
        broadcast use lemma_seq_skip_of_skip;

        let (inp, version) = FileEncryptionVersion::parse(input)?;
        let (inp, flags) = FileEncryptionBlockFlags::parse(inp)?;
        let (inp, kdf_count) = take(inp, 1)?;
        let (inp, salt) = take(inp, 16)?;
        let (mut inp, init) = take(inp, 16)?;
        let mut pw_check = [0u8;12];
        assert(pw_check@ =~= Seq::new(12, |i: int| 0u8));
        if flags.pw_check_data {
            let (i, p) = take(inp, 12)?;
            pw_check = array12(p);
            inp = i;
        }
        let feb = FileEncryptionBlock {
            version,
            flags,
            kdf_count: kdf_count[0],
            salt: array16(salt),
            init: array16(init),
            pw_check,
        };
        Ok((inp, feb))
    }
}

/// The optional attributes of a member, gathered from its extra area.
#[derive(PartialEq, Eq, Debug, Clone, Copy)]
pub struct ExtraAreaBlock {
    pub file_time: Option<FileTimeBlock>,
    pub file_encryption: Option<FileEncryptionBlock>,
}

/// Mathematical content of an [`ExtraAreaBlock`].
pub struct ExtraAreaBlockView {
    pub file_time: Option<FileTimeBlock>,
    pub file_encryption: Option<FileEncryptionBlockView>,
}

impl ExtraAreaBlockView {
    /// No attribute recorded.
    pub open spec fn empty() -> ExtraAreaBlockView {
        ExtraAreaBlockView { file_time: None, file_encryption: None }
    }

    /// The attributes after a record of type `typ` with body `body` has been
    /// seen. A record of a known type that cannot be read leaves its
    /// attribute absent; a record of another type changes nothing.
    pub open spec fn with_record(self, typ: u64, body: Seq<u8>) -> ExtraAreaBlockView {
        if typ == RECORD_FILE_ENCRYPTION {
            ExtraAreaBlockView {
                file_time: self.file_time,
                file_encryption: match spec_file_encryption(body) {
                    Ok((_, f)) => Some(f),
                    Err(_) => None,
                },
            }
        } else if typ == RECORD_FILE_TIME {
            ExtraAreaBlockView {
                file_time: match spec_file_time(body) {
                    Ok((_, t)) => Some(t),
                    Err(_) => None,
                },
                file_encryption: self.file_encryption,
            }
        } else {
            self
        }
    }
}

impl View for ExtraAreaBlock {
    type V = ExtraAreaBlockView;

    open spec fn view(&self) -> ExtraAreaBlockView {
        ExtraAreaBlockView {
            file_time: self.file_time,
            file_encryption: match self.file_encryption {
                Some(f) => Some(f@),
                None => None,
            },
        }
    }
}

impl Default for ExtraAreaBlock {
    fn default() -> (r: ExtraAreaBlock)
        ensures
            r@ == ExtraAreaBlockView::empty(),
    {
        ExtraAreaBlock { file_time: None, file_encryption: None }
    }
}

/// One record of the extra area: its size, its type, and a body of one byte
/// less than the size. The result is the type and the body.
pub open spec fn spec_record(s: Seq<u8>) -> Parsed<(u64, Seq<u8>)> {
    match spec_vint(s) {
        Err(e) => Err(e),
        Ok((n0, size)) => match spec_vint(s.skip(n0 as int)) {
            Err(e) => Err(e),
            Ok((n1, typ)) => if size == 0 {
                Err(ParseError::Malformed)
            } else {
                match spec_take(s.skip((n0 + n1) as int), (size - 1) as nat) {
                    Err(e) => Err(e),
                    Ok((n2, body)) => Ok((n0 + n1 + n2, (typ, body))),
                }
            },
        },
    }
}

/// The attributes gathered from the records of `s`, starting from `acc`.
/// The records must fill `s` exactly.
pub open spec fn spec_extra_records(s: Seq<u8>, acc: ExtraAreaBlockView) -> Parsed<
    ExtraAreaBlockView,
>
    decreases s.len(),
{
    if s.len() == 0 {
        Ok((0, acc))
    } else {
        match spec_record(s) {
            Err(e) => Err(e),
            Ok((n, (typ, body))) => {
                proof {
                    lemma_record_extent(s);
                }
                match spec_extra_records(s.skip(n as int), acc.with_record(typ, body)) {
                    Err(e) => Err(e),
                    Ok((m, v)) => Ok((n + m, v)),
                }
            },
        }
    }
}

/// The attributes gathered from an extra area.
pub open spec fn spec_extra_area(s: Seq<u8>) -> Parsed<ExtraAreaBlockView> {
    spec_extra_records(s, ExtraAreaBlockView::empty())
}

/// A record takes at least its size field and never more than the window.
pub proof fn lemma_record_extent(s: Seq<u8>)
    ensures
        spec_record(s) matches Ok((n, _)) ==> 0 < n <= s.len(),
{
    lemma_vint_extent(s);
    if let Ok((n0, _)) = spec_vint(s) {
        lemma_vint_extent(s.skip(n0 as int));
    }
}

/// Reads one record of the extra area and returns its type and its body.
fn record(input: &[u8]) -> (r: Result<(&[u8], (u64, &[u8])), ParseError>)
    ensures
        match spec_record(input@) {
            Ok((used, (typ, body))) => {
                &&& r matches Ok((rest, (t, b)))
                &&& 0 < used <= input@.len()
                &&& rest@ == input@.skip(used as int)
                &&& t == typ
                &&& b@ == body
            },
            Err(e) => r matches Err(e2) && e2 == e,
        },
{
    broadcast use lemma_seq_skip_of_skip;

    proof {
        lemma_record_extent(input@);
    }
    let (i, size) = vint(input)?;
    let (i, typ) = vint(i)?;
    if size == 0 {
        return Err(ParseError::Malformed);
    }
    let (i, data) = take(i, size - 1)?;
    Ok((i, (typ, data)))
}

impl ExtraAreaBlock {
    /// Reads the records of an extra area. Unknown record types are skipped.
    pub fn parse(input: &[u8]) -> (r: Result<(&[u8], ExtraAreaBlock), ParseError>)
        ensures
            parses_as_view(input@, r, spec_extra_area(input@)),
    {
        broadcast use lemma_seq_skip_of_skip;

        let mut inp = input;
        let mut eab = ExtraAreaBlock { file_time: None, file_encryption: None };
        let ghost mut used: nat = 0;
        assert(input@.skip(0) =~= input@);
        while inp.len() > 0
            invariant
                used <= input@.len(),
                inp@ == input@.skip(used as int),
                spec_extra_area(input@) == match spec_extra_records(inp@, eab@) {
                    Err(e) => Err::<(nat, ExtraAreaBlockView), ParseError>(e),
                    Ok((m, v)) => Ok((used + m, v)),
                },
            decreases inp@.len(),
        {
            let (i, (typ, body)) = record(inp)?;
            proof {
                used = used + spec_record(inp@).unwrap().0;
            }
            if typ == RECORD_FILE_ENCRYPTION {
                eab.file_encryption = match FileEncryptionBlock::parse(body) {
                    Ok((_, f)) => Some(f),
                    Err(_) => None,
                };
            } else if typ == RECORD_FILE_TIME {
                eab.file_time = match FileTimeBlock::parse(body) {
                    Ok((_, t)) => Some(t),
                    Err(_) => None,
                };
            }
            inp = i;
        }
        Ok((inp, eab))
    }
}

} // verus!
