//! Outcomes shared by the parsers and by the stream-level operations.

use vstd::prelude::*;

verus! {

/// Why a parser over a byte window did not produce a value.
#[derive(Debug, Clone, Copy, PartialEq, Eq, Structural)]
pub enum ParseError {
    /// The window ends before the structure does; more bytes may complete it.
    Incomplete,
    /// The bytes cannot be a prefix of any well-formed structure.
    Malformed,
    /// A well-formed block header was read, but of another block type.
    WrongType,
}

/// Errors of the archive-level operations.
#[derive(Debug, Clone, Copy, PartialEq, Eq, Structural)]
pub enum RarError {
    /// The stream ended while a structure was still expected.
    Truncated,
    /// A block or sub-record did not conform.
    ParseFailed,
    /// The block parsed is not of the type the caller requires.
    WrongType,
    /// A member uses a compression method other than "stored".
    UnsupportedCompression,
    /// The encryption record declares a version other than AES-256.
    UnsupportedEncryptionVersion,
    /// The cipher could not be keyed or rejected its input.
    DecryptFailed,
    /// The volume path does not end in `<digits>.rar`.
    VolumeNameMalformed,
    /// The next volume does not continue the current member.
    VolumeMismatch,
    /// The sink has received the member's full unpacked size.
    CapacityReached,
    /// The underlying stream or filesystem reported a failure.
    Io,
}

/// Abstract outcome of a parser: the number of bytes it accepts from the
/// front of the window together with the value, or the reason for failing.
pub type Parsed<T> = Result<(nat, T), ParseError>;

/// The executable result `r` is the image of the abstract outcome `expected`
/// on the window `input`: same error, or same value with the remainder being
/// the window without its accepted prefix.
pub open spec fn parses_as<T>(
    input: Seq<u8>,
    r: Result<(&[u8], T), ParseError>,
    expected: Parsed<T>,
) -> bool {
    match expected {
        Ok((used, value)) => {
            &&& r matches Ok((rest, v))
            &&& used <= input.len()
            &&& rest@ == input.skip(used as int)
            &&& v == value
        },
        Err(e) => r matches Err(e2) && e2 == e,
    }
}

/// As [`parses_as`], for values that are compared through their view.
pub open spec fn parses_as_view<T: View>(
    input: Seq<u8>,
    r: Result<(&[u8], T), ParseError>,
    expected: Parsed<T::V>,
) -> bool {
    match expected {
        Ok((used, value)) => {
            &&& r matches Ok((rest, v))
            &&& used <= input.len()
            &&& rest@ == input.skip(used as int)
            &&& v@ == value
        },
        Err(e) => r matches Err(e2) && e2 == e,
    }
}

/// How a parser failure surfaces from the buffered reader once no further
/// bytes can arrive.
pub open spec fn surfaced(e: ParseError) -> RarError {
    match e {
        ParseError::Incomplete => RarError::Truncated,
        ParseError::Malformed => RarError::ParseFailed,
        ParseError::WrongType => RarError::WrongType,
    }
}

/// The outcome on a window is carried to an extension of the window: unless
/// the parser wants more bytes, it decides the same on both.
pub open spec fn carries<T>(on_window: Parsed<T>, on_extension: Parsed<T>) -> bool {
    on_window == Err::<(nat, T), ParseError>(ParseError::Incomplete) || on_extension == on_window
}

/// A parser accepts no more bytes than a window of `len` bytes holds.
pub open spec fn within<T>(outcome: Parsed<T>, len: nat) -> bool {
    outcome matches Ok((n, _)) ==> n <= len
}

/// What remains of a window after `n` bytes begins what remains of any
/// extension of it after `n` bytes.
pub proof fn lemma_prefix_skip(s: Seq<u8>, t: Seq<u8>, n: nat)
    requires
        s.is_prefix_of(t),
        n <= s.len(),
    ensures
        s.skip(n as int).is_prefix_of(t.skip(n as int)),
{
    assert(s.skip(n as int) =~= t.skip(n as int).subrange(0, s.len() - n));
}

} // verus!
