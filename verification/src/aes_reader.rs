//! The streaming decryption reader: plaintext of a member's data stream,
//! delivered in order, with seeking by re-reading the block before the
//! target as chaining value.

use vstd::prelude::*;
use vstd::slice::{slice_subrange, slice_to_vec};
use crate::cipher::{
    BLOCK_SIZE, cbc_decrypt, cbc_decrypt_blocks, chain_value, derive_key, lemma_cbc_len,
    lemma_cbc_prefix, lemma_cbc_resume, pbkdf2_hmac_sha256,
};
use crate::error::RarError;
use crate::extra_block::{FileEncryptionBlock, FileEncryptionBlockView, FileEncryptionVersion};
use crate::file_block::{FileBlock, FileBlockView};
use crate::rar_reader::{BUFFER_SIZE, RarReader};
use crate::util::array16;

verus! {

/// The largest key derivation count whose number of rounds fits in 32 bits.
pub const MAX_KDF_COUNT: u8 = 31;

/// The number of key derivation rounds for a count: two to its power.
pub open spec fn kdf_iterations(kdf_count: u8) -> u32 {
    1u32 << (kdf_count as u32)
}

/// The key of a member: PBKDF2 with HMAC-SHA-256 over the password and
/// the salt of the encryption record, with two to the power of the
/// record's count as number of rounds.
pub open spec fn member_key(feb: FileEncryptionBlockView, pwd: Seq<u8>) -> Seq<u8> {
    pbkdf2_hmac_sha256(pwd, feb.salt, kdf_iterations(feb.kdf_count))
}

/// Derives the key of a member from its encryption record and the
/// password. A count above [`MAX_KDF_COUNT`] cannot be honoured.
pub fn generate_key(feb: &FileEncryptionBlock, pwd: &[u8]) -> (r: Result<[u8; 32], RarError>)
    ensures
        match r {
            Ok(key) => feb.kdf_count <= MAX_KDF_COUNT && key@ == member_key(feb@, pwd@),
            Err(e) => e == RarError::DecryptFailed && feb.kdf_count > MAX_KDF_COUNT,
        },
{
    if feb.kdf_count > MAX_KDF_COUNT {
        return Err(RarError::DecryptFailed);
    }
    let count: u32 = feb.kdf_count as u32;
    assert(count < 32 ==> (1u32 << count) > 0) by (bit_vector);
    let iter_number: u32 = 1u32 << count;
    Ok(derive_key(pwd, feb.salt.as_slice(), iter_number))
}

/// How the plaintext of a stream is obtained.
pub enum Protection {
    /// The stream is the plaintext.
    Plain,
    /// The stream is encrypted with AES-256 in cipher block chaining mode.
    Aes256 { key: Seq<u8>, init: Seq<u8> },
}

/// The plaintext of `cipher` under `protection`. Of an encrypted stream
/// only whole blocks have plaintext.
pub open spec fn plaintext_of(protection: Protection, cipher: Seq<u8>) -> Seq<u8> {
    match protection {
        Protection::Plain => cipher,
        Protection::Aes256 { key, init } => cbc_decrypt(key, init, cipher),
    }
}

/// The protection that a member's encryption record and a password
/// establish, or the error with which the record is refused.
pub open spec fn protection_of(file: FileBlockView, pwd: Seq<u8>) -> Result<Protection, RarError> {
    match file.extra.file_encryption {
        None => Ok(Protection::Plain),
        Some(feb) => if feb.version != FileEncryptionVersion::Aes256 {
            Err(RarError::UnsupportedEncryptionVersion)
        } else if feb.kdf_count > MAX_KDF_COUNT {
            Err(RarError::DecryptFailed)
        } else {
            Ok(Protection::Aes256 { key: member_key(feb, pwd), init: feb.init })
        },
    }
}

/// A reader that decrypts the stream of an underlying reader.
pub struct RarAesReader {
    /// Source of the ciphertext.
    reader: RarReader,
    key: [u8; 32],
    /// Chaining value of the first block.
    init: [u8; 16],
    /// Chaining value of the next block to decrypt.
    iv: [u8; 16],
    /// Whether the stream is encrypted at all.
    active: bool,
    /// Ciphertext read from the source and not decrypted yet.
    buffer: Vec<u8>,
    /// Whether the source has reported its end.
    eof: bool,
    /// Plaintext bytes to drop from the next delivery.
    skip: usize,
}

impl RarAesReader {
    /// The whole stream of the source.
    pub closed spec fn cipher(self) -> Seq<u8> {
        self.reader.stream()
    }

    /// How the stream is protected.
    pub closed spec fn protection(self) -> Protection {
        if self.active {
            Protection::Aes256 { key: self.key@, init: self.init@ }
        } else {
            Protection::Plain
        }
    }

    /// The number of bytes read from the source so far.
    pub closed spec fn consumed(self) -> nat {
        self.reader.position()
    }

    /// Where the source stands after one more chunk was read from it.
    pub open spec fn consumed_after_chunk(self) -> nat {
        if self.consumed() + BUFFER_SIZE < self.cipher().len() {
            self.consumed() + BUFFER_SIZE as nat
        } else {
            self.cipher().len()
        }
    }

    /// The plaintext offset up to which ciphertext read as far as `consumed`
    /// can be delivered: all of it from a plain stream, and the whole blocks
    /// of an encrypted one.
    pub open spec fn deliverable(self, consumed: nat) -> nat {
        if self.protection() is Aes256 {
            (consumed / BLOCK_SIZE as nat) * BLOCK_SIZE as nat
        } else {
            consumed
        }
    }

    /// The number of plaintext bytes before the next byte to deliver.
    pub closed spec fn offset(self) -> nat {
        if self.active {
            (self.reader.position() - self.buffer@.len() + self.skip) as nat
        } else {
            self.reader.position()
        }
    }

    /// The plaintext of the whole stream.
    pub open spec fn plaintext(self) -> Seq<u8> {
        plaintext_of(self.protection(), self.cipher())
    }

    /// The plaintext that is still to be delivered.
    pub open spec fn pending(self) -> Seq<u8> {
        self.plaintext().skip(self.offset() as int)
    }

    /// The stream is encrypted and does not end on a block boundary.
    pub open spec fn has_partial_tail(self) -> bool {
        self.protection() is Aes256 && self.cipher().len() % (BLOCK_SIZE as nat) != 0
    }

    /// The residue holds exactly the ciphertext between the last decrypted
    /// block and the position of the source, the chaining value is the block
    /// before the residue, and the offset lies within the plaintext.
    closed spec fn linked(self) -> bool {
        &&& self.reader.in_bounds()
        &&& self.offset() <= self.plaintext().len()
        &&& if self.active {
            let start = self.reader.position() - self.buffer@.len();
            &&& self.buffer@.len() <= self.reader.position()
            &&& start % BLOCK_SIZE as int == 0
            &&& self.buffer@ == self.reader.stream().subrange(
                start,
                self.reader.position() as int,
            )
            &&& self.iv@ == chain_value(self.init@, self.reader.stream(), start)
            &&& self.skip < BLOCK_SIZE
            &&& self.eof ==> self.reader.remaining().len() == 0
        } else {
            self.buffer@.len() == 0 && self.skip == 0
        }
    }

    /// The reader is linked to its source and the residue is less than a
    /// block.
    pub closed spec fn wf(self) -> bool {
        self.linked() && self.buffer@.len() < BLOCK_SIZE
    }

    /// Reads the next chunk of the source into the residue, and notes the
    /// end of the source when there is none.
    fn fill(&mut self)
        requires
            old(self).linked(),
            old(self).active,
            !old(self).eof,
        ensures
            final(self).linked(),
            final(self).active,
            final(self).cipher() == old(self).cipher(),
            final(self).protection() == old(self).protection(),
            final(self).offset() == old(self).offset(),
            final(self).eof ==> final(self).buffer@.len() == old(self).buffer@.len(),
            !final(self).eof ==> final(self).reader.remaining().len() < old(
                self,
            ).reader.remaining().len(),
            final(self).reader.remaining().len() <= old(self).reader.remaining().len(),
            final(self).consumed() == old(self).consumed_after_chunk(),
    {
        let ghost stream = self.reader.stream();
        let ghost before = self.reader.position() as int;
        let ghost start = before - self.buffer@.len();
        let ghost residue = self.buffer@;
        let chunk = self.reader.read(BUFFER_SIZE);
        if chunk.len() == 0 {
            self.eof = true;
        } else {
            self.buffer.extend_from_slice(chunk.as_slice());
            proof {
                let pos = self.reader.position() as int;
                assert(pos == before + chunk@.len());
                assert(chunk@ =~= stream.subrange(before, pos));
                assert(residue + chunk@ =~= stream.subrange(start, pos));
                assert(self.buffer@ == stream.subrange(start, pos));
            }
        }
    }

    /// Decrypts the whole blocks of the residue and returns their plaintext
    /// without the bytes that a seek left to drop.
    fn deliver(&mut self) -> (out: Vec<u8>)
        requires
            old(self).linked(),
            old(self).active,
            old(self).buffer@.len() >= BLOCK_SIZE,
        ensures
            final(self).wf(),
            final(self).cipher() == old(self).cipher(),
            final(self).protection() == old(self).protection(),
            out@.len() > 0,
            out@.len() <= old(self).pending().len(),
            out@ == old(self).pending().take(out@.len() as int),
            final(self).offset() == old(self).offset() + out@.len(),
            final(self).consumed() == old(self).consumed(),
            final(self).offset() == final(self).deliverable(final(self).consumed()),
    {
        let ghost stream = self.reader.stream();
        let ghost at = self.reader.position() as int;
        let ghost start = at - self.buffer@.len();
        let whole: usize = self.buffer.len() / BLOCK_SIZE * BLOCK_SIZE;
        let part = slice_subrange(self.buffer.as_slice(), 0, whole);
        proof {
            assert(part@ =~= stream.subrange(start, start + whole));
            lemma_whole_blocks(self.key@, self.init@, stream, start, at, self.skip as int);
        }
        let (decrypted, next) = cbc_decrypt_blocks(&self.key, &self.iv, part);
        let residue = slice_to_vec(
            slice_subrange(self.buffer.as_slice(), whole, self.buffer.len()),
        );
        let out = slice_to_vec(slice_subrange(decrypted.as_slice(), self.skip, decrypted.len()));
        proof {
            assert(out@ =~= decrypted@.skip(self.skip as int));
            assert(residue@ =~= stream.subrange(start + whole, at));
        }
        self.iv = next;
        self.buffer = residue;
        self.skip = 0;
        out
    }

    /// At the end of the source, with less than a block of residue, no
    /// plaintext is pending, and the residue is the partial tail.
    proof fn lemma_at_end(self)
        requires
            self.linked(),
            self.active,
            self.eof,
            self.buffer@.len() < BLOCK_SIZE,
        ensures
            self.pending().len() == 0,
            self.buffer@.len() > 0 <==> self.has_partial_tail(),
            self.consumed() == self.cipher().len(),
            self.offset() == self.deliverable(self.consumed()),
    {
        lemma_cbc_len(self.key@, self.init@, self.reader.stream());
    }

    /// A decryption reader over what remains of `reader`, for the member
    /// `file` and the password `pwd`. Without an encryption record the
    /// bytes pass through as they are.
    pub fn new(reader: RarReader, file: &FileBlock, pwd: &[u8]) -> (r: Result<
        RarAesReader,
        RarError,
    >)
        ensures
            match protection_of(file@, pwd@) {
                Ok(protection) => {
                    &&& r matches Ok(a)
                    &&& a.wf()
                    &&& a.protection() == protection
                    &&& a.cipher() == reader.remaining()
                    &&& a.offset() == 0
                    &&& a.consumed() == 0
                },
                Err(e) => r matches Err(e2) && e2 == e,
            },
    {
        let mut source = reader;
        let rest = source.remaining_len();
        let data = source.read(rest);
        assert(data@ =~= reader.remaining());
        let fresh = RarReader::new(data);
        let mut key = [0u8;32];
        let mut init = [0u8;16];
        let mut active = false;
        match file.extra.file_encryption {
            Some(f) => {
                if f.version != FileEncryptionVersion::Aes256 {
                    return Err(RarError::UnsupportedEncryptionVersion);
                }
                key = generate_key(&f, pwd)?;
                init = f.init;
                active = true;
            },
            None => {},
        }
        let a = RarAesReader {
            reader: fresh,
            key,
            init,
            iv: init,
            active,
            buffer: Vec::new(),
            eof: false,
            skip: 0,
        };
        proof {
            assert(a.buffer@.len() == 0);
            assert(a.reader.stream().subrange(0, 0) =~= a.buffer@);
        }
        Ok(a)
    }

    /// Delivers the next plaintext bytes, in stream order: nothing at the
    /// end of the plaintext, and otherwise at least one byte. Once all
    /// whole blocks are delivered, a stream that ends within a block fails
    /// as truncated.
    pub fn read(&mut self) -> (r: Result<Vec<u8>, RarError>)
        requires
            old(self).wf(),
        ensures
            final(self).wf(),
            final(self).cipher() == old(self).cipher(),
            final(self).protection() == old(self).protection(),
            final(self).consumed() == old(self).consumed_after_chunk(),
            match r {
                Ok(chunk) => {
                    &&& chunk@.len() <= old(self).pending().len()
                    &&& chunk@ == old(self).pending().take(chunk@.len() as int)
                    &&& final(self).offset() == old(self).offset() + chunk@.len()
                    &&& final(self).offset() == final(self).deliverable(final(self).consumed())
                    &&& chunk@.len() == 0 <==> old(self).pending().len() == 0
                    &&& chunk@.len() == 0 ==> !old(self).has_partial_tail()
                },
                Err(e) => {
                    &&& e == RarError::Truncated
                    &&& old(self).pending().len() == 0
                    &&& old(self).has_partial_tail()
                    &&& final(self).offset() == old(self).offset()
                },
            },
    {
        if !self.active {
            let chunk = self.reader.read(BUFFER_SIZE);
            return Ok(chunk);
        }
        loop
            invariant
                self.linked(),
                self.active,
                self.buffer@.len() < BLOCK_SIZE,
                self.cipher() == old(self).cipher(),
                self.protection() == old(self).protection(),
                self.offset() == old(self).offset(),
                self.consumed() <= old(self).consumed_after_chunk(),
                self.consumed() == old(self).consumed() || (self.consumed()
                    == self.cipher().len() && self.consumed() == old(
                    self,
                ).consumed_after_chunk()),
                self.eof ==> self.consumed() == self.cipher().len(),
                self.consumed() <= self.cipher().len(),
            decreases
                    self.reader.remaining().len() + (if self.eof {
                        0nat
                    } else {
                        1nat
                    }),
        {
            if !self.eof {
                self.fill();
            }
            if self.buffer.len() >= BLOCK_SIZE {
                let out = self.deliver();
                return Ok(out);
            }
            if self.eof {
                proof {
                    self.lemma_at_end();
                }
                if self.buffer.len() > 0 {
                    return Err(RarError::Truncated);
                }
                return Ok(Vec::new());
            }
        }
    }

    /// Moves to `offset` bytes from the start of the plaintext, so that the
    /// next read begins there. An offset beyond the plaintext is refused as
    /// truncated, and the reader stays where it is.
    pub fn seek(&mut self, offset: u64) -> (r: Result<u64, RarError>)
        requires
            old(self).wf(),
        ensures
            final(self).wf(),
            final(self).cipher() == old(self).cipher(),
            final(self).protection() == old(self).protection(),
            match r {
                Ok(p) => {
                    &&& p == offset
                    &&& offset <= old(self).plaintext().len()
                    &&& final(self).offset() == offset
                    &&& final(self).consumed() == final(self).deliverable(offset as nat)
                },
                Err(e) => {
                    &&& e == RarError::Truncated
                    &&& offset > old(self).plaintext().len()
                    &&& final(self).offset() == old(self).offset()
                    &&& final(self).consumed() == old(self).consumed()
                },
            },
    {
        if !self.active {
            return match self.reader.seek_from_start(offset) {
                Ok(_) => Ok(offset),
                Err(e) => Err(e),
            };
        }
        proof {
            lemma_cbc_len(self.key@, self.init@, self.reader.stream());
        }
        let len = self.reader.len();
        let plain_len: usize = len / BLOCK_SIZE * BLOCK_SIZE;
        if offset > plain_len as u64 {
            return Err(RarError::Truncated);
        }
        let target = offset as usize;
        let block: usize = target / BLOCK_SIZE;
        let within: usize = target % BLOCK_SIZE;
        let ghost stream = self.reader.stream();
        if block == 0 {
            match self.reader.seek_from_start(0) {
                Ok(_) => {},
                Err(e) => {
                    return Err(e);
                },
            }
            self.iv = self.init;
        } else {
            let before: usize = (block - 1) * BLOCK_SIZE;
            match self.reader.seek_from_start(before as u64) {
                Ok(_) => {},
                Err(e) => {
                    return Err(e);
                },
            }
            let previous = self.reader.read(BLOCK_SIZE);
            assert(previous@ =~= stream.subrange(before as int, before + BLOCK_SIZE));
            self.iv = array16(previous.as_slice());
        }
        self.buffer = Vec::new();
        self.eof = false;
        self.skip = within;
        proof {
            let pos = self.reader.position() as int;
            assert(pos == block * BLOCK_SIZE);
            assert(self.buffer@ =~= stream.subrange(pos, pos));
        }
        Ok(offset)
    }
}

/// A reader that stands at the start of its plaintext, by construction or
/// after seeking to offset 0, delivers the same bytes as any other reader
/// at the start of the same plaintext: the first `n` bytes of it.
pub proof fn lemma_seek_start_reads_alike(fresh: RarAesReader, sought: RarAesReader, n: nat)
    requires
        fresh.plaintext() == sought.plaintext(),
        fresh.offset() == 0,
        sought.offset() == 0,
        n <= fresh.plaintext().len(),
    ensures
        sought.pending().take(n as int) == fresh.pending().take(n as int),
        fresh.pending().take(n as int) == fresh.plaintext().take(n as int),
{
    assert(fresh.plaintext().skip(0) =~= fresh.plaintext());
}

/// Decrypts the data of a member in one piece and cuts the plaintext to the
/// member's unpacked size. A member without encryption record, a count
/// that cannot be honoured and data that does not end on a block boundary
/// are refused.
pub fn decrypt(file: &FileBlock, data: &[u8], password: &[u8]) -> (r: Result<Vec<u8>, RarError>)
    ensures
        match protection_of(file@, password@) {
            Ok(Protection::Aes256 { key, init }) => if data@.len() % (BLOCK_SIZE as nat) != 0 {
                r matches Err(e) && e == RarError::DecryptFailed
            } else {
                &&& r matches Ok(out)
                &&& out@ == cbc_decrypt(key, init, data@).take(
                    if file@.unpacked_size < data@.len() {
                        file@.unpacked_size as int
                    } else {
                        data@.len() as int
                    },
                )
            },
            Ok(Protection::Plain) => r matches Err(e) && e == RarError::DecryptFailed,
            Err(e) => r matches Err(e2) && e2 == e,
        },
{
    let fe = match file.extra.file_encryption {
        Some(f) => f,
        None => {
            return Err(RarError::DecryptFailed);
        },
    };
    if fe.version != FileEncryptionVersion::Aes256 {
        return Err(RarError::UnsupportedEncryptionVersion);
    }
    let key = generate_key(&fe, password)?;
    if data.len() % BLOCK_SIZE != 0 {
        return Err(RarError::DecryptFailed);
    }
    let (mut result, _) = cbc_decrypt_blocks(&key, &fe.init, data);
    proof {
        lemma_cbc_len(key@, fe.init@, data@);
    }
    if file.unpacked_size < result.len() as u64 {
        result.truncate(file.unpacked_size as usize);
    }
    assert(result@ =~= cbc_decrypt(key@, fe.init@, data@).take(result@.len() as int));
    Ok(result)
}

/// Decrypting the whole blocks that lie between the block boundary `start`
/// and the position `at` of a stream, under the chaining value in force at
/// `start`, yields the plaintext of the stream from `start` on, and leaves
/// the chaining value in force behind them.
proof fn lemma_whole_blocks(
    key: Seq<u8>,
    init: Seq<u8>,
    stream: Seq<u8>,
    start: int,
    at: int,
    skip: int,
)
    requires
        0 <= start <= at <= stream.len(),
        start % (BLOCK_SIZE as int) == 0,
        at - start >= BLOCK_SIZE,
        0 <= skip < BLOCK_SIZE,
    ensures
        ({
            let whole = (at - start) / (BLOCK_SIZE as int) * (BLOCK_SIZE as int);
            let part = stream.subrange(start, start + whole);
            let iv = chain_value(init, stream, start);
            let plain = cbc_decrypt(key, init, stream);
            let decrypted = cbc_decrypt(key, iv, part);
            &&& BLOCK_SIZE <= whole <= at - start
            &&& whole % (BLOCK_SIZE as int) == 0
            &&& start + whole == at / (BLOCK_SIZE as int) * (BLOCK_SIZE as int)
            &&& start + whole <= plain.len()
            &&& decrypted.len() == whole
            &&& decrypted.skip(skip) == plain.skip(start + skip).take(whole - skip)
            &&& chain_value(iv, part, whole) == chain_value(init, stream, start + whole)
        }),
{
    let whole = (at - start) / (BLOCK_SIZE as int) * (BLOCK_SIZE as int);
    let part = stream.subrange(start, start + whole);
    let iv = chain_value(init, stream, start);
    let plain = cbc_decrypt(key, init, stream);
    let from = stream.skip(start);
    lemma_cbc_len(key, init, stream);
    lemma_cbc_resume(key, init, stream, start);
    lemma_cbc_prefix(key, iv, from, whole);
    lemma_cbc_len(key, iv, from);
    lemma_cbc_len(key, iv, part);
    assert(part =~= from.take(whole));
    assert(cbc_decrypt(key, iv, part) == plain.skip(start).take(whole));
    assert(plain.skip(start).take(whole).skip(skip) =~= plain.skip(start + skip).take(
        whole - skip,
    ));
    assert(chain_value(iv, part, whole) =~= chain_value(init, stream, start + whole));
}

} // verus!
