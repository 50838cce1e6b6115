//! Extraction of one member: its data stream is reassembled across
//! volumes, decrypted where needed, and pumped into a sink.

use vstd::prelude::*;
use crate::aes_reader::{MAX_KDF_COUNT, RarAesReader, member_key, plaintext_of, protection_of};
use crate::archive_block::spec_archive;
use crate::blocks::{read_archive, read_file, read_signature};
use crate::cipher::{BLOCK_SIZE, cbc_decrypt, lemma_cbc_len};
use crate::extra_block::FileEncryptionVersion;
use crate::error::{RarError, surfaced};
use crate::file_block::{CompressionFlags, FileBlock, FileBlockView, spec_file};
use crate::file_writer::{FileWriter, min_len};
use crate::rar_reader::RarReader;
use crate::sig_block::{SignatureBlock, spec_rar_signature};
use crate::util::bytes_eq;

verus! {

/// What extraction writes for a member whose reassembled data area is
/// `data`: the plaintext, cut to the unpacked size.
///
/// Only stored members can be extracted. An encrypted stream that ends
/// within a block is truncated, unless the unpacked size is reached before
/// the partial block is.
pub open spec fn extracted(file: FileBlockView, data: Seq<u8>, pwd: Seq<u8>) -> Result<
    Seq<u8>,
    RarError,
> {
    if file.compression.flag != CompressionFlags::Save {
        Err(RarError::UnsupportedCompression)
    } else {
        match protection_of(file, pwd) {
            Err(e) => Err(e),
            Ok(protection) => {
                let plain = plaintext_of(protection, data);
                if protection is Aes256 && data.len() % (BLOCK_SIZE as nat) != 0 && plain.len()
                    <= file.unpacked_size {
                    Err(RarError::Truncated)
                } else {
                    Ok(plain.take(min_len(file.unpacked_size as int, plain.len() as int)))
                }
            },
        }
    }
}

/// Of a stored member without encryption, extraction writes the data as it
/// is, up to the unpacked size: as many bytes as the smaller of the unpacked
/// size and the size of the data area.
pub proof fn lemma_stored_member_output(file: FileBlockView, data: Seq<u8>, pwd: Seq<u8>)
    requires
        file.compression.flag == CompressionFlags::Save,
        file.extra.file_encryption is None,
    ensures
        extracted(file, data, pwd) == Ok::<Seq<u8>, RarError>(
            data.take(min_len(file.unpacked_size as int, data.len() as int)),
        ),
        extracted(file, data, pwd).unwrap().len() == min_len(
            file.unpacked_size as int,
            data.len() as int,
        ),
{
}

/// Of a stored member that is encrypted with AES-256, extraction writes the
/// plaintext of the whole data area, decrypted as one chained stream under
/// the key derived from the password with two to the power of the record's
/// count as number of rounds, and cut to the unpacked size.
pub proof fn lemma_encrypted_member_output(file: FileBlockView, data: Seq<u8>, pwd: Seq<u8>)
    requires
        file.compression.flag == CompressionFlags::Save,
        file.extra.file_encryption matches Some(feb) && feb.version
            == FileEncryptionVersion::Aes256 && feb.kdf_count <= MAX_KDF_COUNT,
        data.len() % (BLOCK_SIZE as nat) == 0,
    ensures
        ({
            let feb = file.extra.file_encryption.unwrap();
            let plain = cbc_decrypt(member_key(feb, pwd), feb.init, data);
            &&& plain.len() == data.len()
            &&& extracted(file, data, pwd) == Ok::<Seq<u8>, RarError>(
                plain.take(min_len(file.unpacked_size as int, data.len() as int)),
            )
        }),
{
    let feb = file.extra.file_encryption.unwrap();
    lemma_cbc_len(member_key(feb, pwd), feb.init, data);
}

/// Extraction never writes more than the unpacked size, and nothing at all
/// for a member of unpacked size zero.
pub proof fn lemma_output_bounded(file: FileBlockView, data: Seq<u8>, pwd: Seq<u8>)
    ensures
        extracted(file, data, pwd) matches Ok(bytes) ==> {
            &&& bytes.len() <= file.unpacked_size
            &&& file.unpacked_size == 0 ==> bytes == Seq::<u8>::empty()
        },
{
    if let Ok(bytes) = extracted(file, data, pwd) {
        if file.unpacked_size == 0 {
            assert(bytes =~= Seq::<u8>::empty());
        }
    }
}

/// Pumps the plaintext of `source` into `sink` until the plaintext ends or
/// the sink is full.
fn pump(source: &mut RarAesReader, sink: &mut FileWriter) -> (r: Result<(), RarError>)
    requires
        old(source).wf(),
        old(source).offset() == 0,
        old(sink).wf(),
        old(sink).written().len() == 0,
    ensures
        final(sink).wf(),
        final(sink).member() == old(sink).member(),
        final(source).wf(),
        ({
            let plain = old(source).plaintext();
            let partial = old(source).has_partial_tail();
            let capacity = old(sink).capacity();
            if partial && plain.len() <= capacity {
                r matches Err(e) && e == RarError::Truncated
            } else {
                &&& r is Ok
                &&& final(sink).written() == plain.take(
                    min_len(capacity as int, plain.len() as int),
                )
            }
        }),
{
    let ghost plain = source.plaintext();
    assert(sink.written() =~= plain.take(0));
    loop
        invariant
            source.wf(),
            sink.wf(),
            sink.member() == old(sink).member(),
            source.cipher() == old(source).cipher(),
            source.protection() == old(source).protection(),
            plain == source.plaintext(),
            source.offset() <= plain.len(),
            sink.written() == plain.take(source.offset() as int),
        decreases plain.len() - source.offset(),
    {
        let ghost before = source.offset() as int;
        let chunk = match source.read() {
            Ok(chunk) => chunk,
            Err(e) => {
                assert(plain.take(before) =~= plain);
                return Err(e);
            },
        };
        if chunk.len() == 0 {
            assert(plain.take(before) =~= plain);
            return Ok(());
        }
        proof {
            assert(plain.take(before) + plain.skip(before).take(chunk@.len() as int)
                =~= plain.take(before + chunk@.len()));
        }
        match sink.write_all(chunk.as_slice()) {
            Ok(_) => {},
            Err(_) => {
                proof {
                    let room = sink.capacity() - before;
                    assert(plain.take(before) + chunk@.take(room) =~= plain.take(
                        sink.capacity() as int,
                    ));
                }
                return Ok(());
            },
        }
    }
}

/// Extracts the member `file` from the next `data_area_size` bytes of
/// `buffer`, which it consumes, into a new sink.
///
/// A stream that holds fewer bytes and a method other than "stored" are
/// refused before any byte is consumed.
pub fn extract(file: &FileBlock, buffer: &mut RarReader, data_area_size: u64, password: &[u8]) -> (r:
    Result<FileWriter, RarError>)
    ensures
        final(buffer).stream() == old(buffer).stream(),
        final(buffer).in_bounds(),
        ({
            let all = old(buffer).remaining();
            let data = all.take(data_area_size as int);
            if data_area_size > all.len() {
                &&& r matches Err(e)
                &&& e == RarError::Truncated
                &&& final(buffer).position() == old(buffer).position()
            } else if file@.compression.flag != CompressionFlags::Save {
                &&& r matches Err(e)
                &&& e == RarError::UnsupportedCompression
                &&& final(buffer).position() == old(buffer).position()
            } else {
                &&& final(buffer).position() == old(buffer).position() + data_area_size
                &&& final(buffer).remaining() == all.skip(data_area_size as int)
                &&& match extracted(file@, data, password@) {
                    Ok(bytes) => {
                        &&& r matches Ok(sink)
                        &&& sink.wf()
                        &&& sink.member() == file@
                        &&& sink.written() == bytes
                    },
                    Err(e) => r matches Err(e2) && e2 == e,
                }
            }
        }),
{
    let rest = buffer.remaining_len();
    if data_area_size > rest as u64 {
        return Err(RarError::Truncated);
    }
    if file.compression.flag != CompressionFlags::Save {
        return Err(RarError::UnsupportedCompression);
    }
    let data = buffer.read(data_area_size as usize);
    let ghost area = data@;
    let fresh = RarReader::new(data);
    assert(fresh.remaining() =~= area);
    let mut source = RarAesReader::new(fresh, file, password)?;
    let mut sink = FileWriter::new(file.duplicate());
    assert(source.plaintext() == plaintext_of(source.protection(), area));
    match pump(&mut source, &mut sink) {
        Ok(_) => Ok(sink),
        Err(e) => Err(e),
    }
}

/// What a further volume contributes to a member: the file block that
/// continues it, and the stream that starts with the member's data there.
pub struct Continuation {
    pub file: FileBlockView,
    pub stream: Seq<u8>,
}

/// The continuation of the member called `name` in the volume `volume`,
/// expected to carry the volume number `number`.
///
/// The volume opens with a signature of the current format, an archive
/// block with the expected number and a file block of the same name that
/// continues from the previous volume; anything else is a mismatch. The
/// data area must be there in full. Where the member goes on in yet another
/// volume, the stream ends with the data area.
pub open spec fn spec_continuation(volume: Seq<u8>, name: Seq<u8>, number: nat) -> Result<
    Continuation,
    RarError,
> {
    match spec_rar_signature(volume) {
        Err(e) => Err(surfaced(e)),
        Ok((n0, version)) => if version != SignatureBlock::RAR5 {
            Err(RarError::VolumeMismatch)
        } else {
            match spec_archive(volume.skip(n0 as int)) {
                Err(e) => Err(surfaced(e)),
                Ok((n1, details)) => if details.volume_number != number {
                    Err(RarError::VolumeMismatch)
                } else {
                    match spec_file(volume.skip((n0 + n1) as int)) {
                        Err(e) => Err(surfaced(e)),
                        Ok((n2, file)) => {
                            let rest = volume.skip((n0 + n1 + n2) as int);
                            if file.name != name || !file.head.flags.data_prev {
                                Err(RarError::VolumeMismatch)
                            } else if file.head.data_area_size > rest.len() {
                                Err(RarError::Truncated)
                            } else {
                                Ok(
                                    Continuation {
                                        file,
                                        stream: if file.head.flags.data_next {
                                            rest.take(file.head.data_area_size as int)
                                        } else {
                                            rest
                                        },
                                    },
                                )
                            }
                        },
                    }
                },
            }
        },
    }
}

/// Opens the stream of the next volume at the data of the member that
/// `file` describes.
fn open_continuation(next_volume: Vec<u8>, file: &FileBlock, number: usize) -> (r: Result<
    (RarReader, FileBlock),
    RarError,
>)
    ensures
        match spec_continuation(next_volume@, file@.name, number as nat) {
            Ok(c) => {
                &&& r matches Ok((reader, new_file))
                &&& new_file@ == c.file
                &&& reader.remaining() == c.stream
                &&& reader.in_bounds()
            },
            Err(e) => r matches Err(e2) && e2 == e,
        },
{
    broadcast use vstd::seq_lib::lemma_seq_skip_of_skip;

    let ghost volume = next_volume@;
    let mut new_buffer = RarReader::new(next_volume);
    assert(new_buffer.remaining() =~= volume);
    let version = read_signature(&mut new_buffer)?;
    if version != SignatureBlock::RAR5 {
        return Err(RarError::VolumeMismatch);
    }
    let details = read_archive(&mut new_buffer)?;
    if details.volume_number != number as u64 {
        return Err(RarError::VolumeMismatch);
    }
    let new_file = read_file(&mut new_buffer)?;
    if !bytes_eq(new_file.name.as_slice(), file.name.as_slice()) || !new_file.head.flags.data_prev {
        return Err(RarError::VolumeMismatch);
    }
    if new_file.head.data_area_size > new_buffer.remaining_len() as u64 {
        return Err(RarError::Truncated);
    }
    if new_file.head.flags.data_next {
        new_buffer = new_buffer.take(new_file.head.data_area_size);
        assert(new_buffer.remaining() =~= new_buffer.stream());
    }
    Ok((new_buffer, new_file))
}

/// Chains the data of the member that `file` describes in the next volume
/// behind `buffer`.
///
/// On success `file` becomes the file block of the next volume, the volume
/// counter is incremented and the running total of the data area grows by
/// the data area of the next volume. On failure nothing changes. A volume
/// counter that cannot be incremented makes every volume a mismatch; a
/// total that exceeds 64 bits is a failed parse.
pub fn continue_data_next_file(
    buffer: RarReader,
    file: &mut FileBlock,
    next_volume: Vec<u8>,
    file_number: &mut usize,
    data_area_size: &mut u64,
) -> (r: Result<RarReader, RarError>)
    ensures
        ({
            let found = spec_continuation(
                next_volume@,
                old(file)@.name,
                *old(file_number) as nat,
            );
            if *old(file_number) == usize::MAX {
                r matches Err(e) && e == RarError::VolumeMismatch
            } else {
                match found {
                    Ok(c) => if *old(data_area_size) + c.file.head.data_area_size > u64::MAX {
                        r matches Err(e) && e == RarError::ParseFailed
                    } else {
                        &&& r matches Ok(chained)
                        &&& chained.position() == 0
                        &&& chained.stream() == buffer.remaining() + c.stream
                        &&& chained.in_bounds()
                        &&& final(file)@ == c.file
                        &&& *final(file_number) == *old(file_number) + 1
                        &&& *final(data_area_size) == *old(data_area_size)
                            + c.file.head.data_area_size
                    },
                    Err(e) => r matches Err(e2) && e2 == e,
                }
            }
        }),
        r is Err ==> {
            &&& final(file)@ == old(file)@
            &&& *final(file_number) == *old(file_number)
            &&& *final(data_area_size) == *old(data_area_size)
        },
{
    if *file_number == usize::MAX {
        return Err(RarError::VolumeMismatch);
    }
    let (new_buffer, new_file) = open_continuation(next_volume, file, *file_number)?;
    let total = match data_area_size.checked_add(new_file.head.data_area_size) {
        Some(total) => total,
        None => {
            return Err(RarError::ParseFailed);
        },
    };
    *file_number = *file_number + 1;
    *data_area_size = total;
    *file = new_file;
    Ok(buffer.chain(new_buffer))
}

} // verus!
