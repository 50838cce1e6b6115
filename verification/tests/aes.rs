use crypto::aes::{cbc_decryptor, cbc_encryptor, KeySize};
use crypto::blockmodes::NoPadding;
use crypto::buffer::{RefReadBuffer, RefWriteBuffer};
use crypto::hmac::Hmac;
use crypto::pbkdf2::pbkdf2;
use crypto::sha2::Sha256;
use rar::aes_reader::{decrypt, generate_key, RarAesReader};
use rar::error::RarError;
use rar::extra_block::{FileEncryptionBlock, FileEncryptionVersion};
use rar::file_block::{File, FileBlock};
use rar::rar_reader::{RarReader, BUFFER_SIZE};

const SALT: [u8; 16] = [
    145, 54, 92, 222, 142, 142, 13, 19, 255, 186, 128, 233, 43, 95, 8, 74,
];
const INIT: [u8; 16] = [
    141, 80, 55, 232, 205, 190, 86, 123, 202, 195, 252, 119, 133, 39, 123, 186,
];

fn record(kdf_count: u8) -> FileEncryptionBlock {
    let mut feb = FileEncryptionBlock::default();
    feb.kdf_count = kdf_count;
    feb.salt = SALT;
    feb.init = INIT;
    feb
}

fn encrypted_member(kdf_count: u8, unpacked_size: u64) -> FileBlock {
    let mut file = FileBlock::default();
    file.unpacked_size = unpacked_size;
    file.extra.file_encryption = Some(record(kdf_count));
    file
}

fn reference_key(password: &[u8], kdf_count: u8) -> [u8; 32] {
    let mut key = [0u8; 32];
    let mut mac = Hmac::new(Sha256::new(), password);
    pbkdf2(&mut mac, &SALT, 1u32 << kdf_count, &mut key);
    key
}

fn encrypt(key: &[u8; 32], plain: &[u8]) -> Vec<u8> {
    assert_eq!(plain.len() % 16, 0);
    let mut out = vec![0u8; plain.len()];
    let mut encryptor = cbc_encryptor(KeySize::KeySize256, key, &INIT, NoPadding);
    {
        let mut input = RefReadBuffer::new(plain);
        let mut output = RefWriteBuffer::new(&mut out);
        encryptor.encrypt(&mut input, &mut output, true).unwrap();
    }
    out
}

fn reference_decrypt(key: &[u8; 32], cipher: &[u8]) -> Vec<u8> {
    let mut out = vec![0u8; cipher.len()];
    let mut decryptor = cbc_decryptor(KeySize::KeySize256, key, &INIT, NoPadding);
    {
        let mut input = RefReadBuffer::new(cipher);
        let mut output = RefWriteBuffer::new(&mut out);
        decryptor.decrypt(&mut input, &mut output, true).unwrap();
    }
    out
}

fn sample(len: usize) -> Vec<u8> {
    (0..len).map(|i| (i * 7 + i / 256) as u8).collect()
}

fn read_all(reader: &mut RarAesReader) -> Result<Vec<u8>, RarError> {
    let mut all = vec![];
    loop {
        let chunk = reader.read()?;
        if chunk.is_empty() {
            return Ok(all);
        }
        all.extend_from_slice(&chunk);
    }
}

fn read_n(reader: &mut RarAesReader, n: usize) -> Vec<u8> {
    let mut all = vec![];
    while all.len() < n {
        let chunk = reader.read().unwrap();
        if chunk.is_empty() {
            break;
        }
        all.extend_from_slice(&chunk);
    }
    all.truncate(n);
    all
}

#[test]
fn test_aes_stream_disabled() {
    let f = File::default();
    let data = [
        0x00, 0x01, 0x02, 0x03, 0x04, 0x05, 0x06, 0x07, 0x08, 0x09, 0x10,
    ];

    let mut reader = RarAesReader::new(RarReader::new(data.to_vec()), &f, b"").unwrap();
    let buffer = read_all(&mut reader).unwrap();
    assert_eq!(buffer, data);
}

#[test]
fn key_is_derived_with_two_to_the_count_rounds() {
    for count in [0u8, 1, 4, 10] {
        assert_eq!(
            generate_key(&record(count), b"test"),
            Ok(reference_key(b"test", count))
        );
    }
    assert_ne!(
        generate_key(&record(4), b"test"),
        generate_key(&record(4), b"Test")
    );
    assert_ne!(
        generate_key(&record(4), b"test"),
        generate_key(&record(5), b"test")
    );
    let mut other = record(4);
    other.salt[0] ^= 1;
    assert_ne!(generate_key(&record(4), b"test"), generate_key(&other, b"test"));
}

#[test]
fn key_derivation_count_above_31_is_refused() {
    assert_eq!(
        generate_key(&record(32), b"test"),
        Err(RarError::DecryptFailed)
    );
    assert_eq!(
        generate_key(&record(255), b"test"),
        Err(RarError::DecryptFailed)
    );
    let file = encrypted_member(32, 16);
    assert_eq!(
        RarAesReader::new(RarReader::new(vec![0; 16]), &file, b"test").err(),
        Some(RarError::DecryptFailed)
    );
}

#[test]
fn unknown_encryption_version_is_refused() {
    let mut file = encrypted_member(4, 16);
    let mut feb = record(4);
    feb.version = FileEncryptionVersion::Unknown;
    file.extra.file_encryption = Some(feb);
    assert_eq!(
        RarAesReader::new(RarReader::new(vec![0; 16]), &file, b"test").err(),
        Some(RarError::UnsupportedEncryptionVersion)
    );
    assert_eq!(
        decrypt(&file, &[0; 16], b"test"),
        Err(RarError::UnsupportedEncryptionVersion)
    );
}

#[test]
fn reader_decrypts_what_the_cipher_library_encrypted() {
    let key = reference_key(b"test", 4);
    for len in [0usize, 16, 32, 4096, BUFFER_SIZE, BUFFER_SIZE + 16, 3 * BUFFER_SIZE + 48] {
        let plain = sample(len);
        let cipher = encrypt(&key, &plain);
        assert_eq!(reference_decrypt(&key, &cipher), plain);
        let file = encrypted_member(4, len as u64);
        let mut reader = RarAesReader::new(RarReader::new(cipher), &file, b"test").unwrap();
        assert_eq!(read_all(&mut reader), Ok(plain));
    }
}

#[test]
fn reader_chains_every_block_to_the_one_before() {
    let key = reference_key(b"test", 4);
    // equal plaintext blocks must not give equal ciphertext blocks
    let plain = vec![0x42u8; 64];
    let cipher = encrypt(&key, &plain);
    assert_ne!(cipher[0..16], cipher[16..32]);
    let file = encrypted_member(4, 64);
    let mut reader = RarAesReader::new(RarReader::new(cipher.clone()), &file, b"test").unwrap();
    assert_eq!(read_all(&mut reader), Ok(plain));
    assert_ne!(cipher, vec![0x42u8; 64]);
}

#[test]
fn wrong_password_gives_other_bytes() {
    let key = reference_key(b"test", 4);
    let plain = sample(64);
    let cipher = encrypt(&key, &plain);
    let file = encrypted_member(4, 64);
    let mut reader = RarAesReader::new(RarReader::new(cipher), &file, b"tset").unwrap();
    let got = read_all(&mut reader).unwrap();
    assert_eq!(got.len(), 64);
    assert_ne!(got, plain);
}

#[test]
fn stream_that_ends_within_a_block_is_truncated_after_the_whole_blocks() {
    let key = reference_key(b"test", 4);
    let plain = sample(48);
    let mut cipher = encrypt(&key, &plain);
    cipher.extend_from_slice(&[1, 2, 3]);
    let file = encrypted_member(4, 48);
    let mut reader = RarAesReader::new(RarReader::new(cipher), &file, b"test").unwrap();
    assert_eq!(reader.read(), Ok(plain));
    assert_eq!(reader.read(), Err(RarError::Truncated));

    let mut reader = RarAesReader::new(RarReader::new(vec![9; 15]), &file, b"test").unwrap();
    assert_eq!(reader.read(), Err(RarError::Truncated));
}

#[test]
fn seeking_to_the_start_reads_the_same_as_a_fresh_reader() {
    let key = reference_key(b"test", 4);
    let plain = sample(2 * BUFFER_SIZE + 160);
    let cipher = encrypt(&key, &plain);
    let file = encrypted_member(4, plain.len() as u64);
    for n in [0usize, 1, 15, 16, 17, 100, BUFFER_SIZE, plain.len()] {
        let mut fresh = RarAesReader::new(RarReader::new(cipher.clone()), &file, b"test").unwrap();
        let expected = read_n(&mut fresh, n);
        assert_eq!(expected, plain[..n].to_vec());

        let mut sought = RarAesReader::new(RarReader::new(cipher.clone()), &file, b"test").unwrap();
        read_n(&mut sought, 5000);
        assert_eq!(sought.seek(0), Ok(0));
        assert_eq!(read_n(&mut sought, n), expected);
    }
}

#[test]
fn seeking_lands_on_any_offset() {
    let key = reference_key(b"test", 4);
    let plain = sample(BUFFER_SIZE + 64);
    let cipher = encrypt(&key, &plain);
    let file = encrypted_member(4, plain.len() as u64);
    let mut reader = RarAesReader::new(RarReader::new(cipher), &file, b"test").unwrap();
    for offset in [16usize, 0, 1, 15, 17, 31, 32, 4097, BUFFER_SIZE + 63, 5] {
        assert_eq!(reader.seek(offset as u64), Ok(offset as u64));
        assert_eq!(read_all(&mut reader), Ok(plain[offset..].to_vec()));
    }
    assert_eq!(reader.seek(plain.len() as u64), Ok(plain.len() as u64));
    assert_eq!(reader.read(), Ok(vec![]));
    assert_eq!(
        reader.seek(plain.len() as u64 + 1),
        Err(RarError::Truncated)
    );
}

#[test]
fn seeking_a_plain_stream_moves_the_source() {
    let data = sample(100);
    let f = File::default();
    let mut reader = RarAesReader::new(RarReader::new(data.clone()), &f, b"").unwrap();
    assert_eq!(reader.seek(37), Ok(37));
    assert_eq!(read_all(&mut reader), Ok(data[37..].to_vec()));
    assert_eq!(reader.seek(0), Ok(0));
    assert_eq!(read_all(&mut reader), Ok(data.clone()));
    assert_eq!(reader.seek(101), Err(RarError::Truncated));
}

#[test]
fn reader_starts_at_what_remains_of_its_source() {
    let key = reference_key(b"test", 4);
    let plain = sample(32);
    let mut stream = vec![0xEE; 5];
    stream.extend_from_slice(&encrypt(&key, &plain));
    let mut source = RarReader::new(stream);
    source.consume(5);
    let file = encrypted_member(4, 32);
    let mut reader = RarAesReader::new(source, &file, b"test").unwrap();
    assert_eq!(read_all(&mut reader), Ok(plain.clone()));
    assert_eq!(reader.seek(0), Ok(0));
    assert_eq!(read_all(&mut reader), Ok(plain));
}

#[test]
fn decrypt_cuts_the_plaintext_to_the_unpacked_size() {
    let key = reference_key(b"test", 4);
    let plain = sample(48);
    let cipher = encrypt(&key, &plain);
    assert_eq!(
        decrypt(&encrypted_member(4, 40), &cipher, b"test"),
        Ok(plain[..40].to_vec())
    );
    assert_eq!(
        decrypt(&encrypted_member(4, 48), &cipher, b"test"),
        Ok(plain.clone())
    );
    assert_eq!(
        decrypt(&encrypted_member(4, 1000), &cipher, b"test"),
        Ok(plain)
    );
    assert_eq!(
        decrypt(&encrypted_member(4, 0), &cipher, b"test"),
        Ok(vec![])
    );
}

#[test]
fn decrypt_refuses_what_it_cannot_decrypt() {
    assert_eq!(
        decrypt(&File::default(), &[0; 16], b"test"),
        Err(RarError::DecryptFailed)
    );
    assert_eq!(
        decrypt(&encrypted_member(4, 16), &[0; 17], b"test"),
        Err(RarError::DecryptFailed)
    );
    assert_eq!(
        decrypt(&encrypted_member(40, 16), &[0; 16], b"test"),
        Err(RarError::DecryptFailed)
    );
}
