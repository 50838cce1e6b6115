//! Key derivation and the block cipher, with cipher block chaining stated
//! and proved over the block cipher.

use vstd::prelude::*;
use vstd::slice::slice_subrange;
use crate::util::array16;

verus! {

/// Size of a cipher block in bytes.
pub const BLOCK_SIZE: usize = 16;

/// Size of the cipher key in bytes.
pub const KEY_SIZE: usize = 32;

/// The first 32 bytes of PBKDF2 with HMAC-SHA-256 for a password, a salt
/// and an iteration count.
pub uninterp spec fn pbkdf2_hmac_sha256(password: Seq<u8>, salt: Seq<u8>, iterations: u32) -> Seq<
    u8,
>;

/// The AES-256 decryption of one block of sixteen bytes under a key of
/// thirty-two bytes.
pub uninterp spec fn aes256_decrypt_block(key: Seq<u8>, block: Seq<u8>) -> Seq<u8>;

/// `crypto::pbkdf2::pbkdf2` over `crypto::hmac::Hmac` with
/// `crypto::sha2::Sha256`, keyed with the password: fills a key of 32 bytes
/// from the salt and the iteration count. The outside function stops the
/// program on a count of zero, which is left out.
#[verifier::external_body]
pub(crate) fn derive_key(password: &[u8], salt: &[u8], iterations: u32) -> (r: [u8; 32])
    requires
        iterations > 0,
    ensures
        r@ == pbkdf2_hmac_sha256(password@, salt@, iterations),
{
    let mut key = [0u8; 32];
    let mut mac = crypto::hmac::Hmac::new(crypto::sha2::Sha256::new(), password);
    crypto::pbkdf2::pbkdf2(&mut mac, salt, iterations, &mut key);
    key
}

/// `crypto::aessafe::AesSafe256Decryptor::new` followed by `decrypt_block`
/// of `crypto::symmetriccipher::BlockDecryptor`: decrypts one block. The
/// outside code stops the program on a key that is not 16, 24 or 32 bytes
/// long and on a block that is not 16 bytes long; the key is 32 bytes by its
/// type, and other blocks are left out.
#[verifier::external_body]
pub(crate) fn decrypt_block(key: &[u8; 32], block: &[u8]) -> (r: [u8; 16])
    requires
        block@.len() == BLOCK_SIZE,
    ensures
        r@ == aes256_decrypt_block(key@, block@),
{
    let mut out = [0u8; 16];
    let aes = crypto::aessafe::AesSafe256Decryptor::new(key);
    crypto::symmetriccipher::BlockDecryptor::decrypt_block(&aes, block, &mut out);
    out
}

/// Bytewise exclusive or of two blocks.
pub open spec fn xor_block(a: Seq<u8>, b: Seq<u8>) -> Seq<u8> {
    Seq::new(BLOCK_SIZE as nat, |i: int| a[i] ^ b[i])
}

/// The plaintext of the whole blocks of `cipher` in cipher block chaining
/// mode without padding: each block is decrypted and combined with the
/// block before it, the first with `iv`. A trailing partial block yields
/// nothing.
pub open spec fn cbc_decrypt(key: Seq<u8>, iv: Seq<u8>, cipher: Seq<u8>) -> Seq<u8>
    decreases cipher.len(),
{
    if cipher.len() < BLOCK_SIZE {
        Seq::empty()
    } else {
        let block = cipher.subrange(0, BLOCK_SIZE as int);
        xor_block(aes256_decrypt_block(key, block), iv) + cbc_decrypt(
            key,
            block,
            cipher.skip(BLOCK_SIZE as int),
        )
    }
}

/// The chaining value in force at the block that starts at byte `at` of
/// `cipher`: the block before it, or `iv` at the start.
pub open spec fn chain_value(iv: Seq<u8>, cipher: Seq<u8>, at: int) -> Seq<u8> {
    if at < BLOCK_SIZE {
        iv
    } else {
        cipher.subrange(at - BLOCK_SIZE, at)
    }
}

/// The plaintext has the length of the whole blocks of the ciphertext.
pub proof fn lemma_cbc_len(key: Seq<u8>, iv: Seq<u8>, cipher: Seq<u8>)
    ensures
        cbc_decrypt(key, iv, cipher).len() == (cipher.len() / BLOCK_SIZE as nat) * BLOCK_SIZE,
    decreases cipher.len(),
{
    if cipher.len() >= BLOCK_SIZE {
        lemma_cbc_len(key, cipher.subrange(0, BLOCK_SIZE as int), cipher.skip(BLOCK_SIZE as int));
    }
}

/// Decryption can resume at any block boundary from the block before it:
/// the plaintext from byte `at` on is the plaintext of the ciphertext from
/// byte `at` on under the chaining value in force there.
pub proof fn lemma_cbc_resume(key: Seq<u8>, iv: Seq<u8>, cipher: Seq<u8>, at: int)
    requires
        0 <= at <= cipher.len(),
        at % (BLOCK_SIZE as int) == 0,
    ensures
        cbc_decrypt(key, iv, cipher).skip(at) == cbc_decrypt(
            key,
            chain_value(iv, cipher, at),
            cipher.skip(at),
        ),
    decreases at,
{
    let plain = cbc_decrypt(key, iv, cipher);
    if at == 0 {
        assert(cipher.skip(0) =~= cipher);
        assert(plain.skip(0) =~= plain);
    } else {
        let block = cipher.subrange(0, BLOCK_SIZE as int);
        let rest = cipher.skip(BLOCK_SIZE as int);
        let head = xor_block(aes256_decrypt_block(key, block), iv);
        assert(at >= BLOCK_SIZE);
        assert((at - BLOCK_SIZE) % (BLOCK_SIZE as int) == 0);
        lemma_cbc_resume(key, block, rest, at - BLOCK_SIZE);
        lemma_cbc_len(key, block, rest);
        assert(head.len() == BLOCK_SIZE);
        assert(plain == head + cbc_decrypt(key, block, rest));
        assert(plain.skip(at) =~= cbc_decrypt(key, block, rest).skip(at - BLOCK_SIZE));
        assert(rest.skip(at - BLOCK_SIZE) =~= cipher.skip(at));
        if at - BLOCK_SIZE < BLOCK_SIZE {
            assert(chain_value(block, rest, at - BLOCK_SIZE) == block);
            assert(chain_value(iv, cipher, at) =~= block);
        } else {
            assert(chain_value(block, rest, at - BLOCK_SIZE) =~= chain_value(iv, cipher, at));
        }
    }
}

/// The plaintext of the first `n` whole blocks does not depend on what
/// follows them.
pub proof fn lemma_cbc_prefix(key: Seq<u8>, iv: Seq<u8>, cipher: Seq<u8>, n: int)
    requires
        0 <= n <= cipher.len(),
        n % (BLOCK_SIZE as int) == 0,
    ensures
        cbc_decrypt(key, iv, cipher.take(n)) == cbc_decrypt(key, iv, cipher).take(n),
    decreases n,
{
    let part = cipher.take(n);
    if n == 0 {
        assert(cbc_decrypt(key, iv, cipher).take(0) =~= Seq::<u8>::empty());
    } else {
        let block = cipher.subrange(0, BLOCK_SIZE as int);
        let rest = cipher.skip(BLOCK_SIZE as int);
        let head = xor_block(aes256_decrypt_block(key, block), iv);
        assert(n >= BLOCK_SIZE);
        assert((n - BLOCK_SIZE) % (BLOCK_SIZE as int) == 0);
        assert(head.len() == BLOCK_SIZE);
        lemma_cbc_prefix(key, block, rest, n - BLOCK_SIZE);
        assert(part.subrange(0, BLOCK_SIZE as int) =~= block);
        assert(part.skip(BLOCK_SIZE as int) =~= rest.take(n - BLOCK_SIZE));
        lemma_cbc_len(key, block, rest);
        assert((head + cbc_decrypt(key, block, rest)).take(n) =~= head + cbc_decrypt(
            key,
            block,
            rest,
        ).take(n - BLOCK_SIZE));
    }
}

/// Combines a decrypted block with the chaining value and appends the
/// result to `out`.
fn push_xor(out: &mut Vec<u8>, decrypted: &[u8; 16], chain: &[u8; 16])
    ensures
        final(out)@ == old(out)@ + xor_block(decrypted@, chain@),
{
    let mut j: usize = 0;
    while j < 16
        invariant
            j <= 16,
            out@.len() == old(out)@.len() + j,
            forall|i: int| 0 <= i < old(out)@.len() ==> out@[i] == old(out)@[i],
            forall|i: int| 0 <= i < j ==> out@[old(out)@.len() + i] == decrypted@[i] ^ chain@[i],
        decreases 16 - j,
    {
        out.push(decrypted[j] ^ chain[j]);
        j += 1;
    }
    assert(out@ =~= old(out)@ + xor_block(decrypted@, chain@));
}

/// Decrypts whole blocks in cipher block chaining mode. Returns the
/// plaintext and the chaining value for what follows.
pub fn cbc_decrypt_blocks(key: &[u8; 32], iv: &[u8; 16], cipher: &[u8]) -> (r: (Vec<u8>, [u8; 16]))
    requires
        cipher@.len() % BLOCK_SIZE as nat == 0,
    ensures
        r.0@ == cbc_decrypt(key@, iv@, cipher@),
        r.1@ == chain_value(iv@, cipher@, cipher@.len() as int),
{
    let mut out: Vec<u8> = Vec::new();
    let mut chain: [u8; 16] = *iv;
    let mut i: usize = 0;
    assert(cipher@.skip(0) =~= cipher@);
    while i < cipher.len()
        invariant
            i <= cipher@.len(),
            i % BLOCK_SIZE == 0,
            cipher@.len() % BLOCK_SIZE as nat == 0,
            chain@ == chain_value(iv@, cipher@, i as int),
            out@ + cbc_decrypt(key@, chain@, cipher@.skip(i as int)) == cbc_decrypt(
                key@,
                iv@,
                cipher@,
            ),
        decreases cipher@.len() - i,
    {
        let block = slice_subrange(cipher, i, i + BLOCK_SIZE);
        let decrypted = decrypt_block(key, block);
        proof {
            let rest = cipher@.skip(i as int);
            assert(rest.subrange(0, BLOCK_SIZE as int) =~= block@);
            assert(rest.skip(BLOCK_SIZE as int) =~= cipher@.skip(i + BLOCK_SIZE));
            let head = xor_block(aes256_decrypt_block(key@, block@), chain@);
            let tail = cbc_decrypt(key@, block@, cipher@.skip(i + BLOCK_SIZE));
            assert(cbc_decrypt(key@, chain@, rest) == head + tail);
            assert((out@ + head) + tail =~= out@ + (head + tail));
        }
        push_xor(&mut out, &decrypted, &chain);
        chain = array16(block);
        i = i + BLOCK_SIZE;
    }
    proof {
        assert(cipher@.skip(i as int).len() == 0);
        assert(out@ + Seq::<u8>::empty() =~= out@);
    }
    (out, chain)
}

} // verus!
