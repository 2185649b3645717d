//! WinZIP AES-256 (AE-2).
//!
//! Layout of an encrypted entry's file data:
//!
//!     [ salt (16 bytes) | pw_verify (2 bytes) | ciphertext ... | HMAC-SHA1[..10] ]
//!
//! * keys = PBKDF2-HMAC-SHA1(password, salt, 1000): 32 (enc) + 32 (mac) + 2 (verify)
//! * enc: AES-256-CTR, 128-bit little-endian counter that starts at 1.
//!   Compress-then-encrypt.
//! * mac: HMAC-SHA1 over the ciphertext, truncated to 10 bytes.
//!
//! The 0x9901 extra field belongs to the ZIP writer.

use aes::cipher::{KeyIvInit, StreamCipher};
use hmac::Mac;
use rand::RngCore;
#[allow(unused_imports)]
use vstd::utf8::encode_utf8;
use vstd::prelude::*;

verus! {

pub const SALT_LEN: usize = 16;

pub const VERIFY_LEN: usize = 2;

pub const MAC_LEN: usize = 10;

/// AES-256.
pub const KEY_LEN: usize = 32;

/// HMAC-SHA1 key size under WinZIP AES.
pub const MAC_KEY_LEN: usize = 32;

/// Overhead bytes added to a plaintext body when it is AE-2 encrypted.
pub const AE2_OVERHEAD: usize = 28;

/// PBKDF2 rounds that WinZIP AES prescribes.
pub const ROUNDS: u32 = 1000;

/// Why an envelope was not built.
#[derive(Debug, PartialEq, Eq, Structural, Clone, Copy)]
pub enum CryptoError {
    EmptyPassword,
    SizeMismatch,
}

/// Encrypted payload with all envelope bytes already assembled.
#[derive(Debug)]
pub struct AesPayload {
    /// salt || pw_verify || ciphertext || mac10
    pub bytes: Vec<u8>,
}

/// The 66 bytes that PBKDF2 with HMAC-SHA1 derives.
pub uninterp spec fn pbkdf2_hmac_sha1(password: Seq<u8>, salt: Seq<u8>, rounds: u32) -> [u8; 66];

/// The HMAC-SHA1 tag of a message.
pub uninterp spec fn hmac_sha1(key: Seq<u8>, message: Seq<u8>) -> [u8; 20];

/// Byte `i` of the AES-256-CTR keystream with a 128-bit little-endian counter.
pub uninterp spec fn aes256_ctr_byte(key: Seq<u8>, iv: Seq<u8>, i: int) -> u8;

/// `pbkdf2::pbkdf2_hmac` over `sha1::Sha1`: the 66 bytes it fills in depend on
/// the password, the salt and the number of rounds alone.
#[verifier::external_body]
fn derive_keys(password: &[u8], salt: &[u8; 16], rounds: u32) -> (derived: [u8; 66])
    ensures
        derived == pbkdf2_hmac_sha1(password@, salt@, rounds),
{
    let mut derived = [0u8; 66];
    pbkdf2::pbkdf2_hmac::<sha1::Sha1>(password, salt, rounds, &mut derived);
    derived
}

/// `hmac::Hmac` over `sha1::Sha1`, one update: the tag depends on the key and
/// the message alone. A key of any length is accepted.
#[verifier::external_body]
fn hmac_tag(key: &[u8], message: &[u8]) -> (tag: [u8; 20])
    ensures
        tag == hmac_sha1(key@, message@),
{
    let mut mac = hmac::Hmac::<sha1::Sha1>::new_from_slice(key).expect("hmac key size");
    mac.update(message);
    mac.finalize().into_bytes().into()
}

/// `apply_keystream` of a fresh `ctr::Ctr128LE<aes::Aes256>`: each byte is
/// XORed with the keystream byte at its position, which depends on the key and
/// the initial counter block alone.
#[verifier::external_body]
fn apply_aes256_ctr(key: &[u8; 32], iv: &[u8; 16], data: &mut [u8])
    ensures
        final(data)@.len() == old(data)@.len(),
        forall|i: int|
            0 <= i < old(data)@.len() ==> #[trigger] final(data)@[i] == old(data)@[i]
                ^ aes256_ctr_byte(key@, iv@, i),
{
    let mut cipher = ctr::Ctr128LE::<aes::Aes256>::new(key.into(), iv.into());
    cipher.apply_keystream(data);
}

/// `fill_bytes` of `rand::thread_rng()`: sixteen random bytes, of which nothing
/// is promised.
#[verifier::external_body]
fn random_salt() -> (salt: [u8; 16]) {
    let mut salt = [0u8; 16];
    rand::thread_rng().fill_bytes(&mut salt);
    salt
}

/// The initial counter block: the number 1, little-endian.
pub open spec fn counter_one() -> Seq<u8> {
    Seq::new(
        16,
        |i: int|
            if i == 0 {
                1u8
            } else {
                0u8
            },
    )
}

/// AES-256-CTR over `data`, from counter 1 on. Decryption is the same function.
pub open spec fn ctr_apply(key: Seq<u8>, data: Seq<u8>) -> Seq<u8> {
    Seq::new(data.len(), |i: int| data[i] ^ aes256_ctr_byte(key, counter_one(), i))
}

/// The encryption key, the MAC key and the password verifier.
pub open spec fn enc_key(derived: [u8; 66]) -> Seq<u8> {
    derived@.subrange(0, 32)
}

pub open spec fn mac_key(derived: [u8; 66]) -> Seq<u8> {
    derived@.subrange(32, 64)
}

pub open spec fn pw_verify(derived: [u8; 66]) -> Seq<u8> {
    derived@.subrange(64, 66)
}

/// The envelope around `plain` for keys that were derived from `salt`.
pub open spec fn envelope_with(derived: [u8; 66], salt: Seq<u8>, plain: Seq<u8>) -> Seq<u8> {
    let cipher = ctr_apply(enc_key(derived), plain);
    salt + pw_verify(derived) + cipher + hmac_sha1(mac_key(derived), cipher)@.take(10)
}

/// The AE-2 envelope around `plain`.
pub open spec fn envelope(password: Seq<u8>, salt: Seq<u8>, plain: Seq<u8>) -> Seq<u8> {
    envelope_with(pbkdf2_hmac_sha1(password, salt, ROUNDS), salt, plain)
}

/// What a recipient does with an envelope: derive the keys from the salt in
/// front, check the verifier and the tag, decrypt.
pub open spec fn open_envelope(password: Seq<u8>, env: Seq<u8>) -> Option<Seq<u8>> {
    if env.len() < 28 {
        None
    } else {
        let salt = env.subrange(0, 16);
        let derived = pbkdf2_hmac_sha1(password, salt, ROUNDS);
        let cipher = env.subrange(18, env.len() - 10);
        if env.subrange(16, 18) != pw_verify(derived) {
            None
        } else if env.subrange(env.len() - 10, env.len() as int) != hmac_sha1(
            mac_key(derived),
            cipher,
        )@.take(10) {
            None
        } else {
            Some(ctr_apply(enc_key(derived), cipher))
        }
    }
}

/// With the right password, an envelope opens to what was sealed in it.
pub proof fn law_envelope_round_trip(password: Seq<u8>, salt: Seq<u8>, plain: Seq<u8>)
    requires
        salt.len() == SALT_LEN,
    ensures
        open_envelope(password, envelope(password, salt, plain)) == Some(plain),
        envelope(password, salt, plain).len() == plain.len() + AE2_OVERHEAD,
{
    let derived = pbkdf2_hmac_sha1(password, salt, ROUNDS);
    let key = enc_key(derived);
    let cipher = ctr_apply(key, plain);
    let tag = hmac_sha1(mac_key(derived), cipher)@.take(10);
    let env = envelope(password, salt, plain);
    assert(env.subrange(0, 16) =~= salt);
    assert(env.subrange(16, 18) =~= pw_verify(derived));
    assert(env.subrange(18, env.len() - 10) =~= cipher);
    assert(env.subrange(env.len() - 10, env.len() as int) =~= tag);
    assert(ctr_apply(key, cipher) =~= plain) by {
        assert forall|i: int| 0 <= i < plain.len() implies #[trigger] ctr_apply(key, cipher)[i]
            == plain[i] by {
            let p = plain[i];
            let k = aes256_ctr_byte(key, counter_one(), i);
            assert((p ^ k) ^ k == p) by (bit_vector);
        }
    }
}

/// Encrypts in place, with a fresh random salt.
///
/// The plaintext (already-compressed data) must stand at
/// `buf[18..18 + plaintext_len]`, with `MAC_LEN` bytes of headroom behind it.
/// The salt, the password verifier and the tag are filled in around it.
pub fn encrypt_ae2_in_place(password: &str, buf: &mut Vec<u8>, plaintext_len: usize) -> (r: Result<
    (),
    CryptoError,
>)
    ensures
        password@.len() == 0 <==> r == Err::<(), CryptoError>(CryptoError::EmptyPassword),
        password@.len() != 0 && old(buf)@.len() != plaintext_len + AE2_OVERHEAD <==> r == Err::<
            (),
            CryptoError,
        >(CryptoError::SizeMismatch),
        r is Ok ==> exists|salt: Seq<u8>|
            salt.len() == SALT_LEN && final(buf)@ == #[trigger] envelope(
                encode_utf8(password@),
                salt,
                old(buf)@.subrange(18, 18 + plaintext_len),
            ),
        r is Err ==> final(buf)@ == old(buf)@,
{
    if password.is_empty() {
        return Err(CryptoError::EmptyPassword);
    }
    let salt: [u8; 16] = random_salt();
    let r = encrypt_ae2_in_place_with_salt(password, &salt, buf.as_mut_slice(), plaintext_len);
    r
}

/// The same, with a given salt.
pub fn encrypt_ae2_in_place_with_salt(
    password: &str,
    salt: &[u8; 16],
    buf: &mut [u8],
    plaintext_len: usize,
) -> (r: Result<(), CryptoError>)
    ensures
        r is Ok <==> old(buf)@.len() == plaintext_len + AE2_OVERHEAD,
        r is Ok ==> final(buf)@ == envelope(
            encode_utf8(password@),
            salt@,
            old(buf)@.subrange(18, 18 + plaintext_len),
        ),
        r is Err ==> r->Err_0 == CryptoError::SizeMismatch && final(buf)@ == old(buf)@,
{
    if buf.len() < AE2_OVERHEAD || buf.len() - AE2_OVERHEAD != plaintext_len {
        return Err(CryptoError::SizeMismatch);
    }
    let derived: [u8; 66] = derive_keys(password.as_bytes(), salt, ROUNDS);
    let mut key: [u8; 32] = [0u8; 32];
    let mut i: usize = 0;
    while i < 32
        invariant
            i <= 32,
            forall|j: int| 0 <= j < i ==> key@[j] == derived@[j],
        decreases 32 - i,
    {
        key[i] = derived[i];
        i = i + 1;
    }
    assert(key@ =~= enc_key(derived));
    let mut iv: [u8; 16] = [0u8; 16];
    iv[0] = 1;
    assert(iv@ =~= counter_one());

    let ghost plain = buf@.subrange(18, 18 + plaintext_len);
    let (head, rest) = buf.split_at_mut(18);
    let (body, tail) = rest.split_at_mut(plaintext_len);
    assert(body@ =~= plain);
    apply_aes256_ctr(&key, &iv, body);
    assert(body@ =~= ctr_apply(enc_key(derived), plain));
    let whole: &[u8] = derived.as_slice();
    let tag: [u8; 20] = hmac_tag(&whole[32..64], body);
    put(head, 0, salt.as_slice(), 16);
    put(head, 16, &whole[64..66], 2);
    put(tail, 0, tag.as_slice(), 10);
    proof {
        assert(head@ =~= salt@ + pw_verify(derived));
        assert(whole@.subrange(32, 64) =~= mac_key(derived));
        assert(tail@ =~= tag@.take(10));
        assert(buf@ =~= envelope(encode_utf8(password@), salt@, plain));
    }
    Ok(())
}

/// Overwrites `n` bytes of `to`, from `at` on, with the first `n` of `from`.
fn put(to: &mut [u8], at: usize, from: &[u8], n: usize)
    requires
        n <= from@.len(),
        at + n <= old(to)@.len(),
    ensures
        final(to)@.len() == old(to)@.len(),
        forall|j: int| at <= j < at + n ==> #[trigger] final(to)@[j] == from@[j - at],
        forall|j: int|
            0 <= j < old(to)@.len() && !(at <= j < at + n) ==> #[trigger] final(to)@[j] == old(to)@[j],
{
    let size: usize = to.len();
    let mut i: usize = 0;
    while i < n
        invariant
            i <= n <= from@.len(),
            size == to@.len(),
            to@.len() == old(to)@.len(),
            at + n <= to@.len(),
            forall|j: int| at <= j < at + i ==> #[trigger] to@[j] == from@[j - at],
            forall|j: int|
                0 <= j < to@.len() && !(at <= j < at + i) ==> #[trigger] to@[j] == old(to)@[j],
        decreases n - i,
    {
        to[at + i] = from[i];
        i = i + 1;
    }
}

/// Seals a copy of `plaintext`. Prefer `encrypt_ae2_in_place` on the hot path.
pub fn encrypt_ae2(password: &str, plaintext: &mut [u8]) -> (r: Result<AesPayload, CryptoError>)
    requires
        old(plaintext)@.len() + AE2_OVERHEAD <= usize::MAX,
    ensures
        final(plaintext)@ == old(plaintext)@,
        password@.len() == 0 <==> r is Err,
        r is Err ==> r->Err_0 == CryptoError::EmptyPassword,
        r matches Ok(p) ==> exists|salt: Seq<u8>|
            salt.len() == SALT_LEN && p.bytes@ == #[trigger] envelope(
                encode_utf8(password@),
                salt,
                old(plaintext)@,
            ),
{
    let n: usize = plaintext.len();
    let mut buf: Vec<u8> = Vec::new();
    buf.resize(18, 0);
    buf.extend_from_slice(plaintext);
    let ghost filled = buf@;
    assert(filled.subrange(18, 18 + n) =~= plaintext@);
    buf.resize(n + AE2_OVERHEAD, 0);
    assert(buf@.subrange(18, 18 + n) =~= buf@.subrange(0, filled.len() as int).subrange(18, 18 + n));
    match encrypt_ae2_in_place(password, &mut buf, n) {
        Ok(()) => Ok(AesPayload { bytes: buf }),
        Err(e) => Err(e),
    }
}

/// The envelope byte by byte: the salt, two bytes of the 66 that PBKDF2 derives
/// in 1000 rounds, the plaintext under one keystream of AES-256-CTR that starts
/// at counter 1 and never starts again, and ten bytes of the tag over what the
/// keystream made of it.
pub proof fn law_envelope_bytes(password: Seq<u8>, salt: Seq<u8>, plain: Seq<u8>)
    requires
        salt.len() == 16,
    ensures
        ({
            let env = envelope(password, salt, plain);
            let derived = pbkdf2_hmac_sha1(password, salt, 1000u32)@;
            let one = seq![1u8, 0u8, 0u8, 0u8, 0u8, 0u8, 0u8, 0u8, 0u8, 0u8, 0u8, 0u8, 0u8, 0u8, 0u8, 0u8];
            let n = plain.len() as int;
            &&& env.len() == n + 28
            &&& forall|i: int| 0 <= i < 16 ==> env[i] == salt[i]
            &&& env[16] == derived[64] && env[17] == derived[65]
            &&& forall|i: int|
                0 <= i < n ==> #[trigger] env[18 + i] == plain[i] ^ aes256_ctr_byte(
                    derived.subrange(0, 32),
                    one,
                    i,
                )
            &&& forall|i: int|
                0 <= i < 10 ==> #[trigger] env[18 + n + i] == hmac_sha1(
                    derived.subrange(32, 64),
                    env.subrange(18, 18 + n),
                )@[i]
        }),
{
    let env = envelope(password, salt, plain);
    let n = plain.len() as int;
    let one = seq![1u8, 0u8, 0u8, 0u8, 0u8, 0u8, 0u8, 0u8, 0u8, 0u8, 0u8, 0u8, 0u8, 0u8, 0u8, 0u8];
    assert(counter_one() =~= one);
    let derived = pbkdf2_hmac_sha1(password, salt, 1000u32);
    let cipher = ctr_apply(enc_key(derived), plain);
    assert(env.subrange(18, 18 + n) =~= cipher);
    assert forall|i: int| 0 <= i < n implies #[trigger] env[18 + i] == plain[i] ^ aes256_ctr_byte(
        derived@.subrange(0, 32),
        one,
        i,
    ) by {
        assert(env[18 + i] == cipher[i]);
    }
}

/// What a recipient gets: where the verifier and the tag are right for the
/// password, every byte between them under the same keystream; nothing where
/// one of them is wrong.
pub proof fn law_recipient_decrypts(password: Seq<u8>, env: Seq<u8>)
    requires
        env.len() >= 28,
    ensures
        ({
            let derived = pbkdf2_hmac_sha1(password, env.subrange(0, 16), 1000u32)@;
            let one = seq![1u8, 0u8, 0u8, 0u8, 0u8, 0u8, 0u8, 0u8, 0u8, 0u8, 0u8, 0u8, 0u8, 0u8, 0u8, 0u8];
            let n = env.len() - 28;
            let tag = hmac_sha1(derived.subrange(32, 64), env.subrange(18, 18 + n))@;
            let right = env[16] == derived[64] && env[17] == derived[65] && forall|i: int|
                0 <= i < 10 ==> #[trigger] env[18 + n + i] == tag[i];
            &&& right <==> open_envelope(password, env) is Some
            &&& right ==> open_envelope(password, env)->0.len() == n
            &&& right ==> forall|i: int|
                0 <= i < n ==> #[trigger] open_envelope(password, env)->0[i] == env[18 + i]
                    ^ aes256_ctr_byte(derived.subrange(0, 32), one, i)
        }),
{
    let derived = pbkdf2_hmac_sha1(password, env.subrange(0, 16), 1000u32);
    let one = seq![1u8, 0u8, 0u8, 0u8, 0u8, 0u8, 0u8, 0u8, 0u8, 0u8, 0u8, 0u8, 0u8, 0u8, 0u8, 0u8];
    assert(counter_one() =~= one);
    let n = env.len() - 28;
    assert(env.subrange(18, env.len() - 10) =~= env.subrange(18, 18 + n));
    let tag = hmac_sha1(mac_key(derived), env.subrange(18, 18 + n))@;
    let verify = env.subrange(16, 18);
    let tail = env.subrange(env.len() - 10, env.len() as int);
    assert(verify[0] == env[16] && verify[1] == env[17]);
    assert(pw_verify(derived)[0] == derived@[64] && pw_verify(derived)[1] == derived@[65]);
    assert((verify == pw_verify(derived)) == (env[16] == derived@[64] && env[17] == derived@[65]))
        by {
        if env[16] == derived@[64] && env[17] == derived@[65] {
            assert(verify =~= pw_verify(derived));
        }
    }
    let same = forall|i: int| 0 <= i < 10 ==> #[trigger] env[18 + n + i] == tag[i];
    assert((tail == tag.take(10)) == same) by {
        if same {
            assert forall|i: int| 0 <= i < 10 implies tail[i] == tag.take(10)[i] by {
                assert(env[18 + n + i] == tag[i]);
            }
            assert(tail =~= tag.take(10));
        }
        if tail == tag.take(10) {
            assert forall|i: int| 0 <= i < 10 implies #[trigger] env[18 + n + i] == tag[i] by {
                assert(tail[i] == tag.take(10)[i]);
            }
        }
    }
}

/// An envelope too short to hold a salt, a check value and a tag is refused.
pub proof fn law_short_envelopes_are_refused(password: Seq<u8>, env: Seq<u8>)
    requires
        env.len() < 28,
    ensures
        open_envelope(password, env) is None,
{
}

} // verus!
