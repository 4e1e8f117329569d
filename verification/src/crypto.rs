//! Key agreement and authenticated encryption.

use vstd::prelude::*;
use aes_gcm::aead::Aead;
use aes_gcm::KeyInit;
use p256::elliptic_curve::Generate;

verus! {

/// The public key of a P-256 secret key, both as bytes; none where the bytes are no secret key.
pub uninterp spec fn p256_public_key(secret: Seq<u8>) -> Option<Seq<u8>>;

/// The secret that a P-256 secret key shares with a public key, all as bytes; none where the bytes
/// are no such keys.
pub uninterp spec fn p256_shared_secret(secret: Seq<u8>, public: Seq<u8>) -> Option<Seq<u8>>;

/// The key of 128 bits derived from a shared secret with HKDF-SHA-256, without salt and info. A key
/// is a number here; as bytes, its most significant byte comes first.
pub uninterp spec fn hkdf_sha256_key(shared: Seq<u8>) -> u128;

/// What AES-128-GCM makes of a plaintext: the ciphertext, followed by the tag.
pub uninterp spec fn aes128_gcm_sealed(key: u128, nonce: Seq<u8>, plain: Seq<u8>) -> Option<
    Seq<u8>,
>;

/// What AES-128-GCM recovers from a ciphertext and its tag; none where the tag does not fit.
pub uninterp spec fn aes128_gcm_opened(key: u128, nonce: Seq<u8>, sealed: Seq<u8>) -> Option<
    Seq<u8>,
>;

/// The longest plaintext that AES-GCM takes.
pub const LONGEST_PLAINTEXT: u64 = 0xf_ffff_ffe0;

/// `SecretKey::generate` of the crate `p256`, which draws from the random numbers of the system and
/// panics where there are none. Which key comes is left to chance; it is a secret key.
#[verifier::external_body]
fn generate_secret() -> (secret: [u8; 32])
    ensures
        p256_public_key(secret@) is Some,
{
    p256::SecretKey::generate().to_bytes().into()
}

/// `SecretKey::public_key` of the crate `p256`, on a secret key read with `from_bytes`. The public
/// key is written uncompressed, as SEC 1 has it.
#[verifier::external_body]
fn public_key_of(secret: &[u8; 32]) -> (result: Option<[u8; 65]>)
    ensures
        match result {
            Some(public) => p256_public_key(secret@) == Some(public@),
            None => p256_public_key(secret@) is None,
        },
{
    let secret = p256::SecretKey::from_bytes(&(*secret).into()).ok()?;
    secret.public_key().to_sec1_bytes().as_ref().try_into().ok()
}

/// `SecretKey::diffie_hellman` of the crate `p256`, on a secret key read with `from_bytes` and a
/// public key read with `from_sec1_bytes`. Two parties that exchange the public keys of their
/// secret keys arrive at the same shared secret.
#[verifier::external_body]
fn diffie_hellman(secret: &[u8; 32], public: &[u8; 65]) -> (result: Option<[u8; 32]>)
    ensures
        match result {
            Some(shared) => p256_shared_secret(secret@, public@) == Some(shared@),
            None => p256_shared_secret(secret@, public@) is None,
        },
        match result {
            Some(shared) => forall|other: Seq<u8>|
                p256_public_key(secret@) is Some && #[trigger] p256_public_key(other) == Some(
                    public@,
                ) ==> p256_shared_secret(other, p256_public_key(secret@)->0) == Some(shared@),
            None => p256_public_key(secret@) is None || forall|other: Seq<u8>| #[trigger]
                p256_public_key(other) != Some(public@),
        },
{
    let secret = p256::SecretKey::from_bytes(&(*secret).into()).ok()?;
    let public = p256::PublicKey::from_sec1_bytes(public).ok()?;
    Some((*secret.diffie_hellman(&public).raw_secret_bytes()).into())
}

/// `SharedSecret::extract` of the crate `p256` with `sha2::Sha256` and no salt, and `expand` of what
/// it gives, with no info, to sixteen bytes. Expanding fails only for more than `255 * 32` bytes.
#[verifier::external_body]
fn derive(shared: &[u8; 32]) -> (key: u128)
    ensures
        key == hkdf_sha256_key(shared@),
{
    let shared = p256::ecdh::SharedSecret::from(p256::FieldBytes::from(*shared));
    let mut key = [0u8; 16];
    shared.extract::<sha2::Sha256>(None).expand(b"", &mut key).unwrap();
    u128::from_be_bytes(key)
}

/// `Aead::encrypt` of the crate `aes-gcm` for AES-128: the result is longer than the plaintext by
/// the tag of sixteen bytes, and there is one unless the plaintext is too long.
#[verifier::external_body]
pub(crate) fn seal(key: u128, nonce: &[u8; 12], plain: &[u8]) -> (result: Option<Vec<u8>>)
    ensures
        match result {
            Some(sealed) => aes128_gcm_sealed(key, nonce@, plain@) == Some(sealed@)
                && sealed@.len() == plain@.len() + 16,
            None => aes128_gcm_sealed(key, nonce@, plain@) is None,
        },
        result is Some <==> plain@.len() <= LONGEST_PLAINTEXT,
{
    aes_gcm::Aes128Gcm::new(&key.to_be_bytes().into()).encrypt(&(*nonce).into(), plain).ok()
}

/// `Aead::decrypt` of the crate `aes-gcm` for AES-128: it gives back what was encrypted under the
/// same key and nonce.
#[verifier::external_body]
pub(crate) fn open(key: u128, nonce: &[u8; 12], sealed: &[u8]) -> (result: Option<Vec<u8>>)
    ensures
        match result {
            Some(plain) => aes128_gcm_opened(key, nonce@, sealed@) == Some(plain@),
            None => aes128_gcm_opened(key, nonce@, sealed@) is None,
        },
        match result {
            Some(plain) => forall|sent: Seq<u8>| #[trigger]
                aes128_gcm_sealed(key, nonce@, sent) == Some(sealed@) ==> plain@ == sent,
            None => forall|sent: Seq<u8>| #[trigger]
                aes128_gcm_sealed(key, nonce@, sent) != Some(sealed@),
        },
{
    aes_gcm::Aes128Gcm::new(&key.to_be_bytes().into()).decrypt(&(*nonce).into(), sealed).ok()
}

/// A public key: a point of the curve P-256, uncompressed as SEC 1 has it.
#[derive(Clone, Copy, PartialEq, Eq, Debug)]
pub struct PublicKey {
    pub bytes: [u8; 65],
}

/// A secret key for one key agreement, with its public key.
#[derive(Clone, Copy)]
pub struct EcdhKey {
    secret: [u8; 32],
    public: PublicKey,
}

/// The key on which a secret key and a public key agree.
pub open spec fn agreed_key(secret: Seq<u8>, public: Seq<u8>) -> Option<u128> {
    match p256_shared_secret(secret, public) {
        Some(shared) => Some(hkdf_sha256_key(shared)),
        None => None,
    }
}

impl EcdhKey {
    /// The secret key.
    pub closed spec fn secret(self) -> Seq<u8> {
        self.secret@
    }

    /// The public key.
    pub closed spec fn public(self) -> PublicKey {
        self.public
    }

    /// The public key is that of the secret key.
    pub open spec fn wf(self) -> bool {
        p256_public_key(self.secret()) == Some(self.public().bytes@)
    }

    /// A new key, by chance.
    pub fn generate() -> (key: EcdhKey)
        ensures
            key.wf(),
    {
        let secret = generate_secret();
        match public_key_of(&secret) {
            Some(bytes) => EcdhKey { secret, public: PublicKey { bytes } },
            None => EcdhKey { secret, public: PublicKey { bytes: [0u8; 65] } },
        }
    }

    /// The key with the given secret, unless the bytes are no secret key.
    pub fn from_secret(secret: [u8; 32]) -> (result: Option<EcdhKey>)
        ensures
            match result {
                Some(key) => key.wf() && key.secret() == secret@,
                None => p256_public_key(secret@) is None,
            },
    {
        match public_key_of(&secret) {
            Some(bytes) => Some(EcdhKey { secret, public: PublicKey { bytes } }),
            None => None,
        }
    }

    /// The public key.
    pub fn public_key(&self) -> (public: PublicKey)
        ensures
            public == self.public(),
    {
        self.public
    }

    /// The key on which this key and `public` agree, unless the bytes of `public` are no public key.
    /// The owner of `public` arrives at the same one.
    pub fn agree(&self, public: &PublicKey) -> (result: Option<u128>)
        requires
            self.wf(),
        ensures
            result == agreed_key(self.secret(), public.bytes@),
            forall|other: EcdhKey| #[trigger]
                other.wf() && other.public() == *public ==> result is Some && result == agreed_key(
                    other.secret(),
                    self.public().bytes@,
                ),
    {
        match diffie_hellman(&self.secret, &public.bytes) {
            Some(shared) => Some(derive(&shared)),
            None => None,
        }
    }
}

} // verus!
