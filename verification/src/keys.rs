//! Peer identities: RSA key pairs held as their DER encodings, their hex and PEM texts, and
//! peer ids. A peer id is the base58 text of the SHA-256 digest of the peer's public key (its
//! PKCS#1 DER encoding).

use base58::ToBase58;
use rsa::pkcs1::{DecodeRsaPublicKey, EncodeRsaPrivateKey, EncodeRsaPublicKey};
use rsa::pkcs1v15::{Signature, SigningKey, VerifyingKey};
use rsa::pkcs8::{DecodePrivateKey, EncodePrivateKey};
use rsa::sha2::Sha256;
use rsa::signature::{SignatureEncoding, Signer, Verifier};
use rsa::{RsaPrivateKey, RsaPublicKey};
use sha2::Digest;
use vstd::prelude::*;

verus! {

/// The SHA-256 digest of some bytes.
pub uninterp spec fn sha256(data: Seq<u8>) -> Seq<u8>;

/// The base58 digits, in the bitcoin alphabet.
pub open spec fn base58_alphabet() -> Seq<char> {
    seq![
        '1', '2', '3', '4', '5', '6', '7', '8', '9', 'A', 'B', 'C', 'D', 'E', 'F', 'G', 'H', 'J',
        'K', 'L', 'M', 'N', 'P', 'Q', 'R', 'S', 'T', 'U', 'V', 'W', 'X', 'Y', 'Z', 'a', 'b', 'c',
        'd', 'e', 'f', 'g', 'h', 'i', 'j', 'k', 'm', 'n', 'o', 'p', 'q', 'r', 's', 't', 'u', 'v',
        'w', 'x', 'y', 'z',
    ]
}

/// The value of some bytes read as a big-endian number.
pub open spec fn big_endian_value(data: Seq<u8>) -> nat
    decreases data.len(),
{
    if data.len() == 0 {
        0
    } else {
        big_endian_value(data.drop_last()) * 256 + data.last() as nat
    }
}

/// The base58 digits of a number, most significant first, with no leading zero digit (none at
/// all for zero).
pub open spec fn base58_digits(n: nat) -> Seq<char>
    decreases n,
{
    if n == 0 {
        Seq::empty()
    } else {
        base58_digits(n / 58).push(base58_alphabet()[(n % 58) as int])
    }
}

/// How many zero bytes some bytes start with.
pub open spec fn leading_zero_bytes(data: Seq<u8>) -> nat
    decreases data.len(),
{
    if data.len() == 0 || data[0] != 0 {
        0
    } else {
        1 + leading_zero_bytes(data.drop_first())
    }
}

/// The base58 text of some bytes: a '1' for each leading zero byte, then the base58 digits of
/// their big-endian value.
pub open spec fn base58(data: Seq<u8>) -> Seq<char> {
    Seq::new(leading_zero_bytes(data), |_i: int| '1') + base58_digits(big_endian_value(data))
}

/// `sha2::Sha256` over the bytes (`new`, `update`, `finalize`): the digest, 32 bytes long.
#[verifier::external_body]
fn sha256_digest(data: &[u8]) -> (r: Vec<u8>)
    ensures
        r@ == sha256(data@),
        r@.len() == 32,
{
    let mut hasher = sha2::Sha256::new();
    hasher.update(data);
    hasher.finalize().to_vec()
}

/// `base58::ToBase58::to_base58` on the bytes: a '1' for each leading zero byte, then the
/// base58 digits of the bytes' big-endian value. The crate is written for inputs of at most
/// 128 bytes.
#[verifier::external_body]
fn to_base58(data: &[u8]) -> (r: String)
    requires
        data@.len() <= 128,
    ensures
        r@ == base58(data@),
{
    data.to_base58()
}

/// The peer id of a public key given as PKCS#1 DER: base58 of the first 32 bytes of its
/// SHA-256 digest (which has 32).
pub fn peer_id_from_public_key_der(der: &[u8]) -> (r: String)
    ensures
        r@ == base58(sha256(der@).take(32)),
        r@ == base58(sha256(der@)),
{
    let digest = sha256_digest(der);
    let short_hash = vstd::slice::slice_subrange(digest.as_slice(), 0, 32);
    assert(short_hash@ =~= sha256(der@).take(32));
    assert(sha256(der@).take(32) =~= sha256(der@));
    to_base58(short_hash)
}


/// The value of a hex digit, either case.
pub open spec fn hex_value(c: char) -> Option<u8> {
    if '0' <= c && c <= '9' {
        Some((c as u32 - '0' as u32) as u8)
    } else if 'a' <= c && c <= 'f' {
        Some((c as u32 - 'a' as u32 + 10) as u8)
    } else if 'A' <= c && c <= 'F' {
        Some((c as u32 - 'A' as u32 + 10) as u8)
    } else {
        None
    }
}

/// The bytes a hex text stands for: two digits per byte, high digit first; `None` for an odd
/// number of characters or a character that is not a hex digit.
pub open spec fn hex_decoded(s: Seq<char>) -> Option<Seq<u8>>
    decreases s.len(),
{
    if s.len() == 0 {
        Some(Seq::empty())
    } else if s.len() == 1 {
        None
    } else {
        match (hex_value(s[0]), hex_value(s[1]), hex_decoded(s.skip(2))) {
            (Some(h), Some(l), Some(rest)) => Some(seq![(h * 16 + l) as u8] + rest),
            _ => None,
        }
    }
}

/// The lower-case hex digit of a value below sixteen.
pub open spec fn hex_digit(d: u8) -> char {
    if d < 10 {
        (d + '0' as u32) as char
    } else {
        (d - 10 + 'a' as u32) as char
    }
}

/// The lower-case hex text of bytes: two digits per byte, high digit first.
pub open spec fn hex_text(b: Seq<u8>) -> Seq<char>
    decreases b.len(),
{
    if b.len() == 0 {
        Seq::empty()
    } else {
        seq![hex_digit(b[0] / 16), hex_digit(b[0] % 16)] + hex_text(b.skip(1))
    }
}

/// The hex text of bytes reads back as the bytes.
pub proof fn lemma_hex_round_trip(b: Seq<u8>)
    ensures
        hex_decoded(hex_text(b)) == Some(b),
    decreases b.len(),
{
    if b.len() > 0 {
        lemma_hex_round_trip(b.skip(1));
        let t = hex_text(b);
        let h = b[0] / 16;
        let l = b[0] % 16;
        assert(hex_value(hex_digit(h)) == Some(h));
        assert(hex_value(hex_digit(l)) == Some(l));
        assert(t.skip(2) =~= hex_text(b.skip(1)));
        assert((h * 16 + l) as u8 == b[0]);
        assert(seq![b[0]] + b.skip(1) =~= b);
    } else {
        assert(b =~= Seq::<u8>::empty());
    }
}

/// `hex::decode`: the bytes of a hex text (either case), or an error for an odd length or a
/// character that is not a hex digit.
#[verifier::external_body]
fn hex_decode(s: &str) -> (r: Option<Vec<u8>>)
    ensures
        match hex_decoded(s@) {
            Some(b) => r matches Some(v) && v@ == b,
            None => r is None,
        },
{
    hex::decode(s).ok()
}

/// `hex::encode`: the lower-case hex text of the bytes.
#[verifier::external_body]
fn hex_encode(b: &[u8]) -> (r: String)
    ensures
        r@ == hex_text(b@),
{
    hex::encode(b)
}

/// The PKCS#1 DER encoding of the public key of the RSA private key whose PKCS#8 DER
/// encoding is given; `None` when the bytes are not such a key.
pub uninterp spec fn pkcs8_public_pkcs1(der: Seq<u8>) -> Option<Seq<u8>>;

/// The PKCS#8 DER encoding of the RSA private key in a PKCS#8 PEM text; `None` when the text
/// is not such a key.
pub uninterp spec fn pem_private_pkcs8(pem: Seq<char>) -> Option<Seq<u8>>;

/// The PKCS#1 PEM text (LF line endings) of the RSA private key whose PKCS#8 DER encoding is
/// given; `None` when the bytes are not such a key.
pub uninterp spec fn pkcs8_private_pkcs1_pem(der: Seq<u8>) -> Option<Seq<char>>;

/// `RsaPrivateKey::from_pkcs8_der`, `RsaPublicKey::from` and `to_pkcs1_der`: the public key of
/// a private key, as PKCS#1 DER.
#[verifier::external_body]
fn public_pkcs1_of(der: &[u8]) -> (r: Option<Vec<u8>>)
    ensures
        match pkcs8_public_pkcs1(der@) {
            Some(p) => r matches Some(v) && v@ == p,
            None => r is None,
        },
{
    match RsaPrivateKey::from_pkcs8_der(der) {
        Ok(key) => match RsaPublicKey::from(&key).to_pkcs1_der() {
            Ok(doc) => Some(doc.as_bytes().to_vec()),
            Err(_) => None,
        },
        Err(_) => None,
    }
}

/// `RsaPrivateKey::from_pkcs8_pem` and `to_pkcs8_der`: the private key of a PEM text, as
/// PKCS#8 DER.
#[verifier::external_body]
fn private_pkcs8_of_pem(pem: &str) -> (r: Option<Vec<u8>>)
    ensures
        match pem_private_pkcs8(pem@) {
            Some(d) => r matches Some(v) && v@ == d,
            None => r is None,
        },
        r matches Some(v) ==> pkcs8_reencoded(v@) == Some(v@),
{
    match RsaPrivateKey::from_pkcs8_pem(pem) {
        Ok(key) => match key.to_pkcs8_der() {
            Ok(doc) => Some(doc.as_bytes().to_vec()),
            Err(_) => None,
        },
        Err(_) => None,
    }
}

/// `RsaPrivateKey::from_pkcs8_der` and `to_pkcs1_pem`: the PKCS#1 PEM text of a private key.
#[verifier::external_body]
fn pkcs1_pem_of(der: &[u8]) -> (r: Option<String>)
    ensures
        match pkcs8_private_pkcs1_pem(der@) {
            Some(t) => r matches Some(s) && s@ == t,
            None => r is None,
        },
{
    match RsaPrivateKey::from_pkcs8_der(der) {
        Ok(key) => match key.to_pkcs1_pem(Default::default()) {
            Ok(pem) => Some(pem.to_string()),
            Err(_) => None,
        },
        Err(_) => None,
    }
}

/// The PKCS#8 DER encoding the `rsa` crate writes for the RSA private key whose PKCS#8 DER
/// encoding is given; `None` when the bytes are not such a key.
pub uninterp spec fn pkcs8_reencoded(der: Seq<u8>) -> Option<Seq<u8>>;

/// The number of bits of the modulus of the RSA private key whose PKCS#8 DER encoding is
/// given; `None` when the bytes are not such a key.
pub uninterp spec fn pkcs8_modulus_bits(der: Seq<u8>) -> Option<nat>;

/// The PKCS#1 v1.5 signature with SHA-256 of a message under the RSA private key whose
/// PKCS#8 DER encoding is given; `None` when the bytes are not such a key or it cannot sign.
pub uninterp spec fn pkcs1v15_signature(der: Seq<u8>, msg: Seq<u8>) -> Option<Seq<u8>>;

/// Whether `sig` is a valid PKCS#1 v1.5 signature with SHA-256 of `msg` under the RSA public
/// key whose PKCS#1 DER encoding is given.
pub uninterp spec fn pkcs1v15_verifies(public_der: Seq<u8>, msg: Seq<u8>, sig: Seq<u8>) -> bool;

/// `RsaPrivateKey::from_pkcs8_der` and `to_pkcs8_der`: the key written again as PKCS#8 DER.
/// DER has one encoding per value, so what `rsa` writes reads back and is written again the
/// same.
#[verifier::external_body]
fn reencode_pkcs8(der: &[u8]) -> (r: Option<Vec<u8>>)
    ensures
        match pkcs8_reencoded(der@) {
            Some(d) => r matches Some(v) && v@ == d,
            None => r is None,
        },
        r matches Some(v) ==> pkcs8_reencoded(v@) == Some(v@),
{
    match RsaPrivateKey::from_pkcs8_der(der) {
        Ok(key) => match key.to_pkcs8_der() {
            Ok(doc) => Some(doc.as_bytes().to_vec()),
            Err(_) => None,
        },
        Err(_) => None,
    }
}

/// The operating system's random source, as `rand_core` (re-exported by `rsa`) gives it.
#[verifier::external_type_specification]
#[verifier::external_body]
pub struct ExOsRng(rsa::rand_core::OsRng);

/// `rsa::rand_core::OsRng`: a handle on the operating system's random source.
#[verifier::external_body]
fn os_random_source() -> (r: rsa::rand_core::OsRng) {
    rsa::rand_core::OsRng
}

/// `RsaPrivateKey::new` with the random source, then `to_pkcs8_der`. The key drawn is left to
/// chance; `rsa` draws again until the modulus has exactly `bits` bits.
#[verifier::external_body]
fn fresh_private_pkcs8(rng: &mut rsa::rand_core::OsRng, bits: usize) -> (r: Option<Vec<u8>>)
    ensures
        r matches Some(d) ==> pkcs8_modulus_bits(d@) == Some(bits as nat),
        r matches Some(d) ==> pkcs8_reencoded(d@) == Some(d@),
{
    match RsaPrivateKey::new(rng, bits) {
        Ok(key) => match key.to_pkcs8_der() {
            Ok(doc) => Some(doc.as_bytes().to_vec()),
            Err(_) => None,
        },
        Err(_) => None,
    }
}

/// `RsaPrivateKey::from_pkcs8_der`, `SigningKey::<Sha256>::new` and `try_sign`: the PKCS#1 v1.5
/// signature of the message.
#[verifier::external_body]
fn sign_pkcs1v15(der: &[u8], msg: &[u8]) -> (r: Option<Vec<u8>>)
    ensures
        match pkcs1v15_signature(der@, msg@) {
            Some(sig) => r matches Some(v) && v@ == sig,
            None => r is None,
        },
{
    match RsaPrivateKey::from_pkcs8_der(der) {
        Ok(key) => match SigningKey::<Sha256>::new(key).try_sign(msg) {
            Ok(sig) => Some(sig.to_vec()),
            Err(_) => None,
        },
        Err(_) => None,
    }
}

/// `RsaPublicKey::from_pkcs1_der`, `VerifyingKey::<Sha256>::new`, `Signature::try_from` and
/// `verify`: whether the signature of the message is valid under the public key.
#[verifier::external_body]
fn verify_pkcs1v15(public_der: &[u8], msg: &[u8], sig: &[u8]) -> (r: bool)
    ensures
        r == pkcs1v15_verifies(public_der@, msg@, sig@),
{
    match (RsaPublicKey::from_pkcs1_der(public_der), Signature::try_from(sig)) {
        (Ok(key), Ok(sig)) => VerifyingKey::<Sha256>::new(key).verify(msg, &sig).is_ok(),
        _ => false,
    }
}

/// The number of bits of the keys this library generates.
pub const KEY_BITS: usize = 2048;

/// An RSA key pair: the private key as PKCS#8 DER and its public key as PKCS#1 DER.
pub struct KeyPair {
    pub private_pkcs8_der: Vec<u8>,
    pub public_pkcs1_der: Vec<u8>,
}

/// Why a key pair could not be made.
#[derive(Debug, Clone, Copy, PartialEq, Eq, Structural)]
pub enum KeyError {
    /// The text is not hex.
    InvalidHex,
    /// The text is not a PEM private key.
    InvalidPem,
    /// The bytes are not an RSA private key.
    InvalidKey,
    /// No key could be generated.
    KeyGeneration,
}

/// The key pair of a private key given as the PKCS#8 DER encoding `rsa` writes.
fn key_pair_of(der: Vec<u8>) -> (r: Result<KeyPair, KeyError>)
    requires
        pkcs8_reencoded(der@) == Some(der@),
    ensures
        r matches Ok(k) ==> k.wf(),
        match pkcs8_public_pkcs1(der@) {
            Some(p) => r matches Ok(k) && k.private_pkcs8_der@ == der@ && k.public_pkcs1_der@ == p,
            None => r == Err::<KeyPair, KeyError>(KeyError::InvalidKey),
        },
{
    match public_pkcs1_of(der.as_slice()) {
        Some(public_pkcs1_der) => Ok(KeyPair { private_pkcs8_der: der, public_pkcs1_der }),
        None => Err(KeyError::InvalidKey),
    }
}

impl KeyPair {
    /// The private key is as `rsa` writes it, and the public key is the one of the private
    /// key.
    pub open spec fn wf(&self) -> bool {
        &&& pkcs8_reencoded(self.private_pkcs8_der@) == Some(self.private_pkcs8_der@)
        &&& pkcs8_public_pkcs1(self.private_pkcs8_der@) == Some(self.public_pkcs1_der@)
    }

    /// The key pair of a private key given as PKCS#8 DER; the key is kept as `rsa` writes it
    /// again.
    pub fn from_private_der(der: Vec<u8>) -> (r: Result<KeyPair, KeyError>)
        ensures
            match pkcs8_reencoded(der@) {
                None => r == Err::<KeyPair, KeyError>(KeyError::InvalidKey),
                Some(c) => match pkcs8_public_pkcs1(c) {
                    Some(p) => r matches Ok(k) && k.private_pkcs8_der@ == c && k.public_pkcs1_der@ == p,
                    None => r == Err::<KeyPair, KeyError>(KeyError::InvalidKey),
                },
            },
            r matches Ok(k) ==> k.wf(),
    {
        match reencode_pkcs8(der.as_slice()) {
            Some(c) => key_pair_of(c),
            None => Err(KeyError::InvalidKey),
        }
    }

    /// The PKCS#1 v1.5 signature with SHA-256 of a message.
    pub fn sign(&self, msg: &[u8]) -> (r: Result<Vec<u8>, KeyError>)
        ensures
            match pkcs1v15_signature(self.private_pkcs8_der@, msg@) {
                Some(sig) => r matches Ok(v) && v@ == sig,
                None => r == Err::<Vec<u8>, KeyError>(KeyError::InvalidKey),
            },
    {
        match sign_pkcs1v15(self.private_pkcs8_der.as_slice(), msg) {
            Some(sig) => Ok(sig),
            None => Err(KeyError::InvalidKey),
        }
    }

    /// Whether a signature of a message is valid under the public key.
    pub fn verify(&self, msg: &[u8], sig: &[u8]) -> (r: bool)
        ensures
            r == pkcs1v15_verifies(self.public_pkcs1_der@, msg@, sig@),
    {
        verify_pkcs1v15(self.public_pkcs1_der.as_slice(), msg, sig)
    }

    /// The private key as lower-case hex of its PKCS#8 DER encoding.
    pub fn to_hex(&self) -> (r: String)
        ensures
            r@ == hex_text(self.private_pkcs8_der@),
    {
        hex_encode(self.private_pkcs8_der.as_slice())
    }

    /// The private key as a PKCS#1 PEM text.
    pub fn to_pem(&self) -> (r: Result<String, KeyError>)
        ensures
            match pkcs8_private_pkcs1_pem(self.private_pkcs8_der@) {
                Some(t) => r matches Ok(s) && s@ == t,
                None => r == Err::<String, KeyError>(KeyError::InvalidKey),
            },
    {
        match pkcs1_pem_of(self.private_pkcs8_der.as_slice()) {
            Some(s) => Ok(s),
            None => Err(KeyError::InvalidKey),
        }
    }

    /// The peer id of the key pair: base58 of the SHA-256 digest of the public key.
    pub fn peer_id(&self) -> (r: String)
        ensures
            r@ == base58(sha256(self.public_pkcs1_der@)),
    {
        peer_id_from_public_key_der(self.public_pkcs1_der.as_slice())
    }
}

/// The key pair of a private key given as hex of its PKCS#8 DER encoding.
pub fn key_pair_from_hex(hex: &str) -> (r: Result<KeyPair, KeyError>)
    ensures
        match hex_decoded(hex@) {
            None => r == Err::<KeyPair, KeyError>(KeyError::InvalidHex),
            Some(b) => match pkcs8_reencoded(b) {
                None => r == Err::<KeyPair, KeyError>(KeyError::InvalidKey),
                Some(c) => match pkcs8_public_pkcs1(c) {
                    None => r == Err::<KeyPair, KeyError>(KeyError::InvalidKey),
                    Some(p) => r matches Ok(k) && k.private_pkcs8_der@ == c && k.public_pkcs1_der@ == p,
                },
            },
        },
        r matches Ok(k) ==> k.wf(),
{
    match hex_decode(hex) {
        Some(der) => KeyPair::from_private_der(der),
        None => Err(KeyError::InvalidHex),
    }
}

/// The key pair of a private key given as a PKCS#8 PEM text.
pub fn key_pair_from_pem(pem: &str) -> (r: Result<KeyPair, KeyError>)
    ensures
        match pem_private_pkcs8(pem@) {
            None => r == Err::<KeyPair, KeyError>(KeyError::InvalidPem),
            Some(b) => match pkcs8_public_pkcs1(b) {
                None => r == Err::<KeyPair, KeyError>(KeyError::InvalidKey),
                Some(p) => r matches Ok(k) && k.private_pkcs8_der@ == b && k.public_pkcs1_der@ == p,
            },
        },
        r matches Ok(k) ==> k.wf(),
{
    match private_pkcs8_of_pem(pem) {
        Some(der) => key_pair_of(der),
        None => Err(KeyError::InvalidPem),
    }
}

/// A fresh key pair of `KEY_BITS` bits, drawn from the operating system's random source;
/// which key is drawn is left to chance.
pub fn generate_key_pair() -> (r: Result<KeyPair, KeyError>)
    ensures
        r matches Ok(k) ==> k.wf() && pkcs8_modulus_bits(k.private_pkcs8_der@) == Some(KEY_BITS as nat),
{
    let mut rng = os_random_source();
    match fresh_private_pkcs8(&mut rng, KEY_BITS) {
        Some(der) => key_pair_of(der),
        None => Err(KeyError::KeyGeneration),
    }
}

/// A key pair written as hex reads back as the same key pair: the hex text decodes to the
/// private key, which `rsa` writes again unchanged, and whose public key is the pair's.
pub proof fn lemma_key_pair_hex_round_trip(k: KeyPair)
    requires
        k.wf(),
    ensures
        hex_decoded(hex_text(k.private_pkcs8_der@)) == Some(k.private_pkcs8_der@),
        pkcs8_reencoded(k.private_pkcs8_der@) == Some(k.private_pkcs8_der@),
        pkcs8_public_pkcs1(k.private_pkcs8_der@) == Some(k.public_pkcs1_der@),
{
    lemma_hex_round_trip(k.private_pkcs8_der@);
}

} // verus!
