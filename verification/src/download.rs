use vstd::prelude::*;
use vstd::string::StringSliceAdditionalSpecFns;
use vstd::utf8::*;
use base64::Engine;
use sha1::Digest;
use crate::order::{order_bytes, KeyOrder};
use crate::read::text_from_utf8;

verus! {

/// Why a downloaded update is not installed.
#[derive(Debug, Clone, Copy, PartialEq, Eq, Structural)]
pub enum DownloadError {
    /// The manifest's hash is no text of forty hexadecimal digits.
    BadHashText,
    /// The download does not have the hash that the manifest gives.
    HashMismatch,
    /// The public key is no base64 of a key file.
    BadKey,
    /// The manifest's signature is no base64 of a signature file.
    BadSignatureText,
    /// The signature is not one of the download by the key.
    InvalidSignature,
    /// The signature could not be checked against the key.
    SignatureError,
}

/// What came of checking a signature.
#[derive(Debug, Clone, Copy, PartialEq, Eq, Structural)]
pub enum SignatureVerdict {
    /// The key's text is no key.
    BadKey,
    /// The signature's text is no signature.
    BadSignature,
    /// The signature is one of the data by the key.
    Good,
    /// The signature is not one of the data by the key.
    Forged,
    /// Key and signature do not go together.
    Unchecked,
}

/// The number that a hexadecimal digit stands for.
pub open spec fn hex_val(c: u8) -> Option<int> {
    if 0x30 <= c <= 0x39 {
        Some(c - 0x30)
    } else if 0x41 <= c <= 0x46 {
        Some(c - 0x41 + 10)
    } else if 0x61 <= c <= 0x66 {
        Some(c - 0x61 + 10)
    } else {
        None
    }
}

/// The text is made of hexadecimal digits, two for each of `n` bytes.
pub open spec fn hex_ok(s: Seq<u8>, n: nat) -> bool {
    s.len() == 2 * n && forall|i: int| 0 <= i < s.len() ==> hex_val(#[trigger] s[i]) is Some
}

/// The bytes that a text of hexadecimal digits spells.
pub open spec fn hex_bytes(s: Seq<u8>) -> Seq<u8> {
    Seq::new(
        s.len() / 2,
        |i: int| (16 * hex_val(s[2 * i])->0 + hex_val(s[2 * i + 1])->0) as u8,
    )
}

/// The SHA-1 digest of a byte string.
pub uninterp spec fn sha1_of(data: Seq<u8>) -> Seq<u8>;

/// The bytes that a text in standard base64 with padding spells, if it is such a text.
pub uninterp spec fn base64_of(text: Seq<char>) -> Option<Seq<u8>>;

/// What the check of a minisign signature of some data against a public key
/// gives, key and signature as the texts of their files.
pub uninterp spec fn verdict_of(key: Seq<char>, signature: Seq<char>, data: Seq<u8>) -> SignatureVerdict;

/// `hex::decode_to_slice` into twenty bytes: the bytes that forty hexadecimal
/// digits of either case spell, and nothing for any other text.
#[verifier::external_body]
pub(crate) fn hex_to_digest(text: &str) -> (r: Option<Vec<u8>>)
    ensures
        r is Some <==> hex_ok(text.spec_bytes(), 20),
        r matches Some(v) ==> v@ == hex_bytes(text.spec_bytes()),
{
    let mut out = [0u8; 20];
    match hex::decode_to_slice(text, &mut out) {
        Ok(()) => Some(out.to_vec()),
        Err(_) => None,
    }
}

/// `Sha1::new`, `update` and `finalize`: the SHA-1 digest of the data, twenty bytes.
#[verifier::external_body]
pub(crate) fn sha1_digest(data: &[u8]) -> (r: Vec<u8>)
    ensures
        r@ == sha1_of(data@),
        r@.len() == 20,
{
    let mut hasher = sha1::Sha1::new();
    hasher.update(data);
    hasher.finalize().to_vec()
}

/// `Engine::decode` of the standard base64 engine: the bytes that the text
/// spells, and nothing if it is no base64.
#[verifier::external_body]
pub(crate) fn base64_bytes(text: &str) -> (r: Option<Vec<u8>>)
    ensures
        r is Some <==> base64_of(text@) is Some,
        r matches Some(v) ==> base64_of(text@) == Some(v@),
{
    base64::engine::general_purpose::STANDARD.decode(text).ok()
}

/// `PublicKey::decode`, `Signature::decode` and `PublicKey::verify` of
/// minisign, without the legacy mode: whether the signature is one of the
/// data by the key.
#[verifier::external_body]
pub(crate) fn minisign_verdict(key: &str, signature: &str, data: &[u8]) -> (r: SignatureVerdict)
    ensures
        r == verdict_of(key@, signature@, data@),
{
    let Ok(pk) = minisign_verify::PublicKey::decode(key) else {
        return SignatureVerdict::BadKey;
    };
    let Ok(sig) = minisign_verify::Signature::decode(signature) else {
        return SignatureVerdict::BadSignature;
    };
    match pk.verify(data, &sig, false) {
        Ok(()) => SignatureVerdict::Good,
        Err(minisign_verify::Error::InvalidSignature) => SignatureVerdict::Forged,
        Err(_) => SignatureVerdict::Unchecked,
    }
}

/// What the hash of a download says of it: the manifest's hash must be
/// readable, and the download must have it.
pub open spec fn hash_check(expected: Option<Seq<u8>>, digest: Seq<u8>) -> Result<
    (),
    DownloadError,
> {
    match expected {
        None => Err(DownloadError::BadHashText),
        Some(e) => if e == digest {
            Ok(())
        } else {
            Err(DownloadError::HashMismatch)
        },
    }
}

/// What a signature's check says of a download.
pub open spec fn signature_check(v: SignatureVerdict) -> Result<(), DownloadError> {
    match v {
        SignatureVerdict::Good => Ok(()),
        SignatureVerdict::Forged => Err(DownloadError::InvalidSignature),
        SignatureVerdict::BadKey => Err(DownloadError::BadKey),
        SignatureVerdict::BadSignature => Err(DownloadError::BadSignatureText),
        SignatureVerdict::Unchecked => Err(DownloadError::SignatureError),
    }
}

/// The text behind a base64 text, if it is base64 of UTF-8.
pub open spec fn text_behind(b64: Seq<char>) -> Option<Seq<char>> {
    match base64_of(b64) {
        Some(bytes) => if valid_utf8(bytes) {
            Some(decode_utf8(bytes))
        } else {
            None
        },
        None => None,
    }
}

/// Whether a download may be installed: its hash is the manifest's, and the
/// manifest's signature is one of the download by the launcher's key.
pub open spec fn download_check(
    data: Seq<u8>,
    sha1_hex: Seq<u8>,
    key_b64: Seq<char>,
    sig_b64: Seq<char>,
) -> Result<(), DownloadError> {
    let expected = if hex_ok(sha1_hex, 20) {
        Some(hex_bytes(sha1_hex))
    } else {
        None
    };
    if hash_check(expected, sha1_of(data)) is Err {
        hash_check(expected, sha1_of(data))
    } else {
        match text_behind(key_b64) {
            None => Err(DownloadError::BadKey),
            Some(key) => match text_behind(sig_b64) {
                None => Err(DownloadError::BadSignatureText),
                Some(sig) => signature_check(verdict_of(key, sig, data)),
            },
        }
    }
}

/// Judges a download by its hash: `expected` is what the manifest's hash
/// spells, if it spells anything, `digest` the hash of the download.
pub fn judge_hash(expected: &Option<Vec<u8>>, digest: &[u8]) -> (r: Result<(), DownloadError>)
    ensures
        r == hash_check(
            match *expected {
                Some(e) => Some(e@),
                None => None,
            },
            digest@,
        ),
{
    match expected {
        None => Err(DownloadError::BadHashText),
        Some(e) => match order_bytes(e.as_slice(), digest) {
            KeyOrder::Equal => Ok(()),
            _ => Err(DownloadError::HashMismatch),
        },
    }
}

/// Judges a download by what the check of its signature gave.
pub fn judge_signature(v: SignatureVerdict) -> (r: Result<(), DownloadError>)
    ensures
        r == signature_check(v),
{
    match v {
        SignatureVerdict::Good => Ok(()),
        SignatureVerdict::Forged => Err(DownloadError::InvalidSignature),
        SignatureVerdict::BadKey => Err(DownloadError::BadKey),
        SignatureVerdict::BadSignature => Err(DownloadError::BadSignatureText),
        SignatureVerdict::Unchecked => Err(DownloadError::SignatureError),
    }
}

/// Reads the text behind a base64 text.
pub fn read_text_behind(b64: &str) -> (r: Option<String>)
    ensures
        match r {
            Some(s) => text_behind(b64@) == Some(s@),
            None => text_behind(b64@) is None,
        },
{
    match base64_bytes(b64) {
        None => None,
        Some(bytes) => text_from_utf8(bytes),
    }
}

/// Checks a download before it is installed: first its SHA-1 hash against
/// the hexadecimal hash of the manifest, then the manifest's minisign
/// signature against the launcher's public key, both given in base64.
pub fn verify_download(data: &[u8], sha1_hex: &str, key_b64: &str, sig_b64: &str) -> (r: Result<
    (),
    DownloadError,
>)
    ensures
        r == download_check(data@, sha1_hex.spec_bytes(), key_b64@, sig_b64@),
{
    let expected = hex_to_digest(sha1_hex);
    let digest = sha1_digest(data);
    match judge_hash(&expected, digest.as_slice()) {
        Err(e) => Err(e),
        Ok(()) => {
            let key = match read_text_behind(key_b64) {
                Some(k) => k,
                None => {
                    return Err(DownloadError::BadKey);
                },
            };
            let sig = match read_text_behind(sig_b64) {
                Some(s) => s,
                None => {
                    return Err(DownloadError::BadSignatureText);
                },
            };
            judge_signature(minisign_verdict(key.as_str(), sig.as_str(), data))
        },
    }
}

impl DownloadError {
    /// The sentence that tells the user of this error.
    pub fn message(&self) -> (r: &'static str)
        ensures
            r@ == match *self {
                DownloadError::BadHashText => "Unable to decode sha1 hash"@,
                DownloadError::HashMismatch => "Hash of downloaded file does not match"@,
                DownloadError::BadKey => "Unable to decode the public key"@,
                DownloadError::BadSignatureText => "Unable to decode the signature"@,
                DownloadError::InvalidSignature => "Invalid signature, file was not properly signed"@,
                DownloadError::SignatureError => "Error while validating signature"@,
            },
    {
        match self {
            DownloadError::BadHashText => "Unable to decode sha1 hash",
            DownloadError::HashMismatch => "Hash of downloaded file does not match",
            DownloadError::BadKey => "Unable to decode the public key",
            DownloadError::BadSignatureText => "Unable to decode the signature",
            DownloadError::InvalidSignature => "Invalid signature, file was not properly signed",
            DownloadError::SignatureError => "Error while validating signature",
        }
    }
}

} // verus!
