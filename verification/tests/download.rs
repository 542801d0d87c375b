use base64::Engine;
use pandora_core::download::{
    judge_hash, judge_signature, read_text_behind, verify_download, DownloadError,
    SignatureVerdict,
};

const KEY_FILE: &str = "untrusted comment: minisign public key E7620F1842B4E81F\nRWQf6LRCGA9i53mlYecO4IzT51TGPpvWucNSCh1CBM0QTaLn73Y7GFO3";

const SIGNATURE_FILE: &str = "untrusted comment: signature from minisign secret key\nRUQf6LRCGA9i559r3g7V1qNyJDApGip8MfqcadIgT9CuhV3EMhHoN1mGTkUidF/z7SrlQgXdy8ofjb7bNJJylDOocrCo8KLzZwo=\ntrusted comment: timestamp:1556193335\tfile:test\ny/rUw2y8/hOUYjZU71eHp/Wo1KZ40fGy2VJEDl34XMJM+TX48Ss/17u3IvIfbVR1FkZZSNCisQbuQY+bHwhEBg==";

const LEGACY_SIGNATURE_FILE: &str = "untrusted comment: signature from minisign secret key\nRWQf6LRCGA9i59SLOFxz6NxvASXDJeRtuZykwQepbDEGt87ig1BNpWaVWuNrm73YiIiJbq71Wi+dP9eKL8OC351vwIasSSbXxwA=\ntrusted comment: timestamp:1555779966\tfile:test\nQtKMXWyYcwdpZAlPF7tE2ENJkRd1ujvKjlj1m9RtHTBnZPa5WKU5uWRs5GoP5M/VqE81QFuMKI5k/SfNQUaOAA==";

const SHA1_OF_TEST: &str = "a94a8fe5ccb19ba61c4c0873d391e987982fbbd3";
const SHA1_OF_CAPITAL_TEST: &str = "640ab2bae07bedc4c163f679a746f7ab7fb5d1fa";

fn b64(text: &str) -> String {
    base64::engine::general_purpose::STANDARD.encode(text)
}

#[test]
fn a_signed_download_with_the_right_hash_passes() {
    let r = verify_download(b"test", SHA1_OF_TEST, &b64(KEY_FILE), &b64(SIGNATURE_FILE));
    assert_eq!(r, Ok(()));
    let upper = SHA1_OF_TEST.to_uppercase();
    assert_eq!(verify_download(b"test", &upper, &b64(KEY_FILE), &b64(SIGNATURE_FILE)), Ok(()));
}

#[test]
fn a_hash_that_is_no_hash_comes_first() {
    let key = b64(KEY_FILE);
    let sig = b64(SIGNATURE_FILE);
    for bad in ["", "a94a", "zz4a8fe5ccb19ba61c4c0873d391e987982fbbd3", &SHA1_OF_TEST[1..]] {
        assert_eq!(verify_download(b"test", bad, &key, &sig), Err(DownloadError::BadHashText));
    }
    let long = format!("{}00", SHA1_OF_TEST);
    assert_eq!(verify_download(b"test", &long, &key, &sig), Err(DownloadError::BadHashText));
}

#[test]
fn another_hash_is_a_mismatch() {
    let key = b64(KEY_FILE);
    let sig = b64(SIGNATURE_FILE);
    assert_eq!(
        verify_download(b"test", SHA1_OF_CAPITAL_TEST, &key, &sig),
        Err(DownloadError::HashMismatch)
    );
    assert_eq!(
        verify_download(b"tesu", SHA1_OF_TEST, &key, &sig),
        Err(DownloadError::HashMismatch)
    );
    // the hash is looked at before key and signature
    assert_eq!(
        verify_download(b"tesu", SHA1_OF_TEST, "?", "?"),
        Err(DownloadError::HashMismatch)
    );
}

#[test]
fn other_data_under_the_signature_is_forged() {
    let r = verify_download(b"Test", SHA1_OF_CAPITAL_TEST, &b64(KEY_FILE), &b64(SIGNATURE_FILE));
    assert_eq!(r, Err(DownloadError::InvalidSignature));
}

#[test]
fn keys_and_signatures_that_are_none() {
    let key = b64(KEY_FILE);
    let sig = b64(SIGNATURE_FILE);
    assert_eq!(verify_download(b"test", SHA1_OF_TEST, "not base64!", &sig), Err(DownloadError::BadKey));
    assert_eq!(
        verify_download(b"test", SHA1_OF_TEST, &b64("one line"), &sig),
        Err(DownloadError::BadKey)
    );
    let no_text = base64::engine::general_purpose::STANDARD.encode([0xffu8, 0xfe]);
    assert_eq!(verify_download(b"test", SHA1_OF_TEST, &no_text, &sig), Err(DownloadError::BadKey));
    assert_eq!(
        verify_download(b"test", SHA1_OF_TEST, &key, "not base64!"),
        Err(DownloadError::BadSignatureText)
    );
    assert_eq!(
        verify_download(b"test", SHA1_OF_TEST, &key, &b64("a\nb\nc\nd")),
        Err(DownloadError::BadSignatureText)
    );
    assert_eq!(
        verify_download(b"test", SHA1_OF_TEST, &key, &b64(LEGACY_SIGNATURE_FILE)),
        Err(DownloadError::SignatureError)
    );
}

#[test]
fn judging_what_the_checks_gave() {
    assert_eq!(judge_hash(&None, &[1, 2]), Err(DownloadError::BadHashText));
    assert_eq!(judge_hash(&Some(vec![1, 2]), &[1, 2]), Ok(()));
    assert_eq!(judge_hash(&Some(vec![1, 2]), &[1, 3]), Err(DownloadError::HashMismatch));
    assert_eq!(judge_hash(&Some(vec![1, 2]), &[1, 2, 3]), Err(DownloadError::HashMismatch));
    assert_eq!(judge_signature(SignatureVerdict::Good), Ok(()));
    assert_eq!(judge_signature(SignatureVerdict::Forged), Err(DownloadError::InvalidSignature));
    assert_eq!(judge_signature(SignatureVerdict::BadKey), Err(DownloadError::BadKey));
    assert_eq!(
        judge_signature(SignatureVerdict::BadSignature),
        Err(DownloadError::BadSignatureText)
    );
    assert_eq!(judge_signature(SignatureVerdict::Unchecked), Err(DownloadError::SignatureError));
}

#[test]
fn the_text_behind_base64() {
    assert_eq!(read_text_behind("aGVsbG8=").as_deref(), Some("hello"));
    assert_eq!(read_text_behind("").as_deref(), Some(""));
    assert_eq!(read_text_behind("aGVsbG8"), None);
    assert_eq!(read_text_behind("//4="), None);
}

#[test]
fn what_the_user_is_told() {
    assert_eq!(DownloadError::BadHashText.message(), "Unable to decode sha1 hash");
    assert_eq!(DownloadError::HashMismatch.message(), "Hash of downloaded file does not match");
    assert_eq!(
        DownloadError::InvalidSignature.message(),
        "Invalid signature, file was not properly signed"
    );
    assert_eq!(DownloadError::SignatureError.message(), "Error while validating signature");
    assert_eq!(DownloadError::BadKey.message(), "Unable to decode the public key");
    assert_eq!(DownloadError::BadSignatureText.message(), "Unable to decode the signature");
}
