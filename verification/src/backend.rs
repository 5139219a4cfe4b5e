//! Trusted boundary to the raw attribute backend. Every function here
//! makes one outside call; what the calls return depends on the
//! filesystem, so the wrappers promise nothing of the data itself, and
//! the verified callers state what holds whatever comes back.

use vstd::prelude::*;
use vstd::utf8::{encode_utf8, valid_utf8};

verus! {

/// Relies on xattr::get: reads the raw bytes of the attribute under
/// `raw_key` on the object at `path`. A backend failure and an absent
/// attribute both surface as nothing, as the callers treat them alike.
#[verifier::external_body]
pub(crate) fn backend_get(path: &str, raw_key: &str) -> Option<Vec<u8>> {
    match xattr::get(path, raw_key) {
        Ok(v) => v,
        Err(_) => None,
    }
}

/// Relies on xattr::set: writes the bytes of `value` as the attribute
/// under `raw_key`; whether the backend accepted the write.
#[verifier::external_body]
pub(crate) fn backend_set(path: &str, raw_key: &str, value: &str) -> bool {
    xattr::set(path, raw_key, value.as_bytes()).is_ok()
}

/// Relies on xattr::remove: deletes the attribute under `raw_key`;
/// whether the backend accepted the delete.
#[verifier::external_body]
pub(crate) fn backend_remove(path: &str, raw_key: &str) -> bool {
    xattr::remove(path, raw_key).is_ok()
}

/// Relies on xattr::list: the raw keys of every attribute of the
/// object at `path`, each decoded to text where its bytes are valid
/// UTF-8. Nothing where the listing itself failed.
#[verifier::external_body]
pub(crate) fn backend_list(path: &str) -> Option<Vec<Option<String>>> {
    match xattr::list(path) {
        Ok(keys) => Some(keys.map(|k| k.into_string().ok()).collect()),
        Err(_) => None,
    }
}

/// Relies on String::from_utf8: succeeds exactly on valid UTF-8, and
/// the decoded characters encode back to the given bytes.
#[verifier::external_body]
pub(crate) fn bytes_to_string(bytes: Vec<u8>) -> (r: Option<String>)
    ensures
        r is Some <==> valid_utf8(bytes@),
        r matches Some(s) ==> encode_utf8(s@) == bytes@,
{
    String::from_utf8(bytes).ok()
}

} // verus!
