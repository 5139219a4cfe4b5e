//! The attribute store: typed read, write and delete over the raw
//! backend, with the protected-key guard and prior-value reporting.
//! Every mutation reads the prior value first; the read and the write
//! are two separate backend calls with no atomicity between them.

use vstd::prelude::*;
use vstd::string::*;
use crate::backend::{backend_get, backend_remove, backend_set, bytes_to_string};
use crate::keys::{is_protected, lemma_split_raw_key, make_raw_key, protected_name, spec_split_key, split_key, KeyType};

verus! {

/// Why a store mutation failed: the protected-key guard refused it, or
/// the backend call itself failed.
#[derive(Clone, Copy, Debug, PartialEq, Eq, Structural)]
pub enum StoreError {
    ProtectedConflict,
    BackendFailure,
}

/// Reads the attribute stored under the full raw key `raw_key`.
/// Nothing where the attribute is absent, unreadable, or not valid
/// UTF-8; otherwise the resolved (name, namespace) of the raw key and
/// the stored text, whose content lives on disk and is not promised.
pub fn get_raw(path: &str, raw_key: &str) -> (r: Option<((String, KeyType), String)>)
    ensures
        r matches Some(((name, kt), _v)) ==> (name@, kt) == spec_split_key(raw_key@),
{
    match backend_get(path, raw_key) {
        Option::Some(bytes) => match bytes_to_string(bytes) {
            Option::Some(value) => {
                let (name, kt) = split_key(raw_key);
                Option::Some(((name.to_owned(), kt), value))
            },
            Option::None => Option::None,
        },
        Option::None => Option::None,
    }
}

/// Reads the user-namespace attribute named `key`. Any result carries
/// back the same name in the user namespace.
pub fn get(path: &str, key: &str) -> (r: Option<((String, KeyType), String)>)
    ensures
        r matches Some(((name, kt), _v)) ==> name@ == key@ && kt == KeyType::User,
{
    let raw = make_raw_key(key);
    proof {
        lemma_split_raw_key(key@);
    }
    get_raw(path, raw.as_str())
}

/// The protected-key guard: a guarded write conflicts exactly when a
/// prior value exists.
pub fn set_conflicts(old_value: &Option<String>, require_empty: bool) -> (b: bool)
    ensures
        b == (require_empty && old_value is Some),
{
    require_empty && old_value.is_some()
}

/// Writes raw bytes under the user-namespace form of `key`, with no
/// prior-value read and no guard; whether the backend accepted the
/// write.
pub fn set_raw(path: &str, key: &str, value: &str) -> bool {
    let raw = make_raw_key(key);
    backend_set(path, raw.as_str(), value)
}

/// Deletes the attribute under the user-namespace form of `key`;
/// whether the backend accepted the delete.
pub fn remove_raw(path: &str, key: &str) -> bool {
    let raw = make_raw_key(key);
    backend_remove(path, raw.as_str())
}

/// Writes `value` under the user-namespace key `key`. The prior value
/// is read first; where `require_empty` is set and a prior value
/// exists, the call refuses with `ProtectedConflict` and writes
/// nothing. Otherwise one write is attempted: the prior value (or its
/// absence) comes back on success, `BackendFailure` otherwise. A
/// conflict can only arise from a guarded call.
pub fn set(path: &str, key: &str, value: &str, require_empty: bool) -> (r: Result<
    Option<String>,
    StoreError,
>)
    ensures
        r == Err::<Option<String>, StoreError>(StoreError::ProtectedConflict) ==> require_empty,
{
    let old_val: Option<String> = match get(path, key) {
        Option::Some((_, v)) => Option::Some(v),
        Option::None => Option::None,
    };
    if set_conflicts(&old_val, require_empty) {
        Err(StoreError::ProtectedConflict)
    } else if set_raw(path, key, value) {
        Ok(old_val)
    } else {
        Err(StoreError::BackendFailure)
    }
}

/// Deletes the user-namespace attribute named `key`, reporting the
/// prior value; `Err` where the backend delete failed. Whether a
/// protected key may be removed is the caller's policy, enforced
/// through a separate force flag before calling.
pub fn remove(path: &str, key: &str) -> (r: Result<Option<String>, ()>) {
    let old_val: Option<String> = match get(path, key) {
        Option::Some((_, v)) => Option::Some(v),
        Option::None => Option::None,
    };
    if remove_raw(path, key) {
        Ok(old_val)
    } else {
        Err(())
    }
}

/// How a rename ended: the source attribute was missing, writing the
/// target hit the protected-key guard or the backend, deleting the
/// source failed, or everything went through. Where the target was
/// written, its prior value rides along.
pub enum RenameOutcome {
    MissingSource,
    TargetConflict,
    TargetWriteFailed,
    SourceRemoveFailed { old_target: Option<String> },
    Renamed { old_target: Option<String> },
}

/// Moves the value stored under `old_key` to `new_key`: reads the
/// source, writes the target through the guarded write (a protected
/// target is only overwritten with `force`), then deletes the source.
/// A guard conflict can only arise on the protected target without
/// force; nothing is written where the source is missing, and the
/// source is only deleted after the target write succeeded.
pub fn rename(path: &str, old_key: &str, new_key: &str, force: bool) -> (r: RenameOutcome)
    ensures
        r is TargetConflict ==> new_key@ == protected_name() && !force,
{
    let value = match get(path, old_key) {
        Option::Some((_, v)) => v,
        Option::None => {
            return RenameOutcome::MissingSource;
        },
    };
    let guard = is_protected(new_key) && !force;
    let old_target = match set(path, new_key, value.as_str(), guard) {
        Ok(old) => old,
        Err(StoreError::ProtectedConflict) => {
            return RenameOutcome::TargetConflict;
        },
        Err(StoreError::BackendFailure) => {
            return RenameOutcome::TargetWriteFailed;
        },
    };
    match remove(path, old_key) {
        Ok(_) => RenameOutcome::Renamed { old_target },
        Err(()) => RenameOutcome::SourceRemoveFailed { old_target },
    }
}

} // verus!
