//! Verified core of a tool that manages namespaced key-value metadata
//! ("extended attributes") attached to filesystem objects: a read/write
//! policy layer over the raw attribute backend, a comma-joined list
//! algebra on attribute values, a line-count-prefixed dump/restore text
//! codec, and a cross-file frequency aggregator.

mod backend;
pub mod codec;
pub mod keys;
pub mod list;
pub mod numbers;
pub mod rank;
pub mod store;
pub mod text;

pub use codec::{decode, dump_path, encode_block, restore, DumpRecord, RestoreEntry};
pub use keys::{is_protected, make_raw_key, split_key, KeyType};
pub use list::{
    add_list, add_value, contains, contains_value, cut_list, cut_value, replace_list,
    replace_value, MatchMode,
};
pub use numbers::{fmt_usize, parse_usize};
pub use rank::{count_items, rank, rev_pairs, sort_pairs};
pub use store::{get, get_raw, remove, remove_raw, rename, set_conflicts, set_raw, RenameOutcome, StoreError};
pub use text::{contains_substr, is_blank, join_str, split_str, str_eq};
