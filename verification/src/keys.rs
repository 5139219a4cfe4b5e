//! Attribute key namespaces. A raw key carries its namespace as a
//! prefix (`user`, `system`, `trusted`, `security`); resolving a raw
//! key to a short name and a namespace is total, an unrecognised
//! prefix falling back to the user namespace.

use vstd::prelude::*;
use vstd::string::*;
use crate::text::str_eq;

verus! {

/// The namespace of an extended attribute.
#[derive(Clone, Copy, Debug, Hash, PartialEq, Eq, Structural)]
pub enum KeyType {
    User,
    System,
    Trusted,
    Security,
}

pub open spec fn user_pfx() -> Seq<char> {
    seq!['u', 's', 'e', 'r']
}

pub open spec fn system_pfx() -> Seq<char> {
    seq!['s', 'y', 's', 't', 'e', 'm']
}

pub open spec fn trusted_pfx() -> Seq<char> {
    seq!['t', 'r', 'u', 's', 't', 'e', 'd']
}

pub open spec fn security_pfx() -> Seq<char> {
    seq!['s', 'e', 'c', 'u', 'r', 'i', 't', 'y']
}

/// The name of the one protected attribute, whose mutation asks for an
/// explicit override.
pub open spec fn protected_name() -> Seq<char> {
    seq!['t', 'a', 'g', 's']
}

pub open spec fn is_prefix(s: Seq<char>, p: Seq<char>) -> bool {
    s.len() >= p.len() && s.subrange(0, p.len() as int) == p
}

/// How a raw key resolves: the short name is what follows the
/// namespace prefix and the character after it, and the namespace is
/// the one named by the prefix; anything else resolves to the whole
/// key in the user namespace.
pub open spec fn spec_split_key(s: Seq<char>) -> (Seq<char>, KeyType) {
    if s.len() >= 5 && is_prefix(s, user_pfx()) {
        (s.skip(5), KeyType::User)
    } else if s.len() >= 7 && is_prefix(s, system_pfx()) {
        (s.skip(7), KeyType::System)
    } else if s.len() >= 8 && is_prefix(s, trusted_pfx()) {
        (s.skip(8), KeyType::Trusted)
    } else if s.len() >= 9 && is_prefix(s, security_pfx()) {
        (s.skip(9), KeyType::Security)
    } else {
        (s, KeyType::User)
    }
}

/// Whether `p` is a leading prefix of `s`.
pub fn has_prefix(s: &str, p: &str) -> (r: bool)
    ensures
        r == is_prefix(s@, p@),
{
    let pn = p.unicode_len();
    if s.unicode_len() < pn {
        return false;
    }
    let mut i: usize = 0;
    while i < pn
        invariant
            pn == p@.len(),
            s@.len() >= pn,
            0 <= i <= pn,
            forall|k: int| 0 <= k < i ==> s@[k] == p@[k],
        decreases pn - i,
    {
        if s.get_char(i) != p.get_char(i) {
            proof {
                assert(s@.subrange(0, pn as int)[i as int] == s@[i as int]);
            }
            return false;
        }
        i = i + 1;
    }
    proof {
        assert(s@.subrange(0, pn as int) =~= p@);
    }
    true
}

/// Resolves a raw namespaced key to its short name and namespace, as
/// `spec_split_key` describes. Total: an unrecognised or truncated
/// prefix yields the whole key in the user namespace.
pub fn split_key(key: &str) -> (r: (&str, KeyType))
    ensures
        (r.0@, r.1) == spec_split_key(key@),
{
    proof {
        reveal_strlit("user");
        reveal_strlit("system");
        reveal_strlit("trusted");
        reveal_strlit("security");
        assert("user"@ =~= user_pfx());
        assert("system"@ =~= system_pfx());
        assert("trusted"@ =~= trusted_pfx());
        assert("security"@ =~= security_pfx());
    }
    let n = key.unicode_len();
    if n >= 5 && has_prefix(key, "user") {
        let name = key.substring_char(5, n);
        proof {
            assert(name@ =~= key@.skip(5));
        }
        (name, KeyType::User)
    } else if n >= 7 && has_prefix(key, "system") {
        let name = key.substring_char(7, n);
        proof {
            assert(name@ =~= key@.skip(7));
        }
        (name, KeyType::System)
    } else if n >= 8 && has_prefix(key, "trusted") {
        let name = key.substring_char(8, n);
        proof {
            assert(name@ =~= key@.skip(8));
        }
        (name, KeyType::Trusted)
    } else if n >= 9 && has_prefix(key, "security") {
        let name = key.substring_char(9, n);
        proof {
            assert(name@ =~= key@.skip(9));
        }
        (name, KeyType::Security)
    } else {
        (key, KeyType::User)
    }
}

/// The raw form of a user-namespace key: the name behind the `user.`
/// prefix.
pub open spec fn spec_raw_key(name: Seq<char>) -> Seq<char> {
    seq!['u', 's', 'e', 'r', '.'] + name
}

/// Builds the raw user-namespace key for a short name.
pub fn make_raw_key(key: &str) -> (r: String)
    ensures
        r@ == spec_raw_key(key@),
{
    let mut s = "user.".to_owned();
    proof {
        reveal_strlit("user.");
        assert("user."@ =~= seq!['u', 's', 'e', 'r', '.']);
    }
    s.append(key);
    s
}

/// A raw user-namespace key resolves back to its short name.
pub proof fn lemma_split_raw_key(name: Seq<char>)
    ensures
        spec_split_key(spec_raw_key(name)) == (name, KeyType::User),
{
    let s = spec_raw_key(name);
    assert(s.subrange(0, 4) =~= user_pfx());
    assert(s.skip(5) =~= name);
}

/// Whether `key` is the protected attribute name.
pub fn is_protected(key: &str) -> (b: bool)
    ensures
        b == (key@ == protected_name()),
{
    proof {
        reveal_strlit("tags");
        assert("tags"@ =~= protected_name());
    }
    str_eq(key, "tags")
}

} // verus!
