//! The comma-joined list algebra. An attribute value read as an
//! ordered list of items joined by commas: append, exact-match
//! removal, exact-match substitution, and substring containment
//! queries. No escaping of commas inside items is defined, so an item
//! holding a comma corrupts the list encoding.

use vstd::prelude::*;
use vstd::string::*;
use crate::store::{get, set_raw, StoreError};
use crate::text::{
    blank_seq, contains_substr, has_substring, is_blank, join_seq, join_str, split_seq, split_str,
    str_eq,
};

verus! {

/// The view of an optional stored value.
pub open spec fn opt_seq(v: Option<String>) -> Option<Seq<char>> {
    match v {
        Option::Some(s) => Option::Some(s@),
        Option::None => Option::None,
    }
}

/// The value after appending `item`: the item alone where nothing (or
/// only white space) was stored, the old value extended by a comma and
/// the item otherwise.
pub open spec fn spec_add_value(old: Option<Seq<char>>, item: Seq<char>) -> Seq<char> {
    match old {
        Option::None => item,
        Option::Some(v) => if blank_seq(v) {
            item
        } else {
            v + seq![','] + item
        },
    }
}

/// Computes the list value after an append, as `spec_add_value`
/// describes. An absent or blank prior value yields exactly the item.
pub fn add_value(old_value: &Option<String>, item: &str) -> (r: String)
    ensures
        r@ == spec_add_value(opt_seq(*old_value), item@),
        (old_value is None || blank_seq(opt_seq(*old_value)->0)) ==> r@ == item@,
{
    match old_value {
        Option::Some(v) => {
            if is_blank(v.as_str()) {
                item.to_owned()
            } else {
                let mut r = v.clone();
                proof {
                    reveal_strlit(",");
                    assert(","@ =~= seq![',']);
                }
                r.append(",");
                r.append(item);
                proof {
                    assert(r@ =~= v@ + seq![','] + item@);
                }
                r
            }
        },
        Option::None => item.to_owned(),
    }
}

/// Appends `item` to the list stored under `key` and writes the result
/// back, unguarded. The write never raises the protected-key guard.
pub fn add_list(path: &str, key: &str, item: &str) -> (r: Result<Option<String>, StoreError>)
    ensures
        r != Err::<Option<String>, StoreError>(StoreError::ProtectedConflict),
{
    let old_val: Option<String> = match get(path, key) {
        Option::Some((_, v)) => Option::Some(v),
        Option::None => Option::None,
    };
    let new_val = add_value(&old_val, item);
    crate::store::set(path, key, new_val.as_str(), false)
}

/// The items of the list with every exact match of `item` removed.
pub open spec fn remove_item(items: Seq<Seq<char>>, item: Seq<char>) -> Seq<Seq<char>>
    decreases items.len(),
{
    if items.len() == 0 {
        Seq::empty()
    } else if items.first() == item {
        remove_item(items.drop_first(), item)
    } else {
        seq![items.first()] + remove_item(items.drop_first(), item)
    }
}

/// The items of the list with every exact match of `from` replaced by
/// `to`.
pub open spec fn subst_item(items: Seq<Seq<char>>, from: Seq<char>, to: Seq<char>) -> Seq<
    Seq<char>,
> {
    items.map_values(
        |x: Seq<char>|
            if x == from {
                to
            } else {
                x
            },
    )
}

/// Removes every item of the comma-split list exactly equal to `item`.
/// Nothing (a no-op) where no item matches; otherwise the remaining
/// items joined back with commas.
pub fn cut_value(old_value: &str, item: &str) -> (r: Option<String>)
    ensures
        r is Some <==> split_seq(old_value@, ',').contains(item@),
        r matches Some(s) ==> s@ == join_seq(remove_item(split_seq(old_value@, ','), item@), ','),
{
    let parts = split_str(old_value, ',');
    let ghost dv = parts.deep_view();
    let mut kept: Vec<String> = Vec::new();
    let mut found = false;
    let mut i: usize = 0;
    proof {
        assert(kept.deep_view() =~~= Seq::<Seq<char>>::empty());
        assert(dv.skip(0) =~~= dv);
        assert(kept.deep_view() + remove_item(dv.skip(0), item@) =~~= remove_item(dv, item@));
    }
    while i < parts.len()
        invariant
            dv == parts.deep_view(),
            0 <= i <= parts.len(),
            found <==> exists|k: int| 0 <= k < i && dv[k] == item@,
            remove_item(dv, item@) == kept.deep_view() + remove_item(dv.skip(i as int), item@),
        decreases parts.len() - i,
    {
        proof {
            assert(dv.skip(i as int).first() == dv[i as int]);
            assert(dv.skip(i as int).drop_first() =~~= dv.skip(i as int + 1));
        }
        if str_eq(parts[i].as_str(), item) {
            found = true;
        } else {
            let ghost prev = kept.deep_view();
            kept.push(parts[i].clone());
            proof {
                assert(kept.deep_view() =~~= prev.push(dv[i as int]));
                assert(prev.push(dv[i as int]) + remove_item(dv.skip(i as int + 1), item@) =~~= prev
                    + (seq![dv[i as int]] + remove_item(dv.skip(i as int + 1), item@)));
            }
        }
        i = i + 1;
    }
    proof {
        assert(dv.skip(parts.len() as int) =~~= Seq::<Seq<char>>::empty());
        assert(kept.deep_view() + remove_item(dv.skip(parts.len() as int), item@) =~~= kept
            .deep_view());
    }
    if !found {
        proof {
            assert(!dv.contains(item@));
        }
        return Option::None;
    }
    proof {
        reveal_strlit(",");
    }
    let joined = join_str(&kept, ",");
    Option::Some(joined)
}

/// Substitutes `to` for every item of the comma-split list exactly
/// equal to `from`. Nothing (a no-op) where no item matches; otherwise
/// the substituted items joined back with commas.
pub fn replace_value(old_value: &str, from: &str, to: &str) -> (r: Option<String>)
    ensures
        r is Some <==> split_seq(old_value@, ',').contains(from@),
        r matches Some(s) ==> s@ == join_seq(
            subst_item(split_seq(old_value@, ','), from@, to@),
            ',',
        ),
{
    let parts = split_str(old_value, ',');
    let ghost dv = parts.deep_view();
    let mut out: Vec<String> = Vec::new();
    let mut found = false;
    let mut i: usize = 0;
    while i < parts.len()
        invariant
            dv == parts.deep_view(),
            0 <= i <= parts.len(),
            found <==> exists|k: int| 0 <= k < i && dv[k] == from@,
            out.deep_view() =~~= subst_item(dv, from@, to@).take(i as int),
        decreases parts.len() - i,
    {
        let ghost prev = out.deep_view();
        if str_eq(parts[i].as_str(), from) {
            found = true;
            out.push(to.to_owned());
        } else {
            out.push(parts[i].clone());
        }
        proof {
            assert(out.deep_view() =~~= prev.push(subst_item(dv, from@, to@)[i as int]));
            assert(subst_item(dv, from@, to@).take(i as int + 1) =~~= subst_item(
                dv,
                from@,
                to@,
            ).take(i as int).push(subst_item(dv, from@, to@)[i as int]));
        }
        i = i + 1;
    }
    if !found {
        proof {
            assert(!dv.contains(from@));
        }
        return Option::None;
    }
    proof {
        reveal_strlit(",");
        assert(subst_item(dv, from@, to@).take(parts.len() as int) =~~= subst_item(
            dv,
            from@,
            to@,
        ));
    }
    let joined = join_str(&out, ",");
    Option::Some(joined)
}

/// Removes every exact match of `item` from the list stored under
/// `key`. Nothing (a no-op) where the attribute is absent or no item
/// matches; otherwise whether the backend accepted the rewrite.
pub fn cut_list(path: &str, key: &str, item: &str) -> (r: Option<bool>) {
    match get(path, key) {
        Option::Some((_, old)) => match cut_value(old.as_str(), item) {
            Option::Some(new_val) => Option::Some(set_raw(path, key, new_val.as_str())),
            Option::None => Option::None,
        },
        Option::None => Option::None,
    }
}

/// Substitutes `to` for every exact match of `from` in the list stored
/// under `key`. Nothing (a no-op) where the attribute is absent or no
/// item matches; otherwise whether the backend accepted the rewrite.
pub fn replace_list(path: &str, key: &str, from: &str, to: &str) -> (r: Option<bool>) {
    match get(path, key) {
        Option::Some((_, old)) => match replace_value(old.as_str(), from, to) {
            Option::Some(new_val) => Option::Some(set_raw(path, key, new_val.as_str())),
            Option::None => Option::None,
        },
        Option::None => Option::None,
    }
}

/// How a containment query combines its query strings.
#[derive(Clone, Copy, Debug, PartialEq, Eq, Structural)]
pub enum MatchMode {
    AnyOf,
    AllOf,
    NoneOf,
}

/// Whether some item of the list holds `query` as a substring.
pub open spec fn item_match(items: Seq<Seq<char>>, query: Seq<char>) -> bool {
    exists|i: int| 0 <= i < items.len() && #[trigger] has_substring(items[i], query)
}

/// What a containment query answers, over the comma-split items of the
/// stored value. Matching is substring containment, deliberately
/// asymmetric with the exact equality of removal and substitution.
/// An absent attribute satisfies only a `NoneOf` query with no query
/// strings; a present one satisfies an empty `AnyOf` or `AllOf` query.
pub open spec fn spec_matches(
    mode: MatchMode,
    queries: Seq<Seq<char>>,
    value: Option<Seq<char>>,
) -> bool {
    match value {
        Option::None => mode is NoneOf && queries.len() == 0,
        Option::Some(v) => {
            let items = split_seq(v, ',');
            match mode {
                MatchMode::AnyOf => queries.len() == 0 || exists|q: int|
                    0 <= q < queries.len() && item_match(items, #[trigger] queries[q]),
                MatchMode::AllOf => forall|q: int|
                    0 <= q < queries.len() ==> item_match(items, #[trigger] queries[q]),
                MatchMode::NoneOf => queries.len() != 0 && forall|q: int|
                    0 <= q < queries.len() ==> !item_match(items, #[trigger] queries[q]),
            }
        },
    }
}

/// Whether some item of `items` holds `query` as a substring.
#[verifier::loop_isolation(false)]
fn any_item_matches(items: &Vec<String>, query: &str) -> (b: bool)
    ensures
        b == item_match(items.deep_view(), query@),
{
    let ghost dv = items.deep_view();
    let mut i: usize = 0;
    while i < items.len()
        invariant
            0 <= i <= items.len(),
            forall|i2: int| 0 <= i2 < i ==> !#[trigger] has_substring(dv[i2], query@),
        decreases items.len() - i,
    {
        proof {
            assert(dv[i as int] == items@[i as int]@);
        }
        if contains_substr(items[i].as_str(), query) {
            proof {
                assert(has_substring(dv[i as int], query@));
            }
            return true;
        }
        i = i + 1;
    }
    proof {
        assert(dv.len() == items@.len());
        assert(!item_match(dv, query@));
    }
    false
}

/// Answers a containment query against one optional stored value, as
/// `spec_matches` describes.
#[verifier::loop_isolation(false)]
pub fn contains_value(mode: MatchMode, queries: &Vec<String>, value: &Option<String>) -> (b: bool)
    ensures
        b == spec_matches(mode, queries.deep_view(), opt_seq(*value)),
{
    let ghost qv = queries.deep_view();
    proof {
        assert(qv.len() == queries@.len());
    }
    match value {
        Option::None => {
            match mode {
                MatchMode::NoneOf => queries.len() == 0,
                _ => false,
            }
        },
        Option::Some(v) => {
            let items = split_str(v.as_str(), ',');
            let ghost iv = split_seq(v@, ',');
            proof {
                assert(iv == items.deep_view());
            }
            match mode {
                MatchMode::AnyOf => {
                    if queries.len() == 0 {
                        return true;
                    }
                    let mut q: usize = 0;
                    while q < queries.len()
                        invariant
                            0 <= q <= queries.len(),
                            forall|q2: int| 0 <= q2 < q ==> !item_match(iv, #[trigger] qv[q2]),
                        decreases queries.len() - q,
                    {
                        proof {
                            assert(qv[q as int] == queries@[q as int]@);
                        }
                        if any_item_matches(&items, queries[q].as_str()) {
                            return true;
                        }
                        q = q + 1;
                    }
                    false
                },
                MatchMode::AllOf => {
                    let mut q: usize = 0;
                    while q < queries.len()
                        invariant
                            0 <= q <= queries.len(),
                            forall|q2: int| 0 <= q2 < q ==> item_match(iv, #[trigger] qv[q2]),
                        decreases queries.len() - q,
                    {
                        proof {
                            assert(qv[q as int] == queries@[q as int]@);
                        }
                        if !any_item_matches(&items, queries[q].as_str()) {
                            return false;
                        }
                        q = q + 1;
                    }
                    true
                },
                MatchMode::NoneOf => {
                    if queries.len() == 0 {
                        return false;
                    }
                    let mut q: usize = 0;
                    while q < queries.len()
                        invariant
                            0 <= q <= queries.len(),
                            forall|q2: int| 0 <= q2 < q ==> !item_match(iv, #[trigger] qv[q2]),
                        decreases queries.len() - q,
                    {
                        proof {
                            assert(qv[q as int] == queries@[q as int]@);
                        }
                        if any_item_matches(&items, queries[q].as_str()) {
                            return false;
                        }
                        q = q + 1;
                    }
                    true
                },
            }
        },
    }
}

/// Answers a containment query against the attribute stored under
/// `key` on `path`. What is stored lives on disk; the query semantics
/// over the value that was read is `spec_matches`.
pub fn contains(mode: MatchMode, key: &str, queries: &Vec<String>, path: &str) -> (b: bool) {
    let stored: Option<String> = match get(path, key) {
        Option::Some((_, v)) => Option::Some(v),
        Option::None => Option::None,
    };
    contains_value(mode, queries, &stored)
}

} // verus!
