//! The rank aggregator: a frequency histogram of comma-joined list
//! items for one attribute across many paths, with the paths seen and
//! the paths carrying the attribute counted alongside, and the
//! histogram sorted by frequency or by item name, ascending or
//! descending.

use vstd::prelude::*;
use vstd::string::*;
use vstd::multiset::Multiset;
use vstd::seq_lib::lemma_multiset_commutative;
use crate::store::get;
use crate::text::{split_seq, split_str, str_eq};

verus! {

/// How often `item` occurs in a list of items, exact matches only.
pub open spec fn count_in_items(items: Seq<Seq<char>>, item: Seq<char>) -> nat
    decreases items.len(),
{
    if items.len() == 0 {
        0
    } else {
        (if items.first() == item {
            1nat
        } else {
            0nat
        }) + count_in_items(items.drop_first(), item)
    }
}

/// How often `item` occurs across the comma-split lists of many stored
/// values; duplicates within one value each count.
pub open spec fn item_count(values: Seq<Seq<char>>, item: Seq<char>) -> nat
    decreases values.len(),
{
    if values.len() == 0 {
        0
    } else {
        count_in_items(split_seq(values.first(), ','), item) + item_count(
            values.drop_first(),
            item,
        )
    }
}

/// A count held to what the machine can represent.
pub open spec fn capped(n: nat) -> nat {
    if n <= usize::MAX as nat {
        n
    } else {
        usize::MAX as nat
    }
}

/// Whether some entry of the histogram carries this key.
pub open spec fn has_key(r: Seq<(String, usize)>, item: Seq<char>) -> bool {
    exists|a: int| 0 <= a < r.len() && (#[trigger] r[a]).0@ == item
}

fn find_key(counts: &Vec<(String, usize)>, item: &str) -> (r: Option<usize>)
    ensures
        r matches Some(a) ==> a < counts@.len() && counts@[a as int].0@ == item@,
        r is None ==> !has_key(counts@, item@),
{
    let mut a: usize = 0;
    while a < counts.len()
        invariant
            0 <= a <= counts@.len(),
            forall|a2: int| 0 <= a2 < a ==> (#[trigger] counts@[a2]).0@ != item@,
        decreases counts.len() - a,
    {
        if str_eq(counts[a].0.as_str(), item) {
            return Option::Some(a);
        }
        a = a + 1;
    }
    Option::None
}

proof fn lemma_count_extend(values: Seq<Seq<char>>, v: int, item: Seq<char>)
    requires
        0 <= v < values.len(),
    ensures
        item_count(values.take(v + 1), item) == item_count(values.take(v), item) + count_in_items(
            split_seq(values[v], ','),
            item,
        ),
    decreases v,
{
    let a = values.take(v + 1);
    let b = values.take(v);
    if v == 0 {
        assert(a.drop_first() =~~= Seq::<Seq<char>>::empty());
        assert(b =~~= Seq::<Seq<char>>::empty());
        assert(a.first() == values[0]);
        assert(item_count(a, item) == count_in_items(split_seq(values[0], ','), item));
    } else {
        lemma_count_extend(values.drop_first(), v - 1, item);
        assert(a.first() == values[0]);
        assert(b.first() == values[0]);
        assert(a.drop_first() =~~= values.drop_first().take(v));
        assert(b.drop_first() =~~= values.drop_first().take(v - 1));
        assert(values.drop_first()[v - 1] == values[v]);
    }
}

proof fn lemma_count_in_extend(items: Seq<Seq<char>>, k: int, item: Seq<char>)
    requires
        0 <= k < items.len(),
    ensures
        count_in_items(items.take(k + 1), item) == count_in_items(items.take(k), item) + (
        if items[k] == item {
            1nat
        } else {
            0nat
        }),
    decreases k,
{
    let a = items.take(k + 1);
    let b = items.take(k);
    if k == 0 {
        assert(a.drop_first() =~~= Seq::<Seq<char>>::empty());
        assert(b =~~= Seq::<Seq<char>>::empty());
        assert(a.first() == items[0]);
    } else {
        lemma_count_in_extend(items.drop_first(), k - 1, item);
        assert(a.first() == items[0]);
        assert(b.first() == items[0]);
        assert(a.drop_first() =~~= items.drop_first().take(k));
        assert(b.drop_first() =~~= items.drop_first().take(k - 1));
        assert(items.drop_first()[k - 1] == items[k]);
    }
}

/// The count a histogram state assigns mid-way: all of the first `v`
/// values, and the first `k` items of the next one.
spec fn cnt_at(values: Seq<Seq<char>>, v: int, k: int, item: Seq<char>) -> nat {
    item_count(values.take(v), item) + count_in_items(split_seq(values[v], ',').take(k), item)
}

/// Builds the frequency histogram of the comma-split items of
/// `values`: one entry per distinct item, holding its total number of
/// occurrences (capped at the machine's limit), and an entry for every
/// item that occurs.
#[verifier::loop_isolation(false)]
#[verifier::rlimit(100)]
pub fn count_items(values: &Vec<String>) -> (r: Vec<(String, usize)>)
    ensures
        forall|a: int, b: int|
            0 <= a < b < r@.len() ==> (#[trigger] r@[a]).0@ != (#[trigger] r@[b]).0@,
        forall|a: int|
            0 <= a < r@.len() ==> (#[trigger] r@[a]).1 as nat == capped(
                item_count(values.deep_view(), r@[a].0@),
            ) && item_count(values.deep_view(), r@[a].0@) >= 1,
        forall|item: Seq<char>|
            item_count(values.deep_view(), item) >= 1 ==> has_key(r@, item),
{
    let ghost dv = values.deep_view();
    let mut counts: Vec<(String, usize)> = Vec::new();
    let mut v: usize = 0;
    proof {
        assert(dv.take(0) =~~= Seq::<Seq<char>>::empty());
    }
    while v < values.len()
        invariant
            dv == values.deep_view(),
            0 <= v <= values.len(),
            forall|a: int, b: int|
                0 <= a < b < counts@.len() ==> (#[trigger] counts@[a]).0@ != (
                #[trigger] counts@[b]).0@,
            forall|a: int|
                0 <= a < counts@.len() ==> (#[trigger] counts@[a]).1 as nat == capped(
                    item_count(dv.take(v as int), counts@[a].0@),
                ) && item_count(dv.take(v as int), counts@[a].0@) >= 1,
            forall|item: Seq<char>|
                item_count(dv.take(v as int), item) >= 1 ==> has_key(counts@, item),
        decreases values.len() - v,
    {
        proof {
            assert(dv[v as int] == values@[v as int]@);
        }
        let items = split_str(values[v].as_str(), ',');
        let ghost iv = split_seq(dv[v as int], ',');
        proof {
            assert(iv == items.deep_view());
            assert(iv.take(0) =~~= Seq::<Seq<char>>::empty());
            assert(forall|item: Seq<char>| cnt_at(dv, v as int, 0, item) == item_count(
                dv.take(v as int),
                item,
            ));
        }
        let mut k: usize = 0;
        while k < items.len()
            invariant
                dv == values.deep_view(),
                0 <= v < values.len(),
                dv[v as int] == values@[v as int]@,
                iv == split_seq(dv[v as int], ','),
                iv == items.deep_view(),
                0 <= k <= items.len(),
                forall|a: int, b: int|
                    0 <= a < b < counts@.len() ==> (#[trigger] counts@[a]).0@ != (
                    #[trigger] counts@[b]).0@,
                forall|a: int|
                    0 <= a < counts@.len() ==> (#[trigger] counts@[a]).1 as nat == capped(
                        cnt_at(dv, v as int, k as int, counts@[a].0@),
                    ) && cnt_at(dv, v as int, k as int, counts@[a].0@) >= 1,
                forall|item: Seq<char>|
                    cnt_at(dv, v as int, k as int, item) >= 1 ==> has_key(counts@, item),
            decreases items.len() - k,
        {
            proof {
                assert(iv[k as int] == items@[k as int]@);
                lemma_count_in_extend(iv, k as int, iv[k as int]);
                assert forall|item: Seq<char>| true implies cnt_at(dv, v as int, k as int + 1, item)
                    == cnt_at(dv, v as int, k as int, item) + (if iv[k as int] == item {
                    1nat
                } else {
                    0nat
                }) by {
                    lemma_count_in_extend(iv, k as int, item);
                }
            }
            match find_key(&counts, items[k].as_str()) {
                Option::Some(a) => {
                    let ghost old_counts = counts@;
                    let entry = counts.remove(a);
                    let bumped = if entry.1 < usize::MAX {
                        entry.1 + 1
                    } else {
                        entry.1
                    };
                    counts.insert(a, (entry.0, bumped));
                    proof {
                        assert(counts@ =~= old_counts.update(a as int, (entry.0, bumped)));
                        assert(counts@[a as int].0@ == iv[k as int]);
                        assert forall|item: Seq<char>|
                            has_key(old_counts, item) implies has_key(counts@, item) by {
                            let w = choose|w: int|
                                0 <= w < old_counts.len() && (#[trigger] old_counts[w]).0@
                                    == item;
                            assert(counts@[w].0@ == item);
                        }
                        assert forall|item: Seq<char>|
                            cnt_at(dv, v as int, k as int + 1, item) >= 1 implies has_key(
                            counts@,
                            item,
                        ) by {
                            if item == iv[k as int] {
                                assert(counts@[a as int].0@ == item);
                            } else {
                                assert(cnt_at(dv, v as int, k as int, item) >= 1);
                                assert(has_key(old_counts, item));
                            }
                        }
                    }
                },
                Option::None => {
                    let ghost old_counts = counts@;
                    counts.push((items[k].clone(), 1));
                    proof {
                        assert(counts@[counts@.len() - 1].0@ == iv[k as int]);
                        assert forall|item: Seq<char>|
                            has_key(old_counts, item) implies has_key(counts@, item) by {
                            let w = choose|w: int|
                                0 <= w < old_counts.len() && (#[trigger] old_counts[w]).0@
                                    == item;
                            assert(counts@[w].0@ == item);
                        }
                        assert forall|item: Seq<char>|
                            cnt_at(dv, v as int, k as int + 1, item) >= 1 implies has_key(
                            counts@,
                            item,
                        ) by {
                            if item == iv[k as int] {
                                assert(counts@[counts@.len() - 1].0@ == item);
                            } else {
                                assert(cnt_at(dv, v as int, k as int, item) >= 1);
                                assert(has_key(old_counts, item));
                            }
                        }
                    }
                },
            }
            k = k + 1;
        }
        proof {
            assert(iv.take(items.len() as int) =~~= iv);
            lemma_count_extend(dv, v as int, iv.first());
            assert forall|item: Seq<char>| true implies item_count(dv.take(v as int + 1), item)
                == cnt_at(dv, v as int, items.len() as int, item) by {
                lemma_count_extend(dv, v as int, item);
                assert(split_seq(dv[v as int], ',').take(items.len() as int) =~~= split_seq(
                    dv[v as int],
                    ',',
                ));
            }
        }
        v = v + 1;
    }
    proof {
        assert(dv.take(values.len() as int) =~~= dv);
    }
    counts
}

/// Lexicographic order on character sequences by code point, which is
/// also how the byte order of their UTF-8 encodings compares.
pub open spec fn str_le(a: Seq<char>, b: Seq<char>) -> bool
    decreases a.len(),
{
    if a.len() == 0 {
        true
    } else if b.len() == 0 {
        false
    } else if a[0] == b[0] {
        str_le(a.drop_first(), b.drop_first())
    } else {
        a[0] < b[0]
    }
}

pub proof fn lemma_str_le_total(a: Seq<char>, b: Seq<char>)
    ensures
        str_le(a, b) || str_le(b, a),
    decreases a.len(),
{
    if a.len() == 0 {
    } else if b.len() == 0 {
        assert(str_le(b, a));
    } else if a[0] == b[0] {
        lemma_str_le_total(a.drop_first(), b.drop_first());
    } else {
    }
}

pub proof fn lemma_str_le_trans(a: Seq<char>, b: Seq<char>, c: Seq<char>)
    requires
        str_le(a, b),
        str_le(b, c),
    ensures
        str_le(a, c),
    decreases a.len(),
{
    if a.len() != 0 && b.len() != 0 && c.len() != 0 && a[0] == b[0] && b[0] == c[0] {
        lemma_str_le_trans(a.drop_first(), b.drop_first(), c.drop_first());
    }
}

/// Whether `a` sits at or before `b` in the chosen output order:
/// by frequency, the item name breaking ties (the default), or by item
/// name alone when flipped.
pub open spec fn pair_le(flip: bool, a: (Seq<char>, nat), b: (Seq<char>, nat)) -> bool {
    if flip {
        if a.0 == b.0 {
            a.1 <= b.1
        } else {
            str_le(a.0, b.0)
        }
    } else {
        a.1 < b.1 || (a.1 == b.1 && str_le(a.0, b.0))
    }
}

pub proof fn lemma_str_le_refl(a: Seq<char>)
    ensures
        str_le(a, a),
    decreases a.len(),
{
    if a.len() > 0 {
        lemma_str_le_refl(a.drop_first());
    }
}

pub proof fn lemma_pair_le_total(flip: bool, a: (Seq<char>, nat), b: (Seq<char>, nat))
    ensures
        pair_le(flip, a, b) || pair_le(flip, b, a),
{
    lemma_str_le_total(a.0, b.0);
}

pub proof fn lemma_pair_le_trans(flip: bool, a: (Seq<char>, nat), b: (Seq<char>, nat), c: (
    Seq<char>,
    nat,
))
    requires
        pair_le(flip, a, b),
        pair_le(flip, b, c),
    ensures
        pair_le(flip, a, c),
{
    if flip {
        if a.0 == c.0 {
            lemma_str_le_refl(a.0);
        }
        if a.0 != b.0 && b.0 != c.0 && a.0 != c.0 {
            lemma_str_le_trans(a.0, b.0, c.0);
        }
        if a.0 != b.0 && b.0 != c.0 && a.0 == c.0 {
            lemma_str_le_trans(a.0, b.0, c.0);
            lemma_str_le_trans(b.0, c.0, b.0);
            lemma_str_le_antisym(b.0, a.0);
        }
    } else {
        if a.1 == b.1 && b.1 == c.1 {
            lemma_str_le_trans(a.0, b.0, c.0);
        }
    }
}

/// The view of a histogram entry.
pub open spec fn pair_view(p: (String, usize)) -> (Seq<char>, nat) {
    (p.0@, p.1 as nat)
}

/// A histogram laid out in the chosen order, ascending.
pub open spec fn sorted_pairs(flip: bool, r: Seq<(String, usize)>) -> bool {
    forall|a: int, b: int|
        0 <= a < b < r.len() ==> pair_le(flip, pair_view(#[trigger] r[a]), pair_view(
            #[trigger] r[b],
        ))
}

fn pair_le_exec(flip: bool, a: &(String, usize), b: &(String, usize)) -> (r: bool)
    ensures
        r == pair_le(flip, pair_view(*a), pair_view(*b)),
{
    if flip {
        if str_eq(a.0.as_str(), b.0.as_str()) {
            a.1 <= b.1
        } else {
            str_le_exec(a.0.as_str(), b.0.as_str())
        }
    } else {
        a.1 < b.1 || (a.1 == b.1 && str_le_exec(a.0.as_str(), b.0.as_str()))
    }
}

/// Two sequences each at or before the other are equal.
proof fn lemma_str_le_antisym(a: Seq<char>, b: Seq<char>)
    requires
        str_le(a, b),
        str_le(b, a),
    ensures
        a == b,
    decreases a.len(),
{
    if a.len() == 0 {
        assert(b.len() == 0);
        assert(a =~= b);
    } else if a[0] == b[0] {
        lemma_str_le_antisym(a.drop_first(), b.drop_first());
        assert(a =~= seq![a[0]] + a.drop_first());
        assert(b =~= seq![b[0]] + b.drop_first());
    }
}

/// Character-by-character comparison in the order `str_le` describes.
fn str_le_exec(a: &str, b: &str) -> (r: bool)
    ensures
        r == str_le(a@, b@),
{
    let an = a.unicode_len();
    let bn = b.unicode_len();
    let mut i: usize = 0;
    proof {
        assert(a@.skip(0) =~= a@);
        assert(b@.skip(0) =~= b@);
    }
    while i < an && i < bn
        invariant
            an == a@.len(),
            bn == b@.len(),
            0 <= i <= an,
            i <= bn,
            forall|m: int| 0 <= m < i ==> a@[m] == b@[m],
            str_le(a@, b@) == str_le(a@.skip(i as int), b@.skip(i as int)),
        decreases an - i,
    {
        let ca = a.get_char(i);
        let cb = b.get_char(i);
        if ca != cb {
            proof {
                assert(a@.skip(i as int)[0] == a@[i as int]);
                assert(b@.skip(i as int)[0] == b@[i as int]);
            }
            return ca < cb;
        }
        proof {
            assert(a@.skip(i as int)[0] == a@[i as int]);
            assert(b@.skip(i as int)[0] == b@[i as int]);
            assert(a@.skip(i as int).drop_first() =~= a@.skip(i as int + 1));
            assert(b@.skip(i as int).drop_first() =~= b@.skip(i as int + 1));
        }
        i = i + 1;
    }
    proof {
        if i >= an {
            assert(a@.skip(i as int).len() == 0);
        } else {
            assert(b@.skip(i as int).len() == 0);
            assert(a@.skip(i as int).len() > 0);
        }
    }
    an - i == 0
}

/// Sorts a histogram ascending in the chosen order, keeping exactly
/// the same entries.
#[verifier::loop_isolation(false)]
#[verifier::rlimit(100)]
pub fn sort_pairs(v: Vec<(String, usize)>, flip: bool) -> (r: Vec<(String, usize)>)
    ensures
        r@.to_multiset() == v@.to_multiset(),
        r@.len() == v@.len(),
        sorted_pairs(flip, r@),
        (forall|a: int, b: int|
            0 <= a < b < v@.len() ==> (#[trigger] v@[a]).0@ != (#[trigger] v@[b]).0@) ==> (
        forall|a: int, b: int|
            0 <= a < b < r@.len() ==> (#[trigger] r@[a]).0@ != (#[trigger] r@[b]).0@),
{
    let mut r: Vec<(String, usize)> = Vec::new();
    let mut i: usize = 0;
    proof {
        broadcast use vstd::seq_lib::group_to_multiset_ensures;

        assert(v@.take(0) =~~= Seq::<(String, usize)>::empty());
        assert(r@ =~= Seq::<(String, usize)>::empty());
        assert(r@.to_multiset() =~= v@.take(0).to_multiset());
    }
    while i < v.len()
        invariant
            0 <= i <= v@.len(),
            r@.len() == i,
            r@.to_multiset() == v@.take(i as int).to_multiset(),
            sorted_pairs(flip, r@),
        decreases v.len() - i,
    {
        let x = (v[i].0.clone(), v[i].1);
        proof {
            assert(x == v@[i as int]);
        }
        let mut pos: usize = 0;
        while pos < r.len() && pair_le_exec(flip, &r[pos], &x)
            invariant
                0 <= pos <= r@.len(),
                forall|m: int|
                    0 <= m < pos ==> pair_le(flip, pair_view(#[trigger] r@[m]), pair_view(x)),
            decreases r.len() - pos,
        {
            pos = pos + 1;
        }
        let ghost old_r = r@;
        r.insert(pos, x);
        proof {
            broadcast use vstd::seq_lib::group_to_multiset_ensures;

            assert(r@ =~= old_r.take(pos as int) + seq![x] + old_r.skip(pos as int));
            lemma_multiset_commutative(old_r.take(pos as int) + seq![x], old_r.skip(pos as int));
            lemma_multiset_commutative(old_r.take(pos as int), seq![x]);
            lemma_multiset_commutative(old_r.take(pos as int), old_r.skip(pos as int));
            assert(old_r.take(pos as int) + old_r.skip(pos as int) =~= old_r);
            assert(seq![x] =~= Seq::<(String, usize)>::empty().push(x));
            assert(seq![x].to_multiset() =~= Multiset::<(String, usize)>::empty().insert(x));
            assert(r@.to_multiset() =~= old_r.to_multiset().insert(x));
            assert(v@.take(i as int + 1) =~= v@.take(i as int).push(v@[i as int]));
            assert(v@.take(i as int + 1).to_multiset() =~= v@.take(
                i as int,
            ).to_multiset().insert(x));
            if pos < old_r.len() {
                lemma_pair_le_total(flip, pair_view(old_r[pos as int]), pair_view(x));
            }
            assert forall|a: int, b: int|
                0 <= a < b < r@.len() implies pair_le(flip, pair_view(#[trigger] r@[a]), pair_view(
                #[trigger] r@[b])) by {
                if a < pos && b == pos {
                } else if a == pos && b > pos {
                    assert(r@[b] == old_r[b - 1]);
                    if pos < old_r.len() && pos < b - 1 {
                        lemma_pair_le_trans(
                            flip,
                            pair_view(x),
                            pair_view(old_r[pos as int]),
                            pair_view(old_r[b - 1]),
                        );
                    }
                } else if a < pos && b > pos {
                    assert(r@[a] == old_r[a]);
                    assert(r@[b] == old_r[b - 1]);
                } else if a > pos && b > pos {
                    assert(r@[a] == old_r[a - 1]);
                    assert(r@[b] == old_r[b - 1]);
                } else if a < pos && b < pos {
                    assert(r@[a] == old_r[a]);
                    assert(r@[b] == old_r[b]);
                }
            }
        }
        i = i + 1;
    }
    proof {
        assert(v@.take(v@.len() as int) =~~= v@);
        if forall|a: int, b: int|
            0 <= a < b < v@.len() ==> (#[trigger] v@[a]).0@ != (#[trigger] v@[b]).0@ {
            lemma_sort_keeps_unique_keys(v@, r@);
        }
    }
    r
}

/// A reordering of entries with pairwise distinct keys keeps its keys
/// pairwise distinct.
proof fn lemma_sort_keeps_unique_keys(v: Seq<(String, usize)>, r: Seq<(String, usize)>)
    requires
        r.to_multiset() == v.to_multiset(),
        forall|a: int, b: int| 0 <= a < b < v.len() ==> (#[trigger] v[a]).0@ != (#[trigger] v[b]).0@,
    ensures
        forall|a: int, b: int| 0 <= a < b < r.len() ==> (#[trigger] r[a]).0@ != (#[trigger] r[b]).0@,
{
    broadcast use vstd::seq_lib::group_to_multiset_ensures;

    assert(v.no_duplicates()) by {
        assert forall|a: int, b: int|
            0 <= a < v.len() && 0 <= b < v.len() && a != b implies v[a] != v[b] by {
            if a < b {
                assert(v[a].0@ != v[b].0@);
            } else {
                assert(v[b].0@ != v[a].0@);
            }
        }
    }
    v.lemma_multiset_has_no_duplicates();
    r.lemma_multiset_has_no_duplicates_conv();
    assert forall|a: int, b: int|
        0 <= a < b < r.len() implies (#[trigger] r[a]).0@ != (#[trigger] r[b]).0@ by {
        if r[a].0@ == r[b].0@ {
            assert(r.contains(r[a]));
            assert(r.to_multiset().count(r[a]) > 0);
            assert(v.to_multiset().count(r[a]) > 0);
            assert(v.contains(r[a]));
            assert(r.contains(r[b]));
            assert(r.to_multiset().count(r[b]) > 0);
            assert(v.to_multiset().count(r[b]) > 0);
            assert(v.contains(r[b]));
            let ia = choose|ia: int| 0 <= ia < v.len() && v[ia] == r[a];
            let ib = choose|ib: int| 0 <= ib < v.len() && v[ib] == r[b];
            assert(v[ia].0@ == v[ib].0@);
            assert(ia == ib);
            assert(r[a] == r[b]);
            assert(r.no_duplicates());
        }
    }
}

/// Reverses a histogram, for the descending orders.
pub fn rev_pairs(v: Vec<(String, usize)>) -> (r: Vec<(String, usize)>)
    ensures
        r@.len() == v@.len(),
        forall|m: int| 0 <= m < v@.len() ==> r@[m] == v@[v@.len() - 1 - m],
{
    let mut r: Vec<(String, usize)> = Vec::new();
    let mut i: usize = v.len();
    while i > 0
        invariant
            0 <= i <= v@.len(),
            r@.len() == v@.len() - i,
            forall|m: int| 0 <= m < r@.len() ==> r@[m] == v@[v@.len() - 1 - m],
        decreases i,
    {
        i = i - 1;
        r.push((v[i].0.clone(), v[i].1));
    }
    r
}

/// Reads the attribute named `key` on every path, counts each path
/// seen and each path carrying the attribute, and returns the item
/// frequency histogram sorted in the chosen order, with the present
/// and total path counts. What the histogram counts are the values the
/// backend handed back, one read per path, in order.
pub fn rank(key: &str, paths: &Vec<String>, flip: bool, reverse: bool) -> (r: (
    Vec<(String, usize)>,
    usize,
    usize,
))
    ensures
        r.2 == paths@.len(),
        r.1 <= r.2,
        !reverse ==> sorted_pairs(flip, r.0@),
        reverse ==> forall|a: int, b: int|
            0 <= a < b < r.0@.len() ==> pair_le(flip, pair_view(#[trigger] r.0@[b]), pair_view(
                #[trigger] r.0@[a],
            )),
        forall|a: int, b: int|
            0 <= a < b < r.0@.len() ==> (#[trigger] r.0@[a]).0@ != (#[trigger] r.0@[b]).0@,
{
    let mut values: Vec<String> = Vec::new();
    let mut present: usize = 0;
    let mut i: usize = 0;
    while i < paths.len()
        invariant
            0 <= i <= paths@.len(),
            present <= i,
        decreases paths.len() - i,
    {
        match get(paths[i].as_str(), key) {
            Option::Some((_, value)) => {
                present = present + 1;
                values.push(value);
            },
            Option::None => {},
        }
        i = i + 1;
    }
    let counts = count_items(&values);
    let sorted = sort_pairs(counts, flip);
    if reverse {
        let rev = rev_pairs(sorted);
        proof {
            assert forall|a: int, b: int|
                0 <= a < b < rev@.len() implies pair_le(flip, pair_view(#[trigger] rev@[b]),
                pair_view(#[trigger] rev@[a])) by {
                assert(rev@[a] == sorted@[sorted@.len() - 1 - a]);
                assert(rev@[b] == sorted@[sorted@.len() - 1 - b]);
            }
        }
        (rev, present, paths.len())
    } else {
        (sorted, present, paths.len())
    }
}

} // verus!
