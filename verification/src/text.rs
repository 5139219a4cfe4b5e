//! Splitting and joining character sequences on a separator, the two
//! halves of the comma-joined list encoding and of the line-oriented
//! dump format, together with the algebraic laws that relate them.

use vstd::prelude::*;
use vstd::string::*;

verus! {

/// The pieces of `s` between occurrences of `sep`, in order. Splitting
/// is total and always yields one more piece than there are separators;
/// the empty sequence yields one empty piece.
pub open spec fn split_seq(s: Seq<char>, sep: char) -> Seq<Seq<char>>
    decreases s.len(),
{
    if s.len() == 0 {
        seq![Seq::<char>::empty()]
    } else if s[0] == sep {
        seq![Seq::<char>::empty()] + split_seq(s.drop_first(), sep)
    } else {
        let rest = split_seq(s.drop_first(), sep);
        seq![seq![s[0]] + rest[0]] + rest.drop_first()
    }
}

/// The pieces of `items` laid end to end with `sep` between neighbours.
pub open spec fn join_seq(items: Seq<Seq<char>>, sep: char) -> Seq<char>
    decreases items.len(),
{
    if items.len() == 0 {
        Seq::empty()
    } else if items.len() == 1 {
        items[0]
    } else {
        items[0] + seq![sep] + join_seq(items.drop_first(), sep)
    }
}

pub proof fn lemma_split_nonempty(s: Seq<char>, sep: char)
    ensures
        split_seq(s, sep).len() >= 1,
    decreases s.len(),
{
    if s.len() != 0 && s[0] != sep {
        lemma_split_nonempty(s.drop_first(), sep);
    }
}

/// A sequence free of the separator splits into itself alone.
pub proof fn lemma_split_no_sep(s: Seq<char>, sep: char)
    requires
        forall|i: int| 0 <= i < s.len() ==> s[i] != sep,
    ensures
        split_seq(s, sep) == seq![s],
    decreases s.len(),
{
    if s.len() == 0 {
        assert(split_seq(s, sep) =~~= seq![s]);
    } else {
        assert(forall|i: int| 0 <= i < s.drop_first().len() ==> s.drop_first()[i] != sep);
        lemma_split_no_sep(s.drop_first(), sep);
        lemma_split_nonempty(s.drop_first(), sep);
        assert(split_seq(s, sep) =~~= seq![s]);
    }
}

/// Splitting cuts at a separator: the pieces of `a + sep + b` are the
/// pieces of `a` followed by the pieces of `b`.
pub proof fn lemma_split_concat(a: Seq<char>, b: Seq<char>, sep: char)
    ensures
        split_seq(a + seq![sep] + b, sep) == split_seq(a, sep) + split_seq(b, sep),
    decreases a.len(),
{
    let whole = a + seq![sep] + b;
    if a.len() == 0 {
        assert(whole =~= seq![sep] + b);
        assert(whole[0] == sep);
        assert(whole.drop_first() =~= b);
        assert(split_seq(a, sep) =~~= seq![Seq::<char>::empty()]);
        assert(split_seq(whole, sep) =~~= split_seq(a, sep) + split_seq(b, sep));
    } else {
        lemma_split_concat(a.drop_first(), b, sep);
        assert(whole[0] == a[0]);
        assert(whole.drop_first() =~= a.drop_first() + seq![sep] + b);
        if a[0] == sep {
            assert(split_seq(whole, sep) =~~= split_seq(a, sep) + split_seq(b, sep));
        } else {
            let r = split_seq(a.drop_first(), sep);
            lemma_split_nonempty(a.drop_first(), sep);
            lemma_split_nonempty(b, sep);
            assert((r + split_seq(b, sep))[0] == r[0]);
            assert((r + split_seq(b, sep)).drop_first() =~~= r.drop_first() + split_seq(b, sep));
            assert(split_seq(whole, sep) =~~= split_seq(a, sep) + split_seq(b, sep));
        }
    }
}

/// Joining the pieces of a split restores the original sequence.
pub proof fn lemma_join_split(s: Seq<char>, sep: char)
    ensures
        join_seq(split_seq(s, sep), sep) == s,
    decreases s.len(),
{
    if s.len() == 0 {
    } else if s[0] == sep {
        lemma_join_split(s.drop_first(), sep);
        lemma_split_nonempty(s.drop_first(), sep);
        let parts = seq![Seq::<char>::empty()] + split_seq(s.drop_first(), sep);
        assert(parts.drop_first() =~~= split_seq(s.drop_first(), sep));
        assert(join_seq(parts, sep) =~= s);
    } else {
        lemma_join_split(s.drop_first(), sep);
        lemma_split_nonempty(s.drop_first(), sep);
        let r = split_seq(s.drop_first(), sep);
        let parts = seq![seq![s[0]] + r[0]] + r.drop_first();
        if r.len() == 1 {
            assert(parts.len() == 1);
            assert(join_seq(r, sep) == r[0]);
            assert(join_seq(parts, sep) =~= s);
        } else {
            assert(parts.len() >= 2);
            assert(parts.drop_first() =~~= r.drop_first());
            assert(join_seq(r, sep) == r[0] + seq![sep] + join_seq(r.drop_first(), sep));
            assert(join_seq(parts, sep) == (seq![s[0]] + r[0]) + seq![sep] + join_seq(
                r.drop_first(),
                sep,
            ));
            assert(join_seq(parts, sep) =~= seq![s[0]] + join_seq(r, sep));
            assert(seq![s[0]] + s.drop_first() =~= s);
        }
    }
}

/// Splitting a join restores the pieces, provided no piece holds the
/// separator itself.
pub proof fn lemma_split_join(items: Seq<Seq<char>>, sep: char)
    requires
        items.len() >= 1,
        forall|i: int, j: int|
            0 <= i < items.len() && 0 <= j < items[i].len() ==> #[trigger] items[i][j] != sep,
    ensures
        split_seq(join_seq(items, sep), sep) == items,
    decreases items.len(),
{
    if items.len() == 1 {
        lemma_split_no_sep(items[0], sep);
        assert(split_seq(join_seq(items, sep), sep) =~~= items);
    } else {
        let rest = items.drop_first();
        assert(forall|i: int, j: int|
            0 <= i < rest.len() && 0 <= j < rest[i].len() ==> #[trigger] rest[i][j] != sep);
        lemma_split_join(rest, sep);
        lemma_split_concat(items[0], join_seq(rest, sep), sep);
        lemma_split_no_sep(items[0], sep);
        assert(split_seq(join_seq(items, sep), sep) =~~= items);
    }
}

/// Joining after appending one more piece appends a separator and the piece.
pub proof fn lemma_join_push(items: Seq<Seq<char>>, x: Seq<char>, sep: char)
    requires
        items.len() >= 1,
    ensures
        join_seq(items.push(x), sep) == join_seq(items, sep) + seq![sep] + x,
    decreases items.len(),
{
    if items.len() == 1 {
        assert(items.push(x).drop_first() =~~= seq![x]);
        assert(join_seq(items.push(x), sep) == items.push(x)[0] + seq![sep] + join_seq(
            items.push(x).drop_first(),
            sep,
        ));
        assert(join_seq(seq![x], sep) == x);
        assert(items.push(x)[0] == items[0]);
        assert(join_seq(items, sep) == items[0]);
    } else {
        lemma_join_push(items.drop_first(), x, sep);
        assert(items.push(x).drop_first() =~~= items.drop_first().push(x));
        assert(join_seq(items.push(x), sep) =~= join_seq(items, sep) + seq![sep] + x);
    }
}

/// Splits `s` at every occurrence of `sep`, as the view-level `split_seq`
/// describes.
pub fn split_str(s: &str, sep: char) -> (r: Vec<String>)
    ensures
        r.deep_view() == split_seq(s@, sep),
{
    let n = s.unicode_len();
    let mut parts: Vec<String> = Vec::new();
    let mut start: usize = 0;
    let mut i: usize = 0;
    proof {
        assert(parts.deep_view() =~~= Seq::<Seq<char>>::empty());
        assert(s@.skip(0) =~= s@);
        assert(parts.deep_view() + split_seq(s@, sep) =~~= split_seq(s@, sep));
    }
    while i < n
        invariant
            n == s@.len(),
            0 <= start <= i <= n,
            forall|k: int| start <= k < i ==> s@[k] != sep,
            split_seq(s@, sep) == parts.deep_view() + split_seq(s@.skip(start as int), sep),
        decreases n - i,
    {
        if s.get_char(i) == sep {
            let piece = s.substring_char(start, i).to_owned();
            proof {
                assert(s@.skip(start as int) =~= s@.subrange(start as int, i as int) + seq![sep]
                    + s@.skip(i as int + 1));
                lemma_split_concat(s@.subrange(start as int, i as int), s@.skip(i as int + 1), sep);
                lemma_split_no_sep(s@.subrange(start as int, i as int), sep);
                assert(parts.deep_view().push(piece@) + split_seq(s@.skip(i as int + 1), sep)
                    =~~= parts.deep_view() + split_seq(s@.skip(start as int), sep));
            }
            parts.push(piece);
            proof {
                assert(parts.deep_view() =~~= parts.deep_view().drop_last().push(piece@));
            }
            start = i + 1;
        }
        i = i + 1;
    }
    let piece = s.substring_char(start, n).to_owned();
    proof {
        assert(s@.skip(start as int) =~= s@.subrange(start as int, n as int));
        lemma_split_no_sep(s@.skip(start as int), sep);
    }
    parts.push(piece);
    proof {
        assert(parts.deep_view() =~~= parts.deep_view().drop_last().push(piece@));
        assert(parts.deep_view() =~~= split_seq(s@, sep));
    }
    parts
}

/// The Unicode white-space characters, the set `char::is_whitespace`
/// recognises.
pub open spec fn is_space_char(c: char) -> bool {
    let u = c as u32;
    u == 0x20 || u == 0x09 || u == 0x0a || u == 0x0d || u == 0x0b || u == 0x0c || u == 0x85 || u
        == 0xa0 || u == 0x1680 || (0x2000 <= u && u <= 0x200a) || u == 0x2028 || u == 0x2029 || u
        == 0x202f || u == 0x205f || u == 0x3000
}

/// A sequence of white space only (an empty one included).
pub open spec fn blank_seq(s: Seq<char>) -> bool {
    forall|i: int| 0 <= i < s.len() ==> is_space_char(#[trigger] s[i])
}

pub fn is_space(c: char) -> (b: bool)
    ensures
        b == is_space_char(c),
{
    let u = c as u32;
    u == 0x20 || u == 0x09 || u == 0x0a || u == 0x0d || u == 0x0b || u == 0x0c || u == 0x85 || u
        == 0xa0 || u == 0x1680 || (0x2000 <= u && u <= 0x200a) || u == 0x2028 || u == 0x2029 || u
        == 0x202f || u == 0x205f || u == 0x3000
}

/// Whether `s` holds white space only.
pub fn is_blank(s: &str) -> (b: bool)
    ensures
        b == blank_seq(s@),
{
    let n = s.unicode_len();
    let mut i: usize = 0;
    while i < n
        invariant
            n == s@.len(),
            0 <= i <= n,
            forall|k: int| 0 <= k < i ==> is_space_char(#[trigger] s@[k]),
        decreases n - i,
    {
        if !is_space(s.get_char(i)) {
            return false;
        }
        i = i + 1;
    }
    true
}

/// `needle` occurs contiguously somewhere in `hay`.
pub open spec fn has_substring(hay: Seq<char>, needle: Seq<char>) -> bool {
    exists|k: int|
        0 <= k <= hay.len() - needle.len() && #[trigger] hay.subrange(k, k + needle.len())
            == needle
}

/// Substring search: whether `needle` occurs contiguously in `hay`.
pub fn contains_substr(hay: &str, needle: &str) -> (b: bool)
    ensures
        b == has_substring(hay@, needle@),
{
    let hn = hay.unicode_len();
    let nn = needle.unicode_len();
    if nn > hn {
        return false;
    }
    let mut k: usize = 0;
    while k <= hn - nn
        invariant
            nn <= hn,
            hn == hay@.len(),
            nn == needle@.len(),
            0 <= k <= hn - nn + 1,
            forall|k2: int|
                0 <= k2 < k ==> #[trigger] hay@.subrange(k2, k2 + nn as int) != needle@,
        decreases hn - nn + 1 - k,
    {
        let mut j: usize = 0;
        let mut matches = true;
        while j < nn && matches
            invariant
                nn <= hn,
                hn == hay@.len(),
                nn == needle@.len(),
                0 <= k <= hn - nn,
                0 <= j <= nn,
                matches ==> forall|j2: int| 0 <= j2 < j ==> hay@[k + j2] == #[trigger] needle@[j2],
                !matches ==> hay@.subrange(k as int, k as int + nn as int) != needle@,
                !matches ==> nn >= 1,
            decreases nn - j,
        {
            if hay.get_char(k + j) != needle.get_char(j) {
                proof {
                    assert(hay@.subrange(k as int, k as int + nn as int)[j as int] == hay@[k + j]);
                }
                matches = false;
            }
            j = j + 1;
        }
        if matches {
            proof {
                assert(hay@.subrange(k as int, k as int + nn as int) =~= needle@);
            }
            return true;
        }
        k = k + 1;
    }
    false
}

/// Character-for-character string equality.
pub fn str_eq(a: &str, b: &str) -> (r: bool)
    ensures
        r == (a@ == b@),
{
    let n = a.unicode_len();
    if n != b.unicode_len() {
        return false;
    }
    let mut i: usize = 0;
    while i < n
        invariant
            n == a@.len(),
            n == b@.len(),
            0 <= i <= n,
            forall|k: int| 0 <= k < i ==> a@[k] == b@[k],
        decreases n - i,
    {
        if a.get_char(i) != b.get_char(i) {
            return false;
        }
        i = i + 1;
    }
    proof {
        assert(a@ =~= b@);
    }
    true
}

/// Joins `items` with the one-character separator `sep`, as the
/// view-level `join_seq` describes.
pub fn join_str(items: &Vec<String>, sep: &str) -> (r: String)
    requires
        sep@.len() == 1,
    ensures
        r@ == join_seq(items.deep_view(), sep@[0]),
{
    let mut r = String::new();
    let mut i: usize = 0;
    while i < items.len()
        invariant
            sep@.len() == 1,
            0 <= i <= items.len(),
            r@ == join_seq(items.deep_view().take(i as int), sep@[0]),
        decreases items.len() - i,
    {
        if i > 0 {
            r.append(sep);
            proof {
                assert(sep@ =~= seq![sep@[0]]);
            }
        }
        r.append(items[i].as_str());
        proof {
            let dv = items.deep_view();
            assert(dv.take(i as int).push(dv[i as int]) =~~= dv.take(i as int + 1));
            if i > 0 {
                lemma_join_push(dv.take(i as int), dv[i as int], sep@[0]);
            } else {
                assert(dv.take(1int) =~~= seq![dv[0]]);
            }
        }
        i = i + 1;
    }
    proof {
        assert(items.deep_view().take(items.len() as int) =~~= items.deep_view());
    }
    r
}

} // verus!
