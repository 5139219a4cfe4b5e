//! Decimal formatting and parsing of unsigned sizes, the number
//! encoding of the dump format's counts line. Parsing accepts exactly
//! what `usize::from_str` accepts: an optional leading plus sign, one
//! or more decimal digits, the value fitting the type.

use vstd::prelude::*;
use vstd::string::*;

verus! {

pub open spec fn digit_char(d: nat) -> char {
    if d == 0 {
        '0'
    } else if d == 1 {
        '1'
    } else if d == 2 {
        '2'
    } else if d == 3 {
        '3'
    } else if d == 4 {
        '4'
    } else if d == 5 {
        '5'
    } else if d == 6 {
        '6'
    } else if d == 7 {
        '7'
    } else if d == 8 {
        '8'
    } else {
        '9'
    }
}

/// The value of a decimal digit character; ten for any other character.
pub open spec fn char_digit(c: char) -> nat {
    if c == '0' {
        0
    } else if c == '1' {
        1
    } else if c == '2' {
        2
    } else if c == '3' {
        3
    } else if c == '4' {
        4
    } else if c == '5' {
        5
    } else if c == '6' {
        6
    } else if c == '7' {
        7
    } else if c == '8' {
        8
    } else if c == '9' {
        9
    } else {
        10
    }
}

pub open spec fn is_digit_char(c: char) -> bool {
    char_digit(c) < 10
}

pub open spec fn all_digits(s: Seq<char>) -> bool {
    forall|i: int| 0 <= i < s.len() ==> is_digit_char(#[trigger] s[i])
}

/// The decimal digits of `n`, most significant first.
pub open spec fn dec_digits(n: nat) -> Seq<char>
    decreases n,
{
    if n < 10 {
        seq![digit_char(n)]
    } else {
        dec_digits(n / 10).push(digit_char(n % 10))
    }
}

/// The number a digit string denotes.
pub open spec fn digits_value(s: Seq<char>) -> nat
    decreases s.len(),
{
    if s.len() == 0 {
        0
    } else {
        digits_value(s.drop_last()) * 10 + char_digit(s.last())
    }
}

/// What `usize::from_str` returns on `s`: the denoted value where `s`
/// is an optional plus sign followed by one or more digits and the
/// value fits, nothing otherwise.
pub open spec fn parse_usize_spec(s: Seq<char>) -> Option<nat> {
    let t = if s.len() >= 1 && s[0] == '+' {
        s.drop_first()
    } else {
        s
    };
    if t.len() >= 1 && all_digits(t) && digits_value(t) <= usize::MAX as nat {
        Some(digits_value(t))
    } else {
        None
    }
}

fn digit_str(d: usize) -> (r: &'static str)
    requires
        d < 10,
    ensures
        r@ == seq![digit_char(d as nat)],
{
    if d == 0 {
        proof {
            reveal_strlit("0");
            assert("0"@ =~= seq!['0']);
        }
        "0"
    } else if d == 1 {
        proof {
            reveal_strlit("1");
            assert("1"@ =~= seq!['1']);
        }
        "1"
    } else if d == 2 {
        proof {
            reveal_strlit("2");
            assert("2"@ =~= seq!['2']);
        }
        "2"
    } else if d == 3 {
        proof {
            reveal_strlit("3");
            assert("3"@ =~= seq!['3']);
        }
        "3"
    } else if d == 4 {
        proof {
            reveal_strlit("4");
            assert("4"@ =~= seq!['4']);
        }
        "4"
    } else if d == 5 {
        proof {
            reveal_strlit("5");
            assert("5"@ =~= seq!['5']);
        }
        "5"
    } else if d == 6 {
        proof {
            reveal_strlit("6");
            assert("6"@ =~= seq!['6']);
        }
        "6"
    } else if d == 7 {
        proof {
            reveal_strlit("7");
            assert("7"@ =~= seq!['7']);
        }
        "7"
    } else if d == 8 {
        proof {
            reveal_strlit("8");
            assert("8"@ =~= seq!['8']);
        }
        "8"
    } else {
        proof {
            reveal_strlit("9");
            assert("9"@ =~= seq!['9']);
        }
        "9"
    }
}

fn digit_of(c: char) -> (r: Option<usize>)
    ensures
        r is Some <==> is_digit_char(c),
        r matches Some(d) ==> d as nat == char_digit(c),
{
    if c == '0' {
        Some(0)
    } else if c == '1' {
        Some(1)
    } else if c == '2' {
        Some(2)
    } else if c == '3' {
        Some(3)
    } else if c == '4' {
        Some(4)
    } else if c == '5' {
        Some(5)
    } else if c == '6' {
        Some(6)
    } else if c == '7' {
        Some(7)
    } else if c == '8' {
        Some(8)
    } else if c == '9' {
        Some(9)
    } else {
        None
    }
}

/// Writes `n` in decimal, as `dec_digits` describes.
pub fn fmt_usize(n: usize) -> (r: String)
    ensures
        r@ == dec_digits(n as nat),
    decreases n,
{
    if n < 10 {
        digit_str(n).to_owned()
    } else {
        let mut r = fmt_usize(n / 10);
        r.append(digit_str(n % 10));
        proof {
            assert(dec_digits((n / 10) as nat) + seq![digit_char((n % 10) as nat)] =~= dec_digits(
                (n / 10) as nat,
            ).push(digit_char((n % 10) as nat)));
            assert((n as nat) / 10 == (n / 10) as nat);
            assert((n as nat) % 10 == (n % 10) as nat);
        }
        r
    }
}

proof fn lemma_digits_value_take(t: Seq<char>, m: int)
    requires
        0 <= m <= t.len(),
    ensures
        digits_value(t) >= digits_value(t.take(m)),
    decreases t.len() - m,
{
    if m < t.len() {
        lemma_digits_value_take(t, m + 1);
        assert(t.take(m + 1).drop_last() =~= t.take(m));
        assert(digits_value(t.take(m + 1)) == digits_value(t.take(m)) * 10 + char_digit(
            t.take(m + 1).last(),
        ));
    } else {
        assert(t.take(m) =~= t);
    }
}

/// Reads a decimal number the way `usize::from_str` does, as
/// `parse_usize_spec` describes.
#[verifier::rlimit(60)]
pub fn parse_usize(s: &str) -> (r: Option<usize>)
    ensures
        r is Some <==> parse_usize_spec(s@) is Some,
        r matches Some(v) ==> parse_usize_spec(s@) == Some(v as nat),
{
    let n = s.unicode_len();
    let start: usize = if n >= 1 && s.get_char(0) == '+' {
        1
    } else {
        0
    };
    let ghost t = if s@.len() >= 1 && s@[0] == '+' {
        s@.drop_first()
    } else {
        s@
    };
    proof {
        assert(t =~= s@.skip(start as int));
    }
    if n == start {
        return None;
    }
    let mut value: usize = 0;
    let mut i: usize = start;
    while i < n
        invariant
            n == s@.len(),
            start <= i <= n,
            t == (if s@.len() >= 1 && s@[0] == '+' {
                s@.drop_first()
            } else {
                s@
            }),
            t == s@.skip(start as int),
            t.len() == n - start,
            all_digits(t.take((i - start) as int)),
            value as nat == digits_value(t.take((i - start) as int)),
        decreases n - i,
    {
        let c = s.get_char(i);
        proof {
            assert(t[(i - start) as int] == s@[i as int]);
        }
        match digit_of(c) {
            Option::None => {
                proof {
                    assert(!is_digit_char(t[(i - start) as int]));
                    assert(!all_digits(t));
                }
                return None;
            },
            Option::Some(d) => {
                let next = match value.checked_mul(10) {
                    Option::Some(x) => x.checked_add(d),
                    Option::None => Option::None,
                };
                match next {
                    Option::None => {
                        proof {
                            let m = (i - start) as int;
                            assert(t.take(m + 1).drop_last() =~= t.take(m));
                            assert(t.take(m + 1).last() == t[m]);
                            assert(char_digit(t[m]) == d as nat);
                            assert(digits_value(t.take(m + 1)) == (value as nat) * 10 + d as nat);
                            assert(digits_value(t.take(m + 1)) > usize::MAX as nat);
                            lemma_digits_value_take(t, m + 1);
                        }
                        return None;
                    },
                    Option::Some(nv) => {
                        proof {
                            assert(t.take((i - start) as int + 1).drop_last() =~= t.take(
                                (i - start) as int,
                            ));
                        }
                        value = nv;
                    },
                }
            },
        }
        i = i + 1;
    }
    proof {
        assert(t.take((n - start) as int) =~= t);
    }
    Some(value)
}

pub proof fn lemma_dec_digits_shape(n: nat)
    ensures
        dec_digits(n).len() >= 1,
        all_digits(dec_digits(n)),
        is_digit_char(dec_digits(n)[0]),
        dec_digits(n)[0] != '+',
        digits_value(dec_digits(n)) == n,
    decreases n,
{
    if n < 10 {
        assert(dec_digits(n) =~= seq![digit_char(n)]);
        assert(digits_value(dec_digits(n)) == digits_value(
            dec_digits(n).drop_last(),
        ) * 10 + char_digit(digit_char(n)));
        assert(dec_digits(n).drop_last() =~= Seq::<char>::empty());
    } else {
        lemma_dec_digits_shape(n / 10);
        let d = dec_digits(n);
        assert(d == dec_digits(n / 10).push(digit_char(n % 10)));
        assert(d.drop_last() =~= dec_digits(n / 10));
        assert(forall|i: int|
            0 <= i < d.len() ==> is_digit_char(#[trigger] d[i]) && d[i] != '+') by {
            assert(forall|i: int|
                0 <= i < dec_digits(n / 10).len() ==> is_digit_char(
                    #[trigger] dec_digits(n / 10)[i],
                ));
        }
        assert(digits_value(d) == digits_value(dec_digits(n / 10)) * 10 + char_digit(
            digit_char(n % 10),
        ));
        assert(char_digit(digit_char(n % 10)) == n % 10);
        assert((n / 10) * 10 + n % 10 == n);
    }
}

/// Formatting then parsing restores the number.
pub proof fn lemma_parse_format(n: nat)
    requires
        n <= usize::MAX as nat,
    ensures
        parse_usize_spec(dec_digits(n)) == Some(n),
{
    lemma_dec_digits_shape(n);
}

/// Digit strings hold neither spaces nor line breaks, so they survive
/// the token and line splitting of the dump format.
pub proof fn lemma_dec_digits_plain(n: nat)
    ensures
        forall|i: int|
            0 <= i < dec_digits(n).len() ==> #[trigger] dec_digits(n)[i] != ' ' && dec_digits(n)[i]
                != '\n',
{
    lemma_dec_digits_shape(n);
    assert(forall|i: int|
        0 <= i < dec_digits(n).len() ==> is_digit_char(#[trigger] dec_digits(n)[i]));
}

} // verus!
