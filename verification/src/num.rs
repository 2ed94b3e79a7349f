//! Verified recognizers and converters for the numeric fields of a frame:
//! decimal 64-bit integers (timestamps) and floating-point value tokens.
//!
//! A value token is never converted to a machine float here; the library
//! checks the token against the lexical grammar that `f64` parsing documents
//! (an optional sign, then `inf`, `infinity` or `nan` ignoring case, or a
//! decimal number with optional fraction and exponent) and carries the token
//! as text. Timestamps are parsed and printed exactly as `i64` decimal
//! strings: an optional sign, one or more digits, value within range.

use vstd::prelude::*;

verus! {

pub open spec fn is_dec_digit(c: char) -> bool {
    '0' <= c && c <= '9'
}

pub open spec fn digit_val(c: char) -> int {
    c as int - '0' as int
}

pub open spec fn all_dec_digits(s: Seq<char>) -> bool {
    forall|i: int| 0 <= i < s.len() ==> is_dec_digit(s[i])
}

/// The value of a digit string read left to right.
pub open spec fn dec_val(s: Seq<char>) -> int
    decreases s.len(),
{
    if s.len() == 0 {
        0
    } else {
        dec_val(s.drop_last()) * 10 + digit_val(s.last())
    }
}

pub proof fn lemma_dec_val_nonneg(s: Seq<char>)
    requires
        all_dec_digits(s),
    ensures
        dec_val(s) >= 0,
    decreases s.len(),
{
    if s.len() > 0 {
        lemma_dec_val_nonneg(s.drop_last());
    }
}

/// Reading further digits never decreases the value.
pub proof fn lemma_dec_val_prefix_le(s: Seq<char>, k: int)
    requires
        all_dec_digits(s),
        0 <= k <= s.len(),
    ensures
        dec_val(s.take(k)) <= dec_val(s),
    decreases s.len() - k,
{
    if k < s.len() {
        assert(s.take(k + 1).drop_last() =~= s.take(k));
        assert(s.take(k + 1).last() == s[k]);
        lemma_dec_val_nonneg(s.take(k));
        assert(dec_val(s.take(k)) <= dec_val(s.take(k)) * 10 + digit_val(s[k]));
        lemma_dec_val_prefix_le(s, k + 1);
    } else {
        assert(s.take(k) =~= s);
    }
}

// ---------------------------------------------------------------------------
// i64 tokens
// ---------------------------------------------------------------------------
pub open spec fn is_sign_char(c: char) -> bool {
    c == '+' || c == '-'
}

/// The token with a single leading sign removed, if one is present.
pub open spec fn strip_sign(s: Seq<char>) -> Seq<char> {
    if s.len() > 0 && is_sign_char(s[0]) {
        s.skip(1)
    } else {
        s
    }
}

pub open spec fn token_neg(s: Seq<char>) -> bool {
    s.len() > 0 && s[0] == '-'
}

/// Whether `s` is accepted as a decimal `i64`: an optional sign, at least one
/// digit, and a value within the type's range.
pub open spec fn is_i64_token(s: Seq<char>) -> bool {
    let b = strip_sign(s);
    b.len() > 0 && all_dec_digits(b) && i64::MIN <= i64_token_val(s) && i64_token_val(s)
        <= i64::MAX
}

pub open spec fn i64_token_val(s: Seq<char>) -> int {
    if token_neg(s) {
        -dec_val(strip_sign(s))
    } else {
        dec_val(strip_sign(s))
    }
}

/// Parses a decimal `i64`, succeeding on exactly the tokens the grammar above
/// accepts and returning their value.
pub fn parse_i64(s: &str) -> (r: Option<i64>)
    ensures
        match r {
            Some(v) => is_i64_token(s@) && v as int == i64_token_val(s@),
            None => !is_i64_token(s@),
        },
{
    let n = s.unicode_len();
    if n == 0 {
        return None;
    }
    let c0 = s.get_char(0);
    let neg = c0 == '-';
    let start: usize = if neg || c0 == '+' {
        1
    } else {
        0
    };
    if start == n {
        return None;
    }
    let ghost body = strip_sign(s@);
    proof {
        assert(body =~= s@.subrange(start as int, n as int));
    }
    let limit: u128 = if neg {
        9223372036854775808
    } else {
        9223372036854775807
    };
    let mut acc: u128 = 0;
    let mut i: usize = start;
    while i < n
        invariant
            n == s@.len(),
            start <= i <= n,
            start < n,
            body == strip_sign(s@),
            body =~= s@.subrange(start as int, n as int),
            neg == token_neg(s@),
            limit == if neg {
                9223372036854775808u128
            } else {
                9223372036854775807u128
            },
            all_dec_digits(body.take(i - start)),
            acc as int == dec_val(body.take(i - start)),
            acc <= limit,
        decreases n - i,
    {
        let c = s.get_char(i);
        if !('0' <= c && c <= '9') {
            proof {
                assert(body[i - start] == s@[i as int]);
                assert(!is_dec_digit(body[i - start]));
            }
            return None;
        }
        let d: u128 = (c as u32 - 48) as u128;
        proof {
            assert(d as int == digit_val(c));
            assert(body.take(i - start + 1).drop_last() =~= body.take(i - start));
            assert(body.take(i - start + 1).last() == body[i - start]);
        }
        let next: u128 = acc * 10 + d;
        if next > limit {
            proof {
                if all_dec_digits(body) {
                    assert(dec_val(body.take(i - start + 1)) == next);
                    lemma_dec_val_prefix_le(body, i - start + 1);
                    assert(dec_val(body) >= next as int);
                    if neg {
                        assert(i64_token_val(s@) < i64::MIN);
                    } else {
                        assert(i64_token_val(s@) > i64::MAX);
                    }
                }
            }
            return None;
        }
        acc = next;
        i = i + 1;
    }
    proof {
        assert(body.take(n - start) =~= body);
    }
    if neg {
        if acc == 9223372036854775808 {
            Some(i64::MIN)
        } else {
            Some(-(acc as i64))
        }
    } else {
        Some(acc as i64)
    }
}

// ---------------------------------------------------------------------------
// Printing i64 values
// ---------------------------------------------------------------------------
pub open spec fn digit_char(d: int) -> char {
    if d == 0 {
        '0'
    } else if d == 1 {
        '1'
    } else if d == 2 {
        '2'
    } else if d == 3 {
        '3'
    } else if d == 4 {
        '4'
    } else if d == 5 {
        '5'
    } else if d == 6 {
        '6'
    } else if d == 7 {
        '7'
    } else if d == 8 {
        '8'
    } else {
        '9'
    }
}

/// The canonical decimal digits of a non-negative value.
pub open spec fn dec_str(n: int) -> Seq<char>
    decreases n,
{
    if n < 10 {
        seq![digit_char(n)]
    } else {
        dec_str(n / 10).push(digit_char(n % 10))
    }
}

/// The canonical decimal form of a value: a `-` for negatives, then digits.
pub open spec fn i64_str(v: int) -> Seq<char> {
    if v < 0 {
        seq!['-'] + dec_str(-v)
    } else {
        dec_str(v)
    }
}

fn digit_literal(d: u64) -> (r: &'static str)
    requires
        d < 10,
    ensures
        r@ =~= seq![digit_char(d as int)],
{
    proof {
        reveal_strlit("0");
        reveal_strlit("1");
        reveal_strlit("2");
        reveal_strlit("3");
        reveal_strlit("4");
        reveal_strlit("5");
        reveal_strlit("6");
        reveal_strlit("7");
        reveal_strlit("8");
        reveal_strlit("9");
    }
    if d == 0 {
        "0"
    } else if d == 1 {
        "1"
    } else if d == 2 {
        "2"
    } else if d == 3 {
        "3"
    } else if d == 4 {
        "4"
    } else if d == 5 {
        "5"
    } else if d == 6 {
        "6"
    } else if d == 7 {
        "7"
    } else if d == 8 {
        "8"
    } else {
        "9"
    }
}

fn dec_u64_string(n: u64) -> (r: String)
    ensures
        r@ =~= dec_str(n as int),
    decreases n,
{
    if n < 10 {
        String::from_str(digit_literal(n))
    } else {
        let mut s = dec_u64_string(n / 10);
        s.append(digit_literal(n % 10));
        proof {
            assert(dec_str((n / 10) as int) + seq![digit_char((n % 10) as int)] =~= dec_str(
                (n / 10) as int,
            ).push(digit_char((n % 10) as int)));
        }
        s
    }
}

/// Prints a value exactly as its canonical decimal form.
pub fn i64_to_string(v: i64) -> (r: String)
    ensures
        r@ =~= i64_str(v as int),
{
    if v >= 0 {
        dec_u64_string(v as u64)
    } else {
        let mag: u64 = (-(v as i128)) as u64;
        proof {
            assert(mag as int == -(v as int));
        }
        let mut s = String::from_str("-");
        let digits = dec_u64_string(mag);
        s.append(digits.as_str());
        proof {
            reveal_strlit("-");
            assert("-"@ =~= seq!['-']);
        }
        s
    }
}

pub proof fn lemma_dec_str_digits(n: int)
    requires
        n >= 0,
    ensures
        dec_str(n).len() >= 1,
        all_dec_digits(dec_str(n)),
        dec_val(dec_str(n)) == n,
    decreases n,
{
    if n < 10 {
        let s = dec_str(n);
        assert(s =~= seq![digit_char(n)]);
        assert(s.drop_last() =~= Seq::<char>::empty());
        assert(s.last() == digit_char(n));
        assert(dec_val(s) == dec_val(Seq::<char>::empty()) * 10 + digit_val(digit_char(n)));
    } else {
        lemma_dec_str_digits(n / 10);
        let s = dec_str(n);
        assert(s == dec_str(n / 10).push(digit_char(n % 10)));
        assert(s.drop_last() =~= dec_str(n / 10));
        assert(s.last() == digit_char(n % 10));
        assert(forall|i: int|
            0 <= i < s.len() ==> s[i] == (if i < s.len() - 1 {
                dec_str(n / 10)[i]
            } else {
                digit_char(n % 10)
            }));
        assert(dec_val(s) == (n / 10) * 10 + n % 10);
    }
}

/// The canonical decimal form of an in-range value parses back to it: it is
/// a well-formed `i64` token, with that value, and contains no separator.
pub proof fn lemma_i64_str_round_trip(v: int)
    requires
        i64::MIN <= v <= i64::MAX,
    ensures
        is_i64_token(i64_str(v)),
        i64_token_val(i64_str(v)) == v,
        !crate::text::has_char(i64_str(v), '#'),
{
    if v < 0 {
        lemma_dec_str_digits(-v);
        let s = i64_str(v);
        assert(s[0] == '-');
        assert(s.skip(1) =~= dec_str(-v));
        assert(strip_sign(s) == dec_str(-v));
        assert(token_neg(s));
        assert(i64_token_val(s) == v);
        assert(forall|i: int|
            0 <= i < s.len() ==> (s[i] == '-' || is_dec_digit(#[trigger] s[i])));
    } else {
        lemma_dec_str_digits(v);
        let s = i64_str(v);
        assert(s == dec_str(v));
        assert(s.len() > 0 && is_dec_digit(s[0]));
        assert(!is_sign_char(s[0]));
        assert(strip_sign(s) == s);
        assert(!token_neg(s));
        assert(i64_token_val(s) == v);
    }
}

// ---------------------------------------------------------------------------
// Floating-point value tokens
// ---------------------------------------------------------------------------
/// First index at which `a` or `b` occurs in `s`, or `s.len()` if neither does.
pub open spec fn find_first2(s: Seq<char>, a: char, b: char) -> int
    decreases s.len(),
{
    if s.len() == 0 {
        0
    } else if s[0] == a || s[0] == b {
        0
    } else {
        1 + find_first2(s.skip(1), a, b)
    }
}

pub proof fn lemma_find_first2(s: Seq<char>, a: char, b: char)
    ensures
        0 <= find_first2(s, a, b) <= s.len(),
        forall|i: int| 0 <= i < find_first2(s, a, b) ==> s[i] != a && s[i] != b,
        find_first2(s, a, b) < s.len() ==> (s[find_first2(s, a, b)] == a || s[find_first2(
            s,
            a,
            b,
        )] == b),
    decreases s.len(),
{
    if s.len() == 0 {
    } else if s[0] == a || s[0] == b {
    } else {
        lemma_find_first2(s.skip(1), a, b);
        assert(forall|i: int| 0 <= i < s.skip(1).len() ==> s.skip(1)[i] == s[i + 1]);
        assert forall|i: int| 1 <= i < find_first2(s, a, b) implies s[i] != a && s[i] != b by {
            assert(s.skip(1)[i - 1] == s[i]);
            assert(i - 1 < find_first2(s.skip(1), a, b));
        }
    }
}

pub proof fn lemma_find_first2_at(s: Seq<char>, a: char, b: char, j: int)
    requires
        0 <= j <= s.len(),
        forall|i: int| 0 <= i < j ==> s[i] != a && s[i] != b,
        j < s.len() ==> (s[j] == a || s[j] == b),
    ensures
        find_first2(s, a, b) == j,
{
    lemma_find_first2(s, a, b);
    let f = find_first2(s, a, b);
    if j < f {
        assert(s[j] != a && s[j] != b);
    } else if f < j {
        assert(s[f] != a && s[f] != b);
    }
}

fn find_char2(s: &str, a: char, b: char) -> (r: usize)
    ensures
        r as int == find_first2(s@, a, b),
{
    let n = s.unicode_len();
    let mut i: usize = 0;
    while i < n
        invariant
            n == s@.len(),
            0 <= i <= n,
            forall|k: int| 0 <= k < i ==> s@[k] != a && s@[k] != b,
        decreases n - i,
    {
        let c = s.get_char(i);
        if c == a || c == b {
            proof {
                lemma_find_first2_at(s@, a, b, i as int);
            }
            return i;
        }
        i = i + 1;
    }
    proof {
        lemma_find_first2_at(s@, a, b, n as int);
    }
    n
}

fn all_digits_str(s: &str) -> (r: bool)
    ensures
        r == all_dec_digits(s@),
{
    let n = s.unicode_len();
    let mut i: usize = 0;
    while i < n
        invariant
            n == s@.len(),
            0 <= i <= n,
            forall|k: int| 0 <= k < i ==> is_dec_digit(s@[k]),
        decreases n - i,
    {
        let c = s.get_char(i);
        if !('0' <= c && c <= '9') {
            return false;
        }
        i = i + 1;
    }
    true
}

/// `inf`, `infinity` or `nan`, ignoring case.
pub open spec fn is_special_float_word(s: Seq<char>) -> bool {
    ||| (s.len() == 3 && (s[0] == 'i' || s[0] == 'I') && (s[1] == 'n' || s[1] == 'N') && (
    s[2] == 'f' || s[2] == 'F'))
    ||| (s.len() == 8 && (s[0] == 'i' || s[0] == 'I') && (s[1] == 'n' || s[1] == 'N') && (
    s[2] == 'f' || s[2] == 'F') && (s[3] == 'i' || s[3] == 'I') && (s[4] == 'n' || s[4]
        == 'N') && (s[5] == 'i' || s[5] == 'I') && (s[6] == 't' || s[6] == 'T') && (s[7]
        == 'y' || s[7] == 'Y'))
    ||| (s.len() == 3 && (s[0] == 'n' || s[0] == 'N') && (s[1] == 'a' || s[1] == 'A') && (
    s[2] == 'n' || s[2] == 'N'))
}

/// An exponent body: optional sign, then one or more digits.
pub open spec fn is_exp_suffix(s: Seq<char>) -> bool {
    strip_sign(s).len() > 0 && all_dec_digits(strip_sign(s))
}

/// Digits with at most one point, and a digit on at least one of its sides.
pub open spec fn is_mantissa(s: Seq<char>) -> bool {
    let d = find_first2(s, '.', '.');
    if d == s.len() {
        s.len() > 0 && all_dec_digits(s)
    } else {
        all_dec_digits(s.take(d)) && all_dec_digits(s.skip(d + 1)) && (d > 0 || s.len() > d
            + 1)
    }
}

/// A mantissa optionally followed by `e` or `E` and an exponent body.
pub open spec fn is_number_token(s: Seq<char>) -> bool {
    let e = find_first2(s, 'e', 'E');
    if e == s.len() {
        is_mantissa(s)
    } else {
        is_mantissa(s.take(e)) && is_exp_suffix(s.skip(e + 1))
    }
}

/// Whether `s` is accepted by the floating-point lexical grammar: an optional
/// sign, then a special word or a number.
pub open spec fn is_float_token(s: Seq<char>) -> bool {
    let b = strip_sign(s);
    b.len() > 0 && (is_special_float_word(b) || is_number_token(b))
}

fn is_exp_suffix_str(s: &str) -> (r: bool)
    ensures
        r == is_exp_suffix(s@),
{
    let n = s.unicode_len();
    if n == 0 {
        return false;
    }
    let c0 = s.get_char(0);
    let start: usize = if c0 == '+' || c0 == '-' {
        1
    } else {
        0
    };
    let body = s.substring_char(start, n);
    proof {
        assert(body@ =~= strip_sign(s@));
    }
    body.unicode_len() > 0 && all_digits_str(body)
}

fn is_mantissa_str(s: &str) -> (r: bool)
    ensures
        r == is_mantissa(s@),
{
    let n = s.unicode_len();
    let d = find_char2(s, '.', '.');
    proof {
        lemma_find_first2(s@, '.', '.');
    }
    if d == n {
        n > 0 && all_digits_str(s)
    } else {
        let before = s.substring_char(0, d);
        let after = s.substring_char(d + 1, n);
        proof {
            assert(before@ =~= s@.take(d as int));
            assert(after@ =~= s@.skip(d as int + 1));
        }
        all_digits_str(before) && all_digits_str(after) && (d > 0 || n > d + 1)
    }
}

fn is_number_token_str(s: &str) -> (r: bool)
    ensures
        r == is_number_token(s@),
{
    let n = s.unicode_len();
    let e = find_char2(s, 'e', 'E');
    proof {
        lemma_find_first2(s@, 'e', 'E');
    }
    if e == n {
        is_mantissa_str(s)
    } else {
        let mantissa = s.substring_char(0, e);
        let exp = s.substring_char(e + 1, n);
        proof {
            assert(mantissa@ =~= s@.take(e as int));
            assert(exp@ =~= s@.skip(e as int + 1));
        }
        is_mantissa_str(mantissa) && is_exp_suffix_str(exp)
    }
}

fn is_special_word_str(s: &str) -> (r: bool)
    ensures
        r == is_special_float_word(s@),
{
    let n = s.unicode_len();
    if n == 3 {
        let c0 = s.get_char(0);
        let c1 = s.get_char(1);
        let c2 = s.get_char(2);
        ((c0 == 'i' || c0 == 'I') && (c1 == 'n' || c1 == 'N') && (c2 == 'f' || c2 == 'F'))
            || ((c0 == 'n' || c0 == 'N') && (c1 == 'a' || c1 == 'A') && (c2 == 'n' || c2
            == 'N'))
    } else if n == 8 {
        let c0 = s.get_char(0);
        let c1 = s.get_char(1);
        let c2 = s.get_char(2);
        let c3 = s.get_char(3);
        let c4 = s.get_char(4);
        let c5 = s.get_char(5);
        let c6 = s.get_char(6);
        let c7 = s.get_char(7);
        (c0 == 'i' || c0 == 'I') && (c1 == 'n' || c1 == 'N') && (c2 == 'f' || c2 == 'F')
            && (c3 == 'i' || c3 == 'I') && (c4 == 'n' || c4 == 'N') && (c5 == 'i' || c5
            == 'I') && (c6 == 't' || c6 == 'T') && (c7 == 'y' || c7 == 'Y')
    } else {
        false
    }
}

/// Accepts exactly the tokens of the floating-point lexical grammar.
pub fn is_float_str(s: &str) -> (r: bool)
    ensures
        r == is_float_token(s@),
{
    let n = s.unicode_len();
    if n == 0 {
        return false;
    }
    let c0 = s.get_char(0);
    let start: usize = if c0 == '+' || c0 == '-' {
        1
    } else {
        0
    };
    let body = s.substring_char(start, n);
    proof {
        assert(body@ =~= strip_sign(s@));
    }
    if body.unicode_len() == 0 {
        return false;
    }
    is_special_word_str(body) || is_number_token_str(body)
}

} // verus!
