//! Character-sequence helpers the frame codec is built on: locating a
//! separator, splitting a frame into its `#`-delimited tokens, and comparing
//! tokens, each tied to a spec-level definition.

use vstd::prelude::*;

verus! {

/// True when `c` occurs somewhere in `s`.
pub open spec fn has_char(s: Seq<char>, c: char) -> bool {
    exists|i: int| 0 <= i < s.len() && s[i] == c
}

/// The tokens of `s` between occurrences of the separator `c`, in order.
/// A sequence without the separator is a single token; every separator,
/// including a leading or trailing one, bounds a (possibly empty) token.
pub open spec fn split_at_char(s: Seq<char>, c: char) -> Seq<Seq<char>>
    decreases s.len(),
{
    if s.len() == 0 {
        seq![Seq::<char>::empty()]
    } else if s[0] == c {
        seq![Seq::<char>::empty()] + split_at_char(s.skip(1), c)
    } else {
        let rest = split_at_char(s.skip(1), c);
        seq![seq![s[0]] + rest[0]] + rest.skip(1)
    }
}

/// Splitting yields at least one token.
pub proof fn lemma_split_len(s: Seq<char>, c: char)
    ensures
        split_at_char(s, c).len() >= 1,
    decreases s.len(),
{
    if s.len() == 0 {
    } else if s[0] == c {
    } else {
        lemma_split_len(s.skip(1), c);
    }
}

/// A sequence free of the separator splits into exactly itself.
pub proof fn lemma_split_no_sep(s: Seq<char>, c: char)
    requires
        !has_char(s, c),
    ensures
        split_at_char(s, c) =~~= seq![s],
    decreases s.len(),
{
    if s.len() == 0 {
        assert(split_at_char(s, c) == seq![Seq::<char>::empty()]);
        assert(s =~= Seq::<char>::empty());
    } else {
        assert(s[0] != c);
        assert(forall|i: int| 0 <= i < s.skip(1).len() ==> s.skip(1)[i] == s[i + 1]);
        lemma_split_no_sep(s.skip(1), c);
        lemma_split_len(s.skip(1), c);
        assert(seq![s[0]] + s.skip(1) =~= s);
    }
}

/// A leading separator-free token followed by the separator splits into that
/// token and then whatever the remainder splits into.
pub proof fn lemma_split_step(t: Seq<char>, c: char, r: Seq<char>)
    requires
        !has_char(t, c),
    ensures
        split_at_char(t + seq![c] + r, c) =~~= seq![t] + split_at_char(r, c),
    decreases t.len(),
{
    let s = t + seq![c] + r;
    if t.len() == 0 {
        assert(s =~= seq![c] + r);
        assert(s[0] == c);
        assert(s.skip(1) =~= r);
    } else {
        assert(s[0] == t[0]);
        assert(s[0] != c);
        assert(forall|i: int| 0 <= i < t.skip(1).len() ==> t.skip(1)[i] == t[i + 1]);
        lemma_split_step(t.skip(1), c, r);
        assert(s.skip(1) =~= t.skip(1) + seq![c] + r);
        let rest = split_at_char(s.skip(1), c);
        lemma_split_len(r, c);
        assert(rest =~~= seq![t.skip(1)] + split_at_char(r, c));
        assert(rest[0] == t.skip(1));
        assert(seq![s[0]] + rest[0] =~= t);
        assert(rest.skip(1) =~~= split_at_char(r, c));
    }
}

/// Splits a frame into its `#`-separated tokens, matching `split_at_char`.
pub fn split_hash(s: &str) -> (r: Vec<String>)
    ensures
        r@.map_values(|t: String| t@) =~~= split_at_char(s@, '#'),
{
    let n = s.unicode_len();
    let mut r: Vec<String> = Vec::new();
    let mut start: usize = 0;
    let mut i: usize = 0;
    proof {
        assert(s@.skip(0) =~= s@);
        assert(r@.map_values(|t: String| t@) =~= Seq::<Seq<char>>::empty());
    }
    while i < n
        invariant
            n == s@.len(),
            0 <= start <= i <= n,
            forall|k: int| start <= k < i ==> s@[k] != '#',
            split_at_char(s@, '#') =~~= r@.map_values(|t: String| t@) + split_at_char(
                s@.skip(start as int),
                '#',
            ),
        decreases n - i,
    {
        if s.get_char(i) == '#' {
            let tok = String::from_str(s.substring_char(start, i));
            proof {
                let pre = s@.subrange(start as int, i as int);
                assert(!has_char(pre, '#'));
                assert(s@.skip(start as int) =~= pre + seq!['#'] + s@.skip(i + 1));
                lemma_split_step(pre, '#', s@.skip(i + 1));
                assert((r@ + seq![tok]).map_values(|t: String| t@) =~= r@.map_values(
                    |t: String| t@,
                ) + seq![tok@]);
            }
            r.push(tok);
            start = i + 1;
        }
        i = i + 1;
    }
    let tok = String::from_str(s.substring_char(start, n));
    proof {
        let pre = s@.subrange(start as int, n as int);
        assert(pre =~= s@.skip(start as int));
        assert(!has_char(pre, '#'));
        lemma_split_no_sep(pre, '#');
        assert((r@ + seq![tok]).map_values(|t: String| t@) =~= r@.map_values(|t: String| t@)
            + seq![tok@]);
    }
    r.push(tok);
    r
}

/// Character-by-character string comparison, settling view equality.
pub fn str_eq(a: &str, b: &str) -> (r: bool)
    ensures
        r == (a@ == b@),
{
    let na = a.unicode_len();
    let nb = b.unicode_len();
    if na != nb {
        return false;
    }
    let mut i: usize = 0;
    while i < na
        invariant
            na == a@.len(),
            na == b@.len(),
            0 <= i <= na,
            forall|k: int| 0 <= k < i ==> a@[k] == b@[k],
        decreases na - i,
    {
        if a.get_char(i) != b.get_char(i) {
            return false;
        }
        i = i + 1;
    }
    proof {
        assert(a@ =~= b@);
    }
    true
}

} // verus!
