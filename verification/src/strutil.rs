//! Small verified helpers for building and splitting strings.

use vstd::prelude::*;
use vstd::string::*;

verus! {

/// The decimal digit character for a value below ten.
pub open spec fn spec_digit_char(d: int) -> char {
    if d == 0 {
        '0'
    } else if d == 1 {
        '1'
    } else if d == 2 {
        '2'
    } else if d == 3 {
        '3'
    } else if d == 4 {
        '4'
    } else if d == 5 {
        '5'
    } else if d == 6 {
        '6'
    } else if d == 7 {
        '7'
    } else if d == 8 {
        '8'
    } else {
        '9'
    }
}

/// The decimal rendering of a non-negative integer, most significant digit first.
pub open spec fn spec_u64_string(n: int) -> Seq<char>
    decreases n,
{
    if n < 10 {
        seq![spec_digit_char(n)]
    } else {
        spec_u64_string(n / 10) + seq![spec_digit_char(n % 10)]
    }
}

pub(crate) fn digit_str(d: u64) -> (r: &'static str)
    requires
        d < 10,
    ensures
        r@ == seq![spec_digit_char(d as int)],
{
    proof {
        reveal_strlit("0");
        reveal_strlit("1");
        reveal_strlit("2");
        reveal_strlit("3");
        reveal_strlit("4");
        reveal_strlit("5");
        reveal_strlit("6");
        reveal_strlit("7");
        reveal_strlit("8");
        reveal_strlit("9");
    }
    let r = if d == 0 {
        "0"
    } else if d == 1 {
        "1"
    } else if d == 2 {
        "2"
    } else if d == 3 {
        "3"
    } else if d == 4 {
        "4"
    } else if d == 5 {
        "5"
    } else if d == 6 {
        "6"
    } else if d == 7 {
        "7"
    } else if d == 8 {
        "8"
    } else {
        "9"
    };
    assert(r@ =~= seq![spec_digit_char(d as int)]);
    r
}

/// Compares two strings character by character.
pub fn eq_str(a: &str, b: &str) -> (r: bool)
    ensures
        r == (a@ == b@),
{
    let na = a.unicode_len();
    let nb = b.unicode_len();
    if na != nb {
        return false;
    }
    let mut i: usize = 0;
    while i < na
        invariant
            i <= na,
            na == a@.len(),
            na == b@.len(),
            forall|j: int| 0 <= j < i ==> a@[j] == b@[j],
        decreases na - i,
    {
        if a.get_char(i) != b.get_char(i) {
            return false;
        }
        i = i + 1;
    }
    proof {
        assert(a@ =~= b@);
    }
    true
}

/// The strings joined with the separator between consecutive ones.
pub open spec fn spec_join(xs: Seq<String>, sep: Seq<char>) -> Seq<char>
    decreases xs.len(),
{
    if xs.len() == 0 {
        Seq::empty()
    } else if xs.len() == 1 {
        xs[0]@
    } else {
        spec_join(xs.drop_last(), sep) + sep + xs.last()@
    }
}

/// Joins all strings with the given separator.
pub fn join(collection: &Vec<String>, separator: &str) -> (r: String)
    ensures
        r@ == spec_join(collection@, separator@),
{
    let n = collection.len();
    let mut out = String::new();
    let mut i: usize = 0;
    while i < n
        invariant
            i <= n,
            n == collection@.len(),
            out@ == spec_join(collection@.take(i as int), separator@),
        decreases n - i,
    {
        proof {
            assert(collection@.take(i + 1).drop_last() =~= collection@.take(i as int));
            assert(collection@.take(i + 1).last() == collection@[i as int]);
        }
        if i > 0 {
            out.append(separator);
        }
        out.append(collection[i].as_str());
        i = i + 1;
    }
    proof {
        assert(collection@.take(n as int) =~= collection@);
    }
    out
}

/// Whether a character counts as part of a word.
pub uninterp spec fn char_is_alphabetic(c: char) -> bool;

/// Relies on std's `char::is_alphabetic`: the Unicode Alphabetic property of
/// the character.
#[verifier::external_body]
fn is_alphabetic_char(c: char) -> (r: bool)
    ensures
        r == char_is_alphabetic(c),
{
    c.is_alphabetic()
}

/// The length of the alphabetic prefix of `s`.
pub open spec fn spec_word_end(s: Seq<char>) -> int
    decreases s.len(),
{
    if s.len() == 0 || !char_is_alphabetic(s[0]) {
        0
    } else {
        1 + spec_word_end(s.skip(1))
    }
}

pub proof fn lemma_word_end_props(s: Seq<char>)
    ensures
        0 <= spec_word_end(s) <= s.len(),
        spec_word_end(s) < s.len() ==> !char_is_alphabetic(s[spec_word_end(s)]),
        forall|i: int| 0 <= i < spec_word_end(s) ==> char_is_alphabetic(#[trigger] s[i]),
    decreases s.len(),
{
    if s.len() != 0 && char_is_alphabetic(s[0]) {
        lemma_word_end_props(s.skip(1));
        assert forall|i: int| 0 <= i < spec_word_end(s) implies char_is_alphabetic(
            #[trigger] s[i],
        ) by {
            if i > 0 {
                assert(s.skip(1)[i - 1] == s[i]);
            }
        }
        if spec_word_end(s) < s.len() {
            assert(s.skip(1)[spec_word_end(s) - 1] == s[spec_word_end(s)]);
        }
    }
}

/// The maximal alphabetic runs of `s`, in order, without empty runs.
pub open spec fn spec_words(s: Seq<char>) -> Seq<Seq<char>>
    decreases s.len(),
    via spec_words_decreases
{
    if s.len() == 0 {
        Seq::empty()
    } else if !char_is_alphabetic(s[0]) {
        spec_words(s.skip(1))
    } else {
        let e = spec_word_end(s);
        seq![s.take(e)] + spec_words(s.skip(e))
    }
}

#[via_fn]
proof fn spec_words_decreases(s: Seq<char>) {
    if s.len() != 0 && char_is_alphabetic(s[0]) {
        lemma_word_end_props(s);
    }
}

/// Splits a string into its words: the maximal runs of alphabetic
/// characters.
pub fn split_words(s: &str) -> (r: Vec<String>)
    ensures
        r@.map_values(|x: String| x@) == spec_words(s@),
{
    proof {
        assert(s@.skip(0) =~= s@);
    }
    let n = s.unicode_len();
    split_words_rec(s, 0, n)
}

fn split_words_rec(s: &str, from: usize, n: usize) -> (r: Vec<String>)
    requires
        from <= n,
        n == s@.len(),
    ensures
        r@.map_values(|x: String| x@) == spec_words(s@.skip(from as int)),
    decreases n - from,
{
    let ghost sub = s@.skip(from as int);
    if from == n {
        let r: Vec<String> = Vec::new();
        proof {
            assert(r@.map_values(|x: String| x@) =~= spec_words(sub));
        }
        return r;
    }
    let c = s.get_char(from);
    proof {
        assert(sub[0] == s@[from as int]);
    }
    if !is_alphabetic_char(c) {
        proof {
            assert(sub.skip(1) =~= s@.skip(from + 1));
        }
        return split_words_rec(s, from + 1, n);
    }
    // scan the alphabetic run
    let mut e = from + 1;
    while e < n && is_alphabetic_char(s.get_char(e))
        invariant
            from < e <= n,
            n == s@.len(),
            forall|i: int| from <= i < e ==> char_is_alphabetic(#[trigger] s@[i]),
        decreases n - e,
    {
        e = e + 1;
    }
    proof {
        lemma_word_end_props(sub);
        assert(forall|i: int| 0 <= i < sub.len() ==> sub[i] == s@[from + i]);
        let w = spec_word_end(sub);
        if w < e - from {
            assert(!char_is_alphabetic(sub[w]));
            assert(char_is_alphabetic(s@[from + w]));
            assert(false);
        }
        if e - from < w {
            assert(e < n && !char_is_alphabetic(s@[e as int]));
            assert(char_is_alphabetic(sub[e - from]));
            assert(false);
        }
    }
    let word = String::from_str(s.substring_char(from, e));
    let rest = split_words_rec(s, e, n);
    proof {
        assert(word@ =~= sub.take(e - from));
        assert(s@.skip(e as int) =~= sub.skip(e - from));
    }
    let mut out: Vec<String> = Vec::new();
    out.push(word);
    let mut rest = rest;
    out.append(&mut rest);
    proof {
        assert(out@.map_values(|x: String| x@) =~= spec_words(sub));
    }
    out
}

/// Renders a wide unsigned integer as its decimal digits.
pub fn u128_to_string(n: u128) -> (r: String)
    ensures
        r@ == spec_u64_string(n as int),
    decreases n,
{
    if n < 10 {
        String::from_str(digit_str(n as u64))
    } else {
        let mut s = u128_to_string(n / 10);
        s.append(digit_str((n % 10) as u64));
        assert(s@ =~= spec_u64_string(n as int));
        s
    }
}

/// Renders an unsigned integer as its decimal digits.
pub fn u64_to_string(n: u64) -> (r: String)
    ensures
        r@ == spec_u64_string(n as int),
    decreases n,
{
    if n < 10 {
        String::from_str(digit_str(n))
    } else {
        let mut s = u64_to_string(n / 10);
        s.append(digit_str(n % 10));
        assert(s@ =~= spec_u64_string(n as int));
        s
    }
}

} // verus!
