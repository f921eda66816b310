//! Character-level text utilities: conversion between `String` and
//! `Vec<char>`, scanning for single characters, decimal formatting, and
//! ASCII case folding.

use vstd::prelude::*;
use vstd::string::*;

verus! {

/// First index `i >= from` with `s[i] == c`, if any.
pub open spec fn spec_find(s: Seq<char>, from: int, c: char) -> Option<int>
    decreases s.len() - from,
{
    if from < 0 || from >= s.len() {
        None
    } else if s[from] == c {
        Some(from)
    } else {
        spec_find(s, from + 1, c)
    }
}

pub proof fn lemma_spec_find(s: Seq<char>, from: int, c: char)
    requires
        0 <= from <= s.len(),
    ensures
        match spec_find(s, from, c) {
            Some(i) => from <= i < s.len() && s[i] == c && (forall|k: int|
                from <= k < i ==> s[k] != c),
            None => forall|k: int| from <= k < s.len() ==> s[k] != c,
        },
    decreases s.len() - from,
{
    if from < s.len() && s[from] != c {
        lemma_spec_find(s, from + 1, c);
    }
}

/// Searching a suffix is searching the whole sequence from an offset.
pub proof fn lemma_spec_find_shift(s: Seq<char>, off: int, from: int, c: char)
    requires
        0 <= off <= s.len(),
        0 <= from <= s.len() - off,
    ensures
        spec_find(s.subrange(off, s.len() as int), from, c) == (match spec_find(
            s,
            off + from,
            c,
        ) {
            Some(i) => Some(i - off),
            None => None::<int>,
        }),
    decreases s.len() - off - from,
{
    let t = s.subrange(off, s.len() as int);
    if off + from < s.len() && s[off + from] != c {
        lemma_spec_find_shift(s, off, from + 1, c);
    }
}

pub fn find_char(s: &Vec<char>, from: usize, c: char) -> (r: Option<usize>)
    requires
        from <= s@.len(),
    ensures
        spec_find(s@, from as int, c) == (match r {
            Some(i) => Some(i as int),
            None => None::<int>,
        }),
        r matches Some(i) ==> from <= i < s@.len(),
{
    let mut i: usize = from;
    while i < s.len()
        invariant
            from <= i <= s@.len(),
            spec_find(s@, from as int, c) == spec_find(s@, i as int, c),
        decreases s@.len() - i,
    {
        if s[i] == c {
            return Some(i);
        }
        i = i + 1;
    }
    None
}

/// Relies on `String::push`: appends the given character to the end of the
/// string.
#[verifier::external_body]
pub(crate) fn push_char(s: &mut String, c: char)
    ensures
        final(s)@ == old(s)@.push(c),
{
    s.push(c);
}

/// The characters of a string slice, in order.
pub fn str_chars(s: &str) -> (r: Vec<char>)
    ensures
        r@ == s@,
{
    let n = s.unicode_len();
    let mut r: Vec<char> = Vec::new();
    let mut i: usize = 0;
    while i < n
        invariant
            i <= n,
            n == s@.len(),
            r@ == s@.subrange(0, i as int),
        decreases n - i,
    {
        let c = s.get_char(i);
        r.push(c);
        proof {
            assert(r@ =~= s@.subrange(0, i + 1 as int));
        }
        i = i + 1;
    }
    proof {
        assert(r@ =~= s@);
    }
    r
}

/// A `String` holding exactly the given characters.
pub fn chars_string(v: &Vec<char>) -> (r: String)
    ensures
        r@ == v@,
{
    let mut r = String::new();
    let mut i: usize = 0;
    while i < v.len()
        invariant
            i <= v@.len(),
            r@ == v@.subrange(0, i as int),
        decreases v@.len() - i,
    {
        push_char(&mut r, v[i]);
        proof {
            assert(r@ =~= v@.subrange(0, i + 1 as int));
        }
        i = i + 1;
    }
    proof {
        assert(r@ =~= v@);
    }
    r
}

/// Append `s[a..b]` to `out`.
pub fn push_range(out: &mut Vec<char>, s: &Vec<char>, a: usize, b: usize)
    requires
        a <= b <= s@.len(),
    ensures
        final(out)@ == old(out)@ + s@.subrange(a as int, b as int),
{
    let mut i: usize = a;
    while i < b
        invariant
            a <= i <= b <= s@.len(),
            out@ == old(out)@ + s@.subrange(a as int, i as int),
        decreases b - i,
    {
        out.push(s[i]);
        proof {
            assert(out@ =~= old(out)@ + s@.subrange(a as int, i + 1 as int));
        }
        i = i + 1;
    }
}

/// A copy of `s[a..b]`.
pub fn subvec(s: &Vec<char>, a: usize, b: usize) -> (r: Vec<char>)
    requires
        a <= b <= s@.len(),
    ensures
        r@ == s@.subrange(a as int, b as int),
{
    let mut r: Vec<char> = Vec::new();
    push_range(&mut r, s, a, b);
    r
}

// ---------------------------------------------------------------------------
// ASCII case folding
// ---------------------------------------------------------------------------

pub open spec fn upper_char(c: char) -> char {
    if 'a' <= c && c <= 'z' {
        (c as u32 - 32) as char
    } else {
        c
    }
}

pub open spec fn upper_seq(s: Seq<char>) -> Seq<char> {
    Seq::new(s.len(), |i: int| upper_char(s[i]))
}

pub fn to_upper(c: char) -> (r: char)
    ensures
        r == upper_char(c),
{
    if 'a' <= c && c <= 'z' {
        ((c as u8 - 32) as char)
    } else {
        c
    }
}

/// ASCII-case-insensitive string equality, as used for HTTP methods.
pub fn eq_ignore_ascii_case(a: &str, b: &str) -> (r: bool)
    ensures
        r == (upper_seq(a@) == upper_seq(b@)),
{
    let av = str_chars(a);
    let bv = str_chars(b);
    if av.len() != bv.len() {
        proof {
            assert(upper_seq(a@).len() != upper_seq(b@).len());
        }
        return false;
    }
    let mut i: usize = 0;
    while i < av.len()
        invariant
            i <= av@.len(),
            av@ == a@,
            bv@ == b@,
            av@.len() == bv@.len(),
            forall|k: int| 0 <= k < i ==> upper_char(a@[k]) == upper_char(b@[k]),
        decreases av@.len() - i,
    {
        if to_upper(av[i]) != to_upper(bv[i]) {
            proof {
                assert(upper_seq(a@)[i as int] != upper_seq(b@)[i as int]);
            }
            return false;
        }
        i = i + 1;
    }
    proof {
        assert(upper_seq(a@) =~= upper_seq(b@));
    }
    true
}

// ---------------------------------------------------------------------------
// Decimal formatting
// ---------------------------------------------------------------------------

pub open spec fn dec_digit(n: int) -> char {
    ('0' as u32 + n as u32) as char
}

/// Decimal representation of a nonnegative integer, most significant digit
/// first.
pub open spec fn spec_dec_nat(n: nat) -> Seq<char>
    decreases n,
{
    if n < 10 {
        seq![dec_digit(n as int)]
    } else {
        spec_dec_nat(n / 10) + seq![dec_digit((n % 10) as int)]
    }
}

/// Decimal representation of a signed integer.
pub open spec fn spec_dec_int(n: int) -> Seq<char> {
    if n < 0 {
        seq!['-'] + spec_dec_nat((-n) as nat)
    } else {
        spec_dec_nat(n as nat)
    }
}

pub fn u64_dec_chars(n: u64) -> (r: Vec<char>)
    ensures
        r@ == spec_dec_nat(n as nat),
    decreases n,
{
    if n < 10 {
        let d: u8 = n as u8;
        let c = ((48u8 + d) as char);
        let mut r: Vec<char> = Vec::new();
        r.push(c);
        proof {
            assert(r@ =~= spec_dec_nat(n as nat));
        }
        r
    } else {
        let mut r = u64_dec_chars(n / 10);
        let d: u8 = (n % 10) as u8;
        let c = ((48u8 + d) as char);
        r.push(c);
        proof {
            assert(r@ =~= spec_dec_nat((n / 10) as nat) + seq![
                dec_digit((n % 10) as int),
            ]);
        }
        r
    }
}

pub fn i64_dec_chars(n: i64) -> (r: Vec<char>)
    ensures
        r@ == spec_dec_int(n as int),
{
    if n < 0 {
        let mag: u64 = (-(n as i128)) as u64;
        let mut r: Vec<char> = Vec::new();
        r.push('-');
        let digits = u64_dec_chars(mag);
        let mut i: usize = 0;
        while i < digits.len()
            invariant
                i <= digits@.len(),
                digits@ == spec_dec_nat(mag as nat),
                r@ == seq!['-'] + digits@.subrange(0, i as int),
            decreases digits@.len() - i,
        {
            r.push(digits[i]);
            proof {
                assert(r@ =~= seq!['-'] + digits@.subrange(0, i + 1 as int));
            }
            i = i + 1;
        }
        proof {
            assert(r@ =~= seq!['-'] + spec_dec_nat((-(n as int)) as nat));
        }
        r
    } else {
        u64_dec_chars(n as u64)
    }
}

// ---------------------------------------------------------------------------
// Substring search and replacement
// ---------------------------------------------------------------------------

/// Does `pat` occur in `s` at position `i`?
pub open spec fn match_at(s: Seq<char>, pat: Seq<char>, i: int) -> bool {
    0 <= i && i + pat.len() <= s.len() && s.subrange(i, i + pat.len()) == pat
}

/// First position `i >= from` where `pat` occurs, if any.
pub open spec fn spec_find_sub(s: Seq<char>, pat: Seq<char>, from: int) -> Option<int>
    decreases s.len() - from,
{
    if pat.len() == 0 || from < 0 || from + pat.len() > s.len() {
        None
    } else if s.subrange(from, from + pat.len() as int) == pat {
        Some(from)
    } else {
        spec_find_sub(s, pat, from + 1)
    }
}

pub proof fn lemma_spec_find_sub(s: Seq<char>, pat: Seq<char>, from: int)
    requires
        0 <= from,
        pat.len() > 0,
    ensures
        match spec_find_sub(s, pat, from) {
            Some(i) => from <= i && match_at(s, pat, i) && (forall|k: int|
                from <= k < i ==> !match_at(s, pat, k)),
            None => forall|k: int| from <= k ==> !match_at(s, pat, k),
        },
    decreases s.len() - from,
{
    if from + pat.len() > s.len() {
        assert forall|k: int| from <= k implies !match_at(s, pat, k) by {}
    } else if s.subrange(from, from + pat.len() as int) == pat {
    } else {
        lemma_spec_find_sub(s, pat, from + 1);
    }
}

fn sub_match_at(s: &Vec<char>, pat: &Vec<char>, i: usize) -> (r: bool)
    requires
        i + pat@.len() <= s@.len(),
    ensures
        r == match_at(s@, pat@, i as int),
{
    let n = s.len();
    let mut k: usize = 0;
    while k < pat.len()
        invariant
            k <= pat@.len(),
            n == s@.len(),
            i + pat@.len() <= s@.len(),
            forall|j: int| 0 <= j < k ==> s@[i + j] == pat@[j],
        decreases pat@.len() - k,
    {
        if s[i + k] != pat[k] {
            proof {
                let kk = k as int;
                assert(s@.subrange(i as int, i + pat@.len() as int)[kk] != pat@[kk]);
            }
            return false;
        }
        k = k + 1;
    }
    proof {
        assert(s@.subrange(i as int, i + pat@.len() as int) =~= pat@);
    }
    true
}

/// First occurrence of `pat` at or after `from`.
pub fn find_sub(s: &Vec<char>, pat: &Vec<char>, from: usize) -> (r: Option<usize>)
    requires
        from <= s@.len(),
    ensures
        spec_find_sub(s@, pat@, from as int) == (match r {
            Some(i) => Some(i as int),
            None => None::<int>,
        }),
    decreases s@.len() - from,
{
    if pat.len() == 0 || pat.len() > s.len() - from {
        return None;
    }
    if sub_match_at(s, pat, from) {
        return Some(from);
    }
    find_sub(s, pat, from + 1)
}

/// `s` with every occurrence of `pat` replaced by `to`, scanning left to
/// right and continuing after each splice.
pub open spec fn spec_replace_all(s: Seq<char>, pat: Seq<char>, to: Seq<char>) -> Seq<char>
    decreases s.len(),
{
    if pat.len() == 0 {
        s
    } else {
        match spec_find_sub(s, pat, 0) {
            None => s,
            Some(i) => {
                proof {
                    lemma_spec_find_sub(s, pat, 0);
                }
                s.subrange(0, i) + to + spec_replace_all(
                    s.subrange(i + pat.len() as int, s.len() as int),
                    pat,
                    to,
                )
            },
        }
    }
}

proof fn lemma_find_sub_shift(s: Seq<char>, pat: Seq<char>, off: int, from: int)
    requires
        0 <= off <= s.len(),
        0 <= from,
    ensures
        spec_find_sub(s.subrange(off, s.len() as int), pat, from) == (match spec_find_sub(
            s,
            pat,
            off + from,
        ) {
            Some(i) => Some(i - off),
            None => None::<int>,
        }),
    decreases s.len() - off - from,
{
    let t = s.subrange(off, s.len() as int);
    if pat.len() > 0 && from + pat.len() <= t.len() {
        assert(t.subrange(from, from + pat.len() as int) =~= s.subrange(
            off + from,
            off + from + pat.len() as int,
        ));
        if t.subrange(from, from + pat.len() as int) == pat {
        } else {
            lemma_find_sub_shift(s, pat, off, from + 1);
        }
    }
}

/// Replace every occurrence of `pat` in `s` by `to`.
pub fn replace_all(s: &Vec<char>, pat: &Vec<char>, to: &Vec<char>) -> (r: Vec<char>)
    ensures
        r@ == spec_replace_all(s@, pat@, to@),
    decreases s@.len(),
{
    if pat.len() == 0 {
        return subvec_full(s);
    }
    match find_sub(s, pat, 0) {
        None => subvec_full(s),
        Some(i) => {
            proof {
                lemma_spec_find_sub(s@, pat@, 0);
            }
            let n = s.len();
            assert(i + pat@.len() <= n);
            let mut out = subvec(s, 0, i);
            push_range(&mut out, to, 0, to.len());
            let suffix = subvec(s, i + pat.len(), s.len());
            let rest = replace_all(&suffix, pat, to);
            push_range(&mut out, &rest, 0, rest.len());
            proof {
                assert(to@.subrange(0, to@.len() as int) =~= to@);
                assert(rest@.subrange(0, rest@.len() as int) =~= rest@);
            }
            out
        },
    }
}

/// A copy of the whole vector.
pub fn subvec_full(s: &Vec<char>) -> (r: Vec<char>)
    ensures
        r@ == s@,
{
    let r = subvec(s, 0, s.len());
    proof {
        assert(s@.subrange(0, s@.len() as int) =~= s@);
    }
    r
}

} // verus!
