//! Character classification and small text utilities shared by the whole
//! pipeline: conversion between `String` and `Vec<char>`, substring search,
//! trimming, and character classes.
//!
//! ASCII classification is the crate's own, stated exactly. Beyond ASCII the
//! crate calls std's Unicode classification; what those calls return outside
//! the ASCII range is only named, never spelled out.

use vstd::prelude::*;
use vstd::string::*;

verus! {

// ---------------------------------------------------------------------------
// Character classes
// ---------------------------------------------------------------------------

pub open spec fn is_ascii_char(c: char) -> bool {
    (c as u32) < 128
}

pub open spec fn is_ascii_digit_char(c: char) -> bool {
    48 <= (c as u32) && (c as u32) <= 57
}

pub open spec fn is_ascii_lower_char(c: char) -> bool {
    97 <= (c as u32) && (c as u32) <= 122
}

pub open spec fn is_ascii_upper_char(c: char) -> bool {
    65 <= (c as u32) && (c as u32) <= 90
}

/// The ASCII characters with the Unicode `White_Space` property:
/// space, tab, line feed, vertical tab, form feed, carriage return.
pub open spec fn is_ascii_white_char(c: char) -> bool {
    (c as u32) == 32 || (9 <= (c as u32) && (c as u32) <= 13)
}

pub uninterp spec fn unicode_alpha(c: char) -> bool;

pub uninterp spec fn unicode_alnum(c: char) -> bool;

pub uninterp spec fn unicode_white(c: char) -> bool;

pub uninterp spec fn unicode_lower(c: char) -> bool;

/// A letter: exact on ASCII, named beyond it.
pub open spec fn is_alpha_char(c: char) -> bool {
    if is_ascii_char(c) {
        is_ascii_lower_char(c) || is_ascii_upper_char(c)
    } else {
        unicode_alpha(c)
    }
}

/// A letter or digit: exact on ASCII, named beyond it.
pub open spec fn is_alnum_char(c: char) -> bool {
    if is_ascii_char(c) {
        is_ascii_lower_char(c) || is_ascii_upper_char(c) || is_ascii_digit_char(c)
    } else {
        unicode_alnum(c)
    }
}

/// A whitespace character: exact on ASCII, named beyond it.
pub open spec fn is_white_char(c: char) -> bool {
    if is_ascii_char(c) {
        is_ascii_white_char(c)
    } else {
        unicode_white(c)
    }
}

/// A lowercase letter: exact on ASCII, named beyond it.
pub open spec fn is_lower_char(c: char) -> bool {
    if is_ascii_char(c) {
        is_ascii_lower_char(c)
    } else {
        unicode_lower(c)
    }
}

/// Relies on `char::is_alphabetic`: on the ASCII range it holds exactly for
/// `a`..`z` and `A`..`Z`; beyond ASCII its value is only named.
#[verifier::external_body]
pub(crate) fn char_is_alpha(c: char) -> (r: bool)
    ensures
        r == is_alpha_char(c),
        !is_ascii_char(c) ==> r == unicode_alpha(c),
{
    c.is_alphabetic()
}

/// Relies on `char::is_alphanumeric`: on the ASCII range it holds exactly for
/// the letters and digits; beyond ASCII its value is only named.
#[verifier::external_body]
pub(crate) fn char_is_alnum(c: char) -> (r: bool)
    ensures
        r == is_alnum_char(c),
        !is_ascii_char(c) ==> r == unicode_alnum(c),
{
    c.is_alphanumeric()
}

/// Relies on `char::is_whitespace`: on the ASCII range it holds exactly for
/// space, tab, line feed, vertical tab, form feed and carriage return; beyond
/// ASCII its value is only named.
#[verifier::external_body]
pub(crate) fn char_is_white(c: char) -> (r: bool)
    ensures
        r == is_white_char(c),
        !is_ascii_char(c) ==> r == unicode_white(c),
{
    c.is_whitespace()
}

/// Relies on `char::is_lowercase`: on the ASCII range it holds exactly for
/// `a`..`z`; beyond ASCII its value is only named.
#[verifier::external_body]
pub(crate) fn char_is_lower(c: char) -> (r: bool)
    ensures
        r == is_lower_char(c),
        !is_ascii_char(c) ==> r == unicode_lower(c),
{
    c.is_lowercase()
}

pub fn char_is_ascii_white(c: char) -> (r: bool)
    ensures
        r == is_ascii_white_char(c),
{
    let u = c as u32;
    u == 32 || (9 <= u && u <= 13)
}

pub fn char_is_ascii_digit(c: char) -> (r: bool)
    ensures
        r == is_ascii_digit_char(c),
{
    let u = c as u32;
    48 <= u && u <= 57
}

/// Lowers an ASCII uppercase letter; leaves every other character alone.
pub open spec fn ascii_lower(c: char) -> char {
    if is_ascii_upper_char(c) {
        ((c as u32) + 32) as char
    } else {
        c
    }
}

pub fn char_ascii_lower(c: char) -> (r: char)
    ensures
        r == ascii_lower(c),
{
    let u = c as u32;
    if 65 <= u && u <= 90 {
        let b = (c as u8) + 32;
        let r = b as char;
        r
    } else {
        c
    }
}

// ---------------------------------------------------------------------------
// String <-> Vec<char>
// ---------------------------------------------------------------------------

pub fn chars_of(s: &str) -> (r: Vec<char>)
    ensures
        r@ == s@,
{
    let n = s.unicode_len();
    let mut r: Vec<char> = Vec::new();
    let mut i: usize = 0;
    while i < n
        invariant
            n == s@.len(),
            i <= n,
            r@ == s@.subrange(0, i as int),
        decreases n - i,
    {
        let c = s.get_char(i);
        r.push(c);
        i = i + 1;
        proof {
            assert(r@ =~= s@.subrange(0, i as int));
        }
    }
    proof {
        assert(r@ =~= s@);
    }
    r
}

/// Relies on `String::push`: appends exactly one character at the end.
#[verifier::external_body]
pub(crate) fn push_char(s: &mut String, c: char)
    ensures
        final(s)@ == old(s)@.push(c),
{
    s.push(c);
}

pub fn string_from(v: &Vec<char>) -> (r: String)
    ensures
        r@ == v@,
{
    let mut r = String::new();
    let mut i: usize = 0;
    while i < v.len()
        invariant
            i <= v@.len(),
            r@ == v@.subrange(0, i as int),
        decreases v@.len() - i,
    {
        push_char(&mut r, v[i]);
        i = i + 1;
        proof {
            assert(r@ =~= v@.subrange(0, i as int));
        }
    }
    proof {
        assert(r@ =~= v@);
    }
    r
}

pub fn str_to_string(s: &str) -> (r: String)
    ensures
        r@ == s@,
{
    s.to_owned()
}

// ---------------------------------------------------------------------------
// Name/details split point
// ---------------------------------------------------------------------------

/// A character at which an entry splits into name and details: a digit, or a
/// symbol that is not a letter, digit, whitespace or ampersand.
pub open spec fn is_break_char(c: char) -> bool {
    is_ascii_digit_char(c) || !(is_alnum_char(c) || is_white_char(c) || c == '&')
}

/// The first split position, or the length when no character breaks.
pub open spec fn first_break_of(s: Seq<char>) -> int
    decreases s.len(),
{
    if s.len() == 0 {
        0
    } else if is_break_char(s.first()) {
        0
    } else {
        1 + first_break_of(s.drop_first())
    }
}

pub fn first_break_of_exec(v: &Vec<char>) -> (r: usize)
    ensures
        r as int == first_break_of(v@),
        r <= v@.len(),
{
    let n = v.len();
    let mut i: usize = 0;
    proof {
        assert(v@.subrange(0, n as int) =~= v@);
    }
    while i < n
        invariant
            i <= n,
            n == v@.len(),
            first_break_of(v@) == i + first_break_of(v@.subrange(i as int, n as int)),
        decreases n - i,
    {
        let ghost suf = v@.subrange(i as int, n as int);
        proof {
            assert(suf.first() == v@[i as int]);
            assert(suf.drop_first() =~= v@.subrange(i as int + 1, n as int));
        }
        let c = v[i];
        let breaks = char_is_ascii_digit(c) || !(char_is_alnum(c) || char_is_white(c) || c
            == '&');
        if breaks {
            return i;
        }
        i = i + 1;
    }
    proof {
        assert(v@.subrange(i as int, n as int) =~= Seq::<char>::empty());
    }
    n
}

// ---------------------------------------------------------------------------
// Substring search
// ---------------------------------------------------------------------------

pub open spec fn contains_seq(s: Seq<char>, pat: Seq<char>) -> bool {
    exists|i: int|
        0 <= i && i + pat.len() <= s.len() && #[trigger] s.subrange(i, i + pat.len()) == pat
}

fn matches_at(v: &Vec<char>, pat: &Vec<char>, i: usize) -> (r: bool)
    requires
        i + pat@.len() <= v@.len(),
    ensures
        r == (v@.subrange(i as int, i as int + pat@.len()) == pat@),
{
    let ghost sub = v@.subrange(i as int, i as int + pat@.len());
    let n = v.len();
    let mut j: usize = 0;
    while j < pat.len()
        invariant
            i + pat@.len() <= v@.len(),
            n == v@.len(),
            j <= pat@.len(),
            sub == v@.subrange(i as int, i as int + pat@.len()),
            forall|k: int| 0 <= k < j ==> v@[i + k] == pat@[k],
        decreases pat@.len() - j,
    {
        if v[i + j] != pat[j] {
            proof {
                assert(sub[j as int] == v@[i + j]);
                assert(sub[j as int] != pat@[j as int]);
            }
            return false;
        }
        j = j + 1;
    }
    proof {
        assert(sub =~= pat@);
    }
    true
}

/// Whether `pat` occurs as a contiguous run inside `v`.
pub fn contains_chars(v: &Vec<char>, pat: &Vec<char>) -> (r: bool)
    ensures
        r == contains_seq(v@, pat@),
{
    if pat.len() > v.len() {
        proof {
            assert(!contains_seq(v@, pat@));
        }
        return false;
    }
    if pat.len() == 0 {
        proof {
            assert(v@.subrange(0int, 0int + pat@.len()) =~= pat@);
            assert(contains_seq(v@, pat@));
        }
        return true;
    }
    let n = v.len();
    let bound = v.len() - pat.len();
    let mut i: usize = 0;
    while i <= bound
        invariant
            1 <= pat@.len() <= v@.len(),
            n == v@.len(),
            bound == v@.len() - pat@.len(),
            i <= bound + 1,
            forall|k: int| 0 <= k < i ==> #[trigger] v@.subrange(k, k + pat@.len()) != pat@,
        decreases bound + 1 - i,
    {
        if matches_at(v, pat, i) {
            proof {
                assert(contains_seq(v@, pat@));
            }
            return true;
        }
        i = i + 1;
    }
    proof {
        assert forall|k: int| 0 <= k && k + pat@.len() <= v@.len() implies #[trigger] v@.subrange(
            k,
            k + pat@.len(),
        ) != pat@ by {
            assert(k < i);
        }
    }
    false
}

/// Whether the literal `pat` occurs inside `v`.
pub fn contains_lit(v: &Vec<char>, pat: &str) -> (r: bool)
    ensures
        r == contains_seq(v@, pat@),
{
    let p = chars_of(pat);
    contains_chars(v, &p)
}

// ---------------------------------------------------------------------------
// Character scans
// ---------------------------------------------------------------------------

pub open spec fn has_lower_seq(s: Seq<char>) -> bool {
    exists|i: int| 0 <= i < s.len() && is_lower_char(s[i])
}

pub open spec fn has_ascii_digit_seq(s: Seq<char>) -> bool {
    exists|i: int| 0 <= i < s.len() && is_ascii_digit_char(s[i])
}

pub open spec fn has_alnum_seq(s: Seq<char>) -> bool {
    exists|i: int| 0 <= i < s.len() && is_alnum_char(s[i])
}

pub fn chars_have_lower(v: &Vec<char>) -> (r: bool)
    ensures
        r == has_lower_seq(v@),
{
    let mut i: usize = 0;
    while i < v.len()
        invariant
            i <= v@.len(),
            forall|k: int| 0 <= k < i ==> !is_lower_char(v@[k]),
        decreases v@.len() - i,
    {
        if char_is_lower(v[i]) {
            proof {
                assert(is_lower_char(v@[i as int]));
            }
            return true;
        }
        i = i + 1;
    }
    false
}

pub fn chars_have_ascii_digit(v: &Vec<char>) -> (r: bool)
    ensures
        r == has_ascii_digit_seq(v@),
{
    let mut i: usize = 0;
    while i < v.len()
        invariant
            i <= v@.len(),
            forall|k: int| 0 <= k < i ==> !is_ascii_digit_char(v@[k]),
        decreases v@.len() - i,
    {
        if char_is_ascii_digit(v[i]) {
            proof {
                assert(is_ascii_digit_char(v@[i as int]));
            }
            return true;
        }
        i = i + 1;
    }
    false
}

pub fn chars_have_alnum(v: &Vec<char>) -> (r: bool)
    ensures
        r == has_alnum_seq(v@),
{
    let mut i: usize = 0;
    while i < v.len()
        invariant
            i <= v@.len(),
            forall|k: int| 0 <= k < i ==> !is_alnum_char(v@[k]),
        decreases v@.len() - i,
    {
        if char_is_alnum(v[i]) {
            proof {
                assert(is_alnum_char(v@[i as int]));
            }
            return true;
        }
        i = i + 1;
    }
    false
}

/// Character-for-character equality of two texts.
pub fn eq_chars(a: &Vec<char>, b: &Vec<char>) -> (r: bool)
    ensures
        r == (a@ == b@),
{
    let n = a.len();
    if n != b.len() {
        return false;
    }
    let mut i: usize = 0;
    while i < n
        invariant
            i <= n,
            n == a@.len(),
            n == b@.len(),
            forall|k: int| 0 <= k < i ==> a@[k] == b@[k],
        decreases n - i,
    {
        if a[i] != b[i] {
            return false;
        }
        i = i + 1;
    }
    proof {
        assert(a@ =~= b@);
    }
    true
}

// ---------------------------------------------------------------------------
// Trimming
// ---------------------------------------------------------------------------

pub open spec fn trim_white_end(s: Seq<char>) -> Seq<char>
    decreases s.len(),
{
    if s.len() > 0 && is_white_char(s.last()) {
        trim_white_end(s.drop_last())
    } else {
        s
    }
}

pub open spec fn trim_white_start(s: Seq<char>) -> Seq<char>
    decreases s.len(),
{
    if s.len() > 0 && is_white_char(s.first()) {
        trim_white_start(s.drop_first())
    } else {
        s
    }
}

/// Both ends stripped of whitespace.
pub open spec fn trim_white_spec(s: Seq<char>) -> Seq<char> {
    trim_white_start(trim_white_end(s))
}

pub open spec fn trim_nonalnum_end(s: Seq<char>) -> Seq<char>
    decreases s.len(),
{
    if s.len() > 0 && !is_alnum_char(s.last()) {
        trim_nonalnum_end(s.drop_last())
    } else {
        s
    }
}

pub open spec fn trim_nonalnum_start(s: Seq<char>) -> Seq<char>
    decreases s.len(),
{
    if s.len() > 0 && !is_alnum_char(s.first()) {
        trim_nonalnum_start(s.drop_first())
    } else {
        s
    }
}

/// Both ends stripped of everything that is not a letter or digit.
pub open spec fn trim_nonalnum_spec(s: Seq<char>) -> Seq<char> {
    trim_nonalnum_start(trim_nonalnum_end(s))
}

pub fn trim_white(v: &Vec<char>) -> (r: Vec<char>)
    ensures
        r@ == trim_white_spec(v@),
{
    let n = v.len();
    let mut b: usize = n;
    proof {
        assert(v@.subrange(0, n as int) =~= v@);
    }
    loop
        invariant
            b <= n,
            n == v@.len(),
            trim_white_end(v@) == trim_white_end(v@.subrange(0, b as int)),
        ensures
            b <= v@.len(),
            trim_white_end(v@) == v@.subrange(0, b as int),
        decreases b,
    {
        if b == 0 {
            proof {
                assert(v@.subrange(0, 0) =~= Seq::<char>::empty());
            }
            break;
        }
        if !char_is_white(v[b - 1]) {
            proof {
                assert(v@.subrange(0, b as int).last() == v@[b - 1]);
            }
            break;
        }
        proof {
            assert(v@.subrange(0, b as int).last() == v@[b - 1]);
            assert(v@.subrange(0, b as int).drop_last() =~= v@.subrange(0, b - 1));
        }
        b = b - 1;
    }
    let mut a: usize = 0;
    loop
        invariant
            a <= b <= v@.len(),
            trim_white_end(v@) == v@.subrange(0, b as int),
            trim_white_spec(v@) == trim_white_start(v@.subrange(a as int, b as int)),
        ensures
            a <= b <= v@.len(),
            trim_white_spec(v@) == v@.subrange(a as int, b as int),
        decreases b - a,
    {
        if a == b {
            proof {
                assert(v@.subrange(a as int, b as int) =~= Seq::<char>::empty());
            }
            break;
        }
        if !char_is_white(v[a]) {
            proof {
                assert(v@.subrange(a as int, b as int).first() == v@[a as int]);
            }
            break;
        }
        proof {
            assert(v@.subrange(a as int, b as int).first() == v@[a as int]);
            assert(v@.subrange(a as int, b as int).drop_first() =~= v@.subrange(
                a as int + 1,
                b as int,
            ));
        }
        a = a + 1;
    }
    copy_range(v, a, b)
}

pub fn trim_nonalnum(v: &Vec<char>) -> (r: Vec<char>)
    ensures
        r@ == trim_nonalnum_spec(v@),
{
    let n = v.len();
    let mut b: usize = n;
    proof {
        assert(v@.subrange(0, n as int) =~= v@);
    }
    loop
        invariant
            b <= n,
            n == v@.len(),
            trim_nonalnum_end(v@) == trim_nonalnum_end(v@.subrange(0, b as int)),
        ensures
            b <= v@.len(),
            trim_nonalnum_end(v@) == v@.subrange(0, b as int),
        decreases b,
    {
        if b == 0 {
            proof {
                assert(v@.subrange(0, 0) =~= Seq::<char>::empty());
            }
            break;
        }
        if char_is_alnum(v[b - 1]) {
            proof {
                assert(v@.subrange(0, b as int).last() == v@[b - 1]);
            }
            break;
        }
        proof {
            assert(v@.subrange(0, b as int).last() == v@[b - 1]);
            assert(v@.subrange(0, b as int).drop_last() =~= v@.subrange(0, b - 1));
        }
        b = b - 1;
    }
    let mut a: usize = 0;
    loop
        invariant
            a <= b <= v@.len(),
            trim_nonalnum_end(v@) == v@.subrange(0, b as int),
            trim_nonalnum_spec(v@) == trim_nonalnum_start(v@.subrange(a as int, b as int)),
        ensures
            a <= b <= v@.len(),
            trim_nonalnum_spec(v@) == v@.subrange(a as int, b as int),
        decreases b - a,
    {
        if a == b {
            proof {
                assert(v@.subrange(a as int, b as int) =~= Seq::<char>::empty());
            }
            break;
        }
        if char_is_alnum(v[a]) {
            proof {
                assert(v@.subrange(a as int, b as int).first() == v@[a as int]);
            }
            break;
        }
        proof {
            assert(v@.subrange(a as int, b as int).first() == v@[a as int]);
            assert(v@.subrange(a as int, b as int).drop_first() =~= v@.subrange(
                a as int + 1,
                b as int,
            ));
        }
        a = a + 1;
    }
    copy_range(v, a, b)
}

/// The characters of `v` from `a` (included) to `b` (excluded), as a fresh
/// vector.
pub fn copy_range(v: &Vec<char>, a: usize, b: usize) -> (r: Vec<char>)
    requires
        a <= b <= v@.len(),
    ensures
        r@ == v@.subrange(a as int, b as int),
{
    let mut r: Vec<char> = Vec::new();
    let mut j: usize = a;
    while j < b
        invariant
            a <= j <= b <= v@.len(),
            r@ == v@.subrange(a as int, j as int),
        decreases b - j,
    {
        r.push(v[j]);
        j = j + 1;
        proof {
            assert(r@ =~= v@.subrange(a as int, j as int));
        }
    }
    proof {
        assert(r@ =~= v@.subrange(a as int, b as int));
    }
    r
}

// ---------------------------------------------------------------------------
// Splitting on a separator character
// ---------------------------------------------------------------------------

/// One step at a time: `cur` is the piece being read, `acc` the pieces already
/// closed. Splitting never loses characters and always yields one more piece
/// than there are separators.
pub open spec fn split_go(
    s: Seq<char>,
    sep: char,
    cur: Seq<char>,
    acc: Seq<Seq<char>>,
) -> Seq<Seq<char>>
    decreases s.len(),
{
    if s.len() == 0 {
        acc.push(cur)
    } else if s.first() == sep {
        split_go(s.drop_first(), sep, Seq::empty(), acc.push(cur))
    } else {
        split_go(s.drop_first(), sep, cur.push(s.first()), acc)
    }
}

pub open spec fn split_spec(s: Seq<char>, sep: char) -> Seq<Seq<char>> {
    split_go(s, sep, Seq::empty(), Seq::empty())
}

pub fn split_chars(v: &Vec<char>, sep: char) -> (r: Vec<Vec<char>>)
    ensures
        r.deep_view() == split_spec(v@, sep),
{
    let ghost total = split_spec(v@, sep);
    let mut acc: Vec<Vec<char>> = Vec::new();
    let mut cur: Vec<char> = Vec::new();
    let mut i: usize = 0;
    proof {
        assert(v@.subrange(0, v@.len() as int) =~= v@);
        assert(acc.deep_view() =~= Seq::<Seq<char>>::empty());
    }
    while i < v.len()
        invariant
            i <= v@.len(),
            split_go(v@.subrange(i as int, v@.len() as int), sep, cur@, acc.deep_view())
                == total,
        decreases v@.len() - i,
    {
        let ghost suf = v@.subrange(i as int, v@.len() as int);
        proof {
            assert(suf.first() == v@[i as int]);
            assert(suf.drop_first() =~= v@.subrange(i as int + 1, v@.len() as int));
        }
        let c = v[i];
        if c == sep {
            let ghost old_acc = acc.deep_view();
            let ghost old_cur = cur@;
            acc.push(cur);
            cur = Vec::new();
            proof {
                assert(acc.deep_view() =~~= old_acc.push(old_cur));
            }
        } else {
            cur.push(c);
        }
        i = i + 1;
    }
    proof {
        assert(v@.subrange(i as int, v@.len() as int) =~= Seq::<char>::empty());
    }
    let ghost old_acc = acc.deep_view();
    let ghost old_cur = cur@;
    acc.push(cur);
    proof {
        assert(acc.deep_view() =~~= old_acc.push(old_cur));
    }
    acc
}

// ---------------------------------------------------------------------------
// Replacing a pattern
// ---------------------------------------------------------------------------

/// Left-to-right, non-overlapping replacement of `pat` by `rep`, as
/// `str::replace` does it.
pub open spec fn replace_go(
    s: Seq<char>,
    pat: Seq<char>,
    rep: Seq<char>,
    acc: Seq<char>,
) -> Seq<char>
    decreases s.len(),
{
    if s.len() == 0 {
        acc
    } else if 0 < pat.len() <= s.len() && s.subrange(0, pat.len() as int) == pat {
        replace_go(s.skip(pat.len() as int), pat, rep, acc + rep)
    } else {
        replace_go(s.drop_first(), pat, rep, acc.push(s.first()))
    }
}

pub open spec fn replace_spec(s: Seq<char>, pat: Seq<char>, rep: Seq<char>) -> Seq<char> {
    replace_go(s, pat, rep, Seq::empty())
}

pub fn append_chars(dst: &mut Vec<char>, src: &Vec<char>)
    ensures
        final(dst)@ == old(dst)@ + src@,
{
    let mut j: usize = 0;
    while j < src.len()
        invariant
            j <= src@.len(),
            dst@ == old(dst)@ + src@.subrange(0, j as int),
        decreases src@.len() - j,
    {
        dst.push(src[j]);
        j = j + 1;
        proof {
            assert(dst@ =~= old(dst)@ + src@.subrange(0, j as int));
        }
    }
    proof {
        assert(old(dst)@ + src@.subrange(0, src@.len() as int) =~= old(dst)@ + src@);
    }
}

pub fn replace_chars(v: &Vec<char>, pat: &Vec<char>, rep: &Vec<char>) -> (r: Vec<char>)
    requires
        pat@.len() > 0,
    ensures
        r@ == replace_spec(v@, pat@, rep@),
{
    let ghost total = replace_spec(v@, pat@, rep@);
    let mut out: Vec<char> = Vec::new();
    let mut i: usize = 0;
    let n = v.len();
    proof {
        assert(v@.subrange(0, v@.len() as int) =~= v@);
    }
    while i < n
        invariant
            i <= n,
            n == v@.len(),
            pat@.len() > 0,
            replace_go(v@.subrange(i as int, v@.len() as int), pat@, rep@, out@) == total,
        decreases n - i,
    {
        let ghost suf = v@.subrange(i as int, v@.len() as int);
        proof {
            assert(suf.first() == v@[i as int]);
            assert(suf.drop_first() =~= v@.subrange(i as int + 1, v@.len() as int));
        }
        if pat.len() <= n - i && matches_at(v, pat, i) {
            proof {
                assert(suf.subrange(0, pat@.len() as int) =~= v@.subrange(
                    i as int,
                    i as int + pat@.len(),
                ));
                assert(suf.skip(pat@.len() as int) =~= v@.subrange(
                    i as int + pat@.len(),
                    v@.len() as int,
                ));
            }
            append_chars(&mut out, rep);
            i = i + pat.len();
        } else {
            proof {
                if 0 < pat@.len() <= suf.len() {
                    assert(suf.subrange(0, pat@.len() as int) =~= v@.subrange(
                        i as int,
                        i as int + pat@.len(),
                    ));
                }
            }
            out.push(v[i]);
            i = i + 1;
        }
    }
    proof {
        assert(v@.subrange(i as int, v@.len() as int) =~= Seq::<char>::empty());
    }
    out
}

// ---------------------------------------------------------------------------
// Digit runs and numbers
// ---------------------------------------------------------------------------

/// The start of the maximal run of ASCII digits that ends the text; the
/// length of the text when it does not end in a digit.
pub open spec fn trailing_digit_start(s: Seq<char>) -> int
    decreases s.len(),
{
    if s.len() > 0 && is_ascii_digit_char(s.last()) {
        trailing_digit_start(s.drop_last())
    } else {
        s.len() as int
    }
}

pub proof fn lemma_trailing_digit_start(s: Seq<char>)
    ensures
        0 <= trailing_digit_start(s) <= s.len(),
        forall|j: int| trailing_digit_start(s) <= j < s.len() ==> is_ascii_digit_char(s[j]),
    decreases s.len(),
{
    if s.len() > 0 && is_ascii_digit_char(s.last()) {
        lemma_trailing_digit_start(s.drop_last());
        assert forall|j: int| trailing_digit_start(s) <= j < s.len() implies is_ascii_digit_char(
            s[j],
        ) by {
            if j < s.len() - 1 {
                assert(s.drop_last()[j] == s[j]);
            }
        }
    }
}

pub fn find_trailing_digits(v: &Vec<char>) -> (r: usize)
    ensures
        r as int == trailing_digit_start(v@),
{
    let n = v.len();
    let mut k: usize = n;
    proof {
        assert(v@.subrange(0, n as int) =~= v@);
    }
    loop
        invariant
            k <= n,
            n == v@.len(),
            trailing_digit_start(v@) == trailing_digit_start(v@.subrange(0, k as int)),
        ensures
            k <= v@.len(),
            trailing_digit_start(v@) == k as int,
        decreases k,
    {
        if k == 0 {
            proof {
                assert(v@.subrange(0, 0) =~= Seq::<char>::empty());
            }
            break;
        }
        if !char_is_ascii_digit(v[k - 1]) {
            proof {
                assert(v@.subrange(0, k as int).last() == v@[k - 1]);
            }
            break;
        }
        proof {
            assert(v@.subrange(0, k as int).last() == v@[k - 1]);
            assert(v@.subrange(0, k as int).drop_last() =~= v@.subrange(0, k - 1));
        }
        k = k - 1;
    }
    k
}

/// The number written by a run of ASCII digits, most significant first.
pub open spec fn digits_val(s: Seq<char>) -> int
    decreases s.len(),
{
    if s.len() == 0 {
        0
    } else {
        digits_val(s.drop_last()) * 10 + ((s.last() as u32) - 48)
    }
}

pub proof fn lemma_digits_val_nonneg(s: Seq<char>)
    requires
        forall|j: int| 0 <= j < s.len() ==> is_ascii_digit_char(s[j]),
    ensures
        digits_val(s) >= 0,
    decreases s.len(),
{
    if s.len() > 0 {
        lemma_digits_val_nonneg(s.drop_last());
    }
}

proof fn lemma_digits_val_prefix(s: Seq<char>, i: int)
    requires
        0 <= i <= s.len(),
        forall|j: int| 0 <= j < s.len() ==> is_ascii_digit_char(s[j]),
    ensures
        digits_val(s.subrange(0, i)) <= digits_val(s),
    decreases s.len() - i,
{
    if i == s.len() {
        assert(s.subrange(0, i) =~= s);
    } else {
        lemma_digits_val_prefix(s, i + 1);
        assert(s.subrange(0, i + 1).drop_last() =~= s.subrange(0, i));
        lemma_digits_val_nonneg(s.subrange(0, i));
    }
}

/// Reads a digit run as a number; `None` when the number does not fit a
/// `u16`.
pub fn parse_u16(v: &Vec<char>) -> (r: Option<u16>)
    requires
        forall|j: int| 0 <= j < v@.len() ==> is_ascii_digit_char(v@[j]),
    ensures
        match r {
            Some(x) => x as int == digits_val(v@) && digits_val(v@) <= u16::MAX,
            None => digits_val(v@) > u16::MAX,
        },
{
    let n = v.len();
    let mut val: u32 = 0;
    let mut i: usize = 0;
    proof {
        assert(v@.subrange(0, 0) =~= Seq::<char>::empty());
    }
    while i < n
        invariant
            i <= n,
            n == v@.len(),
            forall|j: int| 0 <= j < v@.len() ==> is_ascii_digit_char(v@[j]),
            val as int == digits_val(v@.subrange(0, i as int)),
            val <= 65535,
        decreases n - i,
    {
        let c = v[i];
        let d = (c as u32) - 48;
        let nv = val * 10 + d;
        proof {
            assert(v@.subrange(0, i as int + 1).drop_last() =~= v@.subrange(0, i as int));
            assert(v@.subrange(0, i as int + 1).last() == v@[i as int]);
        }
        if nv > 65535 {
            proof {
                lemma_digits_val_prefix(v@, i as int + 1);
            }
            return None;
        }
        val = nv;
        i = i + 1;
    }
    proof {
        assert(v@.subrange(0, n as int) =~= v@);
    }
    Some(val as u16)
}

/// The decimal digits of a number, most significant first, no leading zeros.
pub open spec fn dec_spec(n: int) -> Seq<char>
    decreases n,
{
    if n < 10 {
        seq![digit_char(n)]
    } else {
        dec_spec(n / 10).push(digit_char(n % 10))
    }
}

pub open spec fn digit_char(d: int) -> char {
    (((d + 48) as u8) as char)
}

pub fn u16_to_chars(n: u16) -> (r: Vec<char>)
    ensures
        r@ == dec_spec(n as int),
    decreases n,
{
    if n < 10 {
        let c = ((48 + n as u8) as char);
        let mut r: Vec<char> = Vec::new();
        r.push(c);
        proof {
            assert(r@ =~= seq![digit_char(n as int)]);
        }
        r
    } else {
        let mut r = u16_to_chars(n / 10);
        let c = ((48 + (n % 10) as u8) as char);
        r.push(c);
        r
    }
}

} // verus!
