//! Character-level text helpers shared by every module: conversion between
//! `&str`, `String` and `Vec<char>`, Unicode whitespace and trimming,
//! substring search and decimal rendering of integers.
use vstd::prelude::*;

verus! {

/// Unicode `White_Space` property, exactly the set `char::is_whitespace` accepts.
pub open spec fn is_ws(c: char) -> bool {
    let u = c as u32;
    (0x09 <= u && u <= 0x0D) || u == 0x20 || u == 0x85 || u == 0xA0 || u == 0x1680
        || (0x2000 <= u && u <= 0x200A) || u == 0x2028 || u == 0x2029 || u == 0x202F
        || u == 0x205F || u == 0x3000
}

/// Executable whitespace test, same set as [`is_ws`].
pub fn char_is_ws(c: char) -> (r: bool)
    ensures
        r == is_ws(c),
{
    let u = c as u32;
    (0x09 <= u && u <= 0x0D) || u == 0x20 || u == 0x85 || u == 0xA0 || u == 0x1680
        || (0x2000 <= u && u <= 0x200A) || u == 0x2028 || u == 0x2029 || u == 0x202F
        || u == 0x205F || u == 0x3000
}

/// ASCII letter or digit (`char::is_ascii_alphanumeric`).
pub open spec fn is_ascii_alnum(c: char) -> bool {
    ('0' <= c && c <= '9') || ('a' <= c && c <= 'z') || ('A' <= c && c <= 'Z')
}

pub fn char_is_ascii_alnum(c: char) -> (r: bool)
    ensures
        r == is_ascii_alnum(c),
{
    ('0' <= c && c <= '9') || ('a' <= c && c <= 'z') || ('A' <= c && c <= 'Z')
}

/// `char::to_ascii_lowercase`: ASCII capitals map to small letters, all else unchanged.
pub open spec fn ascii_lower(c: char) -> char {
    if 'A' <= c && c <= 'Z' {
        ((c as u32) + 32) as char
    } else {
        c
    }
}

pub fn char_ascii_lower(c: char) -> (r: char)
    ensures
        r == ascii_lower(c),
{
    if 'A' <= c && c <= 'Z' {
        ((c as u8) + 32) as char
    } else {
        c
    }
}

/// Drops leading whitespace.
pub open spec fn ltrim(s: Seq<char>) -> Seq<char>
    decreases s.len(),
{
    if s.len() > 0 && is_ws(s[0]) {
        ltrim(s.drop_first())
    } else {
        s
    }
}

/// Drops trailing whitespace.
pub open spec fn rtrim(s: Seq<char>) -> Seq<char>
    decreases s.len(),
{
    if s.len() > 0 && is_ws(s.last()) {
        rtrim(s.drop_last())
    } else {
        s
    }
}

/// `str::trim`: both ends stripped of whitespace.
pub open spec fn trim(s: Seq<char>) -> Seq<char> {
    rtrim(ltrim(s))
}

/// The characters of a string slice, in order.
pub fn chars_of(s: &str) -> (v: Vec<char>)
    ensures
        v@ == s@,
{
    let mut v: Vec<char> = Vec::new();
    for c in it: s.chars()
        invariant
            v@ == it.seq().take(it.index() as int),
    {
        v.push(c);
    }
    v
}

/// Appends one character (`String::push`).
#[verifier::external_body]
pub fn push_char(s: &mut String, c: char)
    ensures
        final(s)@ == old(s)@.push(c),
{
    s.push(c);
}

/// A `String` holding exactly the given characters.
pub fn string_of(v: &[char]) -> (s: String)
    ensures
        s@ == v@,
{
    let mut s = String::new();
    let mut i: usize = 0;
    while i < v.len()
        invariant
            i <= v@.len(),
            s@ == v@.subrange(0, i as int),
        decreases v@.len() - i,
    {
        push_char(&mut s, v[i]);
        i = i + 1;
        assert(s@ =~= v@.subrange(0, i as int));
    }
    assert(v@.subrange(0, v@.len() as int) =~= v@);
    s
}

/// Appends a run of characters to a `String`.
pub fn push_chars(s: &mut String, v: &[char])
    ensures
        final(s)@ == old(s)@ + v@,
{
    let mut i: usize = 0;
    while i < v.len()
        invariant
            i <= v@.len(),
            s@ == old(s)@ + v@.subrange(0, i as int),
        decreases v@.len() - i,
    {
        push_char(s, v[i]);
        i = i + 1;
        assert(s@ =~= old(s)@ + v@.subrange(0, i as int));
    }
    assert(v@.subrange(0, v@.len() as int) =~= v@);
}

/// Appends a string slice to a `String`.
pub fn push_str(s: &mut String, t: &str)
    ensures
        final(s)@ == old(s)@ + t@,
{
    let v = chars_of(t);
    push_chars(s, v.as_slice());
}

/// The characters `v[lo..hi]` as a fresh vector.
pub fn slice_chars(v: &[char], lo: usize, hi: usize) -> (r: Vec<char>)
    requires
        lo <= hi <= v@.len(),
    ensures
        r@ == v@.subrange(lo as int, hi as int),
{
    let mut r: Vec<char> = Vec::new();
    let mut i = lo;
    while i < hi
        invariant
            lo <= i <= hi,
            hi <= v@.len(),
            r@ == v@.subrange(lo as int, i as int),
        decreases hi - i,
    {
        r.push(v[i]);
        i = i + 1;
        assert(r@ =~= v@.subrange(lo as int, i as int));
    }
    r
}

proof fn lemma_ltrim_skip(s: Seq<char>, i: int)
    requires
        0 <= i <= s.len(),
        forall|k: int| 0 <= k < i ==> is_ws(#[trigger] s[k]),
    ensures
        ltrim(s) == ltrim(s.subrange(i, s.len() as int)),
    decreases i,
{
    if i > 0 {
        assert(s.drop_first() =~= s.subrange(1, s.len() as int));
        lemma_ltrim_skip(s.drop_first(), i - 1);
        assert(s.drop_first().subrange(i - 1, s.drop_first().len() as int) =~= s.subrange(
            i,
            s.len() as int,
        ));
    } else {
        assert(s.subrange(0, s.len() as int) =~= s);
    }
}

proof fn lemma_rtrim_skip(s: Seq<char>, j: int)
    requires
        0 <= j <= s.len(),
        forall|k: int| j <= k < s.len() ==> is_ws(#[trigger] s[k]),
    ensures
        rtrim(s) == rtrim(s.subrange(0, j)),
    decreases s.len() - j,
{
    if j < s.len() {
        assert(s.drop_last() =~= s.subrange(0, s.len() - 1));
        lemma_rtrim_skip(s.drop_last(), j);
        assert(s.drop_last().subrange(0, j) =~= s.subrange(0, j));
    } else {
        assert(s.subrange(0, s.len() as int) =~= s);
    }
}

/// Bounds `(a, b)` of the trimmed part of `v[lo..hi]`.
pub fn trim_bounds(v: &[char], lo: usize, hi: usize) -> (r: (usize, usize))
    requires
        lo <= hi <= v@.len(),
    ensures
        lo <= r.0 <= r.1 <= hi,
        v@.subrange(r.0 as int, r.1 as int) == trim(v@.subrange(lo as int, hi as int)),
{
    let ghost s = v@.subrange(lo as int, hi as int);
    let mut a = lo;
    while a < hi && char_is_ws(v[a])
        invariant
            lo <= a <= hi,
            hi <= v@.len(),
            s == v@.subrange(lo as int, hi as int),
            forall|k: int| 0 <= k < a - lo ==> is_ws(#[trigger] s[k]),
        decreases hi - a,
    {
        a = a + 1;
    }
    proof {
        lemma_ltrim_skip(s, a - lo);
        assert(s.subrange(a - lo, s.len() as int) =~= v@.subrange(a as int, hi as int));
        let t = v@.subrange(a as int, hi as int);
        if a < hi {
            assert(t[0] == v@[a as int]);
            assert(ltrim(t) == t);
        } else {
            assert(ltrim(t) == t);
        }
    }
    let ghost t = v@.subrange(a as int, hi as int);
    let mut b = hi;
    while b > a && char_is_ws(v[b - 1])
        invariant
            lo <= a <= b <= hi,
            hi <= v@.len(),
            t == v@.subrange(a as int, hi as int),
            forall|k: int| b - a <= k < t.len() ==> is_ws(#[trigger] t[k]),
        decreases b - a,
    {
        b = b - 1;
    }
    proof {
        lemma_rtrim_skip(t, b - a);
        assert(t.subrange(0, b - a) =~= v@.subrange(a as int, b as int));
        let u = v@.subrange(a as int, b as int);
        if b > a {
            assert(u.last() == v@[b - 1]);
        }
        assert(rtrim(u) == u);
    }
    (a, b)
}

/// `str::trim` on a character vector.
pub fn trim_vec(v: &[char]) -> (r: Vec<char>)
    ensures
        r@ == trim(v@),
{
    let (a, b) = trim_bounds(v, 0, v.len());
    assert(v@.subrange(0, v@.len() as int) =~= v@);
    slice_chars(v, a, b)
}

/// `str::trim` returning an owned `String`.
pub fn trim_string(s: &str) -> (r: String)
    ensures
        r@ == trim(s@),
{
    let v = chars_of(s);
    let t = trim_vec(v.as_slice());
    string_of(t.as_slice())
}

/// Whether two character sequences are equal.
pub fn chars_eq(a: &[char], b: &[char]) -> (r: bool)
    ensures
        r == (a@ == b@),
{
    if a.len() != b.len() {
        return false;
    }
    let mut i: usize = 0;
    while i < a.len()
        invariant
            i <= a@.len(),
            a@.len() == b@.len(),
            forall|k: int| 0 <= k < i ==> a@[k] == b@[k],
        decreases a@.len() - i,
    {
        if a[i] != b[i] {
            return false;
        }
        i = i + 1;
    }
    assert(a@ =~= b@);
    true
}

/// Whether two string slices hold the same characters.
pub fn str_eq(a: &str, b: &str) -> (r: bool)
    ensures
        r == (a@ == b@),
{
    let va = chars_of(a);
    let vb = chars_of(b);
    chars_eq(va.as_slice(), vb.as_slice())
}

/// `pat` occurs in `text` starting at index `i`.
pub open spec fn occurs_at(text: Seq<char>, pat: Seq<char>, i: int) -> bool {
    0 <= i && i + pat.len() <= text.len() && text.subrange(i, i + pat.len()) == pat
}

/// `text` contains `pat` as a contiguous run.
pub open spec fn contains_seq(text: Seq<char>, pat: Seq<char>) -> bool {
    exists|i: int| occurs_at(text, pat, i)
}

/// Whether `pat` occurs in `text` at index `i`.
pub fn occurs_at_exec(text: &[char], pat: &[char], i: usize) -> (r: bool)
    ensures
        r == occurs_at(text@, pat@, i as int),
{
    if i > text.len() || pat.len() > text.len() - i {
        return false;
    }
    let mut k: usize = 0;
    while k < pat.len()
        invariant
            k <= pat@.len(),
            i + pat@.len() <= text@.len(),
            text@.len() == text.len(),
            forall|m: int| 0 <= m < k ==> text@[i + m] == pat@[m],
        decreases pat@.len() - k,
    {
        if text[i + k] != pat[k] {
            assert(text@.subrange(i as int, i + pat@.len())[k as int] != pat@[k as int]);
            return false;
        }
        k = k + 1;
    }
    assert(text@.subrange(i as int, i + pat@.len()) =~= pat@);
    true
}

/// First index at which `pat` occurs in `text` at or after `from` (`str::find`).
pub fn find_from(text: &[char], pat: &[char], from: usize) -> (r: Option<usize>)
    requires
        from <= text@.len(),
    ensures
        match r {
            Some(i) => from <= i && occurs_at(text@, pat@, i as int) && forall|j: int|
                from <= j < i ==> !occurs_at(text@, pat@, j),
            None => forall|j: int| from <= j ==> !occurs_at(text@, pat@, j),
        },
{
    let mut i = from;
    while i < text.len()
        invariant
            from <= i <= text@.len(),
            forall|j: int| from <= j < i ==> !occurs_at(text@, pat@, j),
        decreases text@.len() - i,
    {
        if occurs_at_exec(text, pat, i) {
            return Some(i);
        }
        i = i + 1;
    }
    if occurs_at_exec(text, pat, i) {
        return Some(i);
    }
    None
}

/// Whether `pat` occurs anywhere in `text` (`str::contains`).
pub fn contains_chars(text: &[char], pat: &[char]) -> (r: bool)
    ensures
        r == contains_seq(text@, pat@),
{
    match find_from(text, pat, 0) {
        Some(i) => true,
        None => {
            assert forall|j: int| !occurs_at(text@, pat@, j) by {
                if j < 0 {
                }
            }
            false
        },
    }
}

/// Whether string `text` contains string `pat`.
pub fn str_contains(text: &str, pat: &str) -> (r: bool)
    ensures
        r == contains_seq(text@, pat@),
{
    let t = chars_of(text);
    let p = chars_of(pat);
    contains_chars(t.as_slice(), p.as_slice())
}

/// The decimal digit character for `d < 10`.
pub open spec fn digit_char(d: nat) -> char {
    ((d + 48) as u32) as char
}

/// Decimal rendering of a natural number, no leading zeros (`"0"` for zero).
pub open spec fn dec(n: nat) -> Seq<char>
    decreases n,
{
    if n < 10 {
        seq![digit_char(n)]
    } else {
        dec(n / 10).push(digit_char(n % 10))
    }
}

/// Decimal rendering of `n` (same text as `format!("{n}")`).
pub fn u64_dec(n: u64) -> (r: Vec<char>)
    ensures
        r@ == dec(n as nat),
    decreases n,
{
    if n < 10 {
        let c = ((n as u8) + 48) as char;
        vec![c]
    } else {
        let mut r = u64_dec(n / 10);
        let c = (((n % 10) as u8) + 48) as char;
        r.push(c);
        r
    }
}

/// Appends the decimal rendering of `n`.
pub fn push_dec(s: &mut String, n: u64)
    ensures
        final(s)@ == old(s)@ + dec(n as nat),
{
    let d = u64_dec(n);
    push_chars(s, d.as_slice());
}

} // verus!

verus! {

/// An owned copy of a string slice.
pub fn lit(s: &str) -> (r: String)
    ensures
        r@ == s@,
{
    String::from_str(s)
}

} // verus!

verus! {

/// Index of the first occurrence of `c` in `s`, or `s.len()` when absent.
pub open spec fn index_of(s: Seq<char>, c: char) -> int
    decreases s.len(),
{
    if s.len() == 0 {
        0
    } else if s[0] == c {
        0
    } else {
        1 + index_of(s.drop_first(), c)
    }
}

pub proof fn lemma_index_of(s: Seq<char>, c: char)
    ensures
        0 <= index_of(s, c) <= s.len(),
        index_of(s, c) < s.len() ==> s[index_of(s, c)] == c,
        forall|k: int| 0 <= k < index_of(s, c) ==> s[k] != c,
    decreases s.len(),
{
    if s.len() > 0 && s[0] != c {
        lemma_index_of(s.drop_first(), c);
        assert forall|k: int| 0 <= k < index_of(s, c) implies s[k] != c by {
            if k > 0 {
                assert(s[k] == s.drop_first()[k - 1]);
            }
        }
    }
}

pub proof fn lemma_index_of_at(s: Seq<char>, c: char, p: int)
    requires
        0 <= p <= s.len(),
        p < s.len() ==> s[p] == c,
        forall|k: int| 0 <= k < p ==> s[k] != c,
    ensures
        index_of(s, c) == p,
    decreases s.len(),
{
    if s.len() > 0 && s[0] != c {
        assert forall|k: int| 0 <= k < p - 1 implies s.drop_first()[k] != c by {
            assert(s.drop_first()[k] == s[k + 1]);
        }
        if p - 1 < s.drop_first().len() {
            assert(s.drop_first()[p - 1] == s[p]);
        }
        lemma_index_of_at(s.drop_first(), c, p - 1);
    }
}

/// A line as `str::lines` yields it: one `\r` before the `\n` removed.
pub open spec fn line_body(s: Seq<char>) -> Seq<char> {
    if s.len() > 0 && s.last() == '\r' {
        s.drop_last()
    } else {
        s
    }
}

/// `str::lines`: pieces between `\n`s, a `\r` before a `\n` dropped, no
/// empty last piece after a final `\n`.
pub open spec fn lines(s: Seq<char>) -> Seq<Seq<char>>
    decreases s.len(),
{
    if s.len() == 0 {
        seq![]
    } else if index_of(s, '\n') >= s.len() || index_of(s, '\n') < 0 {
        seq![s]
    } else {
        seq![line_body(s.subrange(0, index_of(s, '\n')))] + lines(
            s.subrange(index_of(s, '\n') + 1, s.len() as int),
        )
    }
}

/// `str::lines` as a list of character vectors.
pub fn lines_of(v: &[char]) -> (r: Vec<Vec<char>>)
    ensures
        r@.map_values(|l: Vec<char>| l@) == lines(v@),
{
    let mut out: Vec<Vec<char>> = Vec::new();
    let mut start: usize = 0;
    let mut i: usize = 0;
    assert(v@.subrange(0, v@.len() as int) =~= v@);
    assert(out@.map_values(|l: Vec<char>| l@) + lines(v@) =~= lines(v@));
    while i < v.len()
        invariant
            start <= i <= v@.len(),
            forall|m: int| start <= m < i ==> v@[m] != '\n',
            lines(v@) == out@.map_values(|l: Vec<char>| l@) + lines(v@.subrange(start as int, v@.len() as int)),
        decreases v@.len() - i,
    {
        if v[i] == '\n' {
            let ghost tail = v@.subrange(start as int, v@.len() as int);
            proof {
                assert forall|m: int| 0 <= m < i - start implies tail[m] != '\n' by {
                    assert(tail[m] == v@[start + m]);
                }
                assert(tail[i - start] == '\n');
                lemma_index_of_at(tail, '\n', i - start);
                assert(tail.subrange(0, i - start) =~= v@.subrange(start as int, i as int));
                assert(tail.subrange(i - start + 1, tail.len() as int) =~= v@.subrange(i + 1, v@.len() as int));
            }
            let mut e = i;
            if e > start && v[e - 1] == '\r' {
                e = e - 1;
            }
            let line = slice_chars(v, start, e);
            assert(line@ =~= line_body(v@.subrange(start as int, i as int)));
            let ghost before = out@;
            out.push(line);
            assert(out@.map_values(|l: Vec<char>| l@) =~= before.map_values(|l: Vec<char>| l@).push(line@));
            start = i + 1;
        }
        i = i + 1;
    }
    let ghost tail = v@.subrange(start as int, v@.len() as int);
    proof {
        assert forall|m: int| 0 <= m < tail.len() implies tail[m] != '\n' by {
            assert(tail[m] == v@[start + m]);
        }
        lemma_index_of_at(tail, '\n', tail.len() as int);
    }
    if start < v.len() {
        let last = slice_chars(v, start, v.len());
        let ghost before = out@;
        out.push(last);
        assert(out@.map_values(|l: Vec<char>| l@) =~= before.map_values(|l: Vec<char>| l@) + lines(tail));
    } else {
        assert(out@.map_values(|l: Vec<char>| l@) + lines(tail) =~= out@.map_values(|l: Vec<char>| l@));
    }
    out
}

/// `p` is a prefix of `s`.
pub open spec fn starts_with(s: Seq<char>, p: Seq<char>) -> bool {
    p.len() <= s.len() && s.subrange(0, p.len() as int) == p
}

pub fn starts_with_exec(s: &[char], p: &[char]) -> (r: bool)
    ensures
        r == starts_with(s@, p@),
{
    if p.len() > s.len() {
        return false;
    }
    occurs_at_exec(s, p, 0)
}

/// At most `max` characters; a longer text is cut to `max` and gets `…`.
pub open spec fn truncated(s: Seq<char>, max: nat) -> Seq<char> {
    if s.len() <= max {
        s
    } else {
        s.subrange(0, max as int).push('…')
    }
}

pub fn truncate_vec(v: &[char], max: usize) -> (r: Vec<char>)
    ensures
        r@ == truncated(v@, max as nat),
{
    if v.len() <= max {
        slice_chars(v, 0, v.len())
    } else {
        let mut r = slice_chars(v, 0, max);
        r.push('…');
        r
    }
}

} // verus!

verus! {

/// Whether `c` is one of `set`.
pub fn char_in(set: &[char], c: char) -> (r: bool)
    ensures
        r == set@.contains(c),
{
    let mut i: usize = 0;
    while i < set.len()
        invariant
            i <= set@.len(),
            forall|k: int| 0 <= k < i ==> set@[k] != c,
        decreases set@.len() - i,
    {
        if set[i] == c {
            assert(set@[i as int] == c);
            return true;
        }
        i = i + 1;
    }
    false
}

/// Appends a run of characters to a character vector.
pub fn extend_chars(out: &mut Vec<char>, s: &[char])
    ensures
        final(out)@ == old(out)@ + s@,
{
    let mut i: usize = 0;
    while i < s.len()
        invariant
            i <= s@.len(),
            out@ == old(out)@ + s@.subrange(0, i as int),
        decreases s@.len() - i,
    {
        out.push(s[i]);
        i = i + 1;
        assert(out@ =~= old(out)@ + s@.subrange(0, i as int));
    }
    assert(s@.subrange(0, s@.len() as int) =~= s@);
}

/// `str::split` on any character of `seps`: the pieces between separators,
/// empty pieces included (an empty text gives one empty piece).
pub open spec fn split_by(s: Seq<char>, seps: Seq<char>) -> Seq<Seq<char>>
    decreases s.len(),
{
    if s.len() == 0 {
        seq![Seq::<char>::empty()]
    } else {
        let p = split_by(s.drop_last(), seps);
        if seps.contains(s.last()) {
            p.push(Seq::<char>::empty())
        } else {
            p.update(p.len() - 1, p.last().push(s.last()))
        }
    }
}

pub proof fn lemma_split_by_len(s: Seq<char>, seps: Seq<char>)
    ensures
        split_by(s, seps).len() >= 1,
    decreases s.len(),
{
    if s.len() > 0 {
        lemma_split_by_len(s.drop_last(), seps);
    }
}

/// The pieces of `v` between characters of `seps`.
pub fn split_on(v: &[char], seps: &[char]) -> (r: Vec<Vec<char>>)
    ensures
        r@.map_values(|p: Vec<char>| p@) == split_by(v@, seps@),
{
    let mut done: Vec<Vec<char>> = Vec::new();
    let mut cur: Vec<char> = Vec::new();
    let mut i: usize = 0;
    assert(v@.subrange(0, 0) =~= Seq::<char>::empty());
    assert(done@.map_values(|p: Vec<char>| p@).push(cur@) =~= split_by(v@.subrange(0, 0), seps@));
    while i < v.len()
        invariant
            i <= v@.len(),
            done@.map_values(|p: Vec<char>| p@).push(cur@) == split_by(v@.subrange(0, i as int), seps@),
        decreases v@.len() - i,
    {
        let c = v[i];
        let ghost pre = v@.subrange(0, i as int);
        let ghost next = v@.subrange(0, i + 1);
        let ghost before = done@.map_values(|p: Vec<char>| p@);
        proof {
            assert(next.drop_last() =~= pre);
            assert(next.last() == c);
            lemma_split_by_len(pre, seps@);
        }
        if char_in(seps, c) {
            let piece = cur;
            done.push(piece);
            cur = Vec::new();
            assert(done@.map_values(|p: Vec<char>| p@) =~= before.push(piece@));
            assert(done@.map_values(|p: Vec<char>| p@).push(cur@) =~= split_by(next, seps@));
        } else {
            let ghost old_cur = cur@;
            cur.push(c);
            assert(before.push(cur@) =~= before.push(old_cur).update(before.len() as int, old_cur.push(c)));
        }
        i = i + 1;
    }
    assert(v@.subrange(0, v@.len() as int) =~= v@);
    let ghost before = done@.map_values(|p: Vec<char>| p@);
    let last = cur;
    done.push(last);
    assert(done@.map_values(|p: Vec<char>| p@) =~= before.push(last@));
    done
}

/// Index of the first occurrence of `pat` in `s` at or after `j`, or -1.
pub open spec fn first_occ_from(s: Seq<char>, pat: Seq<char>, j: int) -> int
    decreases s.len() + 1 - j,
{
    if j < 0 || j > s.len() {
        -1
    } else if occurs_at(s, pat, j) {
        j
    } else {
        first_occ_from(s, pat, j + 1)
    }
}

/// `str::split_once`: the text before and after the first occurrence of `pat`.
pub open spec fn split_once(s: Seq<char>, pat: Seq<char>) -> Option<(Seq<char>, Seq<char>)> {
    let i = first_occ_from(s, pat, 0);
    if i < 0 {
        None
    } else {
        Some((s.subrange(0, i), s.subrange(i + pat.len(), s.len() as int)))
    }
}

proof fn lemma_first_occ_found(s: Seq<char>, pat: Seq<char>, j: int, i: int)
    requires
        0 <= j <= i,
        occurs_at(s, pat, i),
        forall|k: int| j <= k < i ==> !occurs_at(s, pat, k),
    ensures
        first_occ_from(s, pat, j) == i,
    decreases i - j,
{
    if j < i {
        lemma_first_occ_found(s, pat, j + 1, i);
    }
}

proof fn lemma_first_occ_none(s: Seq<char>, pat: Seq<char>, j: int)
    requires
        0 <= j,
        forall|k: int| j <= k ==> !occurs_at(s, pat, k),
    ensures
        first_occ_from(s, pat, j) == -1,
    decreases s.len() + 1 - j,
{
    if j <= s.len() {
        lemma_first_occ_none(s, pat, j + 1);
    }
}

/// `str::split_once` on character vectors.
pub fn split_once_chars(s: &[char], pat: &[char]) -> (r: Option<(Vec<char>, Vec<char>)>)
    ensures
        match r {
            Some((a, b)) => split_once(s@, pat@) == Some((a@, b@)),
            None => split_once(s@, pat@) is None,
        },
{
    match find_from(s, pat, 0) {
        Some(i) => {
            proof {
                lemma_first_occ_found(s@, pat@, 0, i as int);
                assert(occurs_at(s@, pat@, i as int));
                assert(i + pat.len() <= s.len());
            }
            let a = slice_chars(s, 0, i);
            let b = slice_chars(s, i + pat.len(), s.len());
            Some((a, b))
        },
        None => {
            proof {
                lemma_first_occ_none(s@, pat@, 0);
            }
            None
        },
    }
}

/// `str::replace`: every non-overlapping occurrence of `pat`, taken from the
/// left, replaced by `to`. An empty `pat` matches before every character and
/// at the end.
pub open spec fn replace_all(s: Seq<char>, pat: Seq<char>, to: Seq<char>) -> Seq<char>
    decreases s.len(),
{
    if s.len() == 0 {
        if pat.len() == 0 {
            to
        } else {
            s
        }
    } else if pat.len() == 0 {
        to + seq![s[0]] + replace_all(s.subrange(1, s.len() as int), pat, to)
    } else if starts_with(s, pat) {
        to + replace_all(s.subrange(pat.len() as int, s.len() as int), pat, to)
    } else {
        seq![s[0]] + replace_all(s.subrange(1, s.len() as int), pat, to)
    }
}

/// `str::replace` on character vectors.
pub fn replace_chars(text: &[char], pat: &[char], to: &[char]) -> (r: Vec<char>)
    ensures
        r@ == replace_all(text@, pat@, to@),
{
    let mut out: Vec<char> = Vec::new();
    let mut i: usize = 0;
    assert(text@.subrange(0, text@.len() as int) =~= text@);
    assert(out@ + replace_all(text@, pat@, to@) =~= replace_all(text@, pat@, to@));
    while i < text.len()
        invariant
            i <= text@.len(),
            out@ + replace_all(text@.subrange(i as int, text@.len() as int), pat@, to@)
                == replace_all(text@, pat@, to@),
        decreases text@.len() - i,
    {
        let ghost rest = text@.subrange(i as int, text@.len() as int);
        let ghost before = out@;
        if pat.len() == 0 {
            extend_chars(&mut out, to);
            out.push(text[i]);
            proof {
                assert(rest[0] == text@[i as int]);
                assert(rest.subrange(1, rest.len() as int) =~= text@.subrange(i + 1, text@.len() as int));
                assert(out@ =~= before + (to@ + seq![rest[0]]));
            }
            i = i + 1;
        } else if occurs_at_exec(text, pat, i) {
            extend_chars(&mut out, to);
            proof {
                assert(rest.subrange(0, pat@.len() as int) =~= text@.subrange(i as int, i + pat@.len()));
                assert(starts_with(rest, pat@));
                assert(rest.subrange(pat@.len() as int, rest.len() as int) =~= text@.subrange(i + pat@.len(), text@.len() as int));
            }
            i = i + pat.len();
        } else {
            out.push(text[i]);
            proof {
                if starts_with(rest, pat@) {
                    assert(text@.subrange(i as int, i + pat@.len()) =~= rest.subrange(0, pat@.len() as int));
                }
                assert(rest[0] == text@[i as int]);
                assert(rest.subrange(1, rest.len() as int) =~= text@.subrange(i + 1, text@.len() as int));
                assert(out@ =~= before + seq![rest[0]]);
            }
            i = i + 1;
        }
    }
    let ghost before = out@;
    assert(text@.subrange(i as int, text@.len() as int) =~= Seq::<char>::empty());
    if pat.len() == 0 {
        extend_chars(&mut out, to);
    } else {
        assert(before + Seq::<char>::empty() =~= before);
    }
    out
}

} // verus!

verus! {

/// `str::trim_end` on a character vector.
pub fn rtrim_vec(v: &[char]) -> (r: Vec<char>)
    ensures
        r@ == rtrim(v@),
{
    let mut b = v.len();
    while b > 0 && char_is_ws(v[b - 1])
        invariant
            b <= v@.len(),
            forall|k: int| b <= k < v@.len() ==> is_ws(#[trigger] v@[k]),
        decreases b,
    {
        b = b - 1;
    }
    proof {
        lemma_rtrim_skip(v@, b as int);
        let u = v@.subrange(0, b as int);
        if b > 0 {
            assert(u.last() == v@[b - 1]);
        }
        assert(rtrim(u) == u);
    }
    slice_chars(v, 0, b)
}

/// First occurrence of `pat` in `text` at or after `from`, as
/// `first_occ_from` states it.
pub fn find_occ(text: &[char], pat: &[char], from: usize) -> (r: Option<usize>)
    requires
        from <= text@.len(),
    ensures
        match r {
            Some(i) => first_occ_from(text@, pat@, from as int) == i && occurs_at(text@, pat@, i as int),
            None => first_occ_from(text@, pat@, from as int) == -1,
        },
{
    match find_from(text, pat, from) {
        Some(i) => {
            proof {
                lemma_first_occ_found(text@, pat@, from as int, i as int);
            }
            Some(i)
        },
        None => {
            proof {
                lemma_first_occ_none(text@, pat@, from as int);
            }
            None
        },
    }
}

/// `s` without its trailing run of `c` (`str::trim_end_matches` with a char).
pub open spec fn strip_end(s: Seq<char>, c: char) -> Seq<char>
    decreases s.len(),
{
    if s.len() > 0 && s.last() == c {
        strip_end(s.drop_last(), c)
    } else {
        s
    }
}

proof fn lemma_strip_end_skip(s: Seq<char>, c: char, j: int)
    requires
        0 <= j <= s.len(),
        forall|k: int| j <= k < s.len() ==> #[trigger] s[k] == c,
    ensures
        strip_end(s, c) == strip_end(s.subrange(0, j), c),
    decreases s.len() - j,
{
    if j < s.len() {
        assert(s.drop_last() =~= s.subrange(0, s.len() - 1));
        lemma_strip_end_skip(s.drop_last(), c, j);
        assert(s.drop_last().subrange(0, j) =~= s.subrange(0, j));
    } else {
        assert(s.subrange(0, s.len() as int) =~= s);
    }
}

pub fn strip_end_vec(v: &[char], c: char) -> (r: Vec<char>)
    ensures
        r@ == strip_end(v@, c),
{
    let mut b = v.len();
    while b > 0 && v[b - 1] == c
        invariant
            b <= v@.len(),
            forall|k: int| b <= k < v@.len() ==> #[trigger] v@[k] == c,
        decreases b,
    {
        b = b - 1;
    }
    proof {
        lemma_strip_end_skip(v@, c, b as int);
        let u = v@.subrange(0, b as int);
        if b > 0 {
            assert(u.last() == v@[b - 1]);
        }
        assert(strip_end(u, c) == u);
    }
    slice_chars(v, 0, b)
}

} // verus!

verus! {

/// Count of non-whitespace characters.
pub open spec fn nonws_count(s: Seq<char>) -> nat
    decreases s.len(),
{
    if s.len() == 0 {
        0
    } else {
        nonws_count(s.drop_last()) + if is_ws(s.last()) {
            0nat
        } else {
            1nat
        }
    }
}

pub proof fn lemma_nonws_prefix(s: Seq<char>, j: int)
    requires
        0 <= j <= s.len(),
    ensures
        nonws_count(s.subrange(0, j)) <= nonws_count(s),
    decreases s.len() - j,
{
    if j < s.len() {
        lemma_nonws_prefix(s.drop_last(), j);
        assert(s.drop_last().subrange(0, j) =~= s.subrange(0, j));
    } else {
        assert(s.subrange(0, j) =~= s);
    }
}

} // verus!

verus! {

proof fn lemma_ltrim_suffix(s: Seq<char>)
    ensures
        ltrim(s).len() <= s.len(),
        ltrim(s) == s.subrange(s.len() - ltrim(s).len(), s.len() as int),
        ltrim(s).len() > 0 ==> !is_ws(ltrim(s)[0]),
    decreases s.len(),
{
    if s.len() > 0 && is_ws(s[0]) {
        lemma_ltrim_suffix(s.drop_first());
        assert(s.drop_first().subrange(
            s.drop_first().len() - ltrim(s).len(),
            s.drop_first().len() as int,
        ) =~= s.subrange(s.len() - ltrim(s).len(), s.len() as int));
    } else {
        assert(s.subrange(0, s.len() as int) =~= s);
    }
}

proof fn lemma_rtrim_prefix(s: Seq<char>)
    ensures
        rtrim(s).len() <= s.len(),
        rtrim(s) == s.subrange(0, rtrim(s).len() as int),
        rtrim(s).len() > 0 ==> !is_ws(rtrim(s).last()),
    decreases s.len(),
{
    if s.len() > 0 && is_ws(s.last()) {
        lemma_rtrim_prefix(s.drop_last());
        assert(s.drop_last().subrange(0, rtrim(s).len() as int) =~= s.subrange(0, rtrim(s).len() as int));
    } else {
        assert(s.subrange(0, s.len() as int) =~= s);
    }
}

/// A trimmed text starts and ends with a non-whitespace character.
pub proof fn lemma_trim_ends(s: Seq<char>)
    ensures
        trim(s).len() > 0 ==> !is_ws(trim(s)[0]) && !is_ws(trim(s).last()),
{
    let l = ltrim(s);
    lemma_ltrim_suffix(s);
    lemma_rtrim_prefix(l);
    if trim(s).len() > 0 {
        assert(trim(s)[0] == l[0]);
    }
}

} // verus!

verus! {

/// `str::strip_prefix`.
pub open spec fn strip_prefix(s: Seq<char>, p: Seq<char>) -> Option<Seq<char>> {
    if starts_with(s, p) {
        Some(s.subrange(p.len() as int, s.len() as int))
    } else {
        None
    }
}

/// `p` is a suffix of `s`.
pub open spec fn ends_with(s: Seq<char>, p: Seq<char>) -> bool {
    p.len() <= s.len() && s.subrange(s.len() - p.len(), s.len() as int) == p
}

/// `str::strip_suffix`.
pub open spec fn strip_suffix(s: Seq<char>, p: Seq<char>) -> Option<Seq<char>> {
    if ends_with(s, p) {
        Some(s.subrange(0, s.len() - p.len()))
    } else {
        None
    }
}

pub fn strip_prefix_chars(s: &[char], p: &[char]) -> (r: Option<Vec<char>>)
    ensures
        match r {
            Some(v) => strip_prefix(s@, p@) == Some(v@),
            None => strip_prefix(s@, p@) is None,
        },
{
    if starts_with_exec(s, p) {
        Some(slice_chars(s, p.len(), s.len()))
    } else {
        None
    }
}

pub fn strip_suffix_chars(s: &[char], p: &[char]) -> (r: Option<Vec<char>>)
    ensures
        match r {
            Some(v) => strip_suffix(s@, p@) == Some(v@),
            None => strip_suffix(s@, p@) is None,
        },
{
    if p.len() > s.len() {
        return None;
    }
    let at = s.len() - p.len();
    if occurs_at_exec(s, p, at) {
        Some(slice_chars(s, 0, at))
    } else {
        None
    }
}

/// Index of the last occurrence of `c` in `s`, or -1.
pub open spec fn last_index_of(s: Seq<char>, c: char) -> int
    decreases s.len(),
{
    if s.len() == 0 {
        -1
    } else if s.last() == c {
        s.len() - 1
    } else {
        last_index_of(s.drop_last(), c)
    }
}

pub proof fn lemma_last_index_of(s: Seq<char>, c: char)
    ensures
        -1 <= last_index_of(s, c) < s.len(),
        last_index_of(s, c) >= 0 ==> s[last_index_of(s, c)] == c,
    decreases s.len(),
{
    if s.len() > 0 && s.last() != c {
        lemma_last_index_of(s.drop_last(), c);
    }
}

/// `str::find` with a character: the first index, if any.
pub fn find_char(s: &[char], c: char) -> (r: Option<usize>)
    ensures
        match r {
            Some(i) => i == index_of(s@, c) && i < s@.len(),
            None => index_of(s@, c) == s@.len(),
        },
{
    proof {
        lemma_index_of(s@, c);
    }
    let mut i: usize = 0;
    while i < s.len()
        invariant
            i <= s@.len(),
            forall|k: int| 0 <= k < i ==> s@[k] != c,
        decreases s@.len() - i,
    {
        if s[i] == c {
            proof {
                lemma_index_of_at(s@, c, i as int);
            }
            return Some(i);
        }
        i = i + 1;
    }
    proof {
        lemma_index_of_at(s@, c, s@.len() as int);
    }
    None
}

/// `str::rfind` with a character: the last index, if any.
pub fn rfind_char(s: &[char], c: char) -> (r: Option<usize>)
    ensures
        match r {
            Some(i) => i == last_index_of(s@, c),
            None => last_index_of(s@, c) == -1,
        },
{
    let mut b = s.len();
    assert(s@.subrange(0, s@.len() as int) =~= s@);
    while b > 0 && s[b - 1] != c
        invariant
            b <= s@.len(),
            last_index_of(s@, c) == last_index_of(s@.subrange(0, b as int), c),
        decreases b,
    {
        proof {
            let p = s@.subrange(0, b as int);
            assert(p.drop_last() =~= s@.subrange(0, b - 1));
        }
        b = b - 1;
    }
    proof {
        assert(s@.subrange(0, s@.len() as int) =~= s@);
    }
    if b == 0 {
        None
    } else {
        proof {
            let p = s@.subrange(0, b as int);
            assert(p.last() == s@[b - 1]);
        }
        Some(b - 1)
    }
}

} // verus!

verus! {

/// Trimming never lengthens a text.
pub proof fn lemma_trim_len(s: Seq<char>)
    ensures
        trim(s).len() <= s.len(),
{
    lemma_ltrim_suffix(s);
    lemma_rtrim_prefix(ltrim(s));
}

} // verus!

verus! {

/// Parts joined with `sep` between neighbours (`[T]::join`).
pub open spec fn join(parts: Seq<Seq<char>>, sep: Seq<char>) -> Seq<char>
    decreases parts.len(),
{
    if parts.len() == 0 {
        seq![]
    } else if parts.len() == 1 {
        parts[0]
    } else {
        join(parts.drop_last(), sep) + sep + parts.last()
    }
}

/// Views of a list of strings.
pub open spec fn views(ss: Seq<String>) -> Seq<Seq<char>> {
    ss.map_values(|s: String| s@)
}

/// Appends the parts joined with `sep`.
pub fn push_join(out: &mut String, parts: &[String], sep: &str)
    ensures
        final(out)@ == old(out)@ + join(views(parts@), sep@),
{
    let ghost ps = views(parts@);
    let mut i: usize = 0;
    assert(ps.subrange(0, 0) =~= Seq::<Seq<char>>::empty());
    assert(old(out)@ + Seq::<char>::empty() =~= old(out)@);
    while i < parts.len()
        invariant
            i <= parts@.len(),
            ps == views(parts@),
            out@ == old(out)@ + join(ps.subrange(0, i as int), sep@),
        decreases parts@.len() - i,
    {
        let ghost before = out@;
        if i > 0 {
            push_str(out, sep);
        }
        push_str(out, parts[i].as_str());
        proof {
            let sub = ps.subrange(0, i + 1);
            assert(sub.drop_last() =~= ps.subrange(0, i as int));
            assert(sub.last() == parts@[i as int]@);
            if i == 0 {
                assert(join(sub, sep@) == sub[0]);
                assert(out@ =~= old(out)@ + join(sub, sep@));
            } else {
                assert(join(sub, sep@) == join(sub.drop_last(), sep@) + sep@ + sub.last());
                assert(out@ =~= old(out)@ + join(sub, sep@));
            }
        }
        i = i + 1;
    }
    assert(ps.subrange(0, parts@.len() as int) =~= ps);
}

/// A word in corner brackets: `「w」`.
pub open spec fn quoted(w: Seq<char>) -> Seq<char> {
    "「"@ + w + "」"@
}

/// Each word in corner brackets, order kept.
pub fn quote_all(ws: &[String]) -> (r: Vec<String>)
    ensures
        views(r@) == views(ws@).map_values(|w: Seq<char>| quoted(w)),
{
    let mut r: Vec<String> = Vec::new();
    let mut i: usize = 0;
    while i < ws.len()
        invariant
            i <= ws@.len(),
            views(r@) == views(ws@).subrange(0, i as int).map_values(|w: Seq<char>| quoted(w)),
        decreases ws@.len() - i,
    {
        let mut q = String::new();
        push_str(&mut q, "「");
        push_str(&mut q, ws[i].as_str());
        push_str(&mut q, "」");
        let ghost before = r@;
        r.push(q);
        proof {
            assert(views(ws@).subrange(0, i + 1) =~= views(ws@).subrange(0, i as int).push(ws@[i as int]@));
            assert(views(r@) =~= views(before).push(q@));
            assert(views(r@) =~= views(ws@).subrange(0, i + 1).map_values(|w: Seq<char>| quoted(w)));
        }
        i = i + 1;
    }
    assert(views(ws@).subrange(0, ws@.len() as int) =~= views(ws@));
    r
}

} // verus!

verus! {

/// A copy of a list of strings.
pub fn clone_strings(v: &[String]) -> (r: Vec<String>)
    ensures
        r@ == v@,
{
    let mut r: Vec<String> = Vec::new();
    let mut i: usize = 0;
    while i < v.len()
        invariant
            i <= v@.len(),
            r@ == v@.subrange(0, i as int),
        decreases v@.len() - i,
    {
        r.push(v[i].clone());
        assert(r@ =~= v@.subrange(0, i + 1));
        i = i + 1;
    }
    assert(v@.subrange(0, v@.len() as int) =~= v@);
    r
}

} // verus!
