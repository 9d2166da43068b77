//! Sentence language detection from the share of CJK characters among CJK
//! characters and ASCII letters (digits, punctuation and spaces do not count).
use vstd::prelude::*;
use crate::rules::Sentence;
use crate::text::chars_of;

verus! {

/// Language of a sentence or of a whole transcript.
#[derive(Debug, Clone, Copy, PartialEq, Eq, Structural)]
pub enum SentenceLang {
    /// CJK characters make up at least 30% of the letters.
    Chinese,
    /// There are letters, under 30% of them CJK.
    English,
    /// No letters at all.
    Neutral,
}

/// CJK unified ideographs, extension A and the compatibility block.
pub open spec fn is_cjk(c: char) -> bool {
    ('\u{4E00}' <= c && c <= '\u{9FFF}') || ('\u{3400}' <= c && c <= '\u{4DBF}') || ('\u{F900}' <= c
        && c <= '\u{FAFF}')
}

pub open spec fn is_ascii_letter(c: char) -> bool {
    ('a' <= c && c <= 'z') || ('A' <= c && c <= 'Z')
}

fn char_is_cjk(c: char) -> (r: bool)
    ensures
        r == is_cjk(c),
{
    ('\u{4E00}' <= c && c <= '\u{9FFF}') || ('\u{3400}' <= c && c <= '\u{4DBF}') || ('\u{F900}' <= c
        && c <= '\u{FAFF}')
}

fn char_is_ascii_letter(c: char) -> (r: bool)
    ensures
        r == is_ascii_letter(c),
{
    ('a' <= c && c <= 'z') || ('A' <= c && c <= 'Z')
}

/// (CJK characters, ASCII letters) of a text.
pub open spec fn script_counts(s: Seq<char>) -> (nat, nat)
    decreases s.len(),
{
    if s.len() == 0 {
        (0, 0)
    } else {
        let (c, l) = script_counts(s.drop_last());
        if is_cjk(s.last()) {
            (c + 1, l)
        } else if is_ascii_letter(s.last()) {
            (c, l + 1)
        } else {
            (c, l)
        }
    }
}

proof fn lemma_script_counts_bound(s: Seq<char>)
    ensures
        script_counts(s).0 + script_counts(s).1 <= s.len(),
    decreases s.len(),
{
    if s.len() > 0 {
        lemma_script_counts_bound(s.drop_last());
    }
}

/// Counts the CJK characters and ASCII letters of a text.
pub fn count_scripts(text: &str) -> (r: (usize, usize))
    ensures
        r.0 == script_counts(text@).0,
        r.1 == script_counts(text@).1,
        r.0 + r.1 <= usize::MAX,
{
    let v = chars_of(text);
    let mut cjk: usize = 0;
    let mut latin: usize = 0;
    let mut i: usize = 0;
    assert(v@.subrange(0, 0) =~= Seq::<char>::empty());
    while i < v.len()
        invariant
            i <= v@.len(),
            cjk == script_counts(v@.subrange(0, i as int)).0,
            latin == script_counts(v@.subrange(0, i as int)).1,
            cjk + latin <= i,
        decreases v@.len() - i,
    {
        proof {
            assert(v@.subrange(0, i + 1).drop_last() =~= v@.subrange(0, i as int));
        }
        if char_is_cjk(v[i]) {
            cjk = cjk + 1;
        } else if char_is_ascii_letter(v[i]) {
            latin = latin + 1;
        }
        i = i + 1;
    }
    assert(v@.subrange(0, v@.len() as int) =~= text@);
    (cjk, latin)
}

/// The language for given counts: no letters is `neutral`; otherwise
/// Chinese when CJK characters are at least 30% of the letters.
pub open spec fn lang_of(cjk: nat, latin: nat, neutral: SentenceLang) -> SentenceLang {
    if cjk + latin == 0 {
        neutral
    } else if 10 * cjk >= 3 * (cjk + latin) {
        SentenceLang::Chinese
    } else {
        SentenceLang::English
    }
}

fn lang_for_counts(cjk: usize, latin: usize, neutral: SentenceLang) -> (r: SentenceLang)
    requires
        cjk + latin <= usize::MAX,
    ensures
        r == lang_of(cjk as nat, latin as nat, neutral),
{
    let n = cjk + latin;
    if n == 0 {
        neutral
    } else if 10 * (cjk as u128) >= 3 * (n as u128) {
        SentenceLang::Chinese
    } else {
        SentenceLang::English
    }
}

pub fn detect_lang(text: &str) -> (r: SentenceLang)
    ensures
        r == lang_of(script_counts(text@).0, script_counts(text@).1, SentenceLang::Neutral),
{
    let (cjk, latin) = count_scripts(text);
    proof {
        lemma_script_counts_bound(text@);
    }
    lang_for_counts(cjk, latin, SentenceLang::Neutral)
}

pub open spec fn has_cjk_spec(s: Seq<char>) -> bool {
    exists|i: int| 0 <= i < s.len() && is_cjk(#[trigger] s[i])
}

pub open spec fn has_letter_spec(s: Seq<char>) -> bool {
    exists|i: int| 0 <= i < s.len() && is_ascii_letter(#[trigger] s[i])
}

pub fn has_cjk(text: &str) -> (r: bool)
    ensures
        r == has_cjk_spec(text@),
{
    let v = chars_of(text);
    let mut i: usize = 0;
    while i < v.len()
        invariant
            i <= v@.len(),
            v@ == text@,
            forall|k: int| 0 <= k < i ==> !is_cjk(#[trigger] v@[k]),
        decreases v@.len() - i,
    {
        if char_is_cjk(v[i]) {
            return true;
        }
        i = i + 1;
    }
    false
}

pub fn has_ascii_letter(text: &str) -> (r: bool)
    ensures
        r == has_letter_spec(text@),
{
    let v = chars_of(text);
    let mut i: usize = 0;
    while i < v.len()
        invariant
            i <= v@.len(),
            v@ == text@,
            forall|k: int| 0 <= k < i ==> !is_ascii_letter(#[trigger] v@[k]),
        decreases v@.len() - i,
    {
        if char_is_ascii_letter(v[i]) {
            return true;
        }
        i = i + 1;
    }
    false
}

/// Which lexicons a sentence runs through: (Chinese, English). A mixed
/// sentence runs both; one without letters runs neither.
pub fn lexicon_routes(text: &str) -> (r: (bool, bool))
    ensures
        r == (has_cjk_spec(text@), has_letter_spec(text@)),
{
    (has_cjk(text), has_ascii_letter(text))
}

/// Letters over all sentences, as (CJK, ASCII).
pub open spec fn transcript_counts(ss: Seq<Sentence>) -> (nat, nat)
    decreases ss.len(),
{
    if ss.len() == 0 {
        (0, 0)
    } else {
        let (c, l) = transcript_counts(ss.drop_last());
        let (c2, l2) = script_counts(ss.last().text@);
        (c + c2, l + l2)
    }
}

proof fn lemma_transcript_counts_prefix(ss: Seq<Sentence>, j: int)
    requires
        0 <= j <= ss.len(),
    ensures
        transcript_counts(ss.subrange(0, j)).0 + transcript_counts(ss.subrange(0, j)).1
            <= transcript_counts(ss).0 + transcript_counts(ss).1,
    decreases ss.len() - j,
{
    if j < ss.len() {
        lemma_transcript_counts_prefix(ss.drop_last(), j);
        assert(ss.drop_last().subrange(0, j) =~= ss.subrange(0, j));
    } else {
        assert(ss.subrange(0, j) =~= ss);
    }
}

/// Language of a whole transcript, by the same 30% rule over all its
/// sentences; a transcript without letters counts as Chinese.
pub fn detect_transcript_lang(sentences: &[Sentence]) -> (r: SentenceLang)
    requires
        transcript_counts(sentences@).0 + transcript_counts(sentences@).1 <= usize::MAX,
    ensures
        r == lang_of(transcript_counts(sentences@).0, transcript_counts(sentences@).1, SentenceLang::Chinese),
{
    let mut cjk: usize = 0;
    let mut latin: usize = 0;
    let mut i: usize = 0;
    assert(sentences@.subrange(0, 0) =~= Seq::<Sentence>::empty());
    while i < sentences.len()
        invariant
            i <= sentences@.len(),
            transcript_counts(sentences@).0 + transcript_counts(sentences@).1 <= usize::MAX,
            cjk == transcript_counts(sentences@.subrange(0, i as int)).0,
            latin == transcript_counts(sentences@.subrange(0, i as int)).1,
        decreases sentences@.len() - i,
    {
        let (c, l) = count_scripts(sentences[i].text.as_str());
        proof {
            assert(sentences@.subrange(0, i + 1).drop_last() =~= sentences@.subrange(0, i as int));
            lemma_transcript_counts_prefix(sentences@, i + 1);
        }
        cjk = cjk + c;
        latin = latin + l;
        i = i + 1;
    }
    assert(sentences@.subrange(0, sentences@.len() as int) =~= sentences@);
    lang_for_counts(cjk, latin, SentenceLang::Chinese)
}

} // verus!
