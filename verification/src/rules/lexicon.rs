//! Longest-first word matching over a word list (the matcher behind every
//! lexicon-driven rule).
//!
//! English entries (pure ASCII with at least one letter or digit) match on
//! word boundaries and ignore ASCII case; entries that hold any other
//! character match as plain, case-sensitive substrings.
use vstd::prelude::*;
use crate::text::{str_eq, ascii_lower, char_ascii_lower, char_is_ascii_alnum, chars_of, is_ascii_alnum, occurs_at_exec, views, lit, clone_strings, trim, trim_string};

verus! {

/// ASCII word character (the ASCII part of the regex class `\w`).
pub open spec fn is_word_char(c: char) -> bool {
    is_ascii_alnum(c) || c == '_'
}

fn char_is_word(c: char) -> (r: bool)
    ensures
        r == is_word_char(c),
{
    char_is_ascii_alnum(c) || c == '_'
}

/// A word list entry takes boundary matching when it is pure ASCII and holds
/// at least one ASCII letter or digit.
pub open spec fn is_boundary_entry(w: Seq<char>) -> bool {
    (forall|i: int| 0 <= i < w.len() ==> (w[i] as u32) < 128) && (exists|i: int|
        0 <= i < w.len() && is_ascii_alnum(#[trigger] w[i]))
}

fn boundary_entry(w: &[char]) -> (r: bool)
    ensures
        r == is_boundary_entry(w@),
{
    let mut all_ascii = true;
    let mut any_alnum = false;
    let mut i: usize = 0;
    while i < w.len()
        invariant
            i <= w@.len(),
            all_ascii == (forall|k: int| 0 <= k < i ==> (w@[k] as u32) < 128),
            any_alnum == (exists|k: int| 0 <= k < i && is_ascii_alnum(#[trigger] w@[k])),
        decreases w@.len() - i,
    {
        let c = w[i];
        if (c as u32) >= 128 {
            all_ascii = false;
        }
        if char_is_ascii_alnum(c) {
            any_alnum = true;
        }
        i = i + 1;
    }
    all_ascii && any_alnum
}

/// Entry `w` (boundary mode `b`) matches `text` at `pos`.
pub open spec fn word_matches(w: Seq<char>, b: bool, text: Seq<char>, pos: int) -> bool {
    &&& 0 <= pos
    &&& pos + w.len() <= text.len()
    &&& if b {
        &&& (pos == 0 || !is_word_char(text[pos - 1]))
        &&& (pos + w.len() == text.len() || !is_word_char(text[pos + w.len()]))
        &&& forall|i: int| 0 <= i < w.len() ==> ascii_lower(#[trigger] w[i]) == ascii_lower(text[pos + i])
    } else {
        text.subrange(pos, pos + w.len()) == w
    }
}

/// Entry `wi` is the one taken at `pos`: it matches, and every other matching
/// entry is shorter, or as long and listed later.
pub open spec fn chosen_at(
    words: Seq<Seq<char>>,
    bnd: Seq<bool>,
    text: Seq<char>,
    pos: int,
    wi: int,
) -> bool {
    &&& 0 <= wi < words.len()
    &&& word_matches(words[wi], bnd[wi], text, pos)
    &&& forall|wj: int|
        0 <= wj < words.len() && #[trigger] word_matches(words[wj], bnd[wj], text, pos) ==> words[wj].len()
            < words[wi].len() || (words[wj].len() == words[wi].len() && wi <= wj)
}

/// Indices of the entries hit by a left-to-right scan from `pos`: at each
/// position the chosen entry is taken and the scan jumps past it; where no
/// entry matches, the scan moves on by one character.
pub open spec fn scan(words: Seq<Seq<char>>, bnd: Seq<bool>, text: Seq<char>, pos: int) -> Seq<int>
    decreases text.len() - pos,
{
    if pos < 0 || pos >= text.len() {
        seq![]
    } else if exists|wi: int| chosen_at(words, bnd, text, pos, wi) {
        let wi = choose|wi: int| chosen_at(words, bnd, text, pos, wi);
        if words[wi].len() > 0 {
            seq![wi] + scan(words, bnd, text, pos + words[wi].len())
        } else {
            scan(words, bnd, text, pos + 1)
        }
    } else {
        scan(words, bnd, text, pos + 1)
    }
}

/// The entries hit by a scan of `text` from its start, in order.
pub open spec fn hit_words(words: Seq<Seq<char>>, bnd: Seq<bool>, text: Seq<char>) -> Seq<Seq<char>> {
    scan(words, bnd, text, 0).map_values(|i: int| words[i])
}

/// The list with empty entries removed, order kept.
pub open spec fn drop_empty(s: Seq<Seq<char>>) -> Seq<Seq<char>>
    decreases s.len(),
{
    if s.len() == 0 {
        seq![]
    } else if s.last().len() > 0 {
        drop_empty(s.drop_last()).push(s.last())
    } else {
        drop_empty(s.drop_last())
    }
}

/// First occurrences only, in order.
pub open spec fn dedup<T>(s: Seq<T>) -> Seq<T>
    decreases s.len(),
{
    if s.len() == 0 {
        seq![]
    } else {
        let d = dedup(s.drop_last());
        if d.contains(s.last()) {
            d
        } else {
            d.push(s.last())
        }
    }
}

/// Dropping repeats never lengthens a list.
pub proof fn lemma_dedup_len<T>(s: Seq<T>)
    ensures
        dedup(s).len() <= s.len(),
    decreases s.len(),
{
    if s.len() > 0 {
        lemma_dedup_len(s.drop_last());
    }
}

proof fn lemma_chosen_unique(words: Seq<Seq<char>>, bnd: Seq<bool>, text: Seq<char>, pos: int, a: int, b: int)
    requires
        chosen_at(words, bnd, text, pos, a),
        chosen_at(words, bnd, text, pos, b),
    ensures
        a == b,
{
    assert(word_matches(words[a], bnd[a], text, pos));
    assert(word_matches(words[b], bnd[b], text, pos));
}

/// `m` is the matcher built from `words`: the non-empty words in order,
/// each with its boundary mode.
pub open spec fn built_from(m: WordMatcher, words: Seq<String>) -> bool {
    built_over(m, views(words))
}

/// `m` is the matcher built from words with these views.
pub open spec fn built_over(m: WordMatcher, ws: Seq<Seq<char>>) -> bool {
    &&& m.wf()
    &&& m.entries() == drop_empty(ws)
    &&& m.modes().len() == m.entries().len()
    &&& forall|i: int| 0 <= i < m.entries().len() ==> m.modes()[i] == is_boundary_entry(#[trigger] m.entries()[i])
}

/// Owned copies of string slices.
pub fn owned_all(v: &[&str]) -> (r: Vec<String>)
    ensures
        views(r@) == v@.map_values(|s: &str| s@),
{
    let mut r: Vec<String> = Vec::new();
    let mut i: usize = 0;
    while i < v.len()
        invariant
            i <= v@.len(),
            views(r@) == v@.map_values(|s: &str| s@).subrange(0, i as int),
        decreases v@.len() - i,
    {
        let ghost before = r@;
        r.push(lit(v[i]));
        assert(views(r@) =~= views(before).push(v@[i as int]@));
        assert(views(r@) =~= v@.map_values(|s: &str| s@).subrange(0, i + 1));
        i = i + 1;
    }
    assert(v@.map_values(|s: &str| s@).subrange(0, v@.len() as int) =~= v@.map_values(|s: &str| s@));
    r
}

/// Longest-first matcher over a fixed word list.
pub struct WordMatcher {
    words: Vec<String>,
    char_words: Vec<Vec<char>>,
    boundary: Vec<bool>,
}

impl WordMatcher {
    /// The entries, empty words removed, in their given order.
    pub closed spec fn entries(&self) -> Seq<Seq<char>> {
        self.char_words@.map_values(|w: Vec<char>| w@)
    }

    /// Boundary mode of each entry.
    pub closed spec fn modes(&self) -> Seq<bool> {
        self.boundary@
    }

    pub closed spec fn wf(&self) -> bool {
        &&& self.words@.len() == self.char_words@.len()
        &&& self.boundary@.len() == self.char_words@.len()
        &&& forall|i: int| 0 <= i < self.words@.len() ==> (#[trigger] self.words@[i])@ == self.char_words@[i]@
        &&& forall|i: int| 0 <= i < self.char_words@.len() ==> (#[trigger] self.char_words@[i])@.len() > 0
        &&& forall|i: int| 0 <= i < self.boundary@.len() ==> #[trigger] self.boundary@[i] == is_boundary_entry(self.char_words@[i]@)
    }

    /// Builds the matcher; empty words are dropped, the rest keep their order.
    pub fn new(words: Vec<String>) -> (m: Self)
        ensures
            m.wf(),
            m.entries() == drop_empty(words@.map_values(|w: String| w@)),
            forall|i: int| 0 <= i < m.entries().len() ==> m.modes()[i] == is_boundary_entry(#[trigger] m.entries()[i]),
            built_from(m, words@),
    {
        let ghost src = words@.map_values(|w: String| w@);
        let mut kept: Vec<String> = Vec::new();
        let mut char_words: Vec<Vec<char>> = Vec::new();
        let mut boundary: Vec<bool> = Vec::new();
        let mut i: usize = 0;
        while i < words.len()
            invariant
                i <= words@.len(),
                src == words@.map_values(|w: String| w@),
                kept@.len() == char_words@.len(),
                boundary@.len() == char_words@.len(),
                forall|k: int| 0 <= k < kept@.len() ==> (#[trigger] kept@[k])@ == char_words@[k]@,
                forall|k: int| 0 <= k < char_words@.len() ==> (#[trigger] char_words@[k])@.len() > 0,
                forall|k: int| 0 <= k < boundary@.len() ==> #[trigger] boundary@[k] == is_boundary_entry(char_words@[k]@),
                char_words@.map_values(|w: Vec<char>| w@) == drop_empty(src.subrange(0, i as int)),
            decreases words@.len() - i,
        {
            let cw = chars_of(words[i].as_str());
            proof {
                assert(src.subrange(0, i + 1).drop_last() =~= src.subrange(0, i as int));
                assert(src.subrange(0, i + 1).last() == src[i as int]);
                assert(src[i as int] == words@[i as int]@);
            }
            if cw.len() > 0 {
                let b = boundary_entry(cw.as_slice());
                kept.push(words[i].clone());
                let ghost before = char_words@;
                char_words.push(cw);
                boundary.push(b);
                proof {
                    assert(char_words@.map_values(|w: Vec<char>| w@) =~= before.map_values(|w: Vec<char>| w@).push(src[i as int]));
                }
            }
            i = i + 1;
        }
        assert(src.subrange(0, words@.len() as int) =~= src);
        WordMatcher { words: kept, char_words, boundary }
    }

    pub fn is_empty(&self) -> (r: bool)
        requires
            self.wf(),
        ensures
            r == (self.entries().len() == 0),
    {
        self.words.len() == 0
    }

    /// The entries as given (empty words removed).
    pub fn words(&self) -> (r: &[String])
        requires
            self.wf(),
        ensures
            r@.map_values(|w: String| w@) == self.entries(),
    {
        assert(self.words@.map_values(|w: String| w@) =~= self.entries());
        self.words.as_slice()
    }

    fn match_at(&self, wi: usize, chars: &[char], pos: usize) -> (r: bool)
        requires
            self.wf(),
            wi < self.entries().len(),
            pos <= chars@.len(),
        ensures
            r == word_matches(self.entries()[wi as int], self.modes()[wi as int], chars@, pos as int),
    {
        let w = &self.char_words[wi];
        assert(w@ == self.entries()[wi as int]);
        if w.len() > chars.len() - pos {
            return false;
        }
        let end = pos + w.len();
        if self.boundary[wi] {
            if pos > 0 && char_is_word(chars[pos - 1]) {
                return false;
            }
            if end < chars.len() && char_is_word(chars[end]) {
                return false;
            }
            let mut i: usize = 0;
            while i < w.len()
                invariant
                    self.wf(),
                    wi < self.entries().len(),
                    w@ == self.entries()[wi as int],
                    self.modes()[wi as int],
                    i <= w@.len(),
                    end == pos + w@.len(),
                    pos + w@.len() <= chars@.len(),
                    chars@.len() == chars.len(),
                    pos == 0 || !is_word_char(chars@[pos - 1]),
                    end == chars@.len() || !is_word_char(chars@[end as int]),
                    forall|k: int| 0 <= k < i ==> ascii_lower(#[trigger] w@[k]) == ascii_lower(chars@[pos + k]),
                decreases w@.len() - i,
            {
                if char_ascii_lower(w[i]) != char_ascii_lower(chars[pos + i]) {
                    return false;
                }
                i = i + 1;
            }
            assert(word_matches(w@, true, chars@, pos as int));
            true
        } else {
            occurs_at_exec(chars, w.as_slice(), pos)
        }
    }

    /// The entry taken at `pos`, if any.
    fn choose_at(&self, chars: &[char], pos: usize) -> (r: Option<usize>)
        requires
            self.wf(),
            pos < chars@.len(),
        ensures
            match r {
                Some(wi) => chosen_at(self.entries(), self.modes(), chars@, pos as int, wi as int),
                None => !exists|wi: int| chosen_at(self.entries(), self.modes(), chars@, pos as int, wi),
            },
    {
        let ghost ws = self.entries();
        let ghost bs = self.modes();
        let mut best: Option<usize> = None;
        let mut i: usize = 0;
        while i < self.char_words.len()
            invariant
                self.wf(),
                ws == self.entries(),
                bs == self.modes(),
                i <= ws.len(),
                pos < chars@.len(),
                match best {
                    Some(b) => b < i && word_matches(ws[b as int], bs[b as int], chars@, pos as int)
                        && forall|wj: int| 0 <= wj < i && #[trigger] word_matches(ws[wj], bs[wj], chars@, pos as int)
                            ==> ws[wj].len() < ws[b as int].len() || (ws[wj].len() == ws[b as int].len() && b <= wj),
                    None => forall|wj: int| 0 <= wj < i ==> !#[trigger] word_matches(ws[wj], bs[wj], chars@, pos as int),
                },
            decreases ws.len() - i,
        {
            assert(ws.len() == self.char_words@.len());
            if self.match_at(i, chars, pos) {
                match best {
                    Some(b) => {
                        if self.char_words[i].len() > self.char_words[b].len() {
                            best = Some(i);
                        }
                    },
                    None => {
                        best = Some(i);
                    },
                }
            }
            i = i + 1;
        }
        match best {
            Some(b) => {},
            None => {
                assert forall|wi: int| !chosen_at(ws, bs, chars@, pos as int, wi) by {
                    if 0 <= wi < ws.len() {
                        assert(!word_matches(ws[wi], bs[wi], chars@, pos as int));
                    }
                }
            },
        }
        best
    }

    /// Every hit in order of appearance (repeats included).
    pub fn find_all<'a>(&'a self, text: &str) -> (r: Vec<&'a str>)
        requires
            self.wf(),
        ensures
            r@.map_values(|s: &str| s@) == hit_words(self.entries(), self.modes(), text@),
    {
        let chars = chars_of(text);
        let ghost ws = self.entries();
        let ghost bs = self.modes();
        let mut out: Vec<&'a str> = Vec::new();
        let mut pos: usize = 0;
        let ghost mut acc: Seq<int> = seq![];
        while pos < chars.len()
            invariant
                self.wf(),
                ws == self.entries(),
                bs == self.modes(),
                chars@ == text@,
                pos <= chars@.len(),
                acc + scan(ws, bs, chars@, pos as int) == scan(ws, bs, chars@, 0),
                out@.len() == acc.len(),
                forall|k: int| 0 <= k < acc.len() ==> 0 <= #[trigger] acc[k] < ws.len(),
                forall|k: int| 0 <= k < out@.len() ==> (#[trigger] out@[k])@ == ws[acc[k]],
            decreases chars@.len() - pos,
        {
            match self.choose_at(chars.as_slice(), pos) {
                Some(wi) => {
                    proof {
                        let c = choose|c: int| chosen_at(ws, bs, chars@, pos as int, c);
                        lemma_chosen_unique(ws, bs, chars@, pos as int, c, wi as int);
                        assert(scan(ws, bs, chars@, pos as int) == seq![wi as int] + scan(ws, bs, chars@, pos + ws[wi as int].len()));
                        assert(ws[wi as int] == self.char_words@[wi as int]@);
                        assert(self.words@[wi as int]@ == ws[wi as int]);
                    }
                    let len = self.char_words[wi].len();
                    out.push(self.words[wi].as_str());
                    proof {
                        acc = acc.push(wi as int);
                        assert(acc + scan(ws, bs, chars@, pos + len) =~= (acc.drop_last() + seq![wi as int]) + scan(ws, bs, chars@, pos + len));
                    }
                    pos = pos + len;
                },
                None => {
                    pos = pos + 1;
                },
            }
        }
        proof {
            assert(scan(ws, bs, chars@, pos as int) == Seq::<int>::empty());
            assert(acc + Seq::<int>::empty() =~= acc);
            assert(out@.map_values(|s: &str| s@) =~= hit_words(ws, bs, text@));
        }
        out
    }

    /// The distinct hits, each at its first appearance.
    pub fn find_distinct<'a>(&'a self, text: &str) -> (r: Vec<&'a str>)
        requires
            self.wf(),
        ensures
            r@.map_values(|s: &str| s@) == dedup(hit_words(self.entries(), self.modes(), text@)),
    {
        let all = self.find_all(text);
        let ghost h = all@.map_values(|s: &str| s@);
        let mut seen: Vec<&'a str> = Vec::new();
        let mut i: usize = 0;
        while i < all.len()
            invariant
                i <= all@.len(),
                h == all@.map_values(|s: &str| s@),
                seen@.map_values(|s: &str| s@) == dedup(h.subrange(0, i as int)),
            decreases all@.len() - i,
        {
            let w = all[i];
            let mut found = false;
            let mut j: usize = 0;
            while j < seen.len()
                invariant
                    j <= seen@.len(),
                    found == (exists|k: int| 0 <= k < j && (#[trigger] seen@[k])@ == w@),
                decreases seen@.len() - j,
            {
                if str_eq(seen[j], w) {
                    found = true;
                }
                j = j + 1;
            }
            proof {
                let d = seen@.map_values(|s: &str| s@);
                assert(h.subrange(0, i + 1).drop_last() =~= h.subrange(0, i as int));
                assert(h.subrange(0, i + 1).last() == w@);
                if found {
                    let k = choose|k: int| 0 <= k < seen@.len() && (#[trigger] seen@[k])@ == w@;
                    assert(d[k] == w@);
                    assert(d.contains(w@));
                } else {
                    assert forall|k: int| 0 <= k < d.len() implies d[k] != w@ by {
                        assert(d[k] == seen@[k]@);
                    }
                    assert(!d.contains(w@));
                }
            }
            if !found {
                let ghost before = seen@;
                seen.push(w);
                assert(seen@.map_values(|s: &str| s@) =~= before.map_values(|s: &str| s@).push(w@));
            }
            i = i + 1;
        }
        assert(h.subrange(0, all@.len() as int) =~= h);
        seen
    }
}

} // verus!

verus! {

/// The distinct strings of a list, each at its first appearance, as owned strings.
pub fn dedup_strs(v: &[&str]) -> (r: Vec<String>)
    ensures
        views(r@) == dedup(v@.map_values(|s: &str| s@)),
{
    let ghost h = v@.map_values(|s: &str| s@);
    let mut out: Vec<String> = Vec::new();
    let mut i: usize = 0;
    assert(h.subrange(0, 0) =~= Seq::<Seq<char>>::empty());
    while i < v.len()
        invariant
            i <= v@.len(),
            h == v@.map_values(|s: &str| s@),
            views(out@) == dedup(h.subrange(0, i as int)),
        decreases v@.len() - i,
    {
        let w = v[i];
        let mut found = false;
        let mut j: usize = 0;
        while j < out.len()
            invariant
                j <= out@.len(),
                found == (exists|k: int| 0 <= k < j && (#[trigger] out@[k])@ == w@),
            decreases out@.len() - j,
        {
            if str_eq(out[j].as_str(), w) {
                found = true;
            }
            j = j + 1;
        }
        proof {
            let d = views(out@);
            assert(h.subrange(0, i + 1).drop_last() =~= h.subrange(0, i as int));
            assert(h.subrange(0, i + 1).last() == w@);
            if found {
                let k = choose|k: int| 0 <= k < out@.len() && (#[trigger] out@[k])@ == w@;
                assert(d[k] == w@);
                assert(d.contains(w@));
            } else {
                assert forall|k: int| 0 <= k < d.len() implies d[k] != w@ by {
                    assert(d[k] == out@[k]@);
                }
                assert(!d.contains(w@));
            }
        }
        if !found {
            let ghost before = out@;
            out.push(lit(w));
            assert(views(out@) =~= views(before).push(w@));
        }
        i = i + 1;
    }
    assert(h.subrange(0, v@.len() as int) =~= h);
    out
}

/// Filler words of a lexicon by tier.
#[derive(Debug, Clone)]
pub struct Fillers {
    pub high: Vec<String>,
    pub medium: Vec<String>,
}

/// One emotion category: its description and its words with intensity 1–9.
#[derive(Debug, Clone)]
pub struct EmotionGroup {
    pub description: String,
    pub words: Vec<(String, u8)>,
}

/// The built-in Chinese lexicon. Each map of the lexicon file is held as
/// its list of (key, value) entries.
#[derive(Debug, Clone)]
pub struct LexiconV2 {
    pub fillers: Fillers,
    pub hedges: Vec<String>,
    /// Vague word → more precise alternatives.
    pub vague_to_precise: Vec<(String, Vec<String>)>,
    /// Category → its words.
    pub emotion_words: Vec<(String, EmotionGroup)>,
    /// Vague time word → how to make it concrete (plus a `description` entry).
    pub time_vague: Vec<(String, String)>,
    /// Abstract word → concrete ways to say it.
    pub imagery_pairs: Vec<(String, Vec<String>)>,
    /// Hedging phrase → direct phrasing (plus a `description` entry).
    pub hedge_to_direct_map: Vec<(String, String)>,
}

/// The built-in English lexicon: fillers, hedges and vague words only.
#[derive(Debug, Clone)]
pub struct LexiconEn {
    pub fillers: Fillers,
    pub hedges: Vec<String>,
    pub vague_to_precise: Vec<(String, Vec<String>)>,
}

} // verus!

verus! {

/// The value of the first entry with key `w`.
pub open spec fn lookup<V>(es: Seq<(Seq<char>, V)>, w: Seq<char>) -> Option<V>
    decreases es.len(),
{
    if es.len() == 0 {
        None
    } else if es[0].0 == w {
        Some(es[0].1)
    } else {
        lookup(es.subrange(1, es.len() as int), w)
    }
}

/// Entries of a word → word-list map, by view.
pub open spec fn list_entries(es: Seq<(String, Vec<String>)>) -> Seq<(Seq<char>, Seq<Seq<char>>)> {
    es.map_values(|e: (String, Vec<String>)| (e.0@, views(e.1@)))
}

/// Entries of a word → text map, by view.
pub open spec fn text_entries(es: Seq<(String, String)>) -> Seq<(Seq<char>, Seq<char>)> {
    es.map_values(|e: (String, String)| (e.0@, e.1@))
}

/// The keys of a map's entries.
pub open spec fn keys_of<V>(es: Seq<(String, V)>) -> Seq<String> {
    es.map_values(|e: (String, V)| e.0)
}

/// The word list of the first entry with key `w`, empty when there is none.
pub fn list_for(es: &[(String, Vec<String>)], w: &str) -> (r: Vec<String>)
    ensures
        views(r@) == match lookup(list_entries(es@), w@) {
            Some(v) => v,
            None => Seq::<Seq<char>>::empty(),
        },
{
    let ghost all = list_entries(es@);
    let mut i: usize = 0;
    assert(all.subrange(0, all.len() as int) =~= all);
    while i < es.len()
        invariant
            i <= es@.len(),
            all == list_entries(es@),
            lookup(all, w@) == lookup(all.subrange(i as int, all.len() as int), w@),
        decreases es@.len() - i,
    {
        let ghost sub = all.subrange(i as int, all.len() as int);
        assert(sub[0] == (es@[i as int].0@, views(es@[i as int].1@)));
        if str_eq(es[i].0.as_str(), w) {
            let r = clone_strings(es[i].1.as_slice());
            return r;
        }
        assert(sub.subrange(1, sub.len() as int) =~= all.subrange(i + 1, all.len() as int));
        i = i + 1;
    }
    assert(all.subrange(es@.len() as int, all.len() as int) =~= Seq::<(Seq<char>, Seq<Seq<char>>)>::empty());
    Vec::new()
}

/// The text of the first entry with key `w`, empty when there is none.
pub fn text_for(es: &[(String, String)], w: &str) -> (r: String)
    ensures
        r@ == match lookup(text_entries(es@), w@) {
            Some(v) => v,
            None => Seq::<char>::empty(),
        },
{
    let ghost all = text_entries(es@);
    let mut i: usize = 0;
    assert(all.subrange(0, all.len() as int) =~= all);
    while i < es.len()
        invariant
            i <= es@.len(),
            all == text_entries(es@),
            lookup(all, w@) == lookup(all.subrange(i as int, all.len() as int), w@),
        decreases es@.len() - i,
    {
        let ghost sub = all.subrange(i as int, all.len() as int);
        assert(sub[0] == (es@[i as int].0@, es@[i as int].1@));
        if str_eq(es[i].0.as_str(), w) {
            return es[i].1.clone();
        }
        assert(sub.subrange(1, sub.len() as int) =~= all.subrange(i + 1, all.len() as int));
        i = i + 1;
    }
    assert(all.subrange(es@.len() as int, all.len() as int) =~= Seq::<(Seq<char>, Seq<char>)>::empty());
    String::new()
}

/// The keys of a word → word-list map, in order.
pub fn list_keys(es: &[(String, Vec<String>)]) -> (r: Vec<String>)
    ensures
        r@ == keys_of(es@),
{
    let mut r: Vec<String> = Vec::new();
    let mut i: usize = 0;
    while i < es.len()
        invariant
            i <= es@.len(),
            r@ == keys_of(es@).subrange(0, i as int),
        decreases es@.len() - i,
    {
        r.push(es[i].0.clone());
        assert(r@ =~= keys_of(es@).subrange(0, i + 1));
        i = i + 1;
    }
    assert(keys_of(es@).subrange(0, es@.len() as int) =~= keys_of(es@));
    r
}

/// A copy of a word → word-list map.
pub fn clone_list_entries(es: &[(String, Vec<String>)]) -> (r: Vec<(String, Vec<String>)>)
    ensures
        list_entries(r@) == list_entries(es@),
        keys_of(r@) == keys_of(es@),
{
    let mut r: Vec<(String, Vec<String>)> = Vec::new();
    let mut i: usize = 0;
    while i < es.len()
        invariant
            i <= es@.len(),
            list_entries(r@) == list_entries(es@).subrange(0, i as int),
            keys_of(r@) == keys_of(es@).subrange(0, i as int),
        decreases es@.len() - i,
    {
        let k = es[i].0.clone();
        let v = clone_strings(es[i].1.as_slice());
        let ghost before = r@;
        r.push((k, v));
        assert(views(v@) == views(es@[i as int].1@));
        assert(list_entries(r@) =~= list_entries(before).push((es@[i as int].0@, views(es@[i as int].1@))));
        assert(list_entries(r@) =~= list_entries(es@).subrange(0, i + 1));
        assert(keys_of(r@) =~= keys_of(es@).subrange(0, i + 1));
        i = i + 1;
    }
    assert(list_entries(es@).subrange(0, es@.len() as int) =~= list_entries(es@));
    assert(keys_of(es@).subrange(0, es@.len() as int) =~= keys_of(es@));
    r
}

/// Index of the first entry with key `w`; the length when there is none.
pub open spec fn key_index<V>(es: Seq<(Seq<char>, V)>, w: Seq<char>) -> int
    decreases es.len(),
{
    if es.len() == 0 {
        0
    } else if es[0].0 == w {
        0
    } else {
        1 + key_index(es.subrange(1, es.len() as int), w)
    }
}

pub proof fn lemma_key_index<V>(es: Seq<(Seq<char>, V)>, w: Seq<char>)
    ensures
        0 <= key_index(es, w) <= es.len(),
        key_index(es, w) < es.len() ==> es[key_index(es, w)].0 == w,
        forall|k: int| 0 <= k < key_index(es, w) ==> es[k].0 != w,
    decreases es.len(),
{
    if es.len() > 0 && es[0].0 != w {
        let rest = es.subrange(1, es.len() as int);
        lemma_key_index(rest, w);
        assert forall|k: int| 0 <= k < key_index(es, w) implies es[k].0 != w by {
            if k > 0 {
                assert(es[k] == rest[k - 1]);
            }
        }
    }
}


/// A user lexicon: vague word → precise alternatives, and custom fillers.
#[derive(Debug, Clone)]
pub struct UserLexicon {
    pub vague_to_precise: Vec<(String, Vec<String>)>,
    pub fillers: Vec<String>,
}

impl UserLexicon {
    pub fn is_empty(&self) -> (r: bool)
        ensures
            r == (self.vague_to_precise@.len() == 0 && self.fillers@.len() == 0),
    {
        self.vague_to_precise.len() == 0 && self.fillers.len() == 0
    }
}

impl Default for UserLexicon {
    fn default() -> (r: Self)
        ensures
            r.vague_to_precise@.len() == 0,
            r.fillers@.len() == 0,
    {
        UserLexicon { vague_to_precise: Vec::new(), fillers: Vec::new() }
    }
}

/// `es` with `k` set to `v`: the first entry with key `k` is replaced, or
/// the entry is appended.
pub open spec fn upsert(es: Seq<(Seq<char>, Seq<Seq<char>>)>, k: Seq<char>, v: Seq<Seq<char>>) -> Seq<(Seq<char>, Seq<Seq<char>>)> {
    let i = key_index(es, k);
    if i < es.len() {
        es.update(i, (k, v))
    } else {
        es.push((k, v))
    }
}

/// Alternatives trimmed, empty ones dropped.
pub open spec fn cleaned(alts: Seq<Seq<char>>) -> Seq<Seq<char>> {
    drop_empty(alts.map_values(|a: Seq<char>| trim(a)))
}

/// The vague-word map after the user's entries, in order: each entry with a
/// non-blank word and some non-blank alternative sets the trimmed word to
/// its cleaned alternatives.
pub open spec fn merge_vague(es: Seq<(Seq<char>, Seq<Seq<char>>)>, user: Seq<(Seq<char>, Seq<Seq<char>>)>) -> Seq<(Seq<char>, Seq<Seq<char>>)>
    decreases user.len(),
{
    if user.len() == 0 {
        es
    } else {
        let acc = merge_vague(es, user.drop_last());
        let (w, alts) = user.last();
        if trim(w).len() > 0 && cleaned(alts).len() > 0 {
            upsert(acc, trim(w), cleaned(alts))
        } else {
            acc
        }
    }
}

/// The high fillers after the user's fillers: each trimmed non-blank word
/// not listed yet is appended.
pub open spec fn merge_fillers(high: Seq<Seq<char>>, user: Seq<Seq<char>>) -> Seq<Seq<char>>
    decreases user.len(),
{
    if user.len() == 0 {
        high
    } else {
        let acc = merge_fillers(high, user.drop_last());
        let t = trim(user.last());
        if t.len() > 0 && !acc.contains(t) {
            acc.push(t)
        } else {
            acc
        }
    }
}

pub open spec fn pair_views(es: Seq<(String, String)>) -> Seq<(Seq<char>, Seq<char>)> {
    es.map_values(|e: (String, String)| (e.0@, e.1@))
}

pub open spec fn group_views(gs: Seq<(String, EmotionGroup)>) -> Seq<(Seq<char>, Seq<char>, Seq<(Seq<char>, u8)>)> {
    gs.map_values(|g: (String, EmotionGroup)| (g.0@, g.1.description@, g.1.words@.map_values(|w: (String, u8)| (w.0@, w.1))))
}

fn clone_pairs(es: &[(String, String)]) -> (r: Vec<(String, String)>)
    ensures
        pair_views(r@) == pair_views(es@),
{
    let mut r: Vec<(String, String)> = Vec::new();
    let mut i: usize = 0;
    while i < es.len()
        invariant
            i <= es@.len(),
            pair_views(r@) == pair_views(es@).subrange(0, i as int),
        decreases es@.len() - i,
    {
        let ghost before = r@;
        r.push((es[i].0.clone(), es[i].1.clone()));
        assert(pair_views(r@) =~= pair_views(before).push((es@[i as int].0@, es@[i as int].1@)));
        assert(pair_views(r@) =~= pair_views(es@).subrange(0, i + 1));
        i = i + 1;
    }
    assert(pair_views(es@).subrange(0, es@.len() as int) =~= pair_views(es@));
    r
}

fn clone_words(ws: &[(String, u8)]) -> (r: Vec<(String, u8)>)
    ensures
        r@.map_values(|w: (String, u8)| (w.0@, w.1)) == ws@.map_values(|w: (String, u8)| (w.0@, w.1)),
{
    let mut r: Vec<(String, u8)> = Vec::new();
    let mut i: usize = 0;
    while i < ws.len()
        invariant
            i <= ws@.len(),
            r@.map_values(|w: (String, u8)| (w.0@, w.1)) == ws@.map_values(|w: (String, u8)| (w.0@, w.1)).subrange(0, i as int),
        decreases ws@.len() - i,
    {
        let ghost before = r@;
        r.push((ws[i].0.clone(), ws[i].1));
        assert(r@.map_values(|w: (String, u8)| (w.0@, w.1)) =~= before.map_values(|w: (String, u8)| (w.0@, w.1)).push((ws@[i as int].0@, ws@[i as int].1)));
        assert(r@.map_values(|w: (String, u8)| (w.0@, w.1)) =~= ws@.map_values(|w: (String, u8)| (w.0@, w.1)).subrange(0, i + 1));
        i = i + 1;
    }
    assert(ws@.map_values(|w: (String, u8)| (w.0@, w.1)).subrange(0, ws@.len() as int) =~= ws@.map_values(|w: (String, u8)| (w.0@, w.1)));
    r
}

fn clone_groups(gs: &[(String, EmotionGroup)]) -> (r: Vec<(String, EmotionGroup)>)
    ensures
        group_views(r@) == group_views(gs@),
{
    let mut r: Vec<(String, EmotionGroup)> = Vec::new();
    let mut i: usize = 0;
    while i < gs.len()
        invariant
            i <= gs@.len(),
            group_views(r@) == group_views(gs@).subrange(0, i as int),
        decreases gs@.len() - i,
    {
        let g = EmotionGroup { description: gs[i].1.description.clone(), words: clone_words(gs[i].1.words.as_slice()) };
        let ghost before = r@;
        let ghost gv = (gs@[i as int].0@, gs@[i as int].1.description@, gs@[i as int].1.words@.map_values(|w: (String, u8)| (w.0@, w.1)));
        r.push((gs[i].0.clone(), g));
        assert(group_views(r@) =~= group_views(before).push(gv));
        assert(group_views(r@) =~= group_views(gs@).subrange(0, i + 1));
        i = i + 1;
    }
    assert(group_views(gs@).subrange(0, gs@.len() as int) =~= group_views(gs@));
    r
}

/// Trimmed non-blank alternatives.
fn clean_alternatives_of(alts: &[String]) -> (r: Vec<String>)
    ensures
        views(r@) == cleaned(views(alts@)),
{
    let ghost av = views(alts@).map_values(|a: Seq<char>| trim(a));
    let mut r: Vec<String> = Vec::new();
    let mut i: usize = 0;
    assert(av.subrange(0, 0) =~= Seq::<Seq<char>>::empty());
    while i < alts.len()
        invariant
            i <= alts@.len(),
            av == views(alts@).map_values(|a: Seq<char>| trim(a)),
            views(r@) == drop_empty(av.subrange(0, i as int)),
        decreases alts@.len() - i,
    {
        assert(av.subrange(0, i + 1).drop_last() =~= av.subrange(0, i as int));
        assert(av.subrange(0, i + 1).last() == trim(alts@[i as int]@));
        let t = trim_string(alts[i].as_str());
        if chars_of(t.as_str()).len() > 0 {
            let ghost before = r@;
            r.push(t);
            assert(views(r@) =~= views(before).push(t@));
        }
        i = i + 1;
    }
    assert(av.subrange(0, alts@.len() as int) =~= av);
    r
}

/// Sets `k` to `v` in the map.
fn upsert_exec(es: &mut Vec<(String, Vec<String>)>, k: String, v: Vec<String>)
    ensures
        list_entries(final(es)@) == upsert(list_entries(old(es)@), k@, views(v@)),
{
    let ghost le = list_entries(es@);
    let mut i: usize = 0;
    while i < es.len()
        invariant
            i <= es@.len(),
            es@ == old(es)@,
            le == list_entries(es@),
            forall|j: int| 0 <= j < i ==> le[j].0 != k@,
        decreases es@.len() - i,
    {
        if str_eq(es[i].0.as_str(), k.as_str()) {
            proof {
                lemma_key_index(le, k@);
                assert(le[i as int].0 == k@);
                if key_index(le, k@) < i {
                    assert(le[key_index(le, k@)].0 == k@);
                }
                assert(key_index(le, k@) == i);
            }
            es.set(i, (k, v));
            assert(list_entries(es@) =~= le.update(i as int, (k@, views(v@))));
            return;
        }
        i = i + 1;
    }
    proof {
        lemma_key_index(le, k@);
        if key_index(le, k@) < le.len() {
            assert(le[key_index(le, k@)].0 == k@);
        }
    }
    let ghost vv = views(v@);
    let ghost kk = k@;
    es.push((k, v));
    assert(list_entries(es@) =~= le.push((kk, vv)));
}

impl UserLexicon {
    /// Adds an entry chosen by the user: a word with alternatives becomes
    /// (or replaces) a vague-word entry; a word without alternatives becomes
    /// a custom filler unless it already is one.
    pub fn add_entry(&mut self, word: String, alternatives: Vec<String>)
        ensures
            alternatives@.len() == 0 ==> {
                &&& list_entries(final(self).vague_to_precise@) == list_entries(old(self).vague_to_precise@)
                &&& views(final(self).fillers@) == if views(old(self).fillers@).contains(word@) {
                    views(old(self).fillers@)
                } else {
                    views(old(self).fillers@).push(word@)
                }
            },
            alternatives@.len() > 0 ==> {
                &&& list_entries(final(self).vague_to_precise@) == upsert(
                    list_entries(old(self).vague_to_precise@),
                    word@,
                    views(alternatives@),
                )
                &&& final(self).fillers@ == old(self).fillers@
            },
    {
        if alternatives.len() == 0 {
            let mut found = false;
            let mut i: usize = 0;
            while i < self.fillers.len()
                invariant
                    i <= self.fillers@.len(),
                    self.fillers@ == old(self).fillers@,
                    self.vague_to_precise@ == old(self).vague_to_precise@,
                    found == (exists|k: int| 0 <= k < i && (#[trigger] self.fillers@[k])@ == word@),
                decreases self.fillers@.len() - i,
            {
                if str_eq(self.fillers[i].as_str(), word.as_str()) {
                    found = true;
                }
                i = i + 1;
            }
            proof {
                let d = views(self.fillers@);
                if found {
                    let k = choose|k: int| 0 <= k < self.fillers@.len() && (#[trigger] self.fillers@[k])@ == word@;
                    assert(d[k] == word@);
                    assert(d.contains(word@));
                } else {
                    assert forall|k: int| 0 <= k < d.len() implies d[k] != word@ by {
                        assert(d[k] == self.fillers@[k]@);
                    }
                    assert(!d.contains(word@));
                }
            }
            if !found {
                let ghost before = self.fillers@;
                let ghost wv = word@;
                self.fillers.push(word);
                assert(views(self.fillers@) =~= views(before).push(wv));
            }
        } else {
            upsert_exec(&mut self.vague_to_precise, word, alternatives);
        }
    }
}

/// The built-in lexicon with the user's entries merged in: the user's
/// vague words override or extend the built-in ones, the user's fillers
/// join the high tier; everything else is kept.
pub fn merge_user_lexicon(base: &LexiconV2, user: &UserLexicon) -> (r: LexiconV2)
    ensures
        list_entries(r.vague_to_precise@) == merge_vague(list_entries(base.vague_to_precise@), list_entries(user.vague_to_precise@)),
        views(r.fillers.high@) == merge_fillers(views(base.fillers.high@), views(user.fillers@)),
        r.fillers.medium@ == base.fillers.medium@,
        r.hedges@ == base.hedges@,
        group_views(r.emotion_words@) == group_views(base.emotion_words@),
        pair_views(r.time_vague@) == pair_views(base.time_vague@),
        list_entries(r.imagery_pairs@) == list_entries(base.imagery_pairs@),
        pair_views(r.hedge_to_direct_map@) == pair_views(base.hedge_to_direct_map@),
{
    let mut vague = clone_list_entries(base.vague_to_precise.as_slice());
    let ghost ue = list_entries(user.vague_to_precise@);
    let ghost be = list_entries(base.vague_to_precise@);
    let mut i: usize = 0;
    assert(ue.subrange(0, 0) =~= Seq::<(Seq<char>, Seq<Seq<char>>)>::empty());
    while i < user.vague_to_precise.len()
        invariant
            i <= user.vague_to_precise@.len(),
            ue == list_entries(user.vague_to_precise@),
            list_entries(vague@) == merge_vague(be, ue.subrange(0, i as int)),
        decreases user.vague_to_precise@.len() - i,
    {
        assert(ue.subrange(0, i + 1).drop_last() =~= ue.subrange(0, i as int));
        assert(ue.subrange(0, i + 1).last() == (user.vague_to_precise@[i as int].0@, views(user.vague_to_precise@[i as int].1@)));
        let w = trim_string(user.vague_to_precise[i].0.as_str());
        let alts = clean_alternatives_of(user.vague_to_precise[i].1.as_slice());
        if chars_of(w.as_str()).len() > 0 && alts.len() > 0 {
            upsert_exec(&mut vague, w, alts);
        }
        i = i + 1;
    }
    assert(ue.subrange(0, user.vague_to_precise@.len() as int) =~= ue);
    let mut high = clone_strings(base.fillers.high.as_slice());
    let ghost uf = views(user.fillers@);
    let ghost bh = views(base.fillers.high@);
    let mut j: usize = 0;
    assert(uf.subrange(0, 0) =~= Seq::<Seq<char>>::empty());
    while j < user.fillers.len()
        invariant
            j <= user.fillers@.len(),
            uf == views(user.fillers@),
            views(high@) == merge_fillers(bh, uf.subrange(0, j as int)),
        decreases user.fillers@.len() - j,
    {
        assert(uf.subrange(0, j + 1).drop_last() =~= uf.subrange(0, j as int));
        assert(uf.subrange(0, j + 1).last() == user.fillers@[j as int]@);
        let t = trim_string(user.fillers[j].as_str());
        let mut found = false;
        let mut k: usize = 0;
        while k < high.len()
            invariant
                k <= high@.len(),
                found == (exists|m: int| 0 <= m < k && (#[trigger] high@[m])@ == t@),
            decreases high@.len() - k,
        {
            if str_eq(high[k].as_str(), t.as_str()) {
                found = true;
            }
            k = k + 1;
        }
        proof {
            let d = views(high@);
            if found {
                let m = choose|m: int| 0 <= m < high@.len() && (#[trigger] high@[m])@ == t@;
                assert(d[m] == t@);
                assert(d.contains(t@));
            } else {
                assert forall|m: int| 0 <= m < d.len() implies d[m] != t@ by {
                    assert(d[m] == high@[m]@);
                }
                assert(!d.contains(t@));
            }
        }
        if chars_of(t.as_str()).len() > 0 && !found {
            let ghost before = high@;
            let ghost tv = t@;
            high.push(t);
            assert(views(high@) =~= views(before).push(tv));
        }
        j = j + 1;
    }
    assert(uf.subrange(0, user.fillers@.len() as int) =~= uf);
    LexiconV2 {
        fillers: Fillers { high, medium: clone_strings(base.fillers.medium.as_slice()) },
        hedges: clone_strings(base.hedges.as_slice()),
        vague_to_precise: vague,
        emotion_words: clone_groups(base.emotion_words.as_slice()),
        time_vague: clone_pairs(base.time_vague.as_slice()),
        imagery_pairs: clone_list_entries(base.imagery_pairs.as_slice()),
        hedge_to_direct_map: clone_pairs(base.hedge_to_direct_map.as_slice()),
    }
}

/// The lexicon in effect: the built-in one, or it merged with the user's.
pub struct LexiconStore {
    builtin: LexiconV2,
    effective: Option<LexiconV2>,
}

/// `r` is `base` merged with `user`, as `merge_user_lexicon` gives it.
pub open spec fn is_merge(r: LexiconV2, base: LexiconV2, user: UserLexicon) -> bool {
    &&& list_entries(r.vague_to_precise@) == merge_vague(list_entries(base.vague_to_precise@), list_entries(user.vague_to_precise@))
    &&& views(r.fillers.high@) == merge_fillers(views(base.fillers.high@), views(user.fillers@))
    &&& r.fillers.medium@ == base.fillers.medium@
    &&& r.hedges@ == base.hedges@
    &&& group_views(r.emotion_words@) == group_views(base.emotion_words@)
    &&& pair_views(r.time_vague@) == pair_views(base.time_vague@)
    &&& list_entries(r.imagery_pairs@) == list_entries(base.imagery_pairs@)
    &&& pair_views(r.hedge_to_direct_map@) == pair_views(base.hedge_to_direct_map@)
}

impl LexiconStore {
    pub closed spec fn builtin(&self) -> LexiconV2 {
        self.builtin
    }

    pub closed spec fn effective(&self) -> Option<LexiconV2> {
        self.effective
    }

    /// Only the built-in lexicon in effect.
    pub fn new(builtin: LexiconV2) -> (r: Self)
        ensures
            r.builtin() == builtin,
            r.effective() is None,
    {
        LexiconStore { builtin, effective: None }
    }

    /// Puts a user lexicon in effect: merged into the built-in one, or, for
    /// none or an empty one, the built-in lexicon alone. The last call wins.
    pub fn apply_user_lexicon(&mut self, user: Option<&UserLexicon>)
        ensures
            final(self).builtin() == old(self).builtin(),
            match user {
                Some(u) => if u.vague_to_precise@.len() == 0 && u.fillers@.len() == 0 {
                    final(self).effective() is None
                } else {
                    final(self).effective() matches Some(l) && is_merge(l, old(self).builtin(), *u)
                },
                None => final(self).effective() is None,
            },
            apply_step(*old(self), owned_user(user), *final(self)),
    {
        match user {
            Some(u) => {
                if u.is_empty() {
                    self.effective = None;
                } else {
                    self.effective = Some(merge_user_lexicon(&self.builtin, u));
                }
            },
            None => {
                self.effective = None;
            },
        }
    }

    /// The lexicon in effect.
    pub fn lexicon(&self) -> (r: &LexiconV2)
        ensures
            *r == match self.effective() {
                Some(l) => l,
                None => self.builtin(),
            },
    {
        match &self.effective {
            Some(l) => l,
            None => &self.builtin,
        }
    }
}

/// The user lexicon handed to `apply_user_lexicon`, owned.
pub open spec fn owned_user(user: Option<&UserLexicon>) -> Option<UserLexicon> {
    match user {
        Some(u) => Some(*u),
        None => None,
    }
}

/// `b` is store `a` after `apply_user_lexicon` with `user`.
pub open spec fn apply_step(a: LexiconStore, user: Option<UserLexicon>, b: LexiconStore) -> bool {
    &&& b.builtin() == a.builtin()
    &&& match user {
        Some(u) => if u.vague_to_precise@.len() == 0 && u.fillers@.len() == 0 {
            b.effective() is None
        } else {
            b.effective() matches Some(l) && is_merge(l, a.builtin(), u)
        },
        None => b.effective() is None,
    }
}

/// What `lexicon()` returns for store `s`.
pub open spec fn in_effect(s: LexiconStore) -> LexiconV2 {
    match s.effective() {
        Some(l) => l,
        None => s.builtin(),
    }
}

/// `l` is the lexicon in effect for built-in `base` and user lexicon `user`:
/// the merge for a non-empty user lexicon, else `base` itself.
pub open spec fn effective_for(base: LexiconV2, user: Option<UserLexicon>, l: LexiconV2) -> bool {
    match user {
        Some(u) => if u.vague_to_precise@.len() == 0 && u.fillers@.len() == 0 {
            l == base
        } else {
            is_merge(l, base, u)
        },
        None => l == base,
    }
}

/// Over any run of `apply_user_lexicon` calls (store `ss[i]` becomes
/// `ss[i + 1]` with `us[i]`), the built-in lexicon is never changed, and the
/// lexicon in effect is decided by the last call alone.
pub proof fn lemma_last_apply_wins(ss: Seq<LexiconStore>, us: Seq<Option<UserLexicon>>)
    requires
        us.len() > 0,
        ss.len() == us.len() + 1,
        forall|i: int, j: int| 0 <= i < us.len() && j == i + 1 ==> #[trigger] apply_step(ss[i], us[i], ss[j]),
    ensures
        ss.last().builtin() == ss[0].builtin(),
        effective_for(ss[0].builtin(), us.last(), in_effect(ss.last())),
    decreases us.len(),
{
    let n = us.len() as int;
    assert(apply_step(ss[n - 1], us[n - 1], ss[n]));
    if n > 1 {
        let ss2 = ss.drop_last();
        let us2 = us.drop_last();
        assert forall|i: int, j: int| 0 <= i < us2.len() && j == i + 1 implies #[trigger] apply_step(
            ss2[i],
            us2[i],
            ss2[j],
        ) by {
            assert(apply_step(ss[i], us[i], ss[j]));
        }
        lemma_last_apply_wins(ss2, us2);
    }
}

} // verus!
