//! Filler word tiers and how the tiered word lists are merged.
use vstd::prelude::*;
use crate::text::{chars_eq, views, str_eq, lit};
use crate::rules::{Sentence, SessionContext};
use crate::rules::lang::{lexicon_routes, has_cjk_spec, has_letter_spec};
use crate::rules::lexicon::{WordMatcher, LexiconV2, LexiconEn, built_over, lookup, scan, chosen_at};
use crate::rules::hedge::hits_if;

verus! {

/// Tier of a filler word.
#[derive(Debug, Clone, Copy, PartialEq, Eq, Structural)]
pub enum FillerTier {
    High,
    Medium,
    Custom,
}

impl FillerTier {
    pub fn as_str(self) -> (r: &'static str)
        ensures
            r@ == match self {
                FillerTier::High => "high"@,
                FillerTier::Medium => "medium"@,
                FillerTier::Custom => "custom"@,
            },
    {
        match self {
            FillerTier::High => "high",
            FillerTier::Medium => "medium",
            FillerTier::Custom => "custom",
        }
    }
}

/// The words of the three lists in order (high, medium, custom) with their
/// tier; empty words are skipped and a repeated word keeps its first tier.
pub open spec fn tiered(ws: Seq<(Seq<char>, FillerTier)>) -> Seq<(Seq<char>, FillerTier)>
    decreases ws.len(),
{
    if ws.len() == 0 {
        seq![]
    } else {
        let d = tiered(ws.drop_last());
        let (w, t) = ws.last();
        if w.len() == 0 || exists|k: int| 0 <= k < d.len() && (#[trigger] d[k]).0 == w {
            d
        } else {
            d.push((w, t))
        }
    }
}

pub open spec fn tag(ws: Seq<String>, t: FillerTier) -> Seq<(Seq<char>, FillerTier)> {
    ws.map_values(|w: String| (w@, t))
}

fn add_tier(out: &mut Vec<(String, FillerTier)>, words: &[String], t: FillerTier)
    requires
        tiered(old(out)@.map_values(|e: (String, FillerTier)| (e.0@, e.1))) == old(out)@.map_values(
            |e: (String, FillerTier)| (e.0@, e.1),
        ),
    ensures
        final(out)@.map_values(|e: (String, FillerTier)| (e.0@, e.1)) == tiered(
            old(out)@.map_values(|e: (String, FillerTier)| (e.0@, e.1)) + tag(words@, t),
        ),
{
    let ghost base = old(out)@.map_values(|e: (String, FillerTier)| (e.0@, e.1));
    let ghost tw = tag(words@, t);
    let mut i: usize = 0;
    assert(base + tw.subrange(0, 0) =~= base);
    while i < words.len()
        invariant
            i <= words@.len(),
            tw == tag(words@, t),
            out@.map_values(|e: (String, FillerTier)| (e.0@, e.1)) == tiered(base + tw.subrange(0, i as int)),
        decreases words@.len() - i,
    {
        let ghost d = out@.map_values(|e: (String, FillerTier)| (e.0@, e.1));
        let ghost prev = base + tw.subrange(0, i as int);
        let ghost next = base + tw.subrange(0, i + 1);
        proof {
            assert(next.drop_last() =~= prev);
            assert(next.last() == (words@[i as int]@, t));
        }
        let w = &words[i];
        let wv = crate::text::chars_of(w.as_str());
        let mut seen = false;
        let mut j: usize = 0;
        while j < out.len()
            invariant
                j <= out@.len(),
                d == out@.map_values(|e: (String, FillerTier)| (e.0@, e.1)),
                wv@ == w@,
                seen == exists|k: int| 0 <= k < j && (#[trigger] d[k]).0 == w@,
            decreases out@.len() - j,
        {
            let ov = crate::text::chars_of(out[j].0.as_str());
            assert(d[j as int].0 == out@[j as int].0@);
            if chars_eq(ov.as_slice(), wv.as_slice()) {
                seen = true;
            }
            j = j + 1;
        }
        if wv.len() > 0 && !seen {
            out.push((w.clone(), t));
            assert(out@.map_values(|e: (String, FillerTier)| (e.0@, e.1)) =~= d.push((w@, t)));
        }
        i = i + 1;
    }
    assert(tw.subrange(0, words@.len() as int) =~= tw);
}

/// The merged filler list: high, then medium, then custom words, each word
/// once with the tier it first came with; empty words dropped.
pub fn merge_filler_tiers(high: &[String], medium: &[String], custom: &[String]) -> (r: Vec<(String, FillerTier)>)
    ensures
        r@.map_values(|e: (String, FillerTier)| (e.0@, e.1)) == tiered(
            tag(high@, FillerTier::High) + tag(medium@, FillerTier::Medium) + tag(custom@, FillerTier::Custom),
        ),
{
    let mut out: Vec<(String, FillerTier)> = Vec::new();
    assert(out@.map_values(|e: (String, FillerTier)| (e.0@, e.1)) =~= Seq::<(Seq<char>, FillerTier)>::empty());
    add_tier(&mut out, high, FillerTier::High);
    assert(Seq::<(Seq<char>, FillerTier)>::empty() + tag(high@, FillerTier::High) =~= tag(high@, FillerTier::High));
    proof {
        lemma_tiered_idem(tag(high@, FillerTier::High));
    }
    add_tier(&mut out, medium, FillerTier::Medium);
    proof {
        lemma_tiered_idem(tag(high@, FillerTier::High) + tag(medium@, FillerTier::Medium));
        lemma_tiered_append(tag(high@, FillerTier::High), tag(medium@, FillerTier::Medium));
    }
    add_tier(&mut out, custom, FillerTier::Custom);
    proof {
        lemma_tiered_append(
            tag(high@, FillerTier::High) + tag(medium@, FillerTier::Medium),
            tag(custom@, FillerTier::Custom),
        );
    }
    out
}

/// Every word non-empty and no word twice.
pub open spec fn clean(s: Seq<(Seq<char>, FillerTier)>) -> bool {
    &&& forall|i: int| 0 <= i < s.len() ==> (#[trigger] s[i]).0.len() > 0
    &&& forall|i: int, j: int| 0 <= i < j < s.len() ==> s[i].0 != s[j].0
}

proof fn lemma_tiered_clean(ws: Seq<(Seq<char>, FillerTier)>)
    ensures
        clean(tiered(ws)),
    decreases ws.len(),
{
    if ws.len() > 0 {
        lemma_tiered_clean(ws.drop_last());
        let d = tiered(ws.drop_last());
        let (w, t) = ws.last();
        if !(w.len() == 0 || exists|k: int| 0 <= k < d.len() && (#[trigger] d[k]).0 == w) {
            let e = d.push((w, t));
            assert forall|i: int, j: int| 0 <= i < j < e.len() implies e[i].0 != e[j].0 by {
                if j == e.len() - 1 {
                    assert(e[i] == d[i]);
                }
            }
        }
    }
}

proof fn lemma_clean_fixed(s: Seq<(Seq<char>, FillerTier)>)
    requires
        clean(s),
    ensures
        tiered(s) == s,
    decreases s.len(),
{
    if s.len() > 0 {
        let d = s.drop_last();
        assert(clean(d)) by {
            assert forall|i: int, j: int| 0 <= i < j < d.len() implies d[i].0 != d[j].0 by {
                assert(d[i] == s[i] && d[j] == s[j]);
            }
        }
        lemma_clean_fixed(d);
        let (w, t) = s.last();
        assert(w.len() > 0);
        assert forall|k: int| 0 <= k < d.len() implies (#[trigger] d[k]).0 != w by {
            assert(d[k] == s[k]);
        }
        assert(d.push((w, t)) =~= s);
    }
}

proof fn lemma_tiered_idem(ws: Seq<(Seq<char>, FillerTier)>)
    ensures
        tiered(tiered(ws)) == tiered(ws),
{
    lemma_tiered_clean(ws);
    lemma_clean_fixed(tiered(ws));
}

proof fn lemma_tiered_append(a: Seq<(Seq<char>, FillerTier)>, b: Seq<(Seq<char>, FillerTier)>)
    ensures
        tiered(tiered(a) + b) == tiered(a + b),
    decreases b.len(),
{
    if b.len() == 0 {
        assert(tiered(a) + b =~= tiered(a));
        assert(a + b =~= a);
        lemma_tiered_idem(a);
    } else {
        let b2 = b.drop_last();
        lemma_tiered_append(a, b2);
        assert((tiered(a) + b).drop_last() =~= tiered(a) + b2);
        assert((a + b).drop_last() =~= a + b2);
        assert((tiered(a) + b).last() == b.last());
        assert((a + b).last() == b.last());
    }
}

} // verus!

verus! {

/// Default medium-tier reminder threshold, in tenths of hits per minute.
pub const DEFAULT_MEDIUM_THRESHOLD_TENTHS_PER_MIN: u32 = 30;

/// A word holding some non-ASCII character goes to the Chinese list.
pub open spec fn non_ascii(w: Seq<char>) -> bool {
    exists|i: int| 0 <= i < w.len() && (w[i] as u32) >= 128
}

/// The words of `ws` that go to the Chinese list (`zh`) or to the English one.
pub open spec fn pick(ws: Seq<String>, zh: bool) -> Seq<String>
    decreases ws.len(),
{
    if ws.len() == 0 {
        seq![]
    } else if non_ascii(ws.last()@) == zh {
        pick(ws.drop_last(), zh).push(ws.last())
    } else {
        pick(ws.drop_last(), zh)
    }
}

fn is_non_ascii(w: &str) -> (r: bool)
    ensures
        r == non_ascii(w@),
{
    let v = crate::text::chars_of(w);
    let mut i: usize = 0;
    while i < v.len()
        invariant
            i <= v@.len(),
            v@ == w@,
            forall|k: int| 0 <= k < i ==> (v@[k] as u32) < 128,
        decreases v@.len() - i,
    {
        if (v[i] as u32) >= 128 {
            return true;
        }
        i = i + 1;
    }
    false
}

/// The custom words that go to one list, in order.
pub fn pick_custom(custom: &[String], zh: bool) -> (r: Vec<String>)
    ensures
        r@ == pick(custom@, zh),
{
    let mut r: Vec<String> = Vec::new();
    let mut i: usize = 0;
    assert(custom@.subrange(0, 0) =~= Seq::<String>::empty());
    while i < custom.len()
        invariant
            i <= custom@.len(),
            r@ == pick(custom@.subrange(0, i as int), zh),
        decreases custom@.len() - i,
    {
        assert(custom@.subrange(0, i + 1).drop_last() =~= custom@.subrange(0, i as int));
        assert(custom@.subrange(0, i + 1).last() == custom@[i as int]);
        if is_non_ascii(custom[i].as_str()) == zh {
            r.push(custom[i].clone());
        }
        i = i + 1;
    }
    assert(custom@.subrange(0, custom@.len() as int) =~= custom@);
    r
}

/// The filler words of one language with their tiers.
pub struct FillerLexicon {
    matcher: WordMatcher,
    tiers: Vec<(String, FillerTier)>,
}

pub open spec fn tier_views(ts: Seq<(String, FillerTier)>) -> Seq<(Seq<char>, FillerTier)> {
    ts.map_values(|e: (String, FillerTier)| (e.0@, e.1))
}

impl FillerLexicon {
    pub closed spec fn matcher(&self) -> WordMatcher {
        self.matcher
    }

    /// Word → tier, in merge order.
    pub closed spec fn tiers(&self) -> Seq<(Seq<char>, FillerTier)> {
        tier_views(self.tiers@)
    }

    /// Built from the high, medium and custom lists: the merged words, each
    /// with its first tier; the matcher runs over the merged words.
    pub open spec fn built_from(&self, high: Seq<String>, medium: Seq<String>, custom: Seq<String>) -> bool {
        let t = tiered(tag(high, FillerTier::High) + tag(medium, FillerTier::Medium) + tag(custom, FillerTier::Custom));
        &&& self.tiers() == t
        &&& built_over(self.matcher(), t.map_values(|e: (Seq<char>, FillerTier)| e.0))
    }

    pub fn new(high: &[String], medium: &[String], custom: &[String]) -> (r: Self)
        ensures
            r.built_from(high@, medium@, custom@),
    {
        let tiers = merge_filler_tiers(high, medium, custom);
        let mut words: Vec<String> = Vec::new();
        let mut i: usize = 0;
        while i < tiers.len()
            invariant
                i <= tiers@.len(),
                views(words@) == tier_views(tiers@).map_values(|e: (Seq<char>, FillerTier)| e.0).subrange(0, i as int),
            decreases tiers@.len() - i,
        {
            let ghost before = words@;
            words.push(tiers[i].0.clone());
            assert(views(words@) =~= views(before).push(tiers@[i as int].0@));
            assert(views(words@) =~= tier_views(tiers@).map_values(|e: (Seq<char>, FillerTier)| e.0).subrange(0, i + 1));
            i = i + 1;
        }
        assert(tier_views(tiers@).map_values(|e: (Seq<char>, FillerTier)| e.0).subrange(0, tiers@.len() as int)
            =~= tier_views(tiers@).map_values(|e: (Seq<char>, FillerTier)| e.0));
        FillerLexicon { matcher: WordMatcher::new(words), tiers }
    }

    /// The tier of a word (medium when it has none).
    fn tier_for(&self, w: &str) -> (r: FillerTier)
        ensures
            r == tier_of(self.tiers(), w@),
    {
        let ghost all = tier_views(self.tiers@);
        let mut i: usize = 0;
        assert(all.subrange(0, all.len() as int) =~= all);
        while i < self.tiers.len()
            invariant
                i <= self.tiers@.len(),
                all == tier_views(self.tiers@),
                lookup(all, w@) == lookup(all.subrange(i as int, all.len() as int), w@),
            decreases self.tiers@.len() - i,
        {
            let ghost sub = all.subrange(i as int, all.len() as int);
            assert(sub[0] == (self.tiers@[i as int].0@, self.tiers@[i as int].1));
            if str_eq(self.tiers[i].0.as_str(), w) {
                return self.tiers[i].1;
            }
            assert(sub.subrange(1, sub.len() as int) =~= all.subrange(i + 1, all.len() as int));
            i = i + 1;
        }
        assert(all.subrange(self.tiers@.len() as int, all.len() as int) =~= Seq::<(Seq<char>, FillerTier)>::empty());
        FillerTier::Medium
    }
}

/// The tier listed for `w`; medium when it has none.
pub open spec fn tier_of(ts: Seq<(Seq<char>, FillerTier)>, w: Seq<char>) -> FillerTier {
    match lookup(ts, w) {
        Some(t) => t,
        None => FillerTier::Medium,
    }
}

/// How often `w` occurs in `ws`.
pub open spec fn count_of(ws: Seq<Seq<char>>, w: Seq<char>) -> nat
    decreases ws.len(),
{
    if ws.len() == 0 {
        0
    } else {
        count_of(ws.drop_last(), w) + if ws.last() == w { 1nat } else { 0nat }
    }
}

/// Counts keyed by word, by view.
pub open spec fn count_entries(fc: Seq<(String, u32)>) -> Seq<(Seq<char>, u32)> {
    fc.map_values(|e: (String, u32)| (e.0@, e.1))
}

/// The count recorded for `w`; 0 when there is none.
pub open spec fn count_for(fc: Seq<(String, u32)>, w: Seq<char>) -> nat {
    match lookup(count_entries(fc), w) {
        Some(n) => n as nat,
        None => 0,
    }
}

/// The sum of all recorded counts.
pub open spec fn count_sum(fc: Seq<(String, u32)>) -> nat
    decreases fc.len(),
{
    if fc.len() == 0 {
        0
    } else {
        count_sum(fc.drop_last()) + (fc.last().1 as nat)
    }
}

/// One filler hit of a sentence, with the counts its reminder reports.
#[derive(Debug, Clone)]
pub struct FillerHit {
    pub word: String,
    pub tier: FillerTier,
    /// Hit by the English list (the reminder is worded in English).
    pub english: bool,
    /// Hits of this word in the sentence.
    pub count_in_sentence: u32,
    /// Hits of this word in the session, this sentence included.
    pub word_total: u32,
    /// Filler hits in the session up to and including this one.
    pub cumulative_total: u32,
}

/// Filler words: every hit of the tiered Chinese and English lists counts.
/// Medium-tier reminders are further gated by a per-minute rate, which the
/// caller applies to the hits.
pub struct FillerWordsRule {
    zh: FillerLexicon,
    en: FillerLexicon,
}

/// A scan from `pos` hits at most one word per remaining character.
pub proof fn lemma_scan_len(words: Seq<Seq<char>>, bnd: Seq<bool>, text: Seq<char>, pos: int)
    requires
        0 <= pos <= text.len(),
    ensures
        scan(words, bnd, text, pos).len() <= text.len() - pos,
    decreases text.len() - pos,
{
    if pos < text.len() {
        if exists|wi: int| chosen_at(words, bnd, text, pos, wi) {
            let wi = choose|wi: int| chosen_at(words, bnd, text, pos, wi);
            if words[wi].len() > 0 {
                lemma_scan_len(words, bnd, text, pos + words[wi].len());
            } else {
                lemma_scan_len(words, bnd, text, pos + 1);
            }
        } else {
            lemma_scan_len(words, bnd, text, pos + 1);
        }
    }
}

proof fn lemma_count_bound(ws: Seq<Seq<char>>, w: Seq<char>)
    ensures
        count_of(ws, w) <= ws.len(),
    decreases ws.len(),
{
    if ws.len() > 0 {
        lemma_count_bound(ws.drop_last(), w);
    }
}

pub proof fn lemma_count_for_bound(fc: Seq<(String, u32)>, w: Seq<char>)
    ensures
        count_for(fc, w) <= count_sum(fc),
    decreases fc.len(),
{
    if fc.len() > 0 {
        let es = count_entries(fc);
        if es[0].0 == w {
            lemma_sum_first(fc);
        } else {
            lemma_count_for_bound(fc.subrange(1, fc.len() as int), w);
            assert(count_entries(fc.subrange(1, fc.len() as int)) =~= es.subrange(1, es.len() as int));
            lemma_sum_first(fc);
        }
    }
}

pub proof fn lemma_sum_first(fc: Seq<(String, u32)>)
    requires
        fc.len() > 0,
    ensures
        count_sum(fc) == fc[0].1 + count_sum(fc.subrange(1, fc.len() as int)),
    decreases fc.len(),
{
    if fc.len() == 1 {
        assert(fc.drop_last() =~= Seq::<(String, u32)>::empty());
        assert(fc.subrange(1, 1) =~= Seq::<(String, u32)>::empty());
    } else {
        lemma_sum_first(fc.drop_last());
        assert(fc.drop_last().subrange(1, fc.len() - 1) =~= fc.subrange(1, fc.len() as int).drop_last());
    }
}

/// `h` is hit `i` of the sentence's hits `all`, of which the first `nz`
/// came from the Chinese list.
pub open spec fn hit_at(
    h: FillerHit,
    all: Seq<Seq<char>>,
    nz: int,
    i: int,
    zh: Seq<(Seq<char>, FillerTier)>,
    en: Seq<(Seq<char>, FillerTier)>,
    fc: Seq<(String, u32)>,
) -> bool {
    &&& h.word@ == all[i]
    &&& h.english == (i >= nz)
    &&& h.tier == tier_of(if i >= nz { en } else { zh }, all[i])
    &&& h.count_in_sentence == count_of(all, all[i])
    &&& h.word_total == count_for(fc, all[i]) + count_of(all, all[i])
    &&& h.cumulative_total == count_sum(fc) + i + 1
}

/// Hits of the Chinese list in a sentence (when its scripts call for it).
pub open spec fn zh_hits(f: FillerWordsRule, s: Sentence) -> Seq<Seq<char>> {
    hits_if(has_cjk_spec(s.text@), f.zh().matcher(), s.text@)
}

/// Number of hits of the Chinese list; they come first.
pub open spec fn zh_hit_count(f: FillerWordsRule, s: Sentence) -> int {
    zh_hits(f, s).len() as int
}

/// All hits of a sentence: the Chinese list's, then the English list's.
pub open spec fn sentence_hits(f: FillerWordsRule, s: Sentence) -> Seq<Seq<char>> {
    zh_hits(f, s) + hits_if(has_letter_spec(s.text@), f.en().matcher(), s.text@)
}

impl FillerWordsRule {
    pub closed spec fn zh(&self) -> FillerLexicon {
        self.zh
    }

    pub closed spec fn en(&self) -> FillerLexicon {
        self.en
    }

    pub closed spec fn wf(&self) -> bool {
        self.zh.matcher.wf() && self.en.matcher.wf()
    }

    /// Tiered lists for each language; custom words holding a non-ASCII
    /// character join the Chinese list, the others the English one, both
    /// as custom tier.
    pub fn new(zh_high: &[String], zh_medium: &[String], en_high: &[String], en_medium: &[String], custom: &[String]) -> (r: Self)
        ensures
            r.wf(),
            r.zh().built_from(zh_high@, zh_medium@, pick(custom@, true)),
            r.en().built_from(en_high@, en_medium@, pick(custom@, false)),
    {
        let custom_zh = pick_custom(custom, true);
        let custom_en = pick_custom(custom, false);
        FillerWordsRule {
            zh: FillerLexicon::new(zh_high, zh_medium, custom_zh.as_slice()),
            en: FillerLexicon::new(en_high, en_medium, custom_en.as_slice()),
        }
    }

    /// The lexicons' filler tiers plus the user's custom words.
    pub fn with_lexicon(zh: &LexiconV2, en: &LexiconEn, custom: &[String]) -> (r: Self)
        ensures
            r.wf(),
            r.zh().built_from(zh.fillers.high@, zh.fillers.medium@, pick(custom@, true)),
            r.en().built_from(en.fillers.high@, en.fillers.medium@, pick(custom@, false)),
    {
        FillerWordsRule::new(
            zh.fillers.high.as_slice(),
            zh.fillers.medium.as_slice(),
            en.fillers.high.as_slice(),
            en.fillers.medium.as_slice(),
            custom,
        )
    }

    /// Every hit of the sentence in order (the Chinese list's hits first,
    /// then the English list's, each list only when the sentence's scripts
    /// call for it), with its tier and counts.
    pub fn hits(&self, sentence: &Sentence, ctx: &SessionContext) -> (r: Vec<FillerHit>)
        requires
            self.wf(),
            count_sum(ctx.filler_counts@) + 2 * sentence.text@.len() <= u32::MAX,
        ensures
            r@.len() == sentence_hits(*self, *sentence).len(),
            forall|i: int| 0 <= i < r@.len() ==> hit_at(#[trigger] r@[i], sentence_hits(*self, *sentence), zh_hit_count(*self, *sentence), i, self.zh().tiers(), self.en().tiers(), ctx.filler_counts@),
    {
        let text = sentence.text.as_str();
        let (run_zh, run_en) = lexicon_routes(text);
        let mut all: Vec<&str> = if run_zh {
            self.zh.matcher.find_all(text)
        } else {
            Vec::new()
        };
        let nz = all.len();
        let mut en_hits: Vec<&str> = if run_en {
            self.en.matcher.find_all(text)
        } else {
            Vec::new()
        };
        let ghost zp = all@.map_values(|s: &str| s@);
        let ghost ep = en_hits@.map_values(|s: &str| s@);
        all.append(&mut en_hits);
        let ghost aw = all@.map_values(|s: &str| s@);
        proof {
            assert(aw =~= zp + ep);
            let t = text@;
            lemma_scan_len(self.zh.matcher.entries(), self.zh.matcher.modes(), t, 0);
            lemma_scan_len(self.en.matcher.entries(), self.en.matcher.modes(), t, 0);
            assert(zp.len() <= t.len());
            assert(ep.len() <= t.len());
        }
        let base = sum_counts(&ctx.filler_counts);
        assert(base + aw.len() <= u32::MAX);
        let mut out: Vec<FillerHit> = Vec::new();
        let mut i: usize = 0;
        while i < all.len()
            invariant
                i <= all@.len(),
                nz <= all@.len(),
                aw == all@.map_values(|s: &str| s@),
                base == count_sum(ctx.filler_counts@),
                base + aw.len() <= u32::MAX,
                out@.len() == i,
                forall|k: int| 0 <= k < i ==> hit_at(#[trigger] out@[k], aw, nz as int, k, self.zh().tiers(), self.en().tiers(), ctx.filler_counts@),
            decreases all@.len() - i,
        {
            let w = all[i];
            let english = i >= nz;
            let tier = if english {
                self.en.tier_for(w)
            } else {
                self.zh.tier_for(w)
            };
            let n = count_in(all.as_slice(), w);
            let prior = count_in_ctx(&ctx.filler_counts, w);
            proof {
                lemma_count_bound(aw, w@);
                lemma_count_for_bound(ctx.filler_counts@, w@);
            }
            out.push(FillerHit {
                word: lit(w),
                tier,
                english,
                count_in_sentence: n as u32,
                word_total: (prior as u64 + n as u64) as u32,
                cumulative_total: (base as u64 + i as u64 + 1) as u32,
            });
            i = i + 1;
        }
        out
    }
}

/// How often `w` occurs in `ws`.
fn count_in(ws: &[&str], w: &str) -> (r: usize)
    ensures
        r == count_of(ws@.map_values(|s: &str| s@), w@),
{
    let ghost all = ws@.map_values(|s: &str| s@);
    let mut n: usize = 0;
    let mut i: usize = 0;
    assert(all.subrange(0, 0) =~= Seq::<Seq<char>>::empty());
    while i < ws.len()
        invariant
            i <= ws@.len(),
            all == ws@.map_values(|s: &str| s@),
            n == count_of(all.subrange(0, i as int), w@),
            n <= i,
        decreases ws@.len() - i,
    {
        assert(all.subrange(0, i + 1).drop_last() =~= all.subrange(0, i as int));
        if str_eq(ws[i], w) {
            n = n + 1;
        }
        i = i + 1;
    }
    assert(all.subrange(0, ws@.len() as int) =~= all);
    n
}

/// The count recorded for `w`.
fn count_in_ctx(fc: &Vec<(String, u32)>, w: &str) -> (r: u32)
    ensures
        r == count_for(fc@, w@),
{
    let ghost all = count_entries(fc@);
    let mut i: usize = 0;
    assert(all.subrange(0, all.len() as int) =~= all);
    while i < fc.len()
        invariant
            i <= fc@.len(),
            all == count_entries(fc@),
            lookup(all, w@) == lookup(all.subrange(i as int, all.len() as int), w@),
        decreases fc@.len() - i,
    {
        let ghost sub = all.subrange(i as int, all.len() as int);
        assert(sub[0] == (fc@[i as int].0@, fc@[i as int].1));
        if str_eq(fc[i].0.as_str(), w) {
            return fc[i].1;
        }
        assert(sub.subrange(1, sub.len() as int) =~= all.subrange(i + 1, all.len() as int));
        i = i + 1;
    }
    assert(all.subrange(fc@.len() as int, all.len() as int) =~= Seq::<(Seq<char>, u32)>::empty());
    0
}

/// The sum of the recorded counts (as u64: it is at most the count of
/// entries times `u32::MAX`).
fn sum_counts(fc: &Vec<(String, u32)>) -> (r: u64)
    requires
        count_sum(fc@) <= u32::MAX,
    ensures
        r == count_sum(fc@),
{
    let mut s: u64 = 0;
    let mut i: usize = 0;
    assert(fc@.subrange(0, 0) =~= Seq::<(String, u32)>::empty());
    while i < fc.len()
        invariant
            i <= fc@.len(),
            count_sum(fc@) <= u32::MAX,
            s == count_sum(fc@.subrange(0, i as int)),
        decreases fc@.len() - i,
    {
        assert(fc@.subrange(0, i + 1).drop_last() =~= fc@.subrange(0, i as int));
        proof {
            lemma_sum_prefix(fc@, i + 1);
        }
        s = s + fc[i].1 as u64;
        i = i + 1;
    }
    assert(fc@.subrange(0, fc@.len() as int) =~= fc@);
    s
}

proof fn lemma_sum_prefix(fc: Seq<(String, u32)>, j: int)
    requires
        0 <= j <= fc.len(),
    ensures
        count_sum(fc.subrange(0, j)) <= count_sum(fc),
    decreases fc.len() - j,
{
    if j < fc.len() {
        lemma_sum_prefix(fc.drop_last(), j);
        assert(fc.drop_last().subrange(0, j) =~= fc.subrange(0, j));
    } else {
        assert(fc.subrange(0, j) =~= fc);
    }
}

} // verus!
