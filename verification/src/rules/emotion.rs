//! Emotion words: each distinct emotion word of a sentence is reported with
//! its category and intensity (1–9), longest word first at each position.
use vstd::prelude::*;
use crate::rules::{FeedbackEvent, FeedbackKind, Payload, Sentence, SessionContext};
use crate::rules::lexicon::{WordMatcher, LexiconV2, EmotionGroup, hit_words, dedup, built_from, lookup};
use crate::text::{views, dec, push_str, push_dec, str_eq, lit, chars_of};

verus! {

/// An emotion entry: word, category, intensity.
pub type EmotionEntry = (String, String, u8);

/// The entry's word length in characters.
pub open spec fn word_len(e: EmotionEntry) -> nat {
    e.0@.len()
}

/// Stable insertion of `e` into a list kept longest word first: `e` goes
/// after every entry at least as long.
pub open spec fn insert_by_len(s: Seq<EmotionEntry>, e: EmotionEntry) -> Seq<EmotionEntry>
    decreases s.len(),
{
    if s.len() == 0 {
        seq![e]
    } else if word_len(s.last()) < word_len(e) {
        insert_by_len(s.drop_last(), e).push(s.last())
    } else {
        s.push(e)
    }
}

/// A stable sort, longest word first.
pub open spec fn sort_by_len(s: Seq<EmotionEntry>) -> Seq<EmotionEntry>
    decreases s.len(),
{
    if s.len() == 0 {
        seq![]
    } else {
        insert_by_len(sort_by_len(s.drop_last()), s.last())
    }
}

/// The entries of every category, in order, words of a category in order.
pub open spec fn flatten_groups(gs: Seq<(String, EmotionGroup)>) -> Seq<EmotionEntry>
    decreases gs.len(),
{
    if gs.len() == 0 {
        seq![]
    } else {
        let (cat, g) = gs.last();
        flatten_groups(gs.drop_last()) + g.words@.map_values(|w: (String, u8)| (w.0, cat, w.1))
    }
}

/// Where `insert_by_len` puts `e`: after the entries at least as long,
/// counted from the back.
proof fn lemma_insert_by_len(s: Seq<EmotionEntry>, e: EmotionEntry, p: int)
    requires
        0 <= p <= s.len(),
        forall|k: int| p <= k < s.len() ==> word_len(#[trigger] s[k]) < word_len(e),
        p == 0 || word_len(s[p - 1]) >= word_len(e),
    ensures
        insert_by_len(s, e) == s.insert(p, e),
    decreases s.len(),
{
    if s.len() == 0 {
        assert(s.insert(p, e) =~= seq![e]);
    } else if p == s.len() {
        assert(s.insert(p, e) =~= s.push(e));
    } else {
        lemma_insert_by_len(s.drop_last(), e, p);
        assert(s.insert(p, e) =~= s.drop_last().insert(p, e).push(s.last()));
    }
}

fn char_len(s: &String) -> (r: usize)
    ensures
        r == s@.len(),
{
    chars_of(s.as_str()).len()
}

fn insert_sorted(v: &mut Vec<EmotionEntry>, e: EmotionEntry)
    ensures
        final(v)@ == insert_by_len(old(v)@, e),
{
    let n = char_len(&e.0);
    let mut p = v.len();
    while p > 0 && char_len(&v[p - 1].0) < n
        invariant
            p <= v@.len(),
            n == word_len(e),
            forall|k: int| p <= k < v@.len() ==> word_len(#[trigger] v@[k]) < word_len(e),
        decreases p,
    {
        p = p - 1;
    }
    proof {
        lemma_insert_by_len(v@, e, p as int);
    }
    v.insert(p, e);
}

fn sort_entries(s: &Vec<EmotionEntry>) -> (r: Vec<EmotionEntry>)
    ensures
        r@ == sort_by_len(s@),
{
    let mut r: Vec<EmotionEntry> = Vec::new();
    let mut i: usize = 0;
    assert(s@.subrange(0, 0) =~= Seq::<EmotionEntry>::empty());
    while i < s.len()
        invariant
            i <= s@.len(),
            r@ == sort_by_len(s@.subrange(0, i as int)),
        decreases s@.len() - i,
    {
        assert(s@.subrange(0, i + 1).drop_last() =~= s@.subrange(0, i as int));
        let e = (s[i].0.clone(), s[i].1.clone(), s[i].2);
        assert(e == s@[i as int]);
        insert_sorted(&mut r, e);
        i = i + 1;
    }
    assert(s@.subrange(0, s@.len() as int) =~= s@);
    r
}

impl LexiconV2 {
    /// Every emotion word with its category and intensity, longest word
    /// first, ties in lexicon order.
    pub fn emotion_entries(&self) -> (r: Vec<EmotionEntry>)
        ensures
            r@ == sort_by_len(flatten_groups(self.emotion_words@)),
    {
        let gs = &self.emotion_words;
        let mut flat: Vec<EmotionEntry> = Vec::new();
        let mut i: usize = 0;
        assert(gs@.subrange(0, 0) =~= Seq::<(String, EmotionGroup)>::empty());
        while i < gs.len()
            invariant
                i <= gs@.len(),
                flat@ == flatten_groups(gs@.subrange(0, i as int)),
            decreases gs@.len() - i,
        {
            let cat = &gs[i].0;
            let ws = &gs[i].1.words;
            let ghost before = flat@;
            let mut j: usize = 0;
            while j < ws.len()
                invariant
                    j <= ws@.len(),
                    flat@ == before + ws@.subrange(0, j as int).map_values(|w: (String, u8)| (w.0, *cat, w.1)),
                decreases ws@.len() - j,
            {
                flat.push((ws[j].0.clone(), cat.clone(), ws[j].1));
                assert(flat@ =~= before + ws@.subrange(0, j + 1).map_values(|w: (String, u8)| (w.0, *cat, w.1)));
                j = j + 1;
            }
            proof {
                let sub = gs@.subrange(0, i + 1);
                assert(sub.drop_last() =~= gs@.subrange(0, i as int));
                assert(sub.last() == gs@[i as int]);
                assert(ws@.subrange(0, ws@.len() as int) =~= ws@);
            }
            i = i + 1;
        }
        assert(gs@.subrange(0, gs@.len() as int) =~= gs@);
        sort_entries(&flat)
    }
}

/// Entries keyed by word, valued (category, intensity).
pub open spec fn info_entries(es: Seq<EmotionEntry>) -> Seq<(Seq<char>, (Seq<char>, u8))> {
    es.map_values(|e: EmotionEntry| (e.0@, (e.1@, e.2)))
}

/// The distinct hit words that have an entry, with their category and
/// intensity.
pub open spec fn with_info(ws: Seq<Seq<char>>, info: Seq<(Seq<char>, (Seq<char>, u8))>) -> Seq<(Seq<char>, Seq<char>, u8)>
    decreases ws.len(),
{
    if ws.len() == 0 {
        seq![]
    } else {
        let rest = with_info(ws.drop_last(), info);
        match lookup(info, ws.last()) {
            Some(ci) => rest.push((ws.last(), ci.0, ci.1)),
            None => rest,
        }
    }
}

/// `e` reports emotion word `w` of category `c` and intensity `n` in sentence `id`.
pub open spec fn emotion_event(e: FeedbackEvent, id: u64, w: Seq<char>, c: Seq<char>, n: u8) -> bool {
    &&& e.kind == FeedbackKind::Emotion
    &&& e.sentence_id == Some(id)
    &&& e.message@ == "情感词「"@ + w + "」（"@ + c + "，强度 "@ + dec(n as nat) + "）"@
    &&& e.payload matches Payload::Emotion { word, category, intensity } && word@ == w && category@ == c
        && intensity == n
}

pub struct EmotionRule {
    matcher: WordMatcher,
    info: Vec<EmotionEntry>,
}

impl EmotionRule {
    pub closed spec fn matcher(&self) -> WordMatcher {
        self.matcher
    }

    pub closed spec fn info(&self) -> Seq<(Seq<char>, (Seq<char>, u8))> {
        info_entries(self.info@)
    }

    pub closed spec fn wf(&self) -> bool {
        self.matcher.wf()
    }

    /// A rule over the given (word, category, intensity) entries.
    pub fn new(entries: Vec<EmotionEntry>) -> (r: Self)
        ensures
            r.wf(),
            built_from(r.matcher(), entries@.map_values(|e: EmotionEntry| e.0)),
            r.info() == info_entries(entries@),
    {
        let mut words: Vec<String> = Vec::new();
        let mut i: usize = 0;
        while i < entries.len()
            invariant
                i <= entries@.len(),
                words@ == entries@.map_values(|e: EmotionEntry| e.0).subrange(0, i as int),
            decreases entries@.len() - i,
        {
            words.push(entries[i].0.clone());
            assert(words@ =~= entries@.map_values(|e: EmotionEntry| e.0).subrange(0, i + 1));
            i = i + 1;
        }
        assert(entries@.map_values(|e: EmotionEntry| e.0).subrange(0, entries@.len() as int) =~= entries@.map_values(
            |e: EmotionEntry| e.0,
        ));
        EmotionRule { matcher: WordMatcher::new(words), info: entries }
    }

    /// A rule over the lexicon's emotion words.
    pub fn from_lexicon(lex: &LexiconV2) -> (r: Self)
        ensures
            r.wf(),
            ({
                let es = sort_by_len(flatten_groups(lex.emotion_words@));
                &&& built_from(r.matcher(), es.map_values(|e: EmotionEntry| e.0))
                &&& r.info() == info_entries(es)
            }),
    {
        EmotionRule::new(lex.emotion_entries())
    }

    /// One event for each distinct emotion word of the sentence, in order of
    /// appearance.
    pub fn on_sentence(&mut self, sentence: &Sentence, ctx: &SessionContext) -> (r: Vec<FeedbackEvent>)
        requires
            old(self).wf(),
        ensures
            emotion_step(*old(self), *sentence, *final(self), r@),
    {
        let words = self.matcher.find_distinct(sentence.text.as_str());
        let ghost ws = words@.map_values(|s: &str| s@);
        let ghost info = info_entries(self.info@);
        let mut events: Vec<FeedbackEvent> = Vec::new();
        let mut i: usize = 0;
        assert(ws.subrange(0, 0) =~= Seq::<Seq<char>>::empty());
        while i < words.len()
            invariant
                i <= words@.len(),
                ws == words@.map_values(|s: &str| s@),
                info == info_entries(self.info@),
                events@.len() == with_info(ws.subrange(0, i as int), info).len(),
                forall|k: int| 0 <= k < events@.len() ==> emotion_event(#[trigger] events@[k], sentence.id, with_info(ws.subrange(0, i as int), info)[k].0, with_info(ws.subrange(0, i as int), info)[k].1, with_info(ws.subrange(0, i as int), info)[k].2),
            decreases words@.len() - i,
        {
            let w = words[i];
            proof {
                assert(ws.subrange(0, i + 1).drop_last() =~= ws.subrange(0, i as int));
                assert(ws.subrange(0, i + 1).last() == w@);
            }
            let ghost prev = with_info(ws.subrange(0, i as int), info);
            match self.find_info(w) {
                Some(k) => {
                    let cat = &self.info[k].1;
                    let n = self.info[k].2;
                    let mut message = String::new();
                    push_str(&mut message, "情感词「");
                    push_str(&mut message, w);
                    push_str(&mut message, "」（");
                    push_str(&mut message, cat.as_str());
                    push_str(&mut message, "，强度 ");
                    push_dec(&mut message, n as u64);
                    push_str(&mut message, "）");
                    let ev = FeedbackEvent {
                        kind: FeedbackKind::Emotion,
                        sentence_id: Some(sentence.id),
                        message,
                        payload: Payload::Emotion { word: lit(w), category: cat.clone(), intensity: n },
                    };
                    let ghost eb = events@;
                    events.push(ev);
                    proof {
                        let cur = with_info(ws.subrange(0, i + 1), info);
                        assert(cur == prev.push((w@, cat@, n)));
                        assert forall|j: int| 0 <= j < events@.len() implies emotion_event(#[trigger] events@[j], sentence.id, cur[j].0, cur[j].1, cur[j].2) by {
                            if j < events@.len() - 1 {
                                assert(events@[j] == eb[j]);
                            }
                        }
                    }
                },
                None => {
                    proof {
                        assert(with_info(ws.subrange(0, i + 1), info) == prev);
                    }
                },
            }
            i = i + 1;
        }
        assert(ws.subrange(0, words@.len() as int) =~= ws);
        events
    }

    /// Index of the first entry for `w`.
    fn find_info(&self, w: &str) -> (r: Option<usize>)
        ensures
            match r {
                Some(k) => k < self.info@.len() && lookup(self.info(), w@) == Some(
                    (self.info@[k as int].1@, self.info@[k as int].2),
                ),
                None => lookup(self.info(), w@) is None,
            },
    {
        let ghost all = info_entries(self.info@);
        let mut i: usize = 0;
        assert(all.subrange(0, all.len() as int) =~= all);
        while i < self.info.len()
            invariant
                i <= self.info@.len(),
                all == info_entries(self.info@),
                lookup(all, w@) == lookup(all.subrange(i as int, all.len() as int), w@),
            decreases self.info@.len() - i,
        {
            let ghost sub = all.subrange(i as int, all.len() as int);
            assert(sub[0] == (self.info@[i as int].0@, (self.info@[i as int].1@, self.info@[i as int].2)));
            if str_eq(self.info[i].0.as_str(), w) {
                return Some(i);
            }
            assert(sub.subrange(1, sub.len() as int) =~= all.subrange(i + 1, all.len() as int));
            i = i + 1;
        }
        assert(all.subrange(self.info@.len() as int, all.len() as int) =~= Seq::<(Seq<char>, (Seq<char>, u8))>::empty());
        None
    }
}


/// What the emotion rule does on sentence `s`, from state `a` to state `b`,
/// producing `r`.
pub open spec fn emotion_step(a: EmotionRule, s: Sentence, b: EmotionRule, r: Seq<FeedbackEvent>) -> bool {
    &&& b == a
    &&& ({
        let hs = with_info(
            dedup(hit_words(a.matcher().entries(), a.matcher().modes(), s.text@)),
            a.info(),
        );
        &&& r.len() == hs.len()
        &&& forall|i: int| 0 <= i < hs.len() ==> emotion_event(#[trigger] r[i], s.id, hs[i].0, hs[i].1, hs[i].2)
    })
}

} // verus!
