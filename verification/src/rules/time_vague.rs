//! Vague time words (最近, 回头, 过几天…): a gentle reminder with a way to
//! make the time concrete, each word at most once per session. Only Chinese
//! sentences are checked: the word list is Chinese.
use vstd::prelude::*;
use crate::rules::{FeedbackEvent, FeedbackKind, Payload, Sentence, SessionContext};
use crate::rules::lang::{detect_lang, SentenceLang, lang_of, script_counts};
use crate::rules::lexicon::{WordMatcher, LexiconV2, hit_words, dedup, built_from, lookup, text_entries, keys_of, text_for};
use crate::rules::precision::fresh;
use crate::text::{views, push_str, str_eq, lit};

verus! {

/// Metadata key of the lexicon's time and hedge maps; not a word.
pub const META_DESCRIPTION_KEY: &'static str = "description";

/// The entries of a map other than its `description` entry, in order.
pub open spec fn without_meta(es: Seq<(String, String)>) -> Seq<(String, String)>
    decreases es.len(),
{
    if es.len() == 0 {
        seq![]
    } else if es.last().0@ == "description"@ {
        without_meta(es.drop_last())
    } else {
        without_meta(es.drop_last()).push(es.last())
    }
}

/// The entries of a map other than its `description` entry.
pub fn skip_meta(es: &[(String, String)]) -> (r: Vec<(String, String)>)
    ensures
        r@ == without_meta(es@),
{
    let mut r: Vec<(String, String)> = Vec::new();
    let mut i: usize = 0;
    assert(es@.subrange(0, 0) =~= Seq::<(String, String)>::empty());
    while i < es.len()
        invariant
            i <= es@.len(),
            r@ == without_meta(es@.subrange(0, i as int)),
        decreases es@.len() - i,
    {
        assert(es@.subrange(0, i + 1).drop_last() =~= es@.subrange(0, i as int));
        assert(es@.subrange(0, i + 1).last() == es@[i as int]);
        if !str_eq(es[i].0.as_str(), META_DESCRIPTION_KEY) {
            r.push((es[i].0.clone(), es[i].1.clone()));
        }
        i = i + 1;
    }
    assert(es@.subrange(0, es@.len() as int) =~= es@);
    r
}

impl LexiconV2 {
    /// The time map's word entries (its `description` entry left out).
    pub fn time_vague_entries(&self) -> (r: Vec<(String, String)>)
        ensures
            r@ == without_meta(self.time_vague@),
    {
        skip_meta(self.time_vague.as_slice())
    }

    /// The hedge → direct map's entries (its `description` entry left out).
    pub fn hedge_to_direct_entries(&self) -> (r: Vec<(String, String)>)
        ensures
            r@ == without_meta(self.hedge_to_direct_map@),
    {
        skip_meta(self.hedge_to_direct_map.as_slice())
    }
}

/// Whether a text reads as Chinese (30% rule).
pub open spec fn is_chinese(t: Seq<char>) -> bool {
    lang_of(script_counts(t).0, script_counts(t).1, SentenceLang::Neutral) == SentenceLang::Chinese
}

/// The suggestion listed for `w`, empty when it has no entry.
pub open spec fn suggestion_of(es: Seq<(Seq<char>, Seq<char>)>, w: Seq<char>) -> Seq<char> {
    match lookup(es, w) {
        Some(v) => v,
        None => seq![],
    }
}

/// `e` reminds of the vague time word `w` in sentence `id`.
pub open spec fn time_vague_event(e: FeedbackEvent, id: u64, w: Seq<char>, es: Seq<(Seq<char>, Seq<char>)>) -> bool {
    &&& e.kind == FeedbackKind::TimeVague
    &&& e.sentence_id == Some(id)
    &&& e.message@ == "时间有点模糊：「"@ + w + "」可以更具体"@
    &&& e.payload matches Payload::TimeVague { word, suggestion } && word@ == w && suggestion@ == suggestion_of(es, w)
}

pub struct TimeVagueRule {
    matcher: WordMatcher,
    suggestions: Vec<(String, String)>,
    reminded: Vec<String>,
}

impl TimeVagueRule {
    pub closed spec fn matcher(&self) -> WordMatcher {
        self.matcher
    }

    pub closed spec fn entries(&self) -> Seq<(Seq<char>, Seq<char>)> {
        text_entries(self.suggestions@)
    }

    /// Words already reminded of this session.
    pub closed spec fn reminded(&self) -> Seq<Seq<char>> {
        views(self.reminded@)
    }

    pub closed spec fn wf(&self) -> bool {
        self.matcher.wf()
    }

    /// A rule over the given word → suggestion entries, nothing reminded yet.
    pub fn new(entries: Vec<(String, String)>) -> (r: Self)
        ensures
            r.wf(),
            built_from(r.matcher(), keys_of(entries@)),
            r.entries() == text_entries(entries@),
            r.reminded().len() == 0,
    {
        let mut words: Vec<String> = Vec::new();
        let mut i: usize = 0;
        while i < entries.len()
            invariant
                i <= entries@.len(),
                words@ == keys_of(entries@).subrange(0, i as int),
            decreases entries@.len() - i,
        {
            words.push(entries[i].0.clone());
            assert(words@ =~= keys_of(entries@).subrange(0, i + 1));
            i = i + 1;
        }
        assert(keys_of(entries@).subrange(0, entries@.len() as int) =~= keys_of(entries@));
        TimeVagueRule { matcher: WordMatcher::new(words), suggestions: entries, reminded: Vec::new() }
    }

    /// A rule over the lexicon's time words.
    pub fn from_lexicon(lex: &LexiconV2) -> (r: Self)
        ensures
            r.wf(),
            built_from(r.matcher(), keys_of(without_meta(lex.time_vague@))),
            r.entries() == text_entries(without_meta(lex.time_vague@)),
            r.reminded().len() == 0,
    {
        TimeVagueRule::new(lex.time_vague_entries())
    }

    /// For a Chinese sentence, the distinct vague time words not reminded of
    /// before, one reminder each with its suggestion; other sentences are
    /// skipped.
    pub fn on_sentence(&mut self, sentence: &Sentence, ctx: &SessionContext) -> (r: Vec<FeedbackEvent>)
        requires
            old(self).wf(),
        ensures
            time_vague_step(*old(self), *sentence, *final(self), r@),
    {
        let text = sentence.text.as_str();
        let ghost s0 = views(self.reminded@);
        if detect_lang(text) != SentenceLang::Chinese {
            assert(s0 + Seq::<Seq<char>>::empty() =~= s0);
            return Vec::new();
        }
        let words = self.matcher.find_distinct(text);
        let ghost ws = words@.map_values(|s: &str| s@);
        let mut events: Vec<FeedbackEvent> = Vec::new();
        let mut i: usize = 0;
        assert(ws.subrange(0, 0) =~= Seq::<Seq<char>>::empty());
        assert(s0 + Seq::<Seq<char>>::empty() =~= s0);
        while i < words.len()
            invariant
                i <= words@.len(),
                self.wf(),
                self.matcher == old(self).matcher,
                self.suggestions == old(self).suggestions,
                ws == words@.map_values(|s: &str| s@),
                s0 == views(old(self).reminded@),
                views(self.reminded@) == s0 + fresh(ws.subrange(0, i as int), s0),
                events@.len() == fresh(ws.subrange(0, i as int), s0).len(),
                forall|k: int| 0 <= k < events@.len() ==> time_vague_event(#[trigger] events@[k], sentence.id, fresh(ws.subrange(0, i as int), s0)[k], text_entries(self.suggestions@)),
            decreases words@.len() - i,
        {
            let w = words[i];
            let ghost f = fresh(ws.subrange(0, i as int), s0);
            proof {
                assert(ws.subrange(0, i + 1).drop_last() =~= ws.subrange(0, i as int));
                assert(ws.subrange(0, i + 1).last() == w@);
            }
            let mut seen = false;
            let mut j: usize = 0;
            while j < self.reminded.len()
                invariant
                    j <= self.reminded@.len(),
                    seen == (exists|k: int| 0 <= k < j && (#[trigger] self.reminded@[k])@ == w@),
                decreases self.reminded@.len() - j,
            {
                if str_eq(self.reminded[j].as_str(), w) {
                    seen = true;
                }
                j = j + 1;
            }
            proof {
                let d = views(self.reminded@);
                if seen {
                    let k = choose|k: int| 0 <= k < self.reminded@.len() && (#[trigger] self.reminded@[k])@ == w@;
                    assert(d[k] == w@);
                    assert(d.contains(w@));
                } else {
                    assert forall|k: int| 0 <= k < d.len() implies d[k] != w@ by {
                        assert(d[k] == self.reminded@[k]@);
                    }
                    assert(!d.contains(w@));
                }
            }
            if !seen {
                let ghost before = self.reminded@;
                self.reminded.push(lit(w));
                assert(views(self.reminded@) =~= views(before).push(w@));
                let suggestion = text_for(self.suggestions.as_slice(), w);
                let mut message = String::new();
                push_str(&mut message, "时间有点模糊：「");
                push_str(&mut message, w);
                push_str(&mut message, "」可以更具体");
                let ev = FeedbackEvent {
                    kind: FeedbackKind::TimeVague,
                    sentence_id: Some(sentence.id),
                    message,
                    payload: Payload::TimeVague { word: lit(w), suggestion },
                };
                let ghost eb = events@;
                events.push(ev);
                proof {
                    let f2 = fresh(ws.subrange(0, i + 1), s0);
                    assert(f2 == f.push(w@));
                    assert(views(self.reminded@) =~= s0 + f2);
                    assert forall|k: int| 0 <= k < events@.len() implies time_vague_event(#[trigger] events@[k], sentence.id, f2[k], text_entries(self.suggestions@)) by {
                        if k < events@.len() - 1 {
                            assert(events@[k] == eb[k]);
                        }
                    }
                }
            } else {
                proof {
                    let f2 = fresh(ws.subrange(0, i + 1), s0);
                    assert(f2 == f);
                }
            }
            i = i + 1;
        }
        assert(ws.subrange(0, words@.len() as int) =~= ws);
        events
    }
}


/// What the time rule does on sentence `s`, from state `a` to state `b`,
/// producing `r`.
pub open spec fn time_vague_step(a: TimeVagueRule, s: Sentence, b: TimeVagueRule, r: Seq<FeedbackEvent>) -> bool {
    &&& b.wf()
    &&& b.matcher() == a.matcher()
    &&& b.entries() == a.entries()
    &&& ({
        let t = s.text@;
        let s0 = a.reminded();
        let f = if is_chinese(t) {
            fresh(dedup(hit_words(a.matcher().entries(), a.matcher().modes(), t)), s0)
        } else {
            seq![]
        };
        &&& b.reminded() == s0 + f
        &&& r.len() == f.len()
        &&& forall|i: int| 0 <= i < f.len() ==> time_vague_event(#[trigger] r[i], s.id, f[i], a.entries())
    })
}

} // verus!
