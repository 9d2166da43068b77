//! Word precision: vague words ("very", 很好, 东西…) get more precise
//! alternatives, each word at most once per session. Chinese and English
//! lists are routed by the scripts a sentence holds.
use vstd::prelude::*;
use crate::rules::{FeedbackEvent, FeedbackKind, Payload, Sentence, SessionContext};
use crate::rules::lang::{lexicon_routes, has_cjk_spec, has_letter_spec};
use crate::rules::lexicon::{
    WordMatcher, LexiconV2, LexiconEn, hit_words, dedup, built_from, lookup, list_entries, keys_of,
    list_for, list_keys, clone_list_entries,
};
use crate::rules::hedge::hits_if;
use crate::text::{join, views, push_str, push_join, str_eq, lit};

verus! {

/// The words of `ws` not seen before: neither in `seen` nor earlier in `ws`.
pub open spec fn fresh(ws: Seq<Seq<char>>, seen: Seq<Seq<char>>) -> Seq<Seq<char>>
    decreases ws.len(),
{
    if ws.len() == 0 {
        seq![]
    } else {
        let f = fresh(ws.drop_last(), seen);
        if (seen + f).contains(ws.last()) {
            f
        } else {
            f.push(ws.last())
        }
    }
}

/// The alternatives listed for `w`, none when it has no entry.
pub open spec fn alternatives_of(es: Seq<(Seq<char>, Seq<Seq<char>>)>, w: Seq<char>) -> Seq<Seq<char>> {
    match lookup(es, w) {
        Some(v) => v,
        None => seq![],
    }
}

/// The suggestion text for `w`.
pub open spec fn precision_message(english: bool, w: Seq<char>, alts: Seq<Seq<char>>) -> Seq<char> {
    if english {
        if alts.len() == 0 {
            "'"@ + w + "' could be more precise"@
        } else {
            "'"@ + w + "' → "@ + join(alts, ", "@)
        }
    } else {
        "「"@ + w + "」可以更精确"@
    }
}

/// `e` suggests alternatives for `w` in sentence `id`.
pub open spec fn precision_event(
    e: FeedbackEvent,
    id: u64,
    w: Seq<char>,
    english: bool,
    es: Seq<(Seq<char>, Seq<Seq<char>>)>,
) -> bool {
    &&& e.kind == FeedbackKind::WordPrecision
    &&& e.sentence_id == Some(id)
    &&& e.message@ == precision_message(english, w, alternatives_of(es, w))
    &&& e.payload matches Payload::Precision { original, alternatives } && original@ == w && views(
        alternatives@,
    ) == alternatives_of(es, w)
}

/// The vague words of one language and their alternatives.
pub struct PrecLexicon {
    matcher: WordMatcher,
    alternatives: Vec<(String, Vec<String>)>,
}

impl PrecLexicon {
    pub closed spec fn matcher(&self) -> WordMatcher {
        self.matcher
    }

    pub closed spec fn entries(&self) -> Seq<(Seq<char>, Seq<Seq<char>>)> {
        list_entries(self.alternatives@)
    }

    /// Matches the keys of `es`; alternatives come from `es`.
    pub open spec fn built_from(&self, es: Seq<(String, Vec<String>)>) -> bool {
        &&& built_from(self.matcher(), keys_of(es))
        &&& self.entries() == list_entries(es)
    }

    pub fn new(es: &[(String, Vec<String>)]) -> (r: Self)
        ensures
            r.built_from(es@),
    {
        let words = list_keys(es);
        PrecLexicon { matcher: WordMatcher::new(words), alternatives: clone_list_entries(es) }
    }
}

pub struct PrecisionRule {
    zh: PrecLexicon,
    en: PrecLexicon,
    suggested: Vec<String>,
}

impl PrecisionRule {
    pub closed spec fn zh(&self) -> PrecLexicon {
        self.zh
    }

    pub closed spec fn en(&self) -> PrecLexicon {
        self.en
    }

    /// Words already suggested this session.
    pub closed spec fn suggested(&self) -> Seq<Seq<char>> {
        views(self.suggested@)
    }

    pub closed spec fn wf(&self) -> bool {
        self.zh.matcher.wf() && self.en.matcher.wf()
    }

    /// A rule over the given Chinese and English vague-word maps, nothing
    /// suggested yet.
    pub fn new(zh: &[(String, Vec<String>)], en: &[(String, Vec<String>)]) -> (r: Self)
        ensures
            r.wf(),
            r.zh().built_from(zh@),
            r.en().built_from(en@),
            r.suggested().len() == 0,
    {
        PrecisionRule { zh: PrecLexicon::new(zh), en: PrecLexicon::new(en), suggested: Vec::new() }
    }

    /// A rule over the vague-word maps of the two lexicons.
    pub fn from_lexicon(zh: &LexiconV2, en: &LexiconEn) -> (r: Self)
        ensures
            r.wf(),
            r.zh().built_from(zh.vague_to_precise@),
            r.en().built_from(en.vague_to_precise@),
            r.suggested().len() == 0,
    {
        PrecisionRule::new(zh.vague_to_precise.as_slice(), en.vague_to_precise.as_slice())
    }

    /// The distinct vague words of a sentence not suggested before (the
    /// Chinese list first, then the English one, each only when the
    /// sentence's scripts call for it), one suggestion each; they join the
    /// suggested words.
    pub fn on_sentence(&mut self, sentence: &Sentence, ctx: &SessionContext) -> (r: Vec<FeedbackEvent>)
        requires
            old(self).wf(),
        ensures
            precision_step(*old(self), *sentence, *final(self), r@),
    {
        let text = sentence.text.as_str();
        let (run_zh, run_en) = lexicon_routes(text);
        let mut events: Vec<FeedbackEvent> = Vec::new();
        let zh_words: Vec<&str> = if run_zh {
            self.zh.matcher.find_distinct(text)
        } else {
            Vec::new()
        };
        suggest(&self.zh, &mut self.suggested, zh_words.as_slice(), false, sentence.id, &mut events);
        let en_words: Vec<&str> = if run_en {
            self.en.matcher.find_distinct(text)
        } else {
            Vec::new()
        };
        suggest(&self.en, &mut self.suggested, en_words.as_slice(), true, sentence.id, &mut events);
        events
    }
}

/// Suggests each word of `words` not in `suggested` yet, recording it there.
fn suggest(
    lex: &PrecLexicon,
    suggested: &mut Vec<String>,
    words: &[&str],
    english: bool,
    id: u64,
    events: &mut Vec<FeedbackEvent>,
)
    ensures
        ({
            let f = fresh(words@.map_values(|s: &str| s@), views(old(suggested)@));
            &&& views(final(suggested)@) == views(old(suggested)@) + f
            &&& final(events)@.len() == old(events)@.len() + f.len()
            &&& forall|i: int| 0 <= i < old(events)@.len() ==> #[trigger] final(events)@[i] == old(events)@[i]
            &&& forall|i: int| old(events)@.len() <= i < final(events)@.len() ==> precision_event(#[trigger] final(events)@[i], id, f[i - old(events)@.len()], english, lex.entries())
        }),
{
    let ghost ws = words@.map_values(|s: &str| s@);
    let ghost s0 = views(suggested@);
    let ghost e0 = events@;
    let mut i: usize = 0;
    assert(ws.subrange(0, 0) =~= Seq::<Seq<char>>::empty());
    assert(s0 + Seq::<Seq<char>>::empty() =~= s0);
    while i < words.len()
        invariant
            i <= words@.len(),
            ws == words@.map_values(|s: &str| s@),
            s0 == views(old(suggested)@),
            e0 == old(events)@,
            views(suggested@) == s0 + fresh(ws.subrange(0, i as int), s0),
            events@.len() == e0.len() + fresh(ws.subrange(0, i as int), s0).len(),
            forall|k: int| 0 <= k < e0.len() ==> #[trigger] events@[k] == e0[k],
            forall|k: int| e0.len() <= k < events@.len() ==> precision_event(#[trigger] events@[k], id, fresh(ws.subrange(0, i as int), s0)[k - e0.len()], english, lex.entries()),
        decreases words@.len() - i,
    {
        let w = words[i];
        let ghost f = fresh(ws.subrange(0, i as int), s0);
        proof {
            assert(ws.subrange(0, i + 1).drop_last() =~= ws.subrange(0, i as int));
            assert(ws.subrange(0, i + 1).last() == w@);
        }
        let mut seen = false;
        let mut j: usize = 0;
        while j < suggested.len()
            invariant
                j <= suggested@.len(),
                seen == (exists|k: int| 0 <= k < j && (#[trigger] suggested@[k])@ == w@),
            decreases suggested@.len() - j,
        {
            if str_eq(suggested[j].as_str(), w) {
                seen = true;
            }
            j = j + 1;
        }
        proof {
            let d = views(suggested@);
            if seen {
                let k = choose|k: int| 0 <= k < suggested@.len() && (#[trigger] suggested@[k])@ == w@;
                assert(d[k] == w@);
                assert(d.contains(w@));
            } else {
                assert forall|k: int| 0 <= k < d.len() implies d[k] != w@ by {
                    assert(d[k] == suggested@[k]@);
                }
                assert(!d.contains(w@));
            }
        }
        if !seen {
            let ghost before = suggested@;
            suggested.push(lit(w));
            assert(views(suggested@) =~= views(before).push(w@));
            let alternatives = list_for(lex.alternatives.as_slice(), w);
            let mut message = String::new();
            if english {
                if alternatives.len() == 0 {
                    push_str(&mut message, "'");
                    push_str(&mut message, w);
                    push_str(&mut message, "' could be more precise");
                } else {
                    push_str(&mut message, "'");
                    push_str(&mut message, w);
                    push_str(&mut message, "' → ");
                    push_join(&mut message, alternatives.as_slice(), ", ");
                }
            } else {
                push_str(&mut message, "「");
                push_str(&mut message, w);
                push_str(&mut message, "」可以更精确");
            }
            let ev = FeedbackEvent {
                kind: FeedbackKind::WordPrecision,
                sentence_id: Some(id),
                message,
                payload: Payload::Precision { original: lit(w), alternatives },
            };
            assert(precision_event(ev, id, w@, english, lex.entries()));
            let ghost eb = events@;
            events.push(ev);
            proof {
                let f2 = fresh(ws.subrange(0, i + 1), s0);
                assert(f2 == f.push(w@));
                assert(views(suggested@) =~= s0 + f2);
                assert forall|k: int| e0.len() <= k < events@.len() implies precision_event(#[trigger] events@[k], id, f2[k - e0.len()], english, lex.entries()) by {
                    if k < events@.len() - 1 {
                        assert(events@[k] == eb[k]);
                    }
                }
            }
        } else {
            proof {
                let f2 = fresh(ws.subrange(0, i + 1), s0);
                assert(f2 == f);
            }
        }
        i = i + 1;
    }
    assert(ws.subrange(0, words@.len() as int) =~= ws);
}


/// What the precision rule does on sentence `s`, from state `a` to state
/// `b`, producing `r`.
pub open spec fn precision_step(a: PrecisionRule, s: Sentence, b: PrecisionRule, r: Seq<FeedbackEvent>) -> bool {
    &&& b.wf()
    &&& b.zh() == a.zh()
    &&& b.en() == a.en()
    &&& ({
        let t = s.text@;
        let s0 = a.suggested();
        let fz = fresh(dedup(hits_if(has_cjk_spec(t), a.zh().matcher(), t)), s0);
        let fe = fresh(dedup(hits_if(has_letter_spec(t), a.en().matcher(), t)), s0 + fz);
        &&& b.suggested() == s0 + fz + fe
        &&& r.len() == fz.len() + fe.len()
        &&& forall|i: int| 0 <= i < fz.len() ==> precision_event(#[trigger] r[i], s.id, fz[i], false, a.zh().entries())
        &&& forall|i: int| fz.len() <= i < r.len() ==> precision_event(#[trigger] r[i], s.id, fe[i - fz.len()], true, a.en().entries())
    })
}

} // verus!
