//! Hedging: a sentence that stacks two or more weakening words ("maybe",
//! "I think", 可能, 大概…) earns one reminder. Chinese and English word lists
//! are routed by the scripts a sentence holds.
use vstd::prelude::*;
use crate::rules::{FeedbackEvent, FeedbackKind, Payload, Sentence, SessionContext};
use crate::rules::lang::{detect_lang, lexicon_routes, SentenceLang, has_cjk_spec, has_letter_spec, lang_of, script_counts};
use crate::rules::lexicon::{WordMatcher, LexiconV2, LexiconEn, hit_words, dedup, dedup_strs, built_from};
use crate::text::{dec, join, quoted, views, push_str, push_dec, push_join, quote_all, clone_strings};

verus! {

/// Hits in one sentence that trigger a hedging reminder.
pub const HEDGE_TRIGGER_COUNT: usize = 2;

/// Hits of a matcher on a text when `run`, else none.
pub open spec fn hits_if(run: bool, m: WordMatcher, t: Seq<char>) -> Seq<Seq<char>> {
    if run {
        hit_words(m.entries(), m.modes(), t)
    } else {
        seq![]
    }
}

/// Whether a text reads as English (30% rule).
pub open spec fn is_english(t: Seq<char>) -> bool {
    lang_of(script_counts(t).0, script_counts(t).1, SentenceLang::Neutral) == SentenceLang::English
}

/// The reminder text for `total` hits of the distinct words `ws`.
pub open spec fn hedge_message(english: bool, total: nat, ws: Seq<Seq<char>>) -> Seq<char> {
    let q = ws.map_values(|w: Seq<char>| quoted(w));
    if english {
        "Hedging: "@ + dec(total) + " weakening words stacked in one sentence ("@ + join(q, " "@)
            + "), give your verdict directly"@
    } else {
        "立场模糊：一句话里堆了 "@ + dec(total) + " 个弱化词（"@ + join(q, ""@) + "），可以直接给判断"@
    }
}

pub struct HedgeRule {
    zh: WordMatcher,
    en: WordMatcher,
}

impl HedgeRule {
    pub closed spec fn zh(&self) -> WordMatcher {
        self.zh
    }

    pub closed spec fn en(&self) -> WordMatcher {
        self.en
    }

    pub closed spec fn wf(&self) -> bool {
        self.zh.wf() && self.en.wf()
    }

    /// A rule over the given Chinese and English hedging words.
    pub fn new(zh_words: Vec<String>, en_words: Vec<String>) -> (r: Self)
        ensures
            r.wf(),
            built_from(r.zh(), zh_words@),
            built_from(r.en(), en_words@),
    {
        HedgeRule { zh: WordMatcher::new(zh_words), en: WordMatcher::new(en_words) }
    }

    /// A rule over the hedges of the two lexicons.
    pub fn from_lexicon(zh: &LexiconV2, en: &LexiconEn) -> (r: Self)
        ensures
            r.wf(),
            built_from(r.zh(), zh.hedges@),
            built_from(r.en(), en.hedges@),
    {
        HedgeRule::new(clone_strings(zh.hedges.as_slice()), clone_strings(en.hedges.as_slice()))
    }

    /// Hits of both lists (each list only when the sentence's scripts call
    /// for it); two hits or more give one reminder with the distinct words
    /// and the hit count, in English when the sentence reads as English.
    pub fn on_sentence(&mut self, sentence: &Sentence, ctx: &SessionContext) -> (r: Vec<FeedbackEvent>)
        requires
            old(self).wf(),
        ensures
            hedge_step(*old(self), *sentence, *final(self), r@),
    {
        let text = sentence.text.as_str();
        let (run_zh, run_en) = lexicon_routes(text);
        let mut all: Vec<&str> = if run_zh {
            self.zh.find_all(text)
        } else {
            Vec::new()
        };
        let mut en_hits: Vec<&str> = if run_en {
            self.en.find_all(text)
        } else {
            Vec::new()
        };
        let ghost zh_part = all@.map_values(|s: &str| s@);
        let ghost en_part = en_hits@.map_values(|s: &str| s@);
        all.append(&mut en_hits);
        proof {
            assert(all@.map_values(|s: &str| s@) =~= zh_part + en_part);
        }
        let total = all.len();
        if total < HEDGE_TRIGGER_COUNT {
            return Vec::new();
        }
        let distinct = dedup_strs(all.as_slice());
        let quoted_words = quote_all(distinct.as_slice());
        let english = detect_lang(text) == SentenceLang::English;
        let mut message = String::new();
        if english {
            push_str(&mut message, "Hedging: ");
            push_dec(&mut message, total as u64);
            push_str(&mut message, " weakening words stacked in one sentence (");
            push_join(&mut message, quoted_words.as_slice(), " ");
            push_str(&mut message, "), give your verdict directly");
        } else {
            push_str(&mut message, "立场模糊：一句话里堆了 ");
            push_dec(&mut message, total as u64);
            push_str(&mut message, " 个弱化词（");
            push_join(&mut message, quoted_words.as_slice(), "");
            push_str(&mut message, "），可以直接给判断");
        }
        let mut v: Vec<FeedbackEvent> = Vec::new();
        v.push(FeedbackEvent {
            kind: FeedbackKind::Hedge,
            sentence_id: Some(sentence.id),
            message,
            payload: Payload::Hedge { words: distinct, count: total as u64 },
        });
        v
    }
}


/// What the hedging rule does on sentence `s`, from state `a` to state `b`,
/// producing `r`.
pub open spec fn hedge_step(a: HedgeRule, s: Sentence, b: HedgeRule, r: Seq<FeedbackEvent>) -> bool {
    &&& b == a
    &&& ({
        let t = s.text@;
        let all = hits_if(has_cjk_spec(t), a.zh(), t) + hits_if(has_letter_spec(t), a.en(), t);
        &&& all.len() < HEDGE_TRIGGER_COUNT ==> r.len() == 0
        &&& all.len() >= HEDGE_TRIGGER_COUNT ==> {
            &&& r.len() == 1
            &&& r[0].kind == FeedbackKind::Hedge
            &&& r[0].sentence_id == Some(s.id)
            &&& r[0].message@ == hedge_message(is_english(t), all.len(), dedup(all))
            &&& r[0].payload matches Payload::Hedge { words, count } && views(words@) == dedup(all)
                && count == all.len()
        }
    })
}

} // verus!
