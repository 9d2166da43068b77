//! The rule engine: runs the enabled rules on each final sentence, holds
//! back repeated reminders of a rule for a few sentences, and keeps the
//! session statistics.
use vstd::prelude::*;
use crate::rules::{FeedbackEvent, FeedbackKind, Sentence, SessionContext};
use crate::rules::precision::{PrecisionRule, precision_step};
use crate::rules::repetition::{RepetitionRule, repetition_step};
use crate::rules::structure::{ConclusionMissingRule, ExampleMissingRule, conclusion_step, example_step};
use crate::rules::emotion::{EmotionRule, emotion_step, with_info, sort_by_len, flatten_groups, info_entries, EmotionEntry};
use crate::rules::time_vague::{without_meta};
use crate::rules::imagery::IMAGERY_MARKERS;
use crate::rules::structure::marker_views;
use crate::rules::lexicon::{keys_of, list_entries, text_entries};
use crate::rules::repetition::{latest_repeat, in_window_repeat};
use crate::rules::lexicon::{dedup, hit_words, lemma_dedup_len};
use crate::rules::filler::{lemma_scan_len, FillerWordsRule, FillerHit, pick};
use crate::rules::lexicon::{WordMatcher, LexiconV2, LexiconEn, built_from, built_over, key_index, lemma_key_index};
use crate::text::clone_strings;
use crate::report::{count_chars, total_nonws, texts_of};
use crate::rules::hedge::{HedgeRule, hedge_step};
use crate::rules::time_vague::{TimeVagueRule, time_vague_step};
use crate::rules::imagery::{ImageryRule, imagery_step};
use crate::rules::golden_quote::{GoldenQuoteRule, golden_quote_step};
use crate::rules::{EmotionAccumulator, Payload};
use crate::rules::lexicon::owned_all;
use crate::rules::filler::{count_entries, count_sum};
use crate::text::{views, str_eq, lit};

verus! {

/// One installed rule.
pub enum AnyRule {
    Precision(PrecisionRule),
    Repetition(RepetitionRule),
    Conclusion(ConclusionMissingRule),
    Example(ExampleMissingRule),
    Emotion(EmotionRule),
    Hedge(HedgeRule),
    TimeVague(TimeVagueRule),
    Imagery(ImageryRule),
    GoldenQuote(GoldenQuoteRule),
}

/// What rule `a` does on sentence `s` given the session `ctx`: it becomes
/// `b` and produces `r`.
pub open spec fn rule_step(a: AnyRule, s: Sentence, ctx: SessionContext, b: AnyRule, r: Seq<FeedbackEvent>) -> bool {
    match (a, b) {
        (AnyRule::Precision(x), AnyRule::Precision(y)) => precision_step(x, s, y, r),
        (AnyRule::Repetition(_), AnyRule::Repetition(_)) => repetition_step(s, ctx, r),
        (AnyRule::Conclusion(x), AnyRule::Conclusion(y)) => conclusion_step(x, s, y, r),
        (AnyRule::Example(x), AnyRule::Example(y)) => example_step(x, s, y, r),
        (AnyRule::Emotion(x), AnyRule::Emotion(y)) => emotion_step(x, s, y, r),
        (AnyRule::Hedge(x), AnyRule::Hedge(y)) => hedge_step(x, s, y, r),
        (AnyRule::TimeVague(x), AnyRule::TimeVague(y)) => time_vague_step(x, s, y, r),
        (AnyRule::Imagery(x), AnyRule::Imagery(y)) => imagery_step(x, s, y, r),
        (AnyRule::GoldenQuote(x), AnyRule::GoldenQuote(y)) => golden_quote_step(x, s, y, r),
        _ => false,
    }
}

impl AnyRule {
    pub open spec fn wf(&self) -> bool {
        match self {
            AnyRule::Precision(x) => x.wf(),
            AnyRule::Repetition(_) => true,
            AnyRule::Conclusion(x) => x.wf(),
            AnyRule::Example(x) => x.wf(),
            AnyRule::Emotion(x) => x.wf(),
            AnyRule::Hedge(x) => x.wf(),
            AnyRule::TimeVague(x) => x.wf(),
            AnyRule::Imagery(x) => x.wf(),
            AnyRule::GoldenQuote(x) => x.wf(),
        }
    }

    /// The kind of event the rule produces.
    pub open spec fn kind(&self) -> FeedbackKind {
        match self {
            AnyRule::Precision(_) => FeedbackKind::WordPrecision,
            AnyRule::Repetition(_) => FeedbackKind::Repetition,
            AnyRule::Conclusion(_) => FeedbackKind::ConclusionMissing,
            AnyRule::Example(_) => FeedbackKind::ExampleMissing,
            AnyRule::Emotion(_) => FeedbackKind::Emotion,
            AnyRule::Hedge(_) => FeedbackKind::Hedge,
            AnyRule::TimeVague(_) => FeedbackKind::TimeVague,
            AnyRule::Imagery(_) => FeedbackKind::Imagery,
            AnyRule::GoldenQuote(_) => FeedbackKind::GoldenQuote,
        }
    }

    /// The rule's place (1 to 9) in the fixed order of the engine's rules.
    pub open spec fn order(&self) -> int {
        match self {
            AnyRule::Precision(_) => 1,
            AnyRule::Repetition(_) => 2,
            AnyRule::Conclusion(_) => 3,
            AnyRule::Example(_) => 4,
            AnyRule::Emotion(_) => 5,
            AnyRule::Hedge(_) => 6,
            AnyRule::TimeVague(_) => 7,
            AnyRule::Imagery(_) => 8,
            AnyRule::GoldenQuote(_) => 9,
        }
    }

    /// The rule's settings key.
    pub fn name(&self) -> (r: &'static str)
        ensures
            r@ == name_at(self.order()),
    {
        match self {
            AnyRule::Precision(_) => "word_precision",
            AnyRule::Repetition(_) => "repetition",
            AnyRule::Conclusion(_) => "conclusion_missing",
            AnyRule::Example(_) => "example_missing",
            AnyRule::Emotion(_) => "emotion_lexicon",
            AnyRule::Hedge(_) => "hedge",
            AnyRule::TimeVague(_) => "time_vague",
            AnyRule::Imagery(_) => "imagery",
            AnyRule::GoldenQuote(_) => "golden_quote",
        }
    }

    pub fn on_sentence(&mut self, sentence: &Sentence, ctx: &SessionContext) -> (r: Vec<FeedbackEvent>)
        requires
            old(self).wf(),
        ensures
            final(self).wf(),
            rule_step(*old(self), *sentence, *ctx, *final(self), r@),
    {
        match self {
            AnyRule::Precision(x) => x.on_sentence(sentence, ctx),
            AnyRule::Repetition(x) => x.on_sentence(sentence, ctx),
            AnyRule::Conclusion(x) => x.on_sentence(sentence, ctx),
            AnyRule::Example(x) => x.on_sentence(sentence, ctx),
            AnyRule::Emotion(x) => x.on_sentence(sentence, ctx),
            AnyRule::Hedge(x) => x.on_sentence(sentence, ctx),
            AnyRule::TimeVague(x) => x.on_sentence(sentence, ctx),
            AnyRule::Imagery(x) => x.on_sentence(sentence, ctx),
            AnyRule::GoldenQuote(x) => x.on_sentence(sentence, ctx),
        }
    }
}


/// Settings keys of every rule the engine knows, the filler rule first.
pub const ALL_RULES: [&'static str; 10] = [
    "filler_words",
    "word_precision",
    "repetition",
    "conclusion_missing",
    "example_missing",
    "emotion_lexicon",
    "hedge",
    "time_vague",
    "imagery",
    "golden_quote",
];

/// Sentences a rule stays quiet after a shown reminder (the filler rule
/// is exempt).
pub const DEFAULT_COOLDOWN_SENTENCES: u32 = 3;

/// Which rules a session runs and the user's own filler words.
#[derive(Debug, Clone)]
pub struct EngineConfig {
    pub enabled: Vec<String>,
    pub custom_fillers: Vec<String>,
}

impl EngineConfig {
    pub open spec fn enables(&self, name: Seq<char>) -> bool {
        views(self.enabled@).contains(name)
    }

    pub fn is_enabled(&self, name: &str) -> (r: bool)
        ensures
            r == self.enables(name@),
    {
        let mut i: usize = 0;
        while i < self.enabled.len()
            invariant
                i <= self.enabled@.len(),
                forall|k: int| 0 <= k < i ==> (#[trigger] self.enabled@[k])@ != name@,
            decreases self.enabled@.len() - i,
        {
            if str_eq(self.enabled[i].as_str(), name) {
                assert(views(self.enabled@)[i as int] == name@);
                return true;
            }
            i = i + 1;
        }
        assert forall|k: int| 0 <= k < views(self.enabled@).len() implies views(self.enabled@)[k] != name@ by {
            assert(views(self.enabled@)[k] == self.enabled@[k]@);
        }
        false
    }
}

impl Default for EngineConfig {
    /// Every rule enabled, no custom filler words.
    fn default() -> (r: Self)
        ensures
            views(r.enabled@) == ALL_RULES@.map_values(|s: &'static str| s@),
            r.custom_fillers@.len() == 0,
    {
        EngineConfig { enabled: owned_all(&ALL_RULES), custom_fillers: Vec::new() }
    }
}

/// Whether a rule's events are shown, and how many sentences it stays
/// quiet afterwards: a rule without cooldown always shows; a rule cooling
/// down shows nothing and counts down; otherwise produced events are shown
/// and start the cooldown.
pub open spec fn gate(cooldown: u32, remaining: u32, produced: bool) -> (bool, u32) {
    if cooldown == 0 {
        (true, remaining)
    } else if remaining > 0 {
        (false, (remaining - 1) as u32)
    } else if produced {
        (true, cooldown)
    } else {
        (false, remaining)
    }
}

fn gate_exec(cooldown: u32, remaining: u32, produced: bool) -> (r: (bool, u32))
    ensures
        r == gate(cooldown, remaining, produced),
{
    if cooldown == 0 {
        (true, remaining)
    } else if remaining > 0 {
        (false, remaining - 1)
    } else if produced {
        (true, cooldown)
    } else {
        (false, remaining)
    }
}

/// An installed rule and its cooldown state.
pub struct RuleSlot {
    pub rule: AnyRule,
    /// Sentences of quiet after a shown reminder (0: no cooldown).
    pub cooldown_sentences: u32,
    /// Sentences of quiet still to go.
    pub remaining: u32,
}

/// A slot on one sentence: its rule steps, producing `p`, and its cooldown
/// moves on.
pub open spec fn slot_step(a: RuleSlot, s: Sentence, ctx: SessionContext, b: RuleSlot, p: Seq<FeedbackEvent>) -> bool {
    &&& rule_step(a.rule, s, ctx, b.rule, p)
    &&& b.rule.wf()
    &&& b.cooldown_sentences == a.cooldown_sentences
    &&& b.remaining == gate(a.cooldown_sentences, a.remaining, p.len() > 0).1
}

/// The events shown: those of each slot whose gate lets them through.
pub open spec fn shown(slots: Seq<RuleSlot>, ps: Seq<Seq<FeedbackEvent>>) -> Seq<FeedbackEvent>
    decreases slots.len(),
{
    if slots.len() == 0 || ps.len() == 0 {
        seq![]
    } else {
        let last = slots.last();
        shown(slots.drop_last(), ps.drop_last()) + if gate(last.cooldown_sentences, last.remaining, ps.last().len() > 0).0 {
            ps.last()
        } else {
            seq![]
        }
    }
}

/// All produced events, slot by slot.
pub open spec fn flatten(ps: Seq<Seq<FeedbackEvent>>) -> Seq<FeedbackEvent>
    decreases ps.len(),
{
    if ps.len() == 0 {
        seq![]
    } else {
        flatten(ps.drop_last()) + ps.last()
    }
}

/// One more hit of `w`: its entry counts one more, or a new entry starts at 1.
pub open spec fn bump(es: Seq<(Seq<char>, u32)>, w: Seq<char>) -> Seq<(Seq<char>, u32)> {
    let k = key_index(es, w);
    if k < es.len() {
        es.update(k, (w, (es[k].1 + 1) as u32))
    } else {
        es.push((w, 1))
    }
}

/// The counts after the hits `ws`, in order.
pub open spec fn add_hits(es: Seq<(Seq<char>, u32)>, ws: Seq<Seq<char>>) -> Seq<(Seq<char>, u32)>
    decreases ws.len(),
{
    if ws.len() == 0 {
        es
    } else {
        bump(add_hits(es, ws.drop_last()), ws.last())
    }
}

/// Emotion totals keyed by category, by view.
pub open spec fn emotion_entries(es: Seq<(String, EmotionAccumulator)>) -> Seq<(Seq<char>, EmotionAccumulator)> {
    es.map_values(|e: (String, EmotionAccumulator)| (e.0@, e.1))
}

/// One more emotion hit of category `c` and intensity `n`.
pub open spec fn bump_emotion(es: Seq<(Seq<char>, EmotionAccumulator)>, c: Seq<char>, n: u8) -> Seq<(Seq<char>, EmotionAccumulator)> {
    let k = key_index(es, c);
    if k < es.len() {
        es.update(
            k,
            (c, EmotionAccumulator { count: (es[k].1.count + 1) as u32, intensity_sum: (es[k].1.intensity_sum + n) as u32 }),
        )
    } else {
        es.push((c, EmotionAccumulator { count: 1, intensity_sum: n as u32 }))
    }
}

/// The category and intensity an emotion event carries (empty and 0 when
/// its payload holds none).
pub open spec fn emotion_of(e: FeedbackEvent) -> (Seq<char>, u8) {
    match e.payload {
        Payload::Emotion { category, intensity, .. } => (category@, intensity),
        _ => (seq![], 0),
    }
}

/// The emotion totals after the events `evs`, in order.
pub open spec fn add_emotions(es: Seq<(Seq<char>, EmotionAccumulator)>, evs: Seq<FeedbackEvent>) -> Seq<(Seq<char>, EmotionAccumulator)>
    decreases evs.len(),
{
    if evs.len() == 0 {
        es
    } else {
        let prev = add_emotions(es, evs.drop_last());
        if evs.last().kind == FeedbackKind::Emotion {
            bump_emotion(prev, emotion_of(evs.last()).0, emotion_of(evs.last()).1)
        } else {
            prev
        }
    }
}

/// Events of kind `k`.
pub open spec fn count_kind(evs: Seq<FeedbackEvent>, k: FeedbackKind) -> nat
    decreases evs.len(),
{
    if evs.len() == 0 {
        0
    } else {
        count_kind(evs.drop_last(), k) + if evs.last().kind == k { 1nat } else { 0nat }
    }
}

/// Counts one more hit of `w`.
fn bump_count(fc: &mut Vec<(String, u32)>, w: &str)
    requires
        forall|k: int| 0 <= k < old(fc)@.len() ==> (#[trigger] old(fc)@[k]).1 < u32::MAX,
    ensures
        count_entries(final(fc)@) == bump(count_entries(old(fc)@), w@),
{
    let ghost es = count_entries(fc@);
    proof {
        lemma_key_index(es, w@);
    }
    let mut i: usize = 0;
    while i < fc.len()
        invariant
            i <= fc@.len(),
            fc@ == old(fc)@,
            forall|k: int| 0 <= k < old(fc)@.len() ==> (#[trigger] old(fc)@[k]).1 < u32::MAX,
            es == count_entries(fc@),
            forall|k: int| 0 <= k < i ==> es[k].0 != w@,
        decreases fc@.len() - i,
    {
        if str_eq(fc[i].0.as_str(), w) {
            proof {
                lemma_key_index(es, w@);
                assert(es[i as int].0 == w@);
                if key_index(es, w@) < i {
                    assert(es[key_index(es, w@)].0 == w@);
                }
                assert(key_index(es, w@) == i);
            }
            let n = fc[i].1;
            fc[i].1 = n + 1;
            assert(count_entries(fc@) =~= es.update(i as int, (w@, (n + 1) as u32)));
            return;
        }
        i = i + 1;
    }
    proof {
        lemma_key_index(es, w@);
        if key_index(es, w@) < es.len() {
            assert(es[key_index(es, w@)].0 == w@);
        }
    }
    fc.push((lit(w), 1));
    assert(count_entries(fc@) =~= es.push((w@, 1u32)));
}

/// Counts one more emotion hit.
fn bump_emotion_exec(es: &mut Vec<(String, EmotionAccumulator)>, c: &str, n: u8)
    requires
        forall|k: int| 0 <= k < old(es)@.len() ==> (#[trigger] old(es)@[k]).1.count < u32::MAX
            && old(es)@[k].1.intensity_sum + n <= u32::MAX,
    ensures
        emotion_entries(final(es)@) == bump_emotion(emotion_entries(old(es)@), c@, n),
{
    let ghost v = emotion_entries(es@);
    proof {
        lemma_key_index(v, c@);
    }
    let mut i: usize = 0;
    while i < es.len()
        invariant
            i <= es@.len(),
            es@ == old(es)@,
            forall|k: int| 0 <= k < old(es)@.len() ==> (#[trigger] old(es)@[k]).1.count < u32::MAX
                && old(es)@[k].1.intensity_sum + n <= u32::MAX,
            v == emotion_entries(es@),
            forall|k: int| 0 <= k < i ==> v[k].0 != c@,
        decreases es@.len() - i,
    {
        if str_eq(es[i].0.as_str(), c) {
            proof {
                lemma_key_index(v, c@);
                assert(v[i as int].0 == c@);
                if key_index(v, c@) < i {
                    assert(v[key_index(v, c@)].0 == c@);
                }
                assert(key_index(v, c@) == i);
            }
            let acc = es[i].1;
            es[i].1 = EmotionAccumulator { count: acc.count + 1, intensity_sum: acc.intensity_sum + n as u32 };
            assert(emotion_entries(es@) =~= v.update(
                i as int,
                (c@, EmotionAccumulator { count: (acc.count + 1) as u32, intensity_sum: (acc.intensity_sum + n) as u32 }),
            ));
            return;
        }
        i = i + 1;
    }
    proof {
        lemma_key_index(v, c@);
        if key_index(v, c@) < v.len() {
            assert(v[key_index(v, c@)].0 == c@);
        }
    }
    es.push((lit(c), EmotionAccumulator { count: 1, intensity_sum: n as u32 }));
    assert(emotion_entries(es@) =~= v.push((c@, EmotionAccumulator { count: 1, intensity_sum: n as u32 })));
}


/// Sum of the counts of view entries.
pub open spec fn entry_sum(es: Seq<(Seq<char>, u32)>) -> nat
    decreases es.len(),
{
    if es.len() == 0 {
        0
    } else {
        entry_sum(es.drop_last()) + (es.last().1 as nat)
    }
}

proof fn lemma_entry_sum_views(fc: Seq<(String, u32)>)
    ensures
        count_sum(fc) == entry_sum(count_entries(fc)),
    decreases fc.len(),
{
    if fc.len() > 0 {
        lemma_entry_sum_views(fc.drop_last());
        assert(count_entries(fc.drop_last()) =~= count_entries(fc).drop_last());
    }
}

proof fn lemma_entry_le_sum(es: Seq<(Seq<char>, u32)>, k: int)
    requires
        0 <= k < es.len(),
    ensures
        es[k].1 <= entry_sum(es),
    decreases es.len(),
{
    if k < es.len() - 1 {
        lemma_entry_le_sum(es.drop_last(), k);
    }
}

proof fn lemma_entry_sum_update(es: Seq<(Seq<char>, u32)>, k: int, e: (Seq<char>, u32))
    requires
        0 <= k < es.len(),
    ensures
        entry_sum(es.update(k, e)) == entry_sum(es) - es[k].1 + e.1,
    decreases es.len(),
{
    if k < es.len() - 1 {
        lemma_entry_sum_update(es.drop_last(), k, e);
        assert(es.update(k, e).drop_last() =~= es.drop_last().update(k, e));
    } else {
        assert(es.update(k, e).drop_last() =~= es.drop_last());
    }
}

proof fn lemma_bump_sum(es: Seq<(Seq<char>, u32)>, w: Seq<char>)
    requires
        entry_sum(es) < u32::MAX,
    ensures
        entry_sum(bump(es, w)) == entry_sum(es) + 1,
        bump(es, w).len() >= es.len(),
{
    lemma_key_index(es, w);
    let k = key_index(es, w);
    if k < es.len() {
        lemma_entry_le_sum(es, k);
        lemma_entry_sum_update(es, k, (w, (es[k].1 + 1) as u32));
    } else {
        assert(es.push((w, 1u32)).drop_last() =~= es);
    }
}

/// (category, intensity) of each emotion event, in order.
pub open spec fn emotion_hits(evs: Seq<FeedbackEvent>) -> Seq<(Seq<char>, u8)>
    decreases evs.len(),
{
    if evs.len() == 0 {
        seq![]
    } else if evs.last().kind == FeedbackKind::Emotion {
        emotion_hits(evs.drop_last()).push(emotion_of(evs.last()))
    } else {
        emotion_hits(evs.drop_last())
    }
}

/// The emotion totals after the hits `hs`, in order.
pub open spec fn add_emotion_hits(es: Seq<(Seq<char>, EmotionAccumulator)>, hs: Seq<(Seq<char>, u8)>) -> Seq<(Seq<char>, EmotionAccumulator)>
    decreases hs.len(),
{
    if hs.len() == 0 {
        es
    } else {
        bump_emotion(add_emotion_hits(es, hs.drop_last()), hs.last().0, hs.last().1)
    }
}

proof fn lemma_emotion_hits_append(a: Seq<FeedbackEvent>, b: Seq<FeedbackEvent>)
    ensures
        emotion_hits(a + b) == emotion_hits(a) + emotion_hits(b),
        count_kind(a + b, FeedbackKind::GoldenQuote) == count_kind(a, FeedbackKind::GoldenQuote) + count_kind(b, FeedbackKind::GoldenQuote),
        count_kind(a + b, FeedbackKind::Emotion) == count_kind(a, FeedbackKind::Emotion) + count_kind(b, FeedbackKind::Emotion),
    decreases b.len(),
{
    if b.len() == 0 {
        assert(a + b =~= a);
        assert(emotion_hits(a) + Seq::<(Seq<char>, u8)>::empty() =~= emotion_hits(a));
    } else {
        lemma_emotion_hits_append(a, b.drop_last());
        assert((a + b).drop_last() =~= a + b.drop_last());
        assert((a + b).last() == b.last());
        if b.last().kind == FeedbackKind::Emotion {
            assert(emotion_hits(a) + emotion_hits(b.drop_last()).push(emotion_of(b.last())) =~= (emotion_hits(a)
                + emotion_hits(b.drop_last())).push(emotion_of(b.last())));
        }
    }
}

proof fn lemma_emotion_hits_len(evs: Seq<FeedbackEvent>)
    ensures
        emotion_hits(evs).len() == count_kind(evs, FeedbackKind::Emotion),
    decreases evs.len(),
{
    if evs.len() > 0 {
        lemma_emotion_hits_len(evs.drop_last());
    }
}

proof fn lemma_count_kind_uniform(evs: Seq<FeedbackEvent>, k: FeedbackKind, j: FeedbackKind)
    requires
        forall|i: int| 0 <= i < evs.len() ==> (#[trigger] evs[i]).kind == k,
    ensures
        count_kind(evs, j) == if k == j { evs.len() } else { 0 },
    decreases evs.len(),
{
    if evs.len() > 0 {
        lemma_count_kind_uniform(evs.drop_last(), k, j);
    }
}


proof fn lemma_with_info_len(ws: Seq<Seq<char>>, info: Seq<(Seq<char>, (Seq<char>, u8))>)
    ensures
        with_info(ws, info).len() <= ws.len(),
    decreases ws.len(),
{
    if ws.len() > 0 {
        lemma_with_info_len(ws.drop_last(), info);
    }
}

/// Every event a rule produces is of the rule's kind; the emotion rule
/// produces at most one event per character and the golden-quote rule at
/// most one event.
pub proof fn lemma_step_kinds(a: AnyRule, s: Sentence, ctx: SessionContext, b: AnyRule, p: Seq<FeedbackEvent>)
    requires
        rule_step(a, s, ctx, b, p),
    ensures
        forall|i: int| 0 <= i < p.len() ==> (#[trigger] p[i]).kind == a.kind(),
        b.kind() == a.kind(),
        a.kind() == FeedbackKind::Emotion ==> p.len() <= s.text@.len(),
        a.kind() == FeedbackKind::GoldenQuote ==> p.len() <= 1,
{
    match (a, b) {
        (AnyRule::Precision(x), AnyRule::Precision(y)) => {
            assert forall|i: int| 0 <= i < p.len() implies (#[trigger] p[i]).kind == a.kind() by {
                let t = s.text@;
                let s0 = x.suggested();
                let fz = crate::rules::precision::fresh(dedup(crate::rules::hedge::hits_if(crate::rules::lang::has_cjk_spec(t), x.zh().matcher(), t)), s0);
                if i < fz.len() {
                    assert(crate::rules::precision::precision_event(p[i], s.id, fz[i], false, x.zh().entries()));
                } else {
                    assert(fz.len() <= i < p.len());
                }
            }
        },
        (AnyRule::Repetition(_), AnyRule::Repetition(_)) => {
            if p.len() == 1 {
                let k = choose|k: int| #[trigger] latest_repeat(ctx.sentences@, k, s) && crate::rules::repetition::repetition_event(p[0], s, ctx.sentences@[k]);
            }
        },
        (AnyRule::Emotion(x), AnyRule::Emotion(y)) => {
            let ws = dedup(hit_words(x.matcher().entries(), x.matcher().modes(), s.text@));
            lemma_with_info_len(ws, x.info());
            lemma_dedup_len(hit_words(x.matcher().entries(), x.matcher().modes(), s.text@));
            lemma_scan_len(x.matcher().entries(), x.matcher().modes(), s.text@, 0);
            let hs = with_info(ws, x.info());
            assert forall|i: int| 0 <= i < p.len() implies (#[trigger] p[i]).kind == a.kind() by {
                assert(crate::rules::emotion::emotion_event(p[i], s.id, hs[i].0, hs[i].1, hs[i].2));
            }
        },
        (AnyRule::TimeVague(x), AnyRule::TimeVague(y)) => {
            assert forall|i: int| 0 <= i < p.len() implies (#[trigger] p[i]).kind == a.kind() by {
                let t = s.text@;
                let f = if crate::rules::time_vague::is_chinese(t) {
                    crate::rules::precision::fresh(dedup(hit_words(x.matcher().entries(), x.matcher().modes(), t)), x.reminded())
                } else {
                    seq![]
                };
                assert(crate::rules::time_vague::time_vague_event(p[i], s.id, f[i], x.entries()));
            }
        },
        (AnyRule::Imagery(x), AnyRule::Imagery(y)) => {
            assert forall|i: int| 0 <= i < p.len() implies (#[trigger] p[i]).kind == a.kind() by {
                let t = s.text@;
                let mk = dedup(hit_words(x.markers().entries(), x.markers().modes(), t));
                let praise = !x.marker_hinted() && mk.len() > 0;
                let n: int = if praise { 1 } else { 0 };
                if i < n {
                    assert(crate::rules::imagery::marker_event(p[0], s.id, mk[0]));
                } else {
                    assert(n <= i < p.len());
                }
            }
        },
        (AnyRule::Conclusion(x), AnyRule::Conclusion(y)) => {
            if p.len() > 0 {
                assert(p[0].kind == FeedbackKind::ConclusionMissing);
            }
        },
        (AnyRule::Example(x), AnyRule::Example(y)) => {
            if p.len() > 0 {
                assert(p[0].kind == FeedbackKind::ExampleMissing);
            }
        },
        (AnyRule::Hedge(x), AnyRule::Hedge(y)) => {},
        (AnyRule::GoldenQuote(x), AnyRule::GoldenQuote(y)) => {},
        _ => {},
    }
}


/// Rank of a rule kind in the engine's fixed rule order.
pub open spec fn rank(k: FeedbackKind) -> int {
    match k {
        FeedbackKind::WordPrecision => 1,
        FeedbackKind::Repetition => 2,
        FeedbackKind::ConclusionMissing => 3,
        FeedbackKind::ExampleMissing => 4,
        FeedbackKind::Emotion => 5,
        FeedbackKind::Hedge => 6,
        FeedbackKind::TimeVague => 7,
        FeedbackKind::Imagery => 8,
        FeedbackKind::GoldenQuote => 9,
        _ => 0,
    }
}

/// Runs the rules of a session and keeps its statistics.
pub struct RuleEngine {
    slots: Vec<RuleSlot>,
    ctx: SessionContext,
    last_end_ms: u64,
    /// The filler rule, when enabled; its reminders are gated by a rate the
    /// caller applies, and never cool down.
    filler: Option<FillerWordsRule>,
    /// Counts filler words for the statistics, whichever rules are enabled.
    filler_scan: WordMatcher,
    /// Counts hedging words for the statistics, whichever rules are enabled.
    hedge_scan: WordMatcher,
}

/// One sentence through the engine from `a` to `b`, the rules producing
/// `ps` (slot by slot) and `r` being shown.
pub open spec fn ingest_with(a: RuleEngine, s: Sentence, b: RuleEngine, r: Seq<FeedbackEvent>, ps: Seq<Seq<FeedbackEvent>>) -> bool {
    &&& ps.len() == a.slots().len()
    &&& b.slots().len() == a.slots().len()
    &&& forall|i: int| 0 <= i < ps.len() ==> slot_step(#[trigger] a.slots()[i], s, a.session(), b.slots()[i], ps[i])
    &&& r == shown(a.slots(), ps)
    &&& b.session().sentences@ == a.session().sentences@.push(s)
    &&& count_entries(b.session().filler_counts@) == add_hits(
        count_entries(a.session().filler_counts@),
        hit_words(a.filler_scan().entries(), a.filler_scan().modes(), s.text@),
    )
    &&& count_entries(b.session().hedge_counts@) == add_hits(
        count_entries(a.session().hedge_counts@),
        hit_words(a.hedge_scan().entries(), a.hedge_scan().modes(), s.text@),
    )
    &&& emotion_entries(b.session().emotion_counts@) == add_emotion_hits(
        emotion_entries(a.session().emotion_counts@),
        emotion_hits(flatten(ps)),
    )
    &&& b.session().golden_quote_count == a.session().golden_quote_count + count_kind(flatten(ps), FeedbackKind::GoldenQuote)
    &&& b.session().started_at_ms == a.session().started_at_ms
    &&& b.last_end_ms() == s.end_ms
    &&& b.filler_rule() == a.filler_rule()
    &&& b.filler_scan() == a.filler_scan()
    &&& b.hedge_scan() == a.hedge_scan()
}

impl RuleEngine {
    pub closed spec fn slots(&self) -> Seq<RuleSlot> {
        self.slots@
    }

    pub closed spec fn session(&self) -> SessionContext {
        self.ctx
    }

    pub closed spec fn last_end_ms(&self) -> u64 {
        self.last_end_ms
    }

    pub closed spec fn filler_rule(&self) -> Option<FillerWordsRule> {
        self.filler
    }

    pub closed spec fn filler_scan(&self) -> WordMatcher {
        self.filler_scan
    }

    pub closed spec fn hedge_scan(&self) -> WordMatcher {
        self.hedge_scan
    }

    /// The engine for a configuration over the given lexicons: the enabled
    /// rules in their fixed order (each with a three-sentence cooldown),
    /// the filler rule when enabled, and the statistics matchers (Chinese
    /// fillers plus the custom words, Chinese hedges), which run whatever is
    /// enabled.
    pub fn from_config(config: EngineConfig, zh: &LexiconV2, en: &LexiconEn) -> (r: Self)
        ensures
            r.wf(),
            r.slots().len() == installed_kinds(config).len(),
            forall|i: int| 0 <= i < r.slots().len() ==> {
                &&& (#[trigger] r.slots()[i]).rule.kind() == installed_kinds(config)[i]
                &&& fresh_rule(r.slots()[i].rule, *zh, *en)
                &&& r.slots()[i].cooldown_sentences == DEFAULT_COOLDOWN_SENTENCES
                &&& r.slots()[i].remaining == 0
            },
            config.enables("filler_words"@) ==> (r.filler_rule() matches Some(f) && f.zh().built_from(
                zh.fillers.high@,
                zh.fillers.medium@,
                pick(config.custom_fillers@, true),
            ) && f.en().built_from(en.fillers.high@, en.fillers.medium@, pick(config.custom_fillers@, false))),
            !config.enables("filler_words"@) ==> r.filler_rule() is None,
            built_over(r.filler_scan(), scan_words(views(zh.fillers.high@ + zh.fillers.medium@), views(config.custom_fillers@))),
            built_from(r.hedge_scan(), zh.hedges@),
            r.session().sentences@.len() == 0,
            r.session().filler_counts@.len() == 0,
            r.session().hedge_counts@.len() == 0,
            r.session().emotion_counts@.len() == 0,
            r.session().golden_quote_count == 0,
            r.session().started_at_ms == 0,
            r.last_end_ms() == 0,
    {
        let filler = if config.is_enabled("filler_words") {
            Some(FillerWordsRule::with_lexicon(zh, en, config.custom_fillers.as_slice()))
        } else {
            None
        };
        let slots = build_slots(&config, zh, en);
        proof {
            lemma_kinds_ranked(config, 9);
        }
        let mut filler_words = clone_strings(zh.fillers.high.as_slice());
        let mut medium = clone_strings(zh.fillers.medium.as_slice());
        filler_words.append(&mut medium);
        add_custom_words(&mut filler_words, config.custom_fillers.as_slice());
        RuleEngine {
            slots,
            ctx: SessionContext::default(),
            last_end_ms: 0,
            filler,
            filler_scan: WordMatcher::new(filler_words),
            hedge_scan: WordMatcher::new(clone_strings(zh.hedges.as_slice())),
        }
    }

    /// The engine with every rule enabled and no custom filler words.
    pub fn new(zh: &LexiconV2, en: &LexiconEn) -> (r: Self)
        ensures
            r.wf(),
            r.slots().len() == 9,
            forall|i: int| 0 <= i < 9 ==> (#[trigger] r.slots()[i]).rule.kind() == kind_at(i + 1) && fresh_rule(
                r.slots()[i].rule,
                *zh,
                *en,
            ),
            r.filler_rule() is Some,
            r.session().sentences@.len() == 0,
    {
        let config = EngineConfig::default();
        proof {
            let names = ALL_RULES@.map_values(|s: &'static str| s@);
            assert(config.enables("filler_words"@)) by {
                assert(names[0] == "filler_words"@);
            }
            assert forall|n: int| 1 <= n <= 9 implies config.enables(#[trigger] name_at(n)) by {
                assert(names[n] == name_at(n));
            }
            lemma_all_installed(config, 9);
        }
        RuleEngine::from_config(config, zh, en)
    }

    /// Rules in the fixed order, each once; matchers built; counts summable.
    pub open spec fn wf(&self) -> bool {
        &&& forall|i: int| 0 <= i < self.slots().len() ==> (#[trigger] self.slots()[i]).rule.wf()
        &&& forall|i: int, j: int| 0 <= i < j < self.slots().len() ==> rank(self.slots()[i].rule.kind()) < rank(
            self.slots()[j].rule.kind(),
        )
        &&& self.filler_scan().wf()
        &&& self.hedge_scan().wf()
        &&& (self.filler_rule() matches Some(f) ==> f.wf())
        &&& count_sum(self.session().filler_counts@) <= u32::MAX
        &&& count_sum(self.session().hedge_counts@) <= u32::MAX
    }

    /// The counters can take one more sentence of `s`'s length without
    /// overflowing.
    pub open spec fn room(&self, s: Sentence) -> bool {
        let n = s.text@.len();
        let ctx = self.session();
        &&& count_sum(ctx.filler_counts@) + 2 * n <= u32::MAX
        &&& count_sum(ctx.hedge_counts@) + n <= u32::MAX
        &&& forall|k: int| 0 <= k < ctx.emotion_counts@.len() ==> (#[trigger] ctx.emotion_counts@[k]).1.count + n
            <= u32::MAX && ctx.emotion_counts@[k].1.intensity_sum + 255 * n <= u32::MAX
        &&& ctx.golden_quote_count < u32::MAX
        &&& 255 * n <= u32::MAX
    }

    /// Whether `room` holds for `s`.
    pub fn has_room(&self, s: &Sentence) -> (r: bool)
        requires
            self.wf(),
        ensures
            r == self.room(*s),
    {
        let n = crate::text::chars_of(s.text.as_str()).len() as u64;
        let fsum = match sum_capped(&self.ctx.filler_counts) {
            Some(v) => v,
            None => {
                return false;
            },
        };
        let hsum = match sum_capped(&self.ctx.hedge_counts) {
            Some(v) => v,
            None => {
                return false;
            },
        };
        if fsum as u128 + 2 * (n as u128) > u32::MAX as u128 {
            return false;
        }
        if hsum as u128 + n as u128 > u32::MAX as u128 {
            return false;
        }
        let es = &self.ctx.emotion_counts;
        let mut i: usize = 0;
        while i < es.len()
            invariant
                i <= es@.len(),
                es@ == self.session().emotion_counts@,
                n == s.text@.len(),
                forall|k: int| 0 <= k < i ==> (#[trigger] es@[k]).1.count + n <= u32::MAX && es@[k].1.intensity_sum
                    + 255 * n <= u32::MAX,
            decreases es@.len() - i,
        {
            if es[i].1.count as u128 + n as u128 > u32::MAX as u128 || es[i].1.intensity_sum as u128 + 255 * (n as u128)
                > u32::MAX as u128 {
                return false;
            }
            i = i + 1;
        }
        self.ctx.golden_quote_count < u32::MAX && 255 * (n as u128) <= u32::MAX as u128
    }

    /// The session's final sentences so far.
    pub fn sentences(&self) -> (r: &[Sentence])
        ensures
            r@ == self.session().sentences@,
    {
        self.ctx.sentences.as_slice()
    }

    /// What the rules may read of the session so far.
    pub fn context(&self) -> (r: &SessionContext)
        ensures
            r == self.session(),
    {
        &self.ctx
    }

    /// Marks the session start (milliseconds on the session clock).
    pub fn start(&mut self, now_ms: u64)
        requires
            old(self).wf(),
        ensures
            final(self).wf(),
            final(self).session().started_at_ms == now_ms,
            final(self).session().sentences == old(self).session().sentences,
            final(self).session().filler_counts == old(self).session().filler_counts,
            final(self).session().hedge_counts == old(self).session().hedge_counts,
            final(self).session().emotion_counts == old(self).session().emotion_counts,
            final(self).session().golden_quote_count == old(self).session().golden_quote_count,
            final(self).slots() == old(self).slots(),
            final(self).last_end_ms() == old(self).last_end_ms(),
            final(self).filler_rule() == old(self).filler_rule(),
            final(self).filler_scan() == old(self).filler_scan(),
            final(self).hedge_scan() == old(self).hedge_scan(),
    {
        self.ctx.started_at_ms = now_ms;
    }

    /// Runs every installed rule on the sentence: each rule always runs and
    /// moves on; its events are shown unless it is cooling down. Then the
    /// sentence is counted into the statistics (emotion totals and golden
    /// quotes from the events, filler and hedging words from the engine's own
    /// scans) and recorded.
    #[verifier::rlimit(40)]
    pub fn ingest(&mut self, sentence: Sentence) -> (r: Vec<FeedbackEvent>)
        requires
            old(self).wf(),
            old(self).room(sentence),
        ensures
            final(self).wf(),
            exists|ps: Seq<Seq<FeedbackEvent>>| #[trigger] ingest_with(*old(self), sentence, *final(self), r@, ps),
    {
        let ghost n_text = sentence.text@.len();
        let mut display: Vec<FeedbackEvent> = Vec::new();
        let mut emo: Vec<(String, u8)> = Vec::new();
        let mut golden: u32 = 0;
        let ghost mut ps: Seq<Seq<FeedbackEvent>> = seq![];
        let n_slots = self.slots.len();
        let mut i: usize = 0;
        assert(old(self).slots@.subrange(0, 0) =~= Seq::<RuleSlot>::empty());
        while i < n_slots
            invariant
                i <= n_slots,
                n_slots == old(self).slots@.len(),
                self.slots@.len() == n_slots,
                ps.len() == i,
                self.ctx == old(self).ctx,
                self.last_end_ms == old(self).last_end_ms,
                self.filler == old(self).filler,
                self.filler_scan == old(self).filler_scan,
                self.hedge_scan == old(self).hedge_scan,
                old(self).wf(),
                n_text == sentence.text@.len(),
                forall|k: int| 0 <= k < i ==> slot_step(#[trigger] old(self).slots@[k], sentence, old(self).ctx, self.slots@[k], ps[k]),
                forall|k: int| i <= k < n_slots ==> #[trigger] self.slots@[k] == old(self).slots@[k],
                display@ == shown(old(self).slots@.subrange(0, i as int), ps),
                emo_views(emo@) == emotion_hits(flatten(ps)),
                golden == count_kind(flatten(ps), FeedbackKind::GoldenQuote),
                count_kind(flatten(ps), FeedbackKind::Emotion) <= n_text,
                golden <= 1,
                (forall|k: int| 0 <= k < i ==> (#[trigger] old(self).slots@[k]).rule.kind() != FeedbackKind::Emotion)
                    ==> count_kind(flatten(ps), FeedbackKind::Emotion) == 0,
                (forall|k: int| 0 <= k < i ==> (#[trigger] old(self).slots@[k]).rule.kind() != FeedbackKind::GoldenQuote)
                    ==> golden == 0,
            decreases n_slots - i,
        {
            let ghost before = self.slots@[i as int];
            assert(before == old(self).slots@[i as int]);
            assert(before.rule.wf());
            let ctx = &self.ctx;
            let slot = &mut self.slots[i];
            let mut produced = slot.rule.on_sentence(&sentence, ctx);
            let ghost p = produced@;
            proof {
                lemma_step_kinds(before.rule, sentence, old(self).ctx, slot.rule, p);
            }
            let (show, rem) = gate_exec(slot.cooldown_sentences, slot.remaining, produced.len() > 0);
            slot.remaining = rem;
            let ghost fl = flatten(ps);
            let ghost kd = before.rule.kind();
            proof {
                assert forall|k: int| 0 <= k < i implies (#[trigger] old(self).slots@[k]).rule.kind() != kd by {
                    assert(rank(old(self).slots@[k].rule.kind()) < rank(old(self).slots@[i as int].rule.kind()));
                }
            }
            let mut j: usize = 0;
            assert(p.subrange(0, 0) =~= Seq::<FeedbackEvent>::empty());
            assert(fl + p.subrange(0, 0) =~= fl);
            while j < produced.len()
                invariant
                    j <= produced@.len(),
                    p == produced@,
                    forall|k: int| 0 <= k < p.len() ==> (#[trigger] p[k]).kind == kd,
                    kd == FeedbackKind::GoldenQuote ==> p.len() <= 1 && count_kind(fl, FeedbackKind::GoldenQuote) == 0,
                    emo_views(emo@) == emotion_hits(fl + p.subrange(0, j as int)),
                    golden == count_kind(fl + p.subrange(0, j as int), FeedbackKind::GoldenQuote),
                decreases produced@.len() - j,
            {
                proof {
                    assert((fl + p.subrange(0, j + 1)).drop_last() =~= fl + p.subrange(0, j as int));
                    assert((fl + p.subrange(0, j + 1)).last() == p[j as int]);
                }
                let e = &produced[j];
                if e.kind == FeedbackKind::Emotion {
                    let hit = match &e.payload {
                        Payload::Emotion { category, intensity, .. } => (category.clone(), *intensity),
                        _ => (String::new(), 0u8),
                    };
                    let ghost eb = emo@;
                    emo.push(hit);
                    assert(emo_views(emo@) =~= emo_views(eb).push(emotion_of(p[j as int])));
                }
                if e.kind == FeedbackKind::GoldenQuote {
                    proof {
                        lemma_emotion_hits_append(fl, p.subrange(0, j as int));
                        lemma_count_kind_uniform(p.subrange(0, j as int), kd, FeedbackKind::GoldenQuote);
                    }
                    golden = golden + 1;
                }
                j = j + 1;
            }
            assert(p.subrange(0, p.len() as int) =~= p);
            proof {
                lemma_emotion_hits_append(fl, p);
                lemma_count_kind_uniform(p, kd, FeedbackKind::GoldenQuote);
                lemma_count_kind_uniform(p, kd, FeedbackKind::Emotion);
                assert(ps.push(p).drop_last() =~= ps);
                assert(flatten(ps.push(p)) == fl + p);
            }
            let ghost shown_before = display@;
            if show {
                display.append(&mut produced);
            }
            proof {
                let sub = old(self).slots@.subrange(0, i + 1);
                assert(sub.drop_last() =~= old(self).slots@.subrange(0, i as int));
                assert(sub.last() == before);
                assert(display@ =~= shown(sub, ps.push(p)));
                ps = ps.push(p);
            }
            i = i + 1;
        }
        assert(old(self).slots@.subrange(0, n_slots as int) =~= old(self).slots@);
        let text = sentence.text.as_str();
        // Emotion totals.
        let ghost e0 = emotion_entries(self.ctx.emotion_counts@);
        let ghost hs = emo_views(emo@);
        let ghost mid_slots = self.slots@;
        assert(forall|k: int| 0 <= k < old(self).ctx.emotion_counts@.len() ==> (#[trigger] old(self).ctx.emotion_counts@[k]).1.count + n_text
            <= u32::MAX && old(self).ctx.emotion_counts@[k].1.intensity_sum + 255 * n_text <= u32::MAX);
        proof {
            lemma_emotion_hits_len(flatten(ps));
        }
        let mut j: usize = 0;
        assert(hs.subrange(0, 0) =~= Seq::<(Seq<char>, u8)>::empty());
        while j < emo.len()
            invariant
                j <= emo@.len(),
                hs == emo_views(emo@),
                emo@.len() <= n_text,
                self.slots@ == mid_slots,
                self.last_end_ms == old(self).last_end_ms,
                self.filler == old(self).filler,
                self.filler_scan == old(self).filler_scan,
                self.hedge_scan == old(self).hedge_scan,
                self.ctx.sentences == old(self).ctx.sentences,
                self.ctx.filler_counts == old(self).ctx.filler_counts,
                self.ctx.hedge_counts == old(self).ctx.hedge_counts,
                self.ctx.golden_quote_count == old(self).ctx.golden_quote_count,
                self.ctx.started_at_ms == old(self).ctx.started_at_ms,
                old(self).wf(),
                old(self).room(sentence),
                n_text == sentence.text@.len(),
                golden <= 1,
                255 * n_text <= u32::MAX,
                emotion_entries(self.ctx.emotion_counts@) == add_emotion_hits(e0, hs.subrange(0, j as int)),
                forall|k: int| 0 <= k < self.ctx.emotion_counts@.len() ==> (#[trigger] self.ctx.emotion_counts@[k]).1.count
                    + (emo@.len() - j) <= u32::MAX && self.ctx.emotion_counts@[k].1.intensity_sum + 255 * (emo@.len() - j)
                    <= u32::MAX,
            decreases emo@.len() - j,
        {
            proof {
                assert(hs.subrange(0, j + 1).drop_last() =~= hs.subrange(0, j as int));
                assert(hs.subrange(0, j + 1).last() == (emo@[j as int].0@, emo@[j as int].1));
            }
            let ghost before = self.ctx.emotion_counts@;
            bump_emotion_exec(&mut self.ctx.emotion_counts, emo[j].0.as_str(), emo[j].1);
            proof {
                let v = emotion_entries(before);
                let c = emo@[j as int].0@;
                let nn = emo@[j as int].1;
                lemma_key_index(v, c);
                let ki = key_index(v, c);
                let after = emotion_entries(self.ctx.emotion_counts@);
                assert(after == bump_emotion(v, c, nn));
                assert forall|k: int| 0 <= k < self.ctx.emotion_counts@.len() implies (#[trigger] self.ctx.emotion_counts@[k]).1.count
                    + (emo@.len() - (j + 1)) <= u32::MAX && self.ctx.emotion_counts@[k].1.intensity_sum + 255 * (emo@.len() - (j + 1))
                    <= u32::MAX by {
                    assert(after[k] == (self.ctx.emotion_counts@[k].0@, self.ctx.emotion_counts@[k].1));
                    if k < before.len() {
                        assert(v[k] == (before[k].0@, before[k].1));
                        assert(before[k].1.count + (emo@.len() - j) <= u32::MAX);
                        assert(before[k].1.intensity_sum + 255 * (emo@.len() - j) <= u32::MAX);
                    }
                }
            }
            j = j + 1;
        }
        assert(hs.subrange(0, emo@.len() as int) =~= hs);
        // Golden quotes.
        self.ctx.golden_quote_count = self.ctx.golden_quote_count + golden;
        // Filler and hedging words.
        let fh = self.filler_scan.find_all(text);
        proof {
            lemma_scan_len(self.filler_scan.entries(), self.filler_scan.modes(), text@, 0);
            assert(fh@.map_values(|s: &str| s@).len() == fh@.len());
        }
        add_hit_counts(&mut self.ctx.filler_counts, fh.as_slice(), Ghost(n_text));
        let hh = self.hedge_scan.find_all(text);
        proof {
            lemma_scan_len(self.hedge_scan.entries(), self.hedge_scan.modes(), text@, 0);
            assert(hh@.map_values(|s: &str| s@).len() == hh@.len());
        }
        add_hit_counts(&mut self.ctx.hedge_counts, hh.as_slice(), Ghost(n_text));
        self.last_end_ms = sentence.end_ms;
        self.ctx.sentences.push(sentence);
        assert(ingest_with(*old(self), sentence, *self, display@, ps));
        proof {
            assert forall|k: int| 0 <= k < self.slots@.len() implies (#[trigger] self.slots@[k]).rule.kind() == old(self).slots@[k].rule.kind() by {
                assert(slot_step(old(self).slots@[k], sentence, old(self).ctx, self.slots@[k], ps[k]));
                lemma_step_kinds(old(self).slots@[k].rule, sentence, old(self).ctx, self.slots@[k].rule, ps[k]);
            }
        }
        display
    }

    /// The counts behind a snapshot: sentences, the filler and hedging words
    /// (most frequent first, ties in first-counted order) and their totals,
    /// the emotion categories (most frequent first), the duration from the
    /// start to the end of the last sentence (0 when the clock ran back),
    /// the non-whitespace characters and the golden quotes.
    pub fn snapshot_counts(&self) -> (r: SnapshotCounts)
        requires
            self.wf(),
            total_nonws(texts_of(self.session().sentences@)) <= u64::MAX,
        ensures
            r.sentence_count == self.session().sentences@.len(),
            r.filler_counts@ == sort_counts(self.session().filler_counts@),
            r.total_fillers == count_sum(self.session().filler_counts@),
            r.emotion_counts@ == sort_emotions(self.session().emotion_counts@),
            r.hedge_counts@ == sort_counts(self.session().hedge_counts@),
            r.hedge_total == count_sum(self.session().hedge_counts@),
            r.duration_ms == (if self.last_end_ms() >= self.session().started_at_ms {
                self.last_end_ms() - self.session().started_at_ms
            } else {
                0
            }),
            r.total_chars == total_nonws(texts_of(self.session().sentences@)),
            r.golden_quote_count == self.session().golden_quote_count,
    {
        let total_fillers = match sum_capped(&self.ctx.filler_counts) {
            Some(v) => v as u32,
            None => 0,
        };
        let hedge_total = match sum_capped(&self.ctx.hedge_counts) {
            Some(v) => v as u32,
            None => 0,
        };
        SnapshotCounts {
            sentence_count: self.ctx.sentences.len() as u64,
            filler_counts: sort_counts_exec(&self.ctx.filler_counts),
            total_fillers,
            emotion_counts: sort_emotions_exec(&self.ctx.emotion_counts),
            hedge_counts: sort_counts_exec(&self.ctx.hedge_counts),
            hedge_total,
            duration_ms: if self.last_end_ms >= self.ctx.started_at_ms {
                self.last_end_ms - self.ctx.started_at_ms
            } else {
                0
            },
            total_chars: count_chars(self.ctx.sentences.as_slice()),
            golden_quote_count: self.ctx.golden_quote_count,
        }
    }

    /// The filler hits of a sentence against the session so far (none when
    /// the filler rule is off); call before `ingest`.
    pub fn filler_hits(&self, sentence: &Sentence) -> (r: Vec<FillerHit>)
        requires
            self.wf(),
            self.room(*sentence),
        ensures
            self.filler_rule() is None ==> r@.len() == 0,
            self.filler_rule() matches Some(f) ==> r@.len() == crate::rules::filler::sentence_hits(f, *sentence).len()
                && forall|i: int| 0 <= i < r@.len() ==> crate::rules::filler::hit_at(#[trigger] r@[i], crate::rules::filler::sentence_hits(f, *sentence), crate::rules::filler::zh_hit_count(f, *sentence), i, f.zh().tiers(), f.en().tiers(), self.session().filler_counts@),
    {
        match &self.filler {
            Some(f) => f.hits(sentence, &self.ctx),
            None => Vec::new(),
        }
    }
}

/// The sum of the counts when it fits in a `u32`.
pub fn sum_capped(fc: &Vec<(String, u32)>) -> (r: Option<u64>)
    ensures
        r == if count_sum(fc@) <= u32::MAX { Some(count_sum(fc@) as u64) } else { None::<u64> },
{
    let mut s: u64 = 0;
    let mut i: usize = 0;
    assert(fc@.subrange(0, 0) =~= Seq::<(String, u32)>::empty());
    while i < fc.len()
        invariant
            i <= fc@.len(),
            s == count_sum(fc@.subrange(0, i as int)),
            s <= u32::MAX,
        decreases fc@.len() - i,
    {
        assert(fc@.subrange(0, i + 1).drop_last() =~= fc@.subrange(0, i as int));
        s = s + fc[i].1 as u64;
        i = i + 1;
        if s > u32::MAX as u64 {
            proof {
                lemma_sum_prefix_ge(fc@, i as int);
            }
            return None;
        }
    }
    assert(fc@.subrange(0, fc@.len() as int) =~= fc@);
    Some(s)
}

proof fn lemma_sum_prefix_ge(fc: Seq<(String, u32)>, j: int)
    requires
        0 <= j <= fc.len(),
    ensures
        count_sum(fc.subrange(0, j)) <= count_sum(fc),
    decreases fc.len() - j,
{
    if j < fc.len() {
        lemma_sum_prefix_ge(fc.drop_last(), j);
        assert(fc.drop_last().subrange(0, j) =~= fc.subrange(0, j));
    } else {
        assert(fc.subrange(0, j) =~= fc);
    }
}


/// (category, intensity) pairs by view.
pub open spec fn emo_views(v: Seq<(String, u8)>) -> Seq<(Seq<char>, u8)> {
    v.map_values(|h: (String, u8)| (h.0@, h.1))
}


/// Counts the hits `ws` into `fc`.
fn add_hit_counts(fc: &mut Vec<(String, u32)>, ws: &[&str], bound: Ghost<nat>)
    requires
        ws@.len() <= bound@,
        count_sum(old(fc)@) + bound@ <= u32::MAX,
    ensures
        count_entries(final(fc)@) == add_hits(count_entries(old(fc)@), ws@.map_values(|s: &str| s@)),
        count_sum(final(fc)@) == count_sum(old(fc)@) + ws@.len(),
{
    let ghost hv = ws@.map_values(|s: &str| s@);
    let ghost c0 = count_entries(fc@);
    proof {
        lemma_entry_sum_views(fc@);
    }
    let mut j: usize = 0;
    assert(hv.subrange(0, 0) =~= Seq::<Seq<char>>::empty());
    while j < ws.len()
        invariant
            j <= ws@.len(),
            hv == ws@.map_values(|s: &str| s@),
            ws@.len() <= bound@,
            entry_sum(c0) + bound@ <= u32::MAX,
            count_entries(fc@) == add_hits(c0, hv.subrange(0, j as int)),
            entry_sum(count_entries(fc@)) == entry_sum(c0) + j,
        decreases ws@.len() - j,
    {
        proof {
            assert(hv.subrange(0, j + 1).drop_last() =~= hv.subrange(0, j as int));
            assert(hv.subrange(0, j + 1).last() == ws@[j as int]@);
            let es = count_entries(fc@);
            assert forall|k: int| 0 <= k < fc@.len() implies (#[trigger] fc@[k]).1 < u32::MAX by {
                lemma_entry_le_sum(es, k);
                assert(es[k] == (fc@[k].0@, fc@[k].1));
            }
            lemma_bump_sum(es, ws@[j as int]@);
        }
        bump_count(fc, ws[j]);
        j = j + 1;
    }
    assert(hv.subrange(0, ws@.len() as int) =~= hv);
    proof {
        lemma_entry_sum_views(fc@);
    }
}


/// `seq![k]` when `b`, else empty.
pub open spec fn cond_kind(b: bool, k: FeedbackKind) -> Seq<FeedbackKind> {
    if b { seq![k] } else { seq![] }
}

/// Settings key of rule `n` (1 to 9) of the fixed order.
pub open spec fn name_at(n: int) -> Seq<char> {
    if n == 1 {
        "word_precision"@
    } else if n == 2 {
        "repetition"@
    } else if n == 3 {
        "conclusion_missing"@
    } else if n == 4 {
        "example_missing"@
    } else if n == 5 {
        "emotion_lexicon"@
    } else if n == 6 {
        "hedge"@
    } else if n == 7 {
        "time_vague"@
    } else if n == 8 {
        "imagery"@
    } else {
        "golden_quote"@
    }
}

/// Event kind of rule `n` (1 to 9) of the fixed order.
pub open spec fn kind_at(n: int) -> FeedbackKind {
    if n == 1 {
        FeedbackKind::WordPrecision
    } else if n == 2 {
        FeedbackKind::Repetition
    } else if n == 3 {
        FeedbackKind::ConclusionMissing
    } else if n == 4 {
        FeedbackKind::ExampleMissing
    } else if n == 5 {
        FeedbackKind::Emotion
    } else if n == 6 {
        FeedbackKind::Hedge
    } else if n == 7 {
        FeedbackKind::TimeVague
    } else if n == 8 {
        FeedbackKind::Imagery
    } else {
        FeedbackKind::GoldenQuote
    }
}

/// The kinds installed for the first `n` rules of the fixed order (the
/// filler rule aside).
pub open spec fn kinds_upto(config: EngineConfig, n: int) -> Seq<FeedbackKind>
    decreases n,
{
    if n <= 0 {
        seq![]
    } else {
        kinds_upto(config, n - 1) + cond_kind(config.enables(name_at(n)), kind_at(n))
    }
}

/// The kinds of the rules a configuration installs, in order.
pub open spec fn installed_kinds(config: EngineConfig) -> Seq<FeedbackKind> {
    kinds_upto(config, 9)
}

/// `rule` is as its lexicon constructor builds it: nothing remembered yet.
pub open spec fn fresh_rule(rule: AnyRule, zh: LexiconV2, en: LexiconEn) -> bool {
    &&& rule.wf()
    &&& match rule {
        AnyRule::Precision(p) => p.zh().built_from(zh.vague_to_precise@) && p.en().built_from(en.vague_to_precise@)
            && p.suggested().len() == 0,
        AnyRule::Repetition(_) => true,
        AnyRule::Conclusion(c) => c.streak() == 0,
        AnyRule::Example(e) => e.streak() == 0,
        AnyRule::Emotion(e) => {
            let es = sort_by_len(flatten_groups(zh.emotion_words@));
            &&& built_from(e.matcher(), es.map_values(|x: EmotionEntry| x.0))
            &&& e.info() == info_entries(es)
        },
        AnyRule::Hedge(h) => built_from(h.zh(), zh.hedges@) && built_from(h.en(), en.hedges@),
        AnyRule::TimeVague(t) => built_from(t.matcher(), keys_of(without_meta(zh.time_vague@))) && t.entries()
            == text_entries(without_meta(zh.time_vague@)) && t.reminded().len() == 0,
        AnyRule::Imagery(m) => built_over(m.markers(), marker_views(IMAGERY_MARKERS@)) && built_from(
            m.abstracts(),
            keys_of(zh.imagery_pairs@),
        ) && m.entries() == list_entries(zh.imagery_pairs@) && !m.marker_hinted() && m.hinted().len() == 0,
        AnyRule::GoldenQuote(g) => g.produced_count() == 0,
    }
}

/// The statistics filler words: the base words, then each non-empty custom
/// word not already listed.
pub open spec fn scan_words(base: Seq<Seq<char>>, custom: Seq<Seq<char>>) -> Seq<Seq<char>>
    decreases custom.len(),
{
    if custom.len() == 0 {
        base
    } else {
        let acc = scan_words(base, custom.drop_last());
        let w = custom.last();
        if w.len() > 0 && !acc.contains(w) {
            acc.push(w)
        } else {
            acc
        }
    }
}

fn push_slot(slots: &mut Vec<RuleSlot>, rule: AnyRule)
    ensures
        final(slots)@ == old(slots)@.push(RuleSlot { rule, cooldown_sentences: DEFAULT_COOLDOWN_SENTENCES, remaining: 0 }),
{
    slots.push(RuleSlot { rule, cooldown_sentences: DEFAULT_COOLDOWN_SENTENCES, remaining: 0 });
}

/// Appends each non-empty custom word not already listed.
fn add_custom_words(words: &mut Vec<String>, custom: &[String])
    ensures
        views(final(words)@) == scan_words(views(old(words)@), views(custom@)),
{
    let ghost base = views(words@);
    let ghost cv = views(custom@);
    let mut i: usize = 0;
    assert(cv.subrange(0, 0) =~= Seq::<Seq<char>>::empty());
    while i < custom.len()
        invariant
            i <= custom@.len(),
            base == views(old(words)@),
            cv == views(custom@),
            views(words@) == scan_words(base, cv.subrange(0, i as int)),
        decreases custom@.len() - i,
    {
        proof {
            assert(cv.subrange(0, i + 1).drop_last() =~= cv.subrange(0, i as int));
            assert(cv.subrange(0, i + 1).last() == custom@[i as int]@);
        }
        let w = &custom[i];
        let mut found = false;
        let mut j: usize = 0;
        while j < words.len()
            invariant
                j <= words@.len(),
                found == (exists|k: int| 0 <= k < j && (#[trigger] words@[k])@ == w@),
            decreases words@.len() - j,
        {
            if str_eq(words[j].as_str(), w.as_str()) {
                found = true;
            }
            j = j + 1;
        }
        proof {
            let d = views(words@);
            if found {
                let k = choose|k: int| 0 <= k < words@.len() && (#[trigger] words@[k])@ == w@;
                assert(d[k] == w@);
                assert(d.contains(w@));
            } else {
                assert forall|k: int| 0 <= k < d.len() implies d[k] != w@ by {
                    assert(d[k] == words@[k]@);
                }
                assert(!d.contains(w@));
            }
        }
        let wlen = crate::text::chars_of(w.as_str()).len();
        if wlen > 0 && !found {
            let ghost before = words@;
            words.push(w.clone());
            assert(views(words@) =~= views(before).push(w@));
        }
        i = i + 1;
    }
    assert(cv.subrange(0, custom@.len() as int) =~= cv);
}


/// `ss` holds fresh rules of the kinds `ks`, in order, each with the default
/// cooldown and nothing left of it.
pub open spec fn slots_ok(ss: Seq<RuleSlot>, ks: Seq<FeedbackKind>, zh: LexiconV2, en: LexiconEn) -> bool {
    &&& ss.len() == ks.len()
    &&& forall|i: int| 0 <= i < ss.len() ==> {
        &&& (#[trigger] ss[i]).rule.kind() == ks[i]
        &&& fresh_rule(ss[i].rule, zh, en)
        &&& ss[i].cooldown_sentences == DEFAULT_COOLDOWN_SENTENCES
        &&& ss[i].remaining == 0
    }
}

/// The kinds installed up to `n` come in rank order, ranks at most `n`.
proof fn lemma_kinds_ranked(config: EngineConfig, n: int)
    requires
        0 <= n <= 9,
    ensures
        forall|i: int, j: int| 0 <= i < j < kinds_upto(config, n).len() ==> rank(kinds_upto(config, n)[i]) < rank(
            kinds_upto(config, n)[j],
        ),
        forall|i: int| 0 <= i < kinds_upto(config, n).len() ==> 1 <= rank(#[trigger] kinds_upto(config, n)[i]) <= n,
    decreases n,
{
    if n > 0 {
        lemma_kinds_ranked(config, n - 1);
        let prev = kinds_upto(config, n - 1);
        let cur = kinds_upto(config, n);
        assert(rank(kind_at(n)) == n);
        assert forall|i: int| 0 <= i < cur.len() implies 1 <= rank(#[trigger] cur[i]) <= n by {
            if i < prev.len() {
                assert(cur[i] == prev[i]);
            }
        }
        assert forall|i: int, j: int| 0 <= i < j < cur.len() implies rank(cur[i]) < rank(cur[j]) by {
            assert(cur[i] == prev[i]);
            if j < prev.len() {
                assert(cur[j] == prev[j]);
            }
        }
    }
}

/// Adds a fresh rule of kind `k` when `on`.
fn add_rule(slots: &mut Vec<RuleSlot>, on: bool, rule: AnyRule, ks: Ghost<Seq<FeedbackKind>>, k: Ghost<FeedbackKind>, zh: Ghost<LexiconV2>, en: Ghost<LexiconEn>)
    requires
        slots_ok(old(slots)@, ks@, zh@, en@),
        rule.kind() == k@,
        fresh_rule(rule, zh@, en@),
    ensures
        slots_ok(final(slots)@, ks@ + cond_kind(on, k@), zh@, en@),
{
    if on {
        push_slot(slots, rule);
        assert(ks@ + cond_kind(on, k@) =~= ks@.push(k@));
        assert(slots@[slots@.len() - 1].rule == rule);
    } else {
        assert(ks@ + cond_kind(on, k@) =~= ks@);
    }
}

/// The enabled rules in their fixed order, fresh.
fn build_slots(config: &EngineConfig, zh: &LexiconV2, en: &LexiconEn) -> (r: Vec<RuleSlot>)
    ensures
        slots_ok(r@, installed_kinds(*config), *zh, *en),
{
    let mut slots: Vec<RuleSlot> = Vec::new();
    assert(kinds_upto(*config, 0) =~= Seq::<FeedbackKind>::empty());
    let on = config.is_enabled("word_precision");
    add_rule(&mut slots, on, AnyRule::Precision(PrecisionRule::from_lexicon(zh, en)), Ghost(kinds_upto(*config, 0)), Ghost(FeedbackKind::WordPrecision), Ghost(*zh), Ghost(*en));
    let on = config.is_enabled("repetition");
    add_rule(&mut slots, on, AnyRule::Repetition(RepetitionRule::new()), Ghost(kinds_upto(*config, 1)), Ghost(FeedbackKind::Repetition), Ghost(*zh), Ghost(*en));
    let on = config.is_enabled("conclusion_missing");
    add_rule(&mut slots, on, AnyRule::Conclusion(ConclusionMissingRule::new()), Ghost(kinds_upto(*config, 2)), Ghost(FeedbackKind::ConclusionMissing), Ghost(*zh), Ghost(*en));
    let on = config.is_enabled("example_missing");
    add_rule(&mut slots, on, AnyRule::Example(ExampleMissingRule::new()), Ghost(kinds_upto(*config, 3)), Ghost(FeedbackKind::ExampleMissing), Ghost(*zh), Ghost(*en));
    let on = config.is_enabled("emotion_lexicon");
    add_rule(&mut slots, on, AnyRule::Emotion(EmotionRule::from_lexicon(zh)), Ghost(kinds_upto(*config, 4)), Ghost(FeedbackKind::Emotion), Ghost(*zh), Ghost(*en));
    let on = config.is_enabled("hedge");
    add_rule(&mut slots, on, AnyRule::Hedge(HedgeRule::from_lexicon(zh, en)), Ghost(kinds_upto(*config, 5)), Ghost(FeedbackKind::Hedge), Ghost(*zh), Ghost(*en));
    let on = config.is_enabled("time_vague");
    add_rule(&mut slots, on, AnyRule::TimeVague(TimeVagueRule::from_lexicon(zh)), Ghost(kinds_upto(*config, 6)), Ghost(FeedbackKind::TimeVague), Ghost(*zh), Ghost(*en));
    let on = config.is_enabled("imagery");
    add_rule(&mut slots, on, AnyRule::Imagery(ImageryRule::from_lexicon(zh)), Ghost(kinds_upto(*config, 7)), Ghost(FeedbackKind::Imagery), Ghost(*zh), Ghost(*en));
    let on = config.is_enabled("golden_quote");
    add_rule(&mut slots, on, AnyRule::GoldenQuote(GoldenQuoteRule::new()), Ghost(kinds_upto(*config, 8)), Ghost(FeedbackKind::GoldenQuote), Ghost(*zh), Ghost(*en));
    slots
}


/// The integer counts of a session snapshot; rates derive from them.
#[derive(Debug, Clone)]
pub struct SnapshotCounts {
    pub sentence_count: u64,
    pub filler_counts: Vec<(String, u32)>,
    pub total_fillers: u32,
    pub emotion_counts: Vec<(String, EmotionAccumulator)>,
    pub hedge_counts: Vec<(String, u32)>,
    pub hedge_total: u32,
    pub duration_ms: u64,
    pub total_chars: u64,
    pub golden_quote_count: u32,
}

/// Stable insertion of `e` into a list kept highest count first.
pub open spec fn insert_by_count(s: Seq<(String, u32)>, e: (String, u32)) -> Seq<(String, u32)>
    decreases s.len(),
{
    if s.len() == 0 {
        seq![e]
    } else if s.last().1 < e.1 {
        insert_by_count(s.drop_last(), e).push(s.last())
    } else {
        s.push(e)
    }
}

/// A stable sort, highest count first.
pub open spec fn sort_counts(s: Seq<(String, u32)>) -> Seq<(String, u32)>
    decreases s.len(),
{
    if s.len() == 0 {
        seq![]
    } else {
        insert_by_count(sort_counts(s.drop_last()), s.last())
    }
}

/// Stable insertion of `e` into a list kept most frequent category first.
pub open spec fn insert_by_hits(s: Seq<(String, EmotionAccumulator)>, e: (String, EmotionAccumulator)) -> Seq<(String, EmotionAccumulator)>
    decreases s.len(),
{
    if s.len() == 0 {
        seq![e]
    } else if s.last().1.count < e.1.count {
        insert_by_hits(s.drop_last(), e).push(s.last())
    } else {
        s.push(e)
    }
}

/// A stable sort, most frequent category first.
pub open spec fn sort_emotions(s: Seq<(String, EmotionAccumulator)>) -> Seq<(String, EmotionAccumulator)>
    decreases s.len(),
{
    if s.len() == 0 {
        seq![]
    } else {
        insert_by_hits(sort_emotions(s.drop_last()), s.last())
    }
}

proof fn lemma_insert_by_count(s: Seq<(String, u32)>, e: (String, u32), p: int)
    requires
        0 <= p <= s.len(),
        forall|k: int| p <= k < s.len() ==> (#[trigger] s[k]).1 < e.1,
        p == 0 || s[p - 1].1 >= e.1,
    ensures
        insert_by_count(s, e) == s.insert(p, e),
    decreases s.len(),
{
    if s.len() == 0 {
        assert(s.insert(p, e) =~= seq![e]);
    } else if p == s.len() {
        assert(s.insert(p, e) =~= s.push(e));
    } else {
        lemma_insert_by_count(s.drop_last(), e, p);
        assert(s.insert(p, e) =~= s.drop_last().insert(p, e).push(s.last()));
    }
}

proof fn lemma_insert_by_hits(s: Seq<(String, EmotionAccumulator)>, e: (String, EmotionAccumulator), p: int)
    requires
        0 <= p <= s.len(),
        forall|k: int| p <= k < s.len() ==> (#[trigger] s[k]).1.count < e.1.count,
        p == 0 || s[p - 1].1.count >= e.1.count,
    ensures
        insert_by_hits(s, e) == s.insert(p, e),
    decreases s.len(),
{
    if s.len() == 0 {
        assert(s.insert(p, e) =~= seq![e]);
    } else if p == s.len() {
        assert(s.insert(p, e) =~= s.push(e));
    } else {
        lemma_insert_by_hits(s.drop_last(), e, p);
        assert(s.insert(p, e) =~= s.drop_last().insert(p, e).push(s.last()));
    }
}

fn sort_counts_exec(s: &Vec<(String, u32)>) -> (r: Vec<(String, u32)>)
    ensures
        r@ == sort_counts(s@),
{
    let mut r: Vec<(String, u32)> = Vec::new();
    let mut i: usize = 0;
    assert(s@.subrange(0, 0) =~= Seq::<(String, u32)>::empty());
    while i < s.len()
        invariant
            i <= s@.len(),
            r@ == sort_counts(s@.subrange(0, i as int)),
        decreases s@.len() - i,
    {
        assert(s@.subrange(0, i + 1).drop_last() =~= s@.subrange(0, i as int));
        let e = (s[i].0.clone(), s[i].1);
        assert(e == s@[i as int]);
        let mut p = r.len();
        while p > 0 && r[p - 1].1 < e.1
            invariant
                p <= r@.len(),
                forall|k: int| p <= k < r@.len() ==> (#[trigger] r@[k]).1 < e.1,
            decreases p,
        {
            p = p - 1;
        }
        proof {
            lemma_insert_by_count(r@, e, p as int);
        }
        r.insert(p, e);
        i = i + 1;
    }
    assert(s@.subrange(0, s@.len() as int) =~= s@);
    r
}

fn sort_emotions_exec(s: &Vec<(String, EmotionAccumulator)>) -> (r: Vec<(String, EmotionAccumulator)>)
    ensures
        r@ == sort_emotions(s@),
{
    let mut r: Vec<(String, EmotionAccumulator)> = Vec::new();
    let mut i: usize = 0;
    assert(s@.subrange(0, 0) =~= Seq::<(String, EmotionAccumulator)>::empty());
    while i < s.len()
        invariant
            i <= s@.len(),
            r@ == sort_emotions(s@.subrange(0, i as int)),
        decreases s@.len() - i,
    {
        assert(s@.subrange(0, i + 1).drop_last() =~= s@.subrange(0, i as int));
        let e = (s[i].0.clone(), s[i].1);
        assert(e == s@[i as int]);
        let mut p = r.len();
        while p > 0 && r[p - 1].1.count < e.1.count
            invariant
                p <= r@.len(),
                forall|k: int| p <= k < r@.len() ==> (#[trigger] r@[k]).1.count < e.1.count,
            decreases p,
        {
            p = p - 1;
        }
        proof {
            lemma_insert_by_hits(r@, e, p as int);
        }
        r.insert(p, e);
        i = i + 1;
    }
    assert(s@.subrange(0, s@.len() as int) =~= s@);
    r
}

/// Whether a rule's events were shown on each of several sentences in a
/// row, and the cooldown left after them.
pub open spec fn run_gate(cooldown: u32, remaining: u32, produced: Seq<bool>) -> (Seq<bool>, u32)
    decreases produced.len(),
{
    if produced.len() == 0 {
        (seq![], remaining)
    } else {
        let (shows, rem) = run_gate(cooldown, remaining, produced.drop_last());
        let (show, next) = gate(cooldown, rem, produced.last());
        (shows.push(show), next)
    }
}

proof fn lemma_run_gate_len(cooldown: u32, remaining: u32, produced: Seq<bool>)
    ensures
        run_gate(cooldown, remaining, produced).0.len() == produced.len(),
    decreases produced.len(),
{
    if produced.len() > 0 {
        lemma_run_gate_len(cooldown, remaining, produced.drop_last());
    }
}

/// After a rule's events are shown, it stays quiet for its cooldown: over
/// the next `cooldown` sentences (or fewer) nothing of it is shown,
/// whatever it produces, and the cooldown runs down one per sentence.
pub proof fn lemma_cooldown_quiet(cooldown: u32, produced: Seq<bool>)
    requires
        cooldown > 0,
        produced.len() <= cooldown,
    ensures
        run_gate(cooldown, gate(cooldown, 0, true).1, produced).1 == cooldown - produced.len(),
        forall|i: int| 0 <= i < produced.len() ==> !(#[trigger] run_gate(cooldown, gate(cooldown, 0, true).1, produced).0[i]),
    decreases produced.len(),
{
    if produced.len() > 0 {
        lemma_cooldown_quiet(cooldown, produced.drop_last());
        lemma_run_gate_len(cooldown, cooldown, produced.drop_last());
        let prev = run_gate(cooldown, cooldown, produced.drop_last());
        let cur = run_gate(cooldown, cooldown, produced);
        assert(prev.1 > 0);
        assert(cur.0 == prev.0.push(false));
        assert forall|i: int| 0 <= i < produced.len() implies !(#[trigger] cur.0[i]) by {
            if i < produced.len() - 1 {
                assert(cur.0[i] == prev.0[i]);
            }
        }
    }
}

/// Once the cooldown has run out, the next produced events are shown and
/// start it again; a rule without cooldown always shows its events.
pub proof fn lemma_cooldown_rearm(cooldown: u32, produced: bool)
    ensures
        produced ==> gate(cooldown, 0, produced) == (true, cooldown),
        cooldown == 0 ==> gate(cooldown, 0, produced).0,
        cooldown > 0 && !produced ==> gate(cooldown, 0, produced) == (false, 0u32),
{
}


/// With every rule enabled, rule `i + 1` of the fixed order is installed
/// at position `i`.
proof fn lemma_all_installed(config: EngineConfig, n: int)
    requires
        0 <= n <= 9,
        forall|m: int| 1 <= m <= 9 ==> config.enables(#[trigger] name_at(m)),
    ensures
        kinds_upto(config, n).len() == n,
        forall|i: int| 0 <= i < n ==> #[trigger] kinds_upto(config, n)[i] == kind_at(i + 1),
    decreases n,
{
    if n > 0 {
        lemma_all_installed(config, n - 1);
        assert(config.enables(name_at(n)));
        let prev = kinds_upto(config, n - 1);
        let cur = kinds_upto(config, n);
        assert(cur == prev.push(kind_at(n)));
        assert forall|i: int| 0 <= i < n implies #[trigger] cur[i] == kind_at(i + 1) by {
            if i < n - 1 {
                assert(cur[i] == prev[i]);
            }
        }
    }
}

} // verus!

verus! {

/// The first `k` sentences of `ss` ingested one by one from `e0` through the
/// states `states`, each with room for its sentence; `outs` the events each
/// step showed.
pub open spec fn replay_prefix(
    e0: RuleEngine,
    ss: Seq<Sentence>,
    k: int,
    states: Seq<RuleEngine>,
    outs: Seq<Seq<FeedbackEvent>>,
) -> bool {
    &&& 0 <= k <= ss.len()
    &&& states.len() == k + 1
    &&& outs.len() == k
    &&& states[0] == e0
    &&& forall|i: int|
        0 <= i < k ==> (#[trigger] states[i]).room(ss[i]) && exists|ps: Seq<Seq<FeedbackEvent>>|
            #[trigger] ingest_with(states[i], ss[i], states[i + 1], outs[i], ps)
}

/// A replay of `ss` from `e0` that stops only at the end or at the first
/// sentence without room, showing `evs` in order.
pub open spec fn replayed(e0: RuleEngine, ss: Seq<Sentence>, evs: Seq<FeedbackEvent>) -> bool {
    exists|k: int, states: Seq<RuleEngine>, outs: Seq<Seq<FeedbackEvent>>|
        #[trigger] replay_prefix(e0, ss, k, states, outs) && (k < ss.len() ==> !states[k].room(ss[k]))
            && evs == flatten(outs)
}

/// An engine as `RuleEngine::new` builds it, started at 0.
pub open spec fn fresh_engine(e: RuleEngine, zh: LexiconV2, en: LexiconEn) -> bool {
    &&& e.wf()
    &&& e.slots().len() == 9
    &&& forall|i: int| 0 <= i < 9 ==> (#[trigger] e.slots()[i]).rule.kind() == kind_at(i + 1) && fresh_rule(
        e.slots()[i].rule,
        zh,
        en,
    )
    &&& e.filler_rule() is Some
    &&& e.session().sentences@.len() == 0
    &&& e.session().started_at_ms == 0
}

impl RuleEngine {
    /// Ingests the sentences in order while each has room, and returns
    /// every event shown, in order.
    pub fn replay(&mut self, sentences: &[Sentence]) -> (r: Vec<FeedbackEvent>)
        requires
            old(self).wf(),
        ensures
            final(self).wf(),
            replayed(*old(self), sentences@, r@),
    {
        let ghost e0 = *self;
        let ghost mut states: Seq<RuleEngine> = seq![*self];
        let ghost mut outs: Seq<Seq<FeedbackEvent>> = seq![];
        let mut all: Vec<FeedbackEvent> = Vec::new();
        let mut i: usize = 0;
        while i < sentences.len()
            invariant_except_break
                self.wf(),
                i <= sentences@.len(),
                replay_prefix(e0, sentences@, i as int, states, outs),
                states.last() == *self,
                all@ == flatten(outs),
            ensures
                self.wf(),
                replay_prefix(e0, sentences@, i as int, states, outs),
                states.last() == *self,
                all@ == flatten(outs),
                i < sentences@.len() ==> !states[i as int].room(sentences@[i as int]),
            decreases sentences@.len() - i,
        {
            let s = sentences[i].duplicate();
            if !self.has_room(&s) {
                break;
            }
            let ghost before = *self;
            let mut evs = self.ingest(s);
            proof {
                let ps = choose|ps: Seq<Seq<FeedbackEvent>>| #[trigger] ingest_with(before, s, *self, evs@, ps);
                let st2 = states.push(*self);
                let o2 = outs.push(evs@);
                assert forall|j: int| 0 <= j < i + 1 implies (#[trigger] st2[j]).room(sentences@[j]) && exists|
                    q: Seq<Seq<FeedbackEvent>>,
                | #[trigger] ingest_with(st2[j], sentences@[j], st2[j + 1], o2[j], q) by {
                    if j < i {
                        assert(st2[j] == states[j]);
                        assert(st2[j + 1] == states[j + 1]);
                        assert(o2[j] == outs[j]);
                    } else {
                        assert(st2[j] == before);
                        assert(st2[j + 1] == *self);
                        assert(o2[j] == evs@);
                        assert(ingest_with(st2[j], sentences@[j], st2[j + 1], o2[j], ps));
                    }
                }
                assert(o2.drop_last() =~= outs);
                states = st2;
                outs = o2;
            }
            all.append(&mut evs);
            i = i + 1;
        }
        proof {
            assert(replay_prefix(e0, sentences@, i as int, states, outs) && (i < sentences@.len() ==> !states[i as int].room(sentences@[i as int])) && all@ == flatten(outs));
        }
        all
    }
}

/// Every rule event of a transcript, as a fresh engine started at 0 shows
/// them when the sentences are ingested in order (rules are
/// deterministic, so a replay gives what the live session showed).
pub fn collect_rule_events(sentences: &[Sentence], zh: &LexiconV2, en: &LexiconEn) -> (r: Vec<FeedbackEvent>)
    ensures
        exists|e0: RuleEngine| #[trigger] fresh_engine(e0, *zh, *en) && replayed(e0, sentences@, r@),
{
    let mut engine = RuleEngine::new(zh, en);
    engine.start(0);
    let ghost e0 = engine;
    let r = engine.replay(sentences);
    assert(fresh_engine(e0, *zh, *en));
    r
}

} // verus!
