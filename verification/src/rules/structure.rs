//! Structure nudges: too many descriptive sentences without a conclusion,
//! too many opinions in a row without an example.
//!
//! Markers are matched as substrings of the sentence, and again of its
//! lowercase form so that a capitalised English marker ("In conclusion")
//! counts too.
use vstd::prelude::*;
use crate::rules::{FeedbackEvent, FeedbackKind, Payload, Sentence, SessionContext};
use crate::text::{contains_seq, str_contains, lit};

verus! {

/// Descriptive sentences in a row that earn a conclusion nudge.
pub const CONCLUSION_STREAK: usize = 5;

/// Opinions in a row that earn an example nudge.
pub const OPINION_STREAK: usize = 4;

/// Conclusion markers (English ones in lowercase).
pub const CONCLUSION_MARKERS: [&'static str; 9] = [
    "所以", "总之", "结论是", "我的观点是", "一句话总结",
    "so", "therefore", "in conclusion", "the point is",
];

/// Opinion markers (English ones in lowercase).
pub const OPINION_MARKERS: [&'static str; 8] = [
    "我觉得", "我认为", "应该",
    "i think", "i believe", "i feel like", "in my opinion", "we should",
];

/// Example markers (English ones in lowercase).
pub const EXAMPLE_MARKERS: [&'static str; 6] = [
    "比如", "举个例子", "就像",
    "for example", "for instance", "such as",
];

pub open spec fn marker_views(ms: Seq<&'static str>) -> Seq<Seq<char>> {
    ms.map_values(|m: &'static str| m@)
}

/// What `str::to_lowercase` makes of a text (the full Unicode lowercase mapping).
pub uninterp spec fn unicode_lowercase(s: Seq<char>) -> Seq<char>;

/// `str::to_lowercase`.
#[verifier::external_body]
pub(crate) fn to_lowercase(s: &str) -> (r: String)
    ensures
        r@ == unicode_lowercase(s@),
{
    s.to_lowercase()
}

/// Some marker occurs in `text` or in `lower`.
pub open spec fn any_marker_in(text: Seq<char>, lower: Seq<char>, ms: Seq<Seq<char>>) -> bool {
    exists|i: int| 0 <= i < ms.len() && (contains_seq(text, #[trigger] ms[i]) || contains_seq(lower, ms[i]))
}

/// Some marker occurs in the text or in its lowercase form.
pub open spec fn has_marker(text: Seq<char>, ms: Seq<Seq<char>>) -> bool {
    any_marker_in(text, unicode_lowercase(text), ms)
}

/// Whether a marker occurs in `text` or in `lower` (its lowercase form).
pub fn contains_any_in(text: &str, lower: &str, markers: &[&'static str]) -> (r: bool)
    ensures
        r == any_marker_in(text@, lower@, marker_views(markers@)),
{
    let ghost ms = marker_views(markers@);
    let mut i: usize = 0;
    while i < markers.len()
        invariant
            i <= markers@.len(),
            ms == marker_views(markers@),
            forall|k: int| 0 <= k < i ==> !contains_seq(text@, #[trigger] ms[k]),
        decreases markers@.len() - i,
    {
        if str_contains(text, markers[i]) {
            assert(contains_seq(text@, ms[i as int]));
            return true;
        }
        i = i + 1;
    }
    let mut j: usize = 0;
    while j < markers.len()
        invariant
            j <= markers@.len(),
            ms == marker_views(markers@),
            forall|k: int| 0 <= k < markers@.len() ==> !contains_seq(text@, #[trigger] ms[k]),
            forall|k: int| 0 <= k < j ==> !contains_seq(lower@, #[trigger] ms[k]),
        decreases markers@.len() - j,
    {
        if str_contains(lower, markers[j]) {
            assert(contains_seq(lower@, ms[j as int]));
            return true;
        }
        j = j + 1;
    }
    proof {
        assert forall|k: int| 0 <= k < ms.len() implies !(contains_seq(text@, #[trigger] ms[k]) || contains_seq(lower@, ms[k])) by {}
    }
    false
}

/// Whether a marker occurs in the text, as given or lowercased.
pub fn contains_any(text: &str, markers: &[&'static str]) -> (r: bool)
    ensures
        r == has_marker(text@, marker_views(markers@)),
{
    let lower = to_lowercase(text);
    contains_any_in(text, lower.as_str(), markers)
}

/// A streak nudge event for a sentence.
pub open spec fn streak_event(e: FeedbackEvent, kind: FeedbackKind, id: u64, msg: Seq<char>, n: u64) -> bool {
    &&& e.kind == kind
    &&& e.sentence_id == Some(id)
    &&& e.message@ == msg
    &&& e.payload == Payload::Streak { streak: n }
}

pub open spec fn conclusion_msg() -> Seq<char> {
    "描述已持续很久，该给结论了"@
}

pub open spec fn example_msg() -> Seq<char> {
    "连续输出观点了，举个例子会更有画面感"@
}

/// Counts descriptive sentences since the last conclusion marker.
pub struct ConclusionMissingRule {
    streak: usize,
}

impl ConclusionMissingRule {
    pub closed spec fn streak(&self) -> nat {
        self.streak as nat
    }

    /// The streak is reset when it reaches its limit.
    pub closed spec fn wf(&self) -> bool {
        self.streak < CONCLUSION_STREAK
    }

    pub fn new() -> (r: Self)
        ensures
            r.wf(),
            r.streak() == 0,
    {
        ConclusionMissingRule { streak: 0 }
    }

    /// One sentence, given whether it holds a conclusion marker: a marker
    /// resets the streak; the fifth sentence in a row without one gets a
    /// nudge and resets it too.
    pub fn step(&mut self, has_conclusion: bool, sentence_id: u64) -> (r: Vec<FeedbackEvent>)
        requires
            old(self).wf(),
        ensures
            final(self).wf(),
            has_conclusion ==> final(self).streak() == 0 && r@.len() == 0,
            !has_conclusion && old(self).streak() + 1 == CONCLUSION_STREAK ==> final(self).streak() == 0
                && r@.len() == 1 && streak_event(
                r@[0],
                FeedbackKind::ConclusionMissing,
                sentence_id,
                conclusion_msg(),
                CONCLUSION_STREAK as u64,
            ),
            !has_conclusion && old(self).streak() + 1 < CONCLUSION_STREAK ==> final(self).streak()
                == old(self).streak() + 1 && r@.len() == 0,
    {
        if has_conclusion {
            self.streak = 0;
            return Vec::new();
        }
        self.streak = self.streak + 1;
        if self.streak == CONCLUSION_STREAK {
            self.streak = 0;
            let mut v: Vec<FeedbackEvent> = Vec::new();
            v.push(FeedbackEvent {
                kind: FeedbackKind::ConclusionMissing,
                sentence_id: Some(sentence_id),
                message: lit("描述已持续很久，该给结论了"),
                payload: Payload::Streak { streak: CONCLUSION_STREAK as u64 },
            });
            return v;
        }
        Vec::new()
    }

    /// The rule on one sentence: `step` with whether the sentence holds a
    /// conclusion marker.
    pub fn on_sentence(&mut self, sentence: &Sentence, ctx: &SessionContext) -> (r: Vec<FeedbackEvent>)
        requires
            old(self).wf(),
        ensures
            conclusion_step(*old(self), *sentence, *final(self), r@),
    {
        let hit = contains_any(sentence.text.as_str(), &CONCLUSION_MARKERS);
        self.step(hit, sentence.id)
    }
}

/// What the conclusion rule does on sentence `s`, from state `a` to state
/// `b`, producing `r`.
pub open spec fn conclusion_step(a: ConclusionMissingRule, s: Sentence, b: ConclusionMissingRule, r: Seq<FeedbackEvent>) -> bool {
    let hit = has_marker(s.text@, marker_views(CONCLUSION_MARKERS@));
    &&& a.streak() < CONCLUSION_STREAK
    &&& b.wf()
    &&& hit ==> b.streak() == 0 && r.len() == 0
    &&& !hit && a.streak() + 1 == CONCLUSION_STREAK ==> b.streak() == 0 && r.len() == 1 && streak_event(
        r[0],
        FeedbackKind::ConclusionMissing,
        s.id,
        conclusion_msg(),
        CONCLUSION_STREAK as u64,
    )
    &&& !hit && a.streak() + 1 < CONCLUSION_STREAK ==> b.streak() == a.streak() + 1 && r.len() == 0
}

impl Default for ConclusionMissingRule {
    fn default() -> (r: Self)
        ensures
            r.wf(),
            r.streak() == 0,
    {
        ConclusionMissingRule::new()
    }
}

/// Counts opinions in a row since the last example.
pub struct ExampleMissingRule {
    opinion_streak: usize,
}

impl ExampleMissingRule {
    pub closed spec fn streak(&self) -> nat {
        self.opinion_streak as nat
    }

    pub closed spec fn wf(&self) -> bool {
        self.opinion_streak < OPINION_STREAK
    }

    pub fn new() -> (r: Self)
        ensures
            r.wf(),
            r.streak() == 0,
    {
        ExampleMissingRule { opinion_streak: 0 }
    }

    /// One sentence, given whether it holds an example marker and whether it
    /// holds an opinion marker: an example or a sentence without an opinion
    /// resets the streak; the fourth opinion in a row gets a nudge and resets
    /// it too.
    pub fn step(&mut self, has_example: bool, has_opinion: bool, sentence_id: u64) -> (r: Vec<FeedbackEvent>)
        requires
            old(self).wf(),
        ensures
            final(self).wf(),
            (has_example || !has_opinion) ==> final(self).streak() == 0 && r@.len() == 0,
            !has_example && has_opinion && old(self).streak() + 1 == OPINION_STREAK ==> final(self).streak()
                == 0 && r@.len() == 1 && streak_event(
                r@[0],
                FeedbackKind::ExampleMissing,
                sentence_id,
                example_msg(),
                OPINION_STREAK as u64,
            ),
            !has_example && has_opinion && old(self).streak() + 1 < OPINION_STREAK ==> final(self).streak()
                == old(self).streak() + 1 && r@.len() == 0,
    {
        if has_example {
            self.opinion_streak = 0;
            return Vec::new();
        }
        if has_opinion {
            self.opinion_streak = self.opinion_streak + 1;
        } else {
            self.opinion_streak = 0;
        }
        if self.opinion_streak == OPINION_STREAK {
            self.opinion_streak = 0;
            let mut v: Vec<FeedbackEvent> = Vec::new();
            v.push(FeedbackEvent {
                kind: FeedbackKind::ExampleMissing,
                sentence_id: Some(sentence_id),
                message: lit("连续输出观点了，举个例子会更有画面感"),
                payload: Payload::Streak { streak: OPINION_STREAK as u64 },
            });
            return v;
        }
        Vec::new()
    }

    /// The rule on one sentence: `step` with whether the sentence holds an
    /// example marker and an opinion marker.
    pub fn on_sentence(&mut self, sentence: &Sentence, ctx: &SessionContext) -> (r: Vec<FeedbackEvent>)
        requires
            old(self).wf(),
        ensures
            example_step(*old(self), *sentence, *final(self), r@),
    {
        let ex = contains_any(sentence.text.as_str(), &EXAMPLE_MARKERS);
        if ex {
            return self.step(true, false, sentence.id);
        }
        let op = contains_any(sentence.text.as_str(), &OPINION_MARKERS);
        self.step(false, op, sentence.id)
    }
}

/// What the example rule does on sentence `s`, from state `a` to state `b`,
/// producing `r`.
pub open spec fn example_step(a: ExampleMissingRule, s: Sentence, b: ExampleMissingRule, r: Seq<FeedbackEvent>) -> bool {
    let ex = has_marker(s.text@, marker_views(EXAMPLE_MARKERS@));
    let op = has_marker(s.text@, marker_views(OPINION_MARKERS@));
    &&& a.streak() < OPINION_STREAK
    &&& b.wf()
    &&& (ex || !op) ==> b.streak() == 0 && r.len() == 0
    &&& !ex && op && a.streak() + 1 == OPINION_STREAK ==> b.streak() == 0 && r.len() == 1 && streak_event(
        r[0],
        FeedbackKind::ExampleMissing,
        s.id,
        example_msg(),
        OPINION_STREAK as u64,
    )
    &&& !ex && op && a.streak() + 1 < OPINION_STREAK ==> b.streak() == a.streak() + 1 && r.len() == 0
}

impl Default for ExampleMissingRule {
    fn default() -> (r: Self)
        ensures
            r.wf(),
            r.streak() == 0,
    {
        ExampleMissingRule::new()
    }
}

} // verus!
