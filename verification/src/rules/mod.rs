//! Sentence and feedback types shared by the rules and the report layer.
use vstd::prelude::*;

pub mod lexicon;
pub mod lang;
pub mod golden_quote;
pub mod filler;
pub mod structure;
pub mod hedge;
pub mod precision;
pub mod time_vague;
pub mod imagery;
pub mod emotion;
pub mod repetition;
pub mod engine;







verus! {

/// One final sentence of a session transcript.
#[derive(Debug, Clone, PartialEq)]
pub struct Sentence {
    pub id: u64,
    pub text: String,
    pub start_ms: u64,
    pub end_ms: u64,
}

impl Sentence {
    /// A copy equal to this sentence.
    pub fn duplicate(&self) -> (r: Sentence)
        ensures
            r == *self,
    {
        Sentence { id: self.id, text: self.text.clone(), start_ms: self.start_ms, end_ms: self.end_ms }
    }
}

/// Kinds of live feedback the rules (and the AI check-in) raise.
#[derive(Debug, Clone, Copy, PartialEq, Eq, Structural)]
pub enum FeedbackKind {
    FillerWord,
    WordPrecision,
    Repetition,
    ConclusionMissing,
    ExampleMissing,
    Emotion,
    Hedge,
    TimeVague,
    Imagery,
    GoldenQuote,
    AiCheckin,
}

/// What a feedback event carries besides its message, by rule.
#[derive(Debug, Clone)]
pub enum Payload {
    /// A vague word and its more precise alternatives.
    Precision { original: String, alternatives: Vec<String> },
    /// A sentence close to an earlier one: character-bigram Jaccard similarity
    /// `shared / union` with the earlier sentence.
    Repetition { similar_to: u64, shared: u64, union: u64, text: String },
    /// A streak of sentences reached its limit.
    Streak { streak: u64 },
    /// An emotion word, its category and intensity (1–9).
    Emotion { word: String, category: String, intensity: u8 },
    /// Hedging words of one sentence: the distinct words and all hits.
    Hedge { words: Vec<String>, count: u64 },
    /// A vague time word and how to make it concrete.
    TimeVague { word: String, suggestion: String },
    /// A metaphor marker was used.
    ImageryMarker { marker: String },
    /// An abstract word and concrete ways to say it.
    ImageryAbstract { word: String, suggestions: Vec<String> },
    /// A golden-quote candidate and the signals it hit.
    GoldenQuote { reasons: Vec<String>, quote: String },
    /// An AI check-in issue, by its kind key.
    AiCheckin { issue_type: String },
}

/// One piece of live feedback.
#[derive(Debug, Clone)]
pub struct FeedbackEvent {
    pub kind: FeedbackKind,
    pub sentence_id: Option<u64>,
    pub message: String,
    pub payload: Payload,
}

/// Emotion category totals: hits and the sum of their intensities.
#[derive(Debug, Clone, Copy, PartialEq, Eq, Structural)]
pub struct EmotionAccumulator {
    pub count: u32,
    pub intensity_sum: u32,
}

impl Default for EmotionAccumulator {
    fn default() -> (r: Self)
        ensures
            r.count == 0 && r.intensity_sum == 0,
    {
        EmotionAccumulator { count: 0, intensity_sum: 0 }
    }
}

/// What the rules may read of the session so far.
#[derive(Debug)]
pub struct SessionContext {
    pub sentences: Vec<Sentence>,
    /// Filler word → hits so far.
    pub filler_counts: Vec<(String, u32)>,
    /// Emotion category → totals so far.
    pub emotion_counts: Vec<(String, EmotionAccumulator)>,
    /// Hedging word → hits so far, whether or not a reminder fired.
    pub hedge_counts: Vec<(String, u32)>,
    /// Golden-quote candidates so far.
    pub golden_quote_count: u32,
    pub started_at_ms: u64,
}

impl Default for SessionContext {
    fn default() -> (r: Self)
        ensures
            r.sentences@.len() == 0,
            r.filler_counts@.len() == 0,
            r.emotion_counts@.len() == 0,
            r.hedge_counts@.len() == 0,
            r.golden_quote_count == 0,
            r.started_at_ms == 0,
    {
        SessionContext {
            sentences: Vec::new(),
            filler_counts: Vec::new(),
            emotion_counts: Vec::new(),
            hedge_counts: Vec::new(),
            golden_quote_count: 0,
            started_at_ms: 0,
        }
    }
}

} // verus!
