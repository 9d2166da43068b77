//! Golden-quote detection: four heuristic signals, a quote needs two of
//! them, and a session gets at most three.
use vstd::prelude::*;
use crate::text::{chars_of, contains_seq, str_contains, nonws_count, is_ws, char_is_ws, join, views, push_str, push_join};
use crate::rules::{FeedbackEvent, FeedbackKind, Payload, Sentence, SessionContext};
use crate::rules::lexicon::owned_all;

verus! {

/// Most golden quotes flagged in one session.
pub const GOLDEN_QUOTE_MAX_PER_SESSION: usize = 3;

/// Sentence length range of the emphasis signal (non-whitespace characters).
pub const GOLDEN_QUOTE_MIN_CHARS: usize = 12;

pub const GOLDEN_QUOTE_MAX_CHARS: usize = 30;

/// Metaphor markers.
pub open spec fn metaphor_markers() -> Seq<Seq<char>> {
    seq!["就像"@, "好比"@, "相当于"@, "仿佛"@, "如同"@]
}

fn metaphor_marker(i: usize) -> (r: &'static str)
    requires
        i < 5,
    ensures
        r@ == metaphor_markers()[i as int],
{
    match i {
        0 => "就像",
        1 => "好比",
        2 => "相当于",
        3 => "仿佛",
        _ => "如同",
    }
}

/// Words that make a number a conclusion.
pub open spec fn conclusion_words() -> Seq<Seq<char>> {
    seq!["就"@, "才"@, "能"@, "会"@, "等于"@]
}

fn conclusion_word(i: usize) -> (r: &'static str)
    requires
        i < 5,
    ensures
        r@ == conclusion_words()[i as int],
{
    match i {
        0 => "就",
        1 => "才",
        2 => "能",
        3 => "会",
        _ => "等于",
    }
}

/// Emphasis structures: both halves must occur.
pub open spec fn emphasis_pairs() -> Seq<(Seq<char>, Seq<char>)> {
    seq![("不是"@, "而是"@), ("越"@, "越"@), ("只有"@, "才"@)]
}

fn emphasis_pair(i: usize) -> (r: (&'static str, &'static str))
    requires
        i < 3,
    ensures
        (r.0@, r.1@) == emphasis_pairs()[i as int],
{
    match i {
        0 => ("不是", "而是"),
        1 => ("越", "越"),
        _ => ("只有", "才"),
    }
}

/// Chinese numerals counted as digits.
pub open spec fn han_digits() -> Seq<char> {
    seq!['一', '二', '两', '三', '四', '五', '六', '七', '八', '九', '十', '百', '千', '万', '亿', '零']
}

pub open spec fn is_hanzi(c: char) -> bool {
    ('\u{4E00}' <= c && c <= '\u{9FFF}') || ('\u{3400}' <= c && c <= '\u{4DBF}')
}

pub open spec fn is_digit_char(c: char) -> bool {
    ('0' <= c && c <= '9') || han_digits().contains(c)
}

fn char_is_digit(c: char) -> (r: bool)
    ensures
        r == is_digit_char(c),
{
    if '0' <= c && c <= '9' {
        return true;
    }
    let mut v: Vec<char> = Vec::new();
    v.push('一');
    v.push('二');
    v.push('两');
    v.push('三');
    v.push('四');
    v.push('五');
    v.push('六');
    v.push('七');
    v.push('八');
    v.push('九');
    v.push('十');
    v.push('百');
    v.push('千');
    v.push('万');
    v.push('亿');
    v.push('零');
    assert(v@ =~= han_digits());
    crate::text::char_in(v.as_slice(), c)
}

fn char_is_hanzi(c: char) -> (r: bool)
    ensures
        r == is_hanzi(c),
{
    ('\u{4E00}' <= c && c <= '\u{9FFF}') || ('\u{3400}' <= c && c <= '\u{4DBF}')
}

/// Signal one: a metaphor marker.
pub open spec fn has_metaphor(t: Seq<char>) -> bool {
    exists|m: int| 0 <= m < 5 && contains_seq(t, #[trigger] metaphor_markers()[m])
}

/// Signal two: a digit and a conclusion word.
pub open spec fn has_number_conclusion(t: Seq<char>) -> bool {
    (exists|i: int| 0 <= i < t.len() && is_digit_char(#[trigger] t[i])) && (exists|m: int|
        0 <= m < 5 && contains_seq(t, #[trigger] conclusion_words()[m]))
}

/// (length of the current Chinese run, runs of exactly four seen) after `s`.
pub open spec fn run_state(s: Seq<char>) -> (nat, nat)
    decreases s.len(),
{
    if s.len() == 0 {
        (0, 0)
    } else {
        let (r, c) = run_state(s.drop_last());
        if is_hanzi(s.last()) {
            (r + 1, c)
        } else {
            (0, if r == 4 {
                c + 1
            } else {
                c
            })
        }
    }
}

/// Runs of exactly four Chinese characters, split at any other character.
pub open spec fn four_char_runs(s: Seq<char>) -> nat {
    let (r, c) = run_state(s);
    if r == 4 {
        c + 1
    } else {
        c
    }
}

/// Signal four: 12 to 30 non-whitespace characters and an emphasis structure.
pub open spec fn has_emphasis(t: Seq<char>) -> bool {
    12 <= nonws_count(t) <= 30 && exists|p: int|
        0 <= p < 3 && contains_seq(t, (#[trigger] emphasis_pairs()[p]).0) && contains_seq(
            t,
            emphasis_pairs()[p].1,
        )
}

/// Names of the signals a sentence shows, in the fixed order.
pub open spec fn reasons_spec(t: Seq<char>) -> Seq<Seq<char>> {
    let a = if has_metaphor(t) {
        seq!["比喻"@]
    } else {
        seq![]
    };
    let b = if has_number_conclusion(t) {
        seq!["数字结论"@]
    } else {
        seq![]
    };
    let c = if four_char_runs(t) >= 2 {
        seq!["四字对仗"@]
    } else {
        seq![]
    };
    let d = if has_emphasis(t) {
        seq!["强调结构"@]
    } else {
        seq![]
    };
    a + b + c + d
}

fn metaphor_signal(text: &str) -> (r: bool)
    ensures
        r == has_metaphor(text@),
{
    let mut m: usize = 0;
    while m < 5
        invariant
            m <= 5,
            forall|k: int| 0 <= k < m ==> !contains_seq(text@, #[trigger] metaphor_markers()[k]),
        decreases 5 - m,
    {
        if str_contains(text, metaphor_marker(m)) {
            return true;
        }
        m = m + 1;
    }
    false
}

fn number_conclusion_signal(text: &str, v: &[char]) -> (r: bool)
    requires
        v@ == text@,
    ensures
        r == has_number_conclusion(text@),
{
    let mut has_digit = false;
    let mut i: usize = 0;
    while i < v.len()
        invariant
            i <= v@.len(),
            !has_digit ==> forall|k: int| 0 <= k < i ==> !is_digit_char(#[trigger] v@[k]),
            has_digit ==> exists|k: int| 0 <= k < v@.len() && is_digit_char(#[trigger] v@[k]),
        decreases v@.len() - i,
    {
        if char_is_digit(v[i]) {
            has_digit = true;
        }
        i = i + 1;
    }
    if !has_digit {
        return false;
    }
    assert(exists|k: int| 0 <= k < text@.len() && is_digit_char(#[trigger] text@[k]));
    let mut m: usize = 0;
    while m < 5
        invariant
            m <= 5,
            exists|k: int| 0 <= k < text@.len() && is_digit_char(#[trigger] text@[k]),
            forall|k: int| 0 <= k < m ==> !contains_seq(text@, #[trigger] conclusion_words()[k]),
        decreases 5 - m,
    {
        if str_contains(text, conclusion_word(m)) {
            return true;
        }
        m = m + 1;
    }
    false
}

fn four_char_count(v: &[char]) -> (r: usize)
    ensures
        r == four_char_runs(v@),
{
    let mut run: usize = 0;
    let mut count: usize = 0;
    let mut i: usize = 0;
    assert(v@.subrange(0, 0) =~= Seq::<char>::empty());
    while i < v.len()
        invariant
            i <= v@.len(),
            (run as nat, count as nat) == run_state(v@.subrange(0, i as int)),
            run + count <= i,
        decreases v@.len() - i,
    {
        proof {
            assert(v@.subrange(0, i + 1).drop_last() =~= v@.subrange(0, i as int));
            lemma_run_state_bound(v@.subrange(0, i as int));
        }
        if char_is_hanzi(v[i]) {
            run = run + 1;
        } else {
            if run == 4 {
                count = count + 1;
            }
            run = 0;
        }
        i = i + 1;
    }
    assert(v@.subrange(0, v@.len() as int) =~= v@);
    if run == 4 {
        count + 1
    } else {
        count
    }
}

proof fn lemma_run_state_bound(s: Seq<char>)
    ensures
        run_state(s).0 + run_state(s).1 <= s.len(),
    decreases s.len(),
{
    if s.len() > 0 {
        lemma_run_state_bound(s.drop_last());
    }
}

fn nonws_len(v: &[char]) -> (r: usize)
    ensures
        r == nonws_count(v@),
{
    let mut n: usize = 0;
    let mut i: usize = 0;
    assert(v@.subrange(0, 0) =~= Seq::<char>::empty());
    while i < v.len()
        invariant
            i <= v@.len(),
            n == nonws_count(v@.subrange(0, i as int)),
            n <= i,
        decreases v@.len() - i,
    {
        proof {
            assert(v@.subrange(0, i + 1).drop_last() =~= v@.subrange(0, i as int));
        }
        if !char_is_ws(v[i]) {
            n = n + 1;
        }
        i = i + 1;
    }
    assert(v@.subrange(0, v@.len() as int) =~= v@);
    n
}

fn emphasis_signal(text: &str, v: &[char]) -> (r: bool)
    requires
        v@ == text@,
    ensures
        r == has_emphasis(text@),
{
    let len = nonws_len(v);
    if len < GOLDEN_QUOTE_MIN_CHARS || len > GOLDEN_QUOTE_MAX_CHARS {
        return false;
    }
    let mut p: usize = 0;
    while p < 3
        invariant
            p <= 3,
            12 <= nonws_count(text@) <= 30,
            forall|k: int|
                0 <= k < p ==> !(contains_seq(text@, (#[trigger] emphasis_pairs()[k]).0) && contains_seq(
                    text@,
                    emphasis_pairs()[k].1,
                )),
        decreases 3 - p,
    {
        let (a, b) = emphasis_pair(p);
        if str_contains(text, a) && str_contains(text, b) {
            return true;
        }
        p = p + 1;
    }
    false
}

/// The golden-quote signals a sentence shows.
pub fn golden_quote_reasons(text: &str) -> (r: Vec<&'static str>)
    ensures
        r@.map_values(|s: &str| s@) == reasons_spec(text@),
{
    let v = chars_of(text);
    let mut out: Vec<&'static str> = Vec::new();
    let ghost mut acc: Seq<Seq<char>> = seq![];
    if metaphor_signal(text) {
        out.push("比喻");
    }
    let ghost a = out@.map_values(|s: &str| s@);
    if number_conclusion_signal(text, v.as_slice()) {
        out.push("数字结论");
    }
    let ghost b = out@.map_values(|s: &str| s@);
    if four_char_count(v.as_slice()) >= 2 {
        out.push("四字对仗");
    }
    let ghost c = out@.map_values(|s: &str| s@);
    if emphasis_signal(text, v.as_slice()) {
        out.push("强调结构");
    }
    assert(out@.map_values(|s: &str| s@) =~= reasons_spec(text@));
    out
}

/// Golden-quote rule state: how many quotes this session already got.
pub struct GoldenQuoteRule {
    produced: usize,
}

impl GoldenQuoteRule {
    pub closed spec fn produced_count(&self) -> nat {
        self.produced as nat
    }

    /// A session never gets more than three quotes.
    pub closed spec fn wf(&self) -> bool {
        self.produced <= 3
    }

    pub fn new() -> (r: Self)
        ensures
            r.produced_count() == 0,
            r.wf(),
    {
        GoldenQuoteRule { produced: 0 }
    }

    /// The signals of a sentence when it is flagged as a golden quote: two
    /// signals or more, and fewer than three quotes flagged before.
    pub fn on_text(&mut self, text: &str) -> (r: Option<Vec<&'static str>>)
        requires
            old(self).wf(),
        ensures
            final(self).wf(),
            match r {
                Some(v) => old(self).produced_count() < 3 && reasons_spec(text@).len() >= 2 && v@.map_values(
                    |s: &str| s@,
                ) == reasons_spec(text@) && final(self).produced_count() == old(self).produced_count() + 1,
                None => (old(self).produced_count() >= 3 || reasons_spec(text@).len() < 2)
                    && final(self).produced_count() == old(self).produced_count(),
            },
    {
        if self.produced >= GOLDEN_QUOTE_MAX_PER_SESSION {
            return None;
        }
        let reasons = golden_quote_reasons(text);
        if reasons.len() < 2 {
            return None;
        }
        self.produced = self.produced + 1;
        Some(reasons)
    }

    /// The rule on one sentence: a golden-quote event naming the signals hit,
    /// under the same conditions as `on_text`.
    pub fn on_sentence(&mut self, sentence: &Sentence, ctx: &SessionContext) -> (r: Vec<FeedbackEvent>)
        requires
            old(self).wf(),
        ensures
            golden_quote_step(*old(self), *sentence, *final(self), r@),
    {
        match self.on_text(sentence.text.as_str()) {
            Some(rs) => {
                let reasons = owned_all(rs.as_slice());
                let mut message = String::new();
                push_str(&mut message, "金句信号：");
                push_join(&mut message, reasons.as_slice(), "+");
                push_str(&mut message, "——这句值得保留复用");
                let mut v: Vec<FeedbackEvent> = Vec::new();
                v.push(FeedbackEvent {
                    kind: FeedbackKind::GoldenQuote,
                    sentence_id: Some(sentence.id),
                    message,
                    payload: Payload::GoldenQuote { reasons, quote: sentence.text.clone() },
                });
                v
            },
            None => Vec::new(),
        }
    }
}

/// `e` flags `s` as a golden-quote candidate.
pub open spec fn golden_quote_event(e: FeedbackEvent, s: Sentence) -> bool {
    &&& e.kind == FeedbackKind::GoldenQuote
    &&& e.sentence_id == Some(s.id)
    &&& e.message@ == "金句信号："@ + join(reasons_spec(s.text@), "+"@) + "——这句值得保留复用"@
    &&& e.payload matches Payload::GoldenQuote { reasons, quote } && views(reasons@) == reasons_spec(s.text@)
        && quote@ == s.text@
}


/// What the golden-quote rule does on sentence `s`, from state `a` to state
/// `b`, producing `r`.
pub open spec fn golden_quote_step(a: GoldenQuoteRule, s: Sentence, b: GoldenQuoteRule, r: Seq<FeedbackEvent>) -> bool {
    &&& b.wf()
    &&& ({
        let t = s.text@;
        let fire = a.produced_count() < 3 && reasons_spec(t).len() >= 2;
        &&& fire ==> b.produced_count() == a.produced_count() + 1 && r.len() == 1
            && golden_quote_event(r[0], s)
        &&& !fire ==> b.produced_count() == a.produced_count() && r.len() == 0
    })
}

} // verus!
