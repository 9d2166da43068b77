//! Repetition: a sentence whose character bigrams largely overlap one of
//! the last twenty sentences (Jaccard similarity above 70%) gets one
//! reminder, naming the most recent such sentence.
use vstd::prelude::*;
use crate::rules::{FeedbackEvent, FeedbackKind, Payload, Sentence, SessionContext};
use crate::rules::lexicon::dedup;
use crate::text::{chars_of, chars_eq, lit};

verus! {

/// Sentences looked back on.
pub const WINDOW: usize = 20;

/// A repeat needs a similarity above this many hundredths.
pub const THRESHOLD_PERCENT: u64 = 70;

/// The character bigrams of a text, in order.
pub open spec fn bigrams(s: Seq<char>) -> Seq<(char, char)> {
    Seq::new(if s.len() >= 2 { (s.len() - 1) as nat } else { 0 }, |i: int| (s[i], s[i + 1]))
}

/// How many elements of `a` occur in `b`.
pub open spec fn shared(a: Seq<(char, char)>, b: Seq<(char, char)>) -> nat
    decreases a.len(),
{
    if a.len() == 0 {
        0
    } else {
        shared(a.drop_last(), b) + if b.contains(a.last()) { 1nat } else { 0nat }
    }
}

/// Jaccard similarity of the bigram sets as (intersection, union): the
/// union is A's bigrams plus those of B not in A. When either text has no
/// bigram, it is 1 for equal texts and 0 otherwise.
pub open spec fn jaccard_parts(a: Seq<char>, b: Seq<char>) -> (nat, nat) {
    let da = dedup(bigrams(a));
    let db = dedup(bigrams(b));
    if da.len() == 0 || db.len() == 0 {
        if a == b { (1, 1) } else { (0, 1) }
    } else {
        (shared(da, db), (da.len() + (db.len() - shared(db, da))) as nat)
    }
}

/// Similarity above the threshold.
pub open spec fn is_similar(a: Seq<char>, b: Seq<char>) -> bool {
    100 * jaccard_parts(a, b).0 > THRESHOLD_PERCENT * jaccard_parts(a, b).1
}

proof fn lemma_shared_bound(a: Seq<(char, char)>, b: Seq<(char, char)>)
    ensures
        shared(a, b) <= a.len(),
    decreases a.len(),
{
    if a.len() > 0 {
        lemma_shared_bound(a.drop_last(), b);
    }
}


fn pair_in(v: &Vec<(char, char)>, p: (char, char)) -> (r: bool)
    ensures
        r == v@.contains(p),
{
    let mut i: usize = 0;
    while i < v.len()
        invariant
            i <= v@.len(),
            forall|k: int| 0 <= k < i ==> v@[k] != p,
        decreases v@.len() - i,
    {
        if v[i].0 == p.0 && v[i].1 == p.1 {
            assert(v@[i as int] == p);
            return true;
        }
        i = i + 1;
    }
    false
}

/// The distinct bigrams of a text, first occurrences in order.
fn distinct_bigrams(s: &Vec<char>) -> (r: Vec<(char, char)>)
    ensures
        r@ == dedup(bigrams(s@)),
{
    let ghost bs = bigrams(s@);
    let mut r: Vec<(char, char)> = Vec::new();
    if s.len() < 2 {
        assert(bs =~= Seq::<(char, char)>::empty());
        return r;
    }
    let mut i: usize = 0;
    assert(bs.subrange(0, 0) =~= Seq::<(char, char)>::empty());
    while i < s.len() - 1
        invariant
            s@.len() >= 2,
            i + 1 <= s@.len(),
            bs == bigrams(s@),
            bs.len() == s@.len() - 1,
            r@ == dedup(bs.subrange(0, i as int)),
        decreases s@.len() - i,
    {
        let p = (s[i], s[i + 1]);
        assert(bs[i as int] == p);
        assert(bs.subrange(0, i + 1).drop_last() =~= bs.subrange(0, i as int));
        if !pair_in(&r, p) {
            r.push(p);
        }
        i = i + 1;
    }
    assert(bs.subrange(0, bs.len() as int) =~= bs);
    r
}

/// Character-bigram Jaccard similarity of two texts as (intersection, union).
pub fn char_bigram_jaccard_parts(a: &str, b: &str) -> (r: (u64, u64))
    ensures
        r.0 == jaccard_parts(a@, b@).0,
        r.1 == jaccard_parts(a@, b@).1,
{
    let ca = chars_of(a);
    let cb = chars_of(b);
    let da = distinct_bigrams(&ca);
    let db = distinct_bigrams(&cb);
    if da.len() == 0 || db.len() == 0 {
        if chars_eq(ca.as_slice(), cb.as_slice()) {
            return (1, 1);
        } else {
            return (0, 1);
        }
    }
    let mut inter: u64 = 0;
    let mut i: usize = 0;
    assert(da@.subrange(0, 0) =~= Seq::<(char, char)>::empty());
    while i < da.len()
        invariant
            i <= da@.len(),
            inter == shared(da@.subrange(0, i as int), db@),
            inter <= i,
        decreases da@.len() - i,
    {
        assert(da@.subrange(0, i + 1).drop_last() =~= da@.subrange(0, i as int));
        if pair_in(&db, da[i]) {
            inter = inter + 1;
        }
        i = i + 1;
    }
    assert(da@.subrange(0, da@.len() as int) =~= da@);
    let mut all: Vec<(char, char)> = da.clone();
    let mut j: usize = 0;
    let mut common: usize = 0;
    assert(db@.subrange(0, 0) =~= Seq::<(char, char)>::empty());
    while j < db.len()
        invariant
            j <= db@.len(),
            common == shared(db@.subrange(0, j as int), da@),
            common <= j,
            all@.len() == da@.len() + (j - common),
        decreases db@.len() - j,
    {
        assert(db@.subrange(0, j + 1).drop_last() =~= db@.subrange(0, j as int));
        if pair_in(&da, db[j]) {
            common = common + 1;
        } else {
            all.push(db[j]);
        }
        j = j + 1;
    }
    assert(db@.subrange(0, db@.len() as int) =~= db@);
    (inter, all.len() as u64)
}

/// Whether two texts are similar enough to count as a repeat.
pub fn similar(a: &str, b: &str) -> (r: bool)
    ensures
        r == is_similar(a@, b@),
{
    let (inter, union) = char_bigram_jaccard_parts(a, b);
    (inter as u128) * 100 > (union as u128) * (THRESHOLD_PERCENT as u128)
}

/// First sentence index inside the look-back window.
pub open spec fn window_start(n: int) -> int {
    if n > WINDOW { n - WINDOW } else { 0 }
}

/// Sentence `k` of the context repeats the new sentence.
pub open spec fn repeats(ss: Seq<Sentence>, k: int, s: Sentence) -> bool {
    ss[k].id != s.id && is_similar(s.text@, ss[k].text@)
}

/// Sentence `k` is inside the window and repeats `s`.
pub open spec fn in_window_repeat(ss: Seq<Sentence>, k: int, s: Sentence) -> bool {
    window_start(ss.len() as int) <= k < ss.len() && repeats(ss, k, s)
}

/// Sentence `k` is the newest one inside the window that repeats `s`.
pub open spec fn latest_repeat(ss: Seq<Sentence>, k: int, s: Sentence) -> bool {
    in_window_repeat(ss, k, s) && forall|j: int| k < j < ss.len() ==> !repeats(ss, j, s)
}

/// `e` reminds that `s` repeats `prev`.
pub open spec fn repetition_event(e: FeedbackEvent, s: Sentence, prev: Sentence) -> bool {
    &&& e.kind == FeedbackKind::Repetition
    &&& e.sentence_id == Some(s.id)
    &&& e.message@ == "这句话已经说过一遍了"@
    &&& e.payload matches Payload::Repetition { similar_to, shared, union, text } && similar_to == prev.id
        && shared == jaccard_parts(s.text@, prev.text@).0 && union == jaccard_parts(s.text@, prev.text@).1
        && text@ == prev.text@
}

pub struct RepetitionRule {}

impl RepetitionRule {
    pub fn new() -> (r: Self) {
        RepetitionRule {}
    }

    /// Looks back over the last twenty sentences, newest first, skipping the
    /// sentence itself; the first similar one gets a reminder.
    pub fn on_sentence(&mut self, sentence: &Sentence, ctx: &SessionContext) -> (r: Vec<FeedbackEvent>)
        ensures
            repetition_step(*sentence, *ctx, r@),
    {
        let ss = &ctx.sentences;
        let n = ss.len();
        let lo = if n > WINDOW { n - WINDOW } else { 0 };
        let mut k = n;
        while k > lo
            invariant
                lo <= k <= n,
                ss@ == ctx.sentences@,
                n == ss@.len(),
                lo == window_start(n as int),
                forall|j: int| k <= j < n ==> !repeats(ss@, j, *sentence),
            decreases k,
        {
            let prev = &ss[k - 1];
            if prev.id != sentence.id && similar(sentence.text.as_str(), prev.text.as_str()) {
                let (inter, union) = char_bigram_jaccard_parts(sentence.text.as_str(), prev.text.as_str());
                let mut v: Vec<FeedbackEvent> = Vec::new();
                v.push(FeedbackEvent {
                    kind: FeedbackKind::Repetition,
                    sentence_id: Some(sentence.id),
                    message: lit("这句话已经说过一遍了"),
                    payload: Payload::Repetition { similar_to: prev.id, shared: inter, union, text: prev.text.clone() },
                });
                assert(latest_repeat(ss@, k - 1, *sentence));
                assert(repetition_event(v@[0], *sentence, ss@[k - 1]));
                return v;
            }
            k = k - 1;
        }
        assert forall|j: int| !in_window_repeat(ss@, j, *sentence) by {}
        Vec::new()
    }
}

impl Default for RepetitionRule {
    fn default() -> (r: Self) {
        RepetitionRule::new()
    }
}


/// What the repetition rule produces on sentence `s` given the session so far.
pub open spec fn repetition_step(s: Sentence, ctx: SessionContext, r: Seq<FeedbackEvent>) -> bool {
    &&& r.len() <= 1
    &&& (r.len() == 1) == (exists|k: int| #[trigger] in_window_repeat(ctx.sentences@, k, s))
    &&& r.len() == 1 ==> exists|k: int| #[trigger] latest_repeat(ctx.sentences@, k, s) && repetition_event(
        r[0],
        s,
        ctx.sentences@[k],
    )
}

} // verus!
