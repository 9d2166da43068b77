//! Periodic AI check-in: the reply line protocol, the payload helpers, and the
//! consecutive-failure breaker that turns the check-in off for a session.
use vstd::prelude::*;
use crate::rules::{Sentence, FeedbackEvent, FeedbackKind, Payload};
use crate::rules::lexicon::{lookup, key_index, lemma_key_index};
use crate::text::{chars_of, lines, lines_of, push_chars, push_dec, push_str, slice_chars, starts_with, starts_with_exec, string_of, trim, trim_vec, truncate_vec, truncated, lit, str_eq};

verus! {

/// Seconds before an issue of the same kind may fire again.
pub const CHECKIN_COOLDOWN_SECS: u64 = 90;

/// Consecutive failures after which the check-in is turned off for the session.
pub const CHECKIN_MAX_CONSECUTIVE_FAILURES: u32 = 3;

/// Most recent sentences sent, and how many earlier ones are quoted.
pub const RECENT_MAX_SENTENCES: usize = 5;
pub const RECENT_BEFORE_MAX_SENTENCES: usize = 3;

/// Display limit of one check-in message, in characters.
pub const MESSAGE_MAX_CHARS: usize = 60;

/// What a check-in issue is about.
#[derive(Debug, Clone, Copy, PartialEq, Eq, Structural)]
pub enum CheckinIssueKind {
    /// drifting off the topic
    Topic,
    /// contradicting an earlier sentence
    Contra,
    /// time to wrap up with a conclusion
    Wrap,
}

impl CheckinIssueKind {
    pub open spec fn key_spec(self) -> Seq<char> {
        match self {
            CheckinIssueKind::Topic => "topic"@,
            CheckinIssueKind::Contra => "contra"@,
            CheckinIssueKind::Wrap => "wrap"@,
        }
    }

    /// Stable key of the kind (cooldown bookkeeping and event payloads).
    pub fn key(self) -> (r: &'static str)
        ensures
            r@ == self.key_spec(),
    {
        match self {
            CheckinIssueKind::Topic => "topic",
            CheckinIssueKind::Contra => "contra",
            CheckinIssueKind::Wrap => "wrap",
        }
    }
}

/// One issue reported by the check-in.
#[derive(Debug, Clone, PartialEq)]
pub struct CheckinIssue {
    pub kind: CheckinIssueKind,
    pub message: String,
}

/// Cuts to `max` characters (UTF-8 safe), marking a cut with `…`.
pub fn truncate_chars(s: &str, max: usize) -> (r: String)
    ensures
        r@ == truncated(s@, max as nat),
{
    let v = chars_of(s);
    let t = truncate_vec(v.as_slice(), max);
    string_of(t.as_slice())
}

/// The message of the first line (trimmed) that starts with `prefix` and has
/// something after it; cut to the display limit.
pub open spec fn first_message(ls: Seq<Seq<char>>, prefix: Seq<char>) -> Option<Seq<char>>
    decreases ls.len(),
{
    if ls.len() == 0 {
        None
    } else {
        let l = trim(ls[0]);
        if starts_with(l, prefix) && trim(l.subrange(prefix.len() as int, l.len() as int)).len() > 0 {
            Some(truncated(trim(l.subrange(prefix.len() as int, l.len() as int)), MESSAGE_MAX_CHARS as nat))
        } else {
            first_message(ls.drop_first(), prefix)
        }
    }
}

/// An optional issue as a list of zero or one.
pub open spec fn opt_issue(kind: CheckinIssueKind, m: Option<Seq<char>>) -> Seq<(CheckinIssueKind, Seq<char>)> {
    match m {
        Some(t) => seq![(kind, t)],
        None => seq![],
    }
}

/// The issues a reply reports: nothing for `OK`; otherwise the first valid
/// TOPIC, CONTRA and WRAP line, in that fixed order.
pub open spec fn reply_issues(reply: Seq<char>) -> Seq<(CheckinIssueKind, Seq<char>)> {
    if trim(reply) == "OK"@ {
        seq![]
    } else {
        let ls = lines(reply);
        opt_issue(CheckinIssueKind::Topic, first_message(ls, "TOPIC "@)) + opt_issue(
            CheckinIssueKind::Contra,
            first_message(ls, "CONTRA "@),
        ) + opt_issue(CheckinIssueKind::Wrap, first_message(ls, "WRAP "@))
    }
}

fn first_message_exec(ls: &Vec<Vec<char>>, prefix: &str) -> (r: Option<String>)
    ensures
        match (r, first_message(ls@.map_values(|l: Vec<char>| l@), prefix@)) {
            (Some(a), Some(b)) => a@ == b,
            (None, None) => true,
            _ => false,
        },
{
    let p = chars_of(prefix);
    let ghost all = ls@.map_values(|l: Vec<char>| l@);
    assert(all.subrange(0, all.len() as int) =~= all);
    let mut i: usize = 0;
    while i < ls.len()
        invariant
            i <= ls@.len(),
            p@ == prefix@,
            all == ls@.map_values(|l: Vec<char>| l@),
            first_message(all, prefix@) == first_message(all.subrange(i as int, all.len() as int), prefix@),
        decreases ls@.len() - i,
    {
        let ghost rest = all.subrange(i as int, all.len() as int);
        assert(rest[0] == ls@[i as int]@);
        assert(rest.drop_first() =~= all.subrange(i + 1, all.len() as int));
        let l = trim_vec(ls[i].as_slice());
        if starts_with_exec(l.as_slice(), p.as_slice()) {
            let after = slice_chars(l.as_slice(), p.len(), l.len());
            let msg = trim_vec(after.as_slice());
            if msg.len() > 0 {
                let t = truncate_vec(msg.as_slice(), MESSAGE_MAX_CHARS);
                return Some(string_of(t.as_slice()));
            }
        }
        i = i + 1;
    }
    assert(all.subrange(i as int, all.len() as int).len() == 0);
    None
}

fn push_issue(out: &mut Vec<CheckinIssue>, kind: CheckinIssueKind, m: Option<String>)
    ensures
        final(out)@.map_values(|c: CheckinIssue| (c.kind, c.message@)) == old(out)@.map_values(
            |c: CheckinIssue| (c.kind, c.message@),
        ) + opt_issue(kind, match m { Some(s) => Some(s@), None => None }),
{
    let ghost before = out@;
    match m {
        Some(s) => {
            out.push(CheckinIssue { kind, message: s });
        },
        None => {},
    }
    assert(out@.map_values(|c: CheckinIssue| (c.kind, c.message@)) =~= before.map_values(
        |c: CheckinIssue| (c.kind, c.message@),
    ) + opt_issue(kind, match m { Some(s) => Some(s@), None => None }));
}

/// Parses the line protocol of a check-in reply: `OK` (or nothing) means all
/// is well; lines `TOPIC …`, `CONTRA …`, `WRAP …` each report one issue (first
/// occurrence wins, empty messages and other lines are ignored); the issues
/// come out in the order TOPIC, CONTRA, WRAP.
pub fn parse_checkin_reply(reply: &str) -> (r: Vec<CheckinIssue>)
    ensures
        r@.map_values(|c: CheckinIssue| (c.kind, c.message@)) == reply_issues(reply@),
{
    let v = chars_of(reply);
    let t = trim_vec(v.as_slice());
    let ok = chars_of("OK");
    let mut out: Vec<CheckinIssue> = Vec::new();
    if crate::text::chars_eq(t.as_slice(), ok.as_slice()) {
        assert(out@.map_values(|c: CheckinIssue| (c.kind, c.message@)) =~= Seq::<(CheckinIssueKind, Seq<char>)>::empty());
        return out;
    }
    let ls = lines_of(v.as_slice());
    let topic = first_message_exec(&ls, "TOPIC ");
    let contra = first_message_exec(&ls, "CONTRA ");
    let wrap = first_message_exec(&ls, "WRAP ");
    assert(out@.map_values(|c: CheckinIssue| (c.kind, c.message@)) =~= Seq::<(CheckinIssueKind, Seq<char>)>::empty());
    push_issue(&mut out, CheckinIssueKind::Topic, topic);
    push_issue(&mut out, CheckinIssueKind::Contra, contra);
    push_issue(&mut out, CheckinIssueKind::Wrap, wrap);
    proof {
        let e = Seq::<(CheckinIssueKind, Seq<char>)>::empty();
        let a = opt_issue(CheckinIssueKind::Topic, first_message(lines(reply@), "TOPIC "@));
        assert(e + a =~= a);
    }
    out
}

/// Concatenation of the texts of `ss`.
pub open spec fn joined_texts(ss: Seq<Sentence>) -> Seq<char>
    decreases ss.len(),
{
    if ss.len() == 0 {
        seq![]
    } else {
        joined_texts(ss.drop_last()) + ss.last().text@
    }
}

/// The quote of the earlier sentences: `第 {first}–{last} 句：` and their texts.
pub open spec fn before_text(before: Seq<Sentence>) -> Seq<char> {
    "第 "@ + crate::text::dec(before[0].id as nat) + "–"@ + crate::text::dec(before.last().id as nat)
        + " 句："@ + joined_texts(before)
}

/// Up to three sentences just before the last `recent_count`, in order.
pub open spec fn before_window(s: Seq<Sentence>, recent_count: int) -> Seq<Sentence> {
    let end = s.len() - recent_count;
    let start = if end > RECENT_BEFORE_MAX_SENTENCES { end - RECENT_BEFORE_MAX_SENTENCES } else { 0 };
    s.subrange(start, end)
}

/// Text of the (up to three) sentences before the last `recent_count`, for
/// the contradiction question; `None` when there are none.
pub fn recent_before_text(sentences: &[Sentence], recent_count: usize) -> (r: Option<String>)
    ensures
        sentences@.len() <= recent_count ==> r is None,
        sentences@.len() > recent_count ==> (r matches Some(t) && t@ == before_text(
            before_window(sentences@, recent_count as int),
        )),
{
    if sentences.len() <= recent_count {
        return None;
    }
    let end = sentences.len() - recent_count;
    let start = if end > RECENT_BEFORE_MAX_SENTENCES { end - RECENT_BEFORE_MAX_SENTENCES } else { 0 };
    let ghost w = sentences@.subrange(start as int, end as int);
    let mut joined = String::new();
    let mut i = start;
    while i < end
        invariant
            start <= i <= end <= sentences@.len(),
            w == sentences@.subrange(start as int, end as int),
            joined@ == joined_texts(sentences@.subrange(start as int, i as int)),
        decreases end - i,
    {
        push_str(&mut joined, sentences[i].text.as_str());
        proof {
            let a = sentences@.subrange(start as int, i + 1);
            assert(a.drop_last() =~= sentences@.subrange(start as int, i as int));
        }
        i = i + 1;
    }
    let mut out = lit("第 ");
    push_dec(&mut out, sentences[start].id);
    push_str(&mut out, "–");
    push_dec(&mut out, sentences[end - 1].id);
    push_str(&mut out, " 句：");
    push_str(&mut out, joined.as_str());
    assert(w[0] == sentences@[start as int]);
    assert(w.last() == sentences@[end - 1]);
    Some(out)
}

/// State of the failure breaker: the current run of failures and whether the
/// breaker has tripped.
pub struct FailTracker {
    streak: u32,
    disabled: bool,
}

/// The breaker after one failure, and whether that failure tripped it.
pub open spec fn fail_step(streak: nat, disabled: bool) -> (nat, bool, bool) {
    if disabled {
        (streak, true, false)
    } else if streak + 1 >= CHECKIN_MAX_CONSECUTIVE_FAILURES {
        (streak + 1, true, true)
    } else {
        (streak + 1, false, false)
    }
}

impl FailTracker {
    pub closed spec fn streak_spec(&self) -> nat {
        self.streak as nat
    }

    pub closed spec fn disabled_spec(&self) -> bool {
        self.disabled
    }

    /// The run never passes the threshold, and stays below it while enabled.
    pub closed spec fn wf(&self) -> bool {
        &&& self.streak <= CHECKIN_MAX_CONSECUTIVE_FAILURES
        &&& !self.disabled ==> self.streak < CHECKIN_MAX_CONSECUTIVE_FAILURES
    }

    pub fn new() -> (t: Self)
        ensures
            t.wf(),
            t.streak_spec() == 0,
            !t.disabled_spec(),
    {
        FailTracker { streak: 0, disabled: false }
    }

    pub fn is_disabled(&self) -> (r: bool)
        ensures
            r == self.disabled_spec(),
    {
        self.disabled
    }

    /// Records one failure; returns `Some(reason)` exactly when this failure
    /// trips the breaker (the threshold-th consecutive one), `None` otherwise.
    pub fn record_failure(&mut self, reason: &str) -> (r: Option<String>)
        requires
            old(self).wf(),
        ensures
            final(self).wf(),
            ({
                let (s, d, fired) = fail_step(old(self).streak_spec(), old(self).disabled_spec());
                &&& final(self).streak_spec() == s
                &&& final(self).disabled_spec() == d
                &&& fired <==> r is Some
                &&& (r matches Some(t) ==> t@ == reason@)
            }),
    {
        if self.disabled {
            return None;
        }
        self.streak = self.streak + 1;
        if self.streak >= CHECKIN_MAX_CONSECUTIVE_FAILURES {
            self.disabled = true;
            return Some(lit(reason));
        }
        None
    }

    /// Records one success: the run restarts; a tripped breaker stays tripped.
    pub fn record_success(&mut self)
        requires
            old(self).wf(),
        ensures
            final(self).wf(),
            final(self).streak_spec() == 0,
            final(self).disabled_spec() == old(self).disabled_spec(),
    {
        self.streak = 0;
    }

    /// Re-enabled from the settings: run cleared and breaker closed.
    pub fn reset(&mut self)
        ensures
            final(self).wf(),
            final(self).streak_spec() == 0,
            !final(self).disabled_spec(),
    {
        self.streak = 0;
        self.disabled = false;
    }
}

/// From a cleared breaker, exactly the threshold-th consecutive failure trips
/// it and reports it; the failures before leave it enabled and report nothing.
pub proof fn lemma_breaker_trips_exactly_at_threshold()
    ensures
        ({
            let (s1, d1, f1) = fail_step(0, false);
            let (s2, d2, f2) = fail_step(s1, d1);
            let (s3, d3, f3) = fail_step(s2, d2);
            &&& !d1 && !f1 && !d2 && !f2
            &&& d3 && f3
        }),
{
}

/// Once tripped, further failures neither report nor clear it, and successes
/// keep it tripped: only a reset re-enables.
pub proof fn lemma_tripped_breaker_stays_silent(streak: nat)
    ensures
        fail_step(streak, true) == (streak, true, false),
{
}

/// A call on the failure breaker.
pub enum BreakerOp {
    Failure,
    Success,
    Reset,
}

/// (run of failures, tripped) after the calls `ops` on a new breaker, as the
/// contracts of `record_failure`, `record_success` and `reset` give them.
pub open spec fn breaker_after(ops: Seq<BreakerOp>) -> (nat, bool)
    decreases ops.len(),
{
    if ops.len() == 0 {
        (0, false)
    } else {
        let (s, d) = breaker_after(ops.drop_last());
        match ops.last() {
            BreakerOp::Failure => {
                let (s2, d2, _fired) = fail_step(s, d);
                (s2, d2)
            },
            BreakerOp::Success => (0, d),
            BreakerOp::Reset => (0, false),
        }
    }
}

/// Failures since the latest success or reset (or since the start).
pub open spec fn failures_since_clear(ops: Seq<BreakerOp>) -> nat
    decreases ops.len(),
{
    if ops.len() == 0 {
        0
    } else {
        match ops.last() {
            BreakerOp::Failure => failures_since_clear(ops.drop_last()) + 1,
            _ => 0,
        }
    }
}

proof fn lemma_breaker_run(ops: Seq<BreakerOp>)
    ensures
        !breaker_after(ops).1 ==> breaker_after(ops).0 == failures_since_clear(ops) && breaker_after(ops).0
            < CHECKIN_MAX_CONSECUTIVE_FAILURES,
    decreases ops.len(),
{
    if ops.len() > 0 {
        lemma_breaker_run(ops.drop_last());
    }
}

/// After any calls on a new breaker, a further failure reports (returns its
/// reason) exactly when the breaker is not tripped and it is the
/// threshold-th failure since the latest success or reset; the breaker is
/// tripped afterwards exactly when it was before or this failure reported.
pub proof fn lemma_breaker_over_any_run(ops: Seq<BreakerOp>)
    ensures
        ({
            let (s, d) = breaker_after(ops);
            let (s2, d2, fired) = fail_step(s, d);
            &&& fired <==> (!d && failures_since_clear(ops) + 1 == CHECKIN_MAX_CONSECUTIVE_FAILURES)
            &&& d2 == (d || fired)
        }),
{
    lemma_breaker_run(ops);
}


/// Check-in cooldown per issue kind, in nanoseconds.
pub const CHECKIN_COOLDOWN_NANOS: u64 = 90_000_000_000;

/// Why a check-in is skipped before any request, checked in this order.
pub open spec fn skip_reason_spec(no_new: bool, enabled: bool, auto_disabled: bool, can_remote: bool, no_sentences: bool) -> Option<Seq<char>> {
    if no_new {
        Some("no_new_sentences"@)
    } else if !enabled {
        Some("disabled"@)
    } else if auto_disabled {
        Some("auto_disabled"@)
    } else if !can_remote {
        Some("no_remote_backend"@)
    } else if no_sentences {
        Some("no_sentences"@)
    } else {
        None
    }
}

/// The reason a check-in is skipped: no new sentence since the last one,
/// check-ins off, the breaker tripped, no remote backend, or no sentence at
/// all; none when the request goes out.
pub fn skip_reason(no_new: bool, enabled: bool, auto_disabled: bool, can_remote: bool, no_sentences: bool) -> (r: Option<&'static str>)
    ensures
        match r {
            Some(s) => skip_reason_spec(no_new, enabled, auto_disabled, can_remote, no_sentences) == Some(s@),
            None => skip_reason_spec(no_new, enabled, auto_disabled, can_remote, no_sentences) is None,
        },
{
    if no_new {
        Some("no_new_sentences")
    } else if !enabled {
        Some("disabled")
    } else if auto_disabled {
        Some("auto_disabled")
    } else if !can_remote {
        Some("no_remote_backend")
    } else if no_sentences {
        Some("no_sentences")
    } else {
        None
    }
}

/// Whether an issue kind last fired at `last` (nanoseconds on a monotonic
/// clock) may fire again at `now`; an earlier clock reading counts as no
/// time elapsed.
pub open spec fn cooled(last: Option<u64>, now: u64) -> bool {
    match last {
        Some(t) => now >= t && now - t >= CHECKIN_COOLDOWN_NANOS,
        None => true,
    }
}

/// Last firing times keyed by issue kind, by view.
pub open spec fn time_entries(es: Seq<(String, u64)>) -> Seq<(Seq<char>, u64)> {
    es.map_values(|e: (String, u64)| (e.0@, e.1))
}

/// `es` with `k` set to `t`.
pub open spec fn set_time(es: Seq<(Seq<char>, u64)>, k: Seq<char>, t: u64) -> Seq<(Seq<char>, u64)> {
    let i = key_index(es, k);
    if i < es.len() {
        es.update(i, (k, t))
    } else {
        es.push((k, t))
    }
}

/// The issues that survive the cooldown at `now`, in order, and the firing
/// times afterwards: each surviving issue records `now` for its kind.
pub open spec fn fire(es: Seq<(Seq<char>, u64)>, issues: Seq<CheckinIssue>, now: u64) -> (Seq<(Seq<char>, u64)>, Seq<CheckinIssue>)
    decreases issues.len(),
{
    if issues.len() == 0 {
        (es, seq![])
    } else {
        let (e2, kept) = fire(es, issues.drop_last(), now);
        let i = issues.last();
        if cooled(lookup(e2, i.kind.key_spec()), now) {
            (set_time(e2, i.kind.key_spec(), now), kept.push(i))
        } else {
            (e2, kept)
        }
    }
}

/// Distinct issue kinds have distinct keys.
proof fn lemma_key_injective(a: CheckinIssueKind, b: CheckinIssueKind)
    ensures
        a.key_spec() == b.key_spec() ==> a == b,
{
    reveal_strlit("topic");
    reveal_strlit("contra");
    reveal_strlit("wrap");
    assert("topic"@.len() == 5 && "contra"@.len() == 6 && "wrap"@.len() == 4);
    if a != b && a.key_spec() == b.key_spec() {
        assert(a.key_spec().len() == b.key_spec().len());
    }
}

proof fn lemma_lookup_first(es: Seq<(Seq<char>, u64)>, w: Seq<char>, i: int)
    requires
        0 <= i < es.len(),
        es[i].0 == w,
        forall|j: int| 0 <= j < i ==> es[j].0 != w,
    ensures
        lookup(es, w) == Some(es[i].1),
    decreases i,
{
    if i > 0 {
        let rest = es.subrange(1, es.len() as int);
        assert(es[0].0 != w);
        assert forall|j: int| 0 <= j < i - 1 implies rest[j].0 != w by {
            assert(rest[j] == es[j + 1]);
        }
        lemma_lookup_first(rest, w, i - 1);
    }
}

proof fn lemma_lookup_absent(es: Seq<(Seq<char>, u64)>, w: Seq<char>)
    requires
        forall|j: int| 0 <= j < es.len() ==> es[j].0 != w,
    ensures
        lookup(es, w) is None,
    decreases es.len(),
{
    if es.len() > 0 {
        let rest = es.subrange(1, es.len() as int);
        assert(es[0].0 != w);
        assert forall|j: int| 0 <= j < rest.len() implies rest[j].0 != w by {
            assert(rest[j] == es[j + 1]);
        }
        lemma_lookup_absent(rest, w);
    }
}

/// After `set_time`, `k` reads `t` and every other key reads as before.
proof fn lemma_set_time(es: Seq<(Seq<char>, u64)>, k: Seq<char>, t: u64, w: Seq<char>)
    ensures
        lookup(set_time(es, k, t), w) == (if w == k {
            Some(t)
        } else {
            lookup(es, w)
        }),
{
    lemma_key_index(es, k);
    lemma_key_index(es, w);
    let n = set_time(es, k, t);
    let ik = key_index(es, k);
    let iw = key_index(es, w);
    if w == k {
        assert(n[ik] == (k, t));
        assert forall|j: int| 0 <= j < ik implies n[j].0 != w by {
            assert(n[j] == es[j]);
        }
        lemma_lookup_first(n, w, ik);
    } else {
        if iw < es.len() {
            assert(iw != ik || ik == es.len());
            assert(n[iw] == es[iw]);
            assert forall|j: int| 0 <= j < iw implies n[j].0 != w by {
                if j != ik {
                    assert(n[j] == es[j]);
                }
            }
            lemma_lookup_first(n, w, iw);
            lemma_lookup_first(es, w, iw);
        } else {
            assert forall|j: int| 0 <= j < n.len() implies n[j].0 != w by {
                if j < es.len() && j != ik {
                    assert(n[j] == es[j]);
                }
            }
            assert forall|j: int| 0 <= j < es.len() implies es[j].0 != w by {}
            lemma_lookup_absent(n, w);
            lemma_lookup_absent(es, w);
        }
    }
}

/// What a round of firing does, over all inputs: every fired issue's kind
/// now reads `now` and was out of its cooldown before the round; kinds that
/// did not fire keep their time; every issue whose kind was out of its
/// cooldown has its kind fired; and every fired issue is one of the given
/// ones, in order of first appearance of its kind.
pub proof fn lemma_fire_records_firing(es: Seq<(Seq<char>, u64)>, issues: Seq<CheckinIssue>, now: u64)
    ensures
        ({
            let (e2, kept) = fire(es, issues, now);
            &&& forall|k: int| 0 <= k < kept.len() ==> lookup(e2, (#[trigger] kept[k]).kind.key_spec()) == Some(now)
            &&& forall|k: int| 0 <= k < kept.len() ==> cooled(lookup(es, (#[trigger] kept[k]).kind.key_spec()), now)
            &&& forall|w: Seq<char>|
                (forall|k: int| 0 <= k < kept.len() ==> (#[trigger] kept[k]).kind.key_spec() != w) ==> #[trigger] lookup(
                    e2,
                    w,
                ) == lookup(es, w)
            &&& forall|j: int| 0 <= j < issues.len() && cooled(lookup(es, (#[trigger] issues[j]).kind.key_spec()), now)
                ==> exists|k: int| 0 <= k < kept.len() && (#[trigger] kept[k]).kind == issues[j].kind
            &&& forall|k: int| #![trigger kept[k]] 0 <= k < kept.len() ==> exists|j: int| 0 <= j < issues.len() && (#[trigger] issues[j]) == kept[k]
        }),
    decreases issues.len(),
{
    if issues.len() > 0 {
        let prev_issues = issues.drop_last();
        lemma_fire_records_firing(es, prev_issues, now);
        let (ep, kp) = fire(es, prev_issues, now);
        let i = issues.last();
        let key = i.kind.key_spec();
        let (e2, kept) = fire(es, issues, now);
        assert forall|k: int| #![trigger kp[k]] 0 <= k < kp.len() implies exists|j: int| 0 <= j < issues.len() && (#[trigger] issues[j])
            == kp[k] by {
            let j = choose|j: int| 0 <= j < prev_issues.len() && (#[trigger] prev_issues[j]) == kp[k];
            assert(issues[j] == prev_issues[j]);
        }
        if cooled(lookup(ep, key), now) {
            assert(e2 == set_time(ep, key, now));
            assert(kept == kp.push(i));
            // no earlier fired issue has this kind: its time would read `now`
            assert forall|k: int| 0 <= k < kp.len() implies (#[trigger] kp[k]).kind.key_spec() != key by {
                if kp[k].kind.key_spec() == key {
                    assert(lookup(ep, kp[k].kind.key_spec()) == Some(now));
                }
            }
            assert(lookup(ep, key) == lookup(es, key));
            lemma_set_time(ep, key, now, key);
            assert forall|k: int| 0 <= k < kept.len() implies lookup(e2, (#[trigger] kept[k]).kind.key_spec()) == Some(now) by {
                lemma_set_time(ep, key, now, kept[k].kind.key_spec());
                if k < kp.len() {
                    assert(kept[k] == kp[k]);
                }
            }
            assert forall|k: int| 0 <= k < kept.len() implies cooled(lookup(es, (#[trigger] kept[k]).kind.key_spec()), now) by {
                if k < kp.len() {
                    assert(kept[k] == kp[k]);
                }
            }
            assert forall|w: Seq<char>|
                (forall|k: int| 0 <= k < kept.len() ==> (#[trigger] kept[k]).kind.key_spec() != w) implies #[trigger] lookup(
                    e2,
                    w,
                ) == lookup(es, w) by {
                lemma_set_time(ep, key, now, w);
                assert(kept[kp.len() as int] == i);
                assert forall|k: int| 0 <= k < kp.len() implies (#[trigger] kp[k]).kind.key_spec() != w by {
                    assert(kept[k] == kp[k]);
                }
            }
            assert forall|j: int| 0 <= j < issues.len() && cooled(lookup(es, (#[trigger] issues[j]).kind.key_spec()), now)
                implies exists|k: int| 0 <= k < kept.len() && (#[trigger] kept[k]).kind == issues[j].kind by {
                if j < prev_issues.len() {
                    assert(prev_issues[j] == issues[j]);
                    let k = choose|k: int| 0 <= k < kp.len() && (#[trigger] kp[k]).kind == prev_issues[j].kind;
                    assert(kept[k] == kp[k]);
                } else {
                    assert(kept[kp.len() as int] == issues[j]);
                }
            }
            assert forall|k: int| #![trigger kept[k]] 0 <= k < kept.len() implies exists|j: int| 0 <= j < issues.len() && (#[trigger] issues[j])
                == kept[k] by {
                if k < kp.len() {
                    assert(kept[k] == kp[k]);
                    let j = choose|j: int| 0 <= j < issues.len() && (#[trigger] issues[j]) == kp[k];
                } else {
                    assert(issues[issues.len() - 1] == kept[k]);
                }
            }
        } else {
            assert forall|j: int| 0 <= j < issues.len() && cooled(lookup(es, (#[trigger] issues[j]).kind.key_spec()), now)
                implies exists|k: int| 0 <= k < kept.len() && (#[trigger] kept[k]).kind == issues[j].kind by {
                if j < prev_issues.len() {
                    assert(prev_issues[j] == issues[j]);
                } else {
                    // its kind was fired earlier in this round, or its time is unchanged
                    assert(issues[j] == i);
                    if forall|k: int| 0 <= k < kp.len() ==> (#[trigger] kp[k]).kind.key_spec() != key {
                        assert(lookup(ep, key) == lookup(es, key));
                    } else {
                        let k = choose|k: int| 0 <= k < kp.len() && (#[trigger] kp[k]).kind.key_spec() == key;
                        lemma_key_injective(kp[k].kind, i.kind);
                    }
                }
            }
        }
    }
}

/// An issue kind that fired at `t1` is held back at any `t2` less than the
/// cooldown later: no issue of a kind fired in the first round fires in the
/// second.
pub proof fn lemma_fired_kind_held_back(
    es: Seq<(Seq<char>, u64)>,
    first: Seq<CheckinIssue>,
    t1: u64,
    second: Seq<CheckinIssue>,
    t2: u64,
)
    requires
        t1 <= t2,
        t2 - t1 < CHECKIN_COOLDOWN_NANOS,
    ensures
        ({
            let (e1, k1) = fire(es, first, t1);
            let k2 = fire(e1, second, t2).1;
            forall|a: int, b: int| 0 <= a < k1.len() && 0 <= b < k2.len() ==> (#[trigger] k1[a]).kind != (#[trigger] k2[b]).kind
        }),
{
    let (e1, k1) = fire(es, first, t1);
    let k2 = fire(e1, second, t2).1;
    lemma_fire_records_firing(es, first, t1);
    lemma_fire_records_firing(e1, second, t2);
    assert forall|a: int, b: int| 0 <= a < k1.len() && 0 <= b < k2.len() implies (#[trigger] k1[a]).kind != (
    #[trigger] k2[b]).kind by {
        assert(lookup(e1, k1[a].kind.key_spec()) == Some(t1));
        assert(cooled(lookup(e1, k2[b].kind.key_spec()), t2));
    }
}

/// Per-session check-in state: the planned length, when each issue kind
/// last fired, and the failure breaker.
pub struct CheckinRuntime {
    /// Planned session length in seconds, given at the start.
    pub planned_sec: Option<u64>,
    /// Issue kind key → when it last fired (nanoseconds, monotonic clock).
    pub last_fired: Vec<(String, u64)>,
    pub fails: FailTracker,
}

impl CheckinRuntime {
    pub open spec fn fired(&self) -> Seq<(Seq<char>, u64)> {
        time_entries(self.last_fired@)
    }

    pub fn new(planned_sec: Option<u64>) -> (r: Self)
        ensures
            r.planned_sec == planned_sec,
            r.fired().len() == 0,
            r.fails.wf(),
            !r.fails.disabled_spec(),
            r.fails.streak_spec() == 0,
    {
        CheckinRuntime { planned_sec, last_fired: Vec::new(), fails: FailTracker::new() }
    }

    /// The issues whose kind is out of its 90-second cooldown at `now_nanos`,
    /// in order; each recorded as fired now.
    pub fn fire_cooled(&mut self, issues: Vec<CheckinIssue>, now_nanos: u64) -> (r: Vec<CheckinIssue>)
        ensures
            final(self).fired() == fire(old(self).fired(), issues@, now_nanos).0,
            r@ == fire(old(self).fired(), issues@, now_nanos).1,
            final(self).planned_sec == old(self).planned_sec,
            final(self).fails == old(self).fails,
            forall|k: int|
                0 <= k < r@.len() ==> lookup(final(self).fired(), (#[trigger] r@[k]).kind.key_spec()) == Some(now_nanos),
            forall|k: int| 0 <= k < r@.len() ==> cooled(lookup(old(self).fired(), (#[trigger] r@[k]).kind.key_spec()), now_nanos),
            forall|w: Seq<char>|
                (forall|k: int| 0 <= k < r@.len() ==> (#[trigger] r@[k]).kind.key_spec() != w) ==> #[trigger] lookup(
                    final(self).fired(),
                    w,
                ) == lookup(old(self).fired(), w),
            forall|j: int|
                0 <= j < issues@.len() && cooled(lookup(old(self).fired(), (#[trigger] issues@[j]).kind.key_spec()), now_nanos)
                    ==> exists|k: int| 0 <= k < r@.len() && (#[trigger] r@[k]).kind == issues@[j].kind,
    {
        proof {
            lemma_fire_records_firing(old(self).fired(), issues@, now_nanos);
        }
        let mut kept: Vec<CheckinIssue> = Vec::new();
        let mut i: usize = 0;
        assert(issues@.subrange(0, 0) =~= Seq::<CheckinIssue>::empty());
        while i < issues.len()
            invariant
                i <= issues@.len(),
                self.planned_sec == old(self).planned_sec,
                self.fails == old(self).fails,
                (time_entries(self.last_fired@), kept@) == fire(old(self).fired(), issues@.subrange(0, i as int), now_nanos),
            decreases issues@.len() - i,
        {
            assert(issues@.subrange(0, i + 1).drop_last() =~= issues@.subrange(0, i as int));
            let issue = &issues[i];
            let key = issue.kind.key();
            let last = self.last_time(key);
            let cool = match last {
                Some(t) => now_nanos >= t && now_nanos - t >= CHECKIN_COOLDOWN_NANOS,
                None => true,
            };
            if cool {
                self.set_last_time(key, now_nanos);
                kept.push(CheckinIssue { kind: issue.kind, message: issue.message.clone() });
            }
            i = i + 1;
        }
        assert(issues@.subrange(0, issues@.len() as int) =~= issues@);
        kept
    }

    fn last_time(&self, key: &str) -> (r: Option<u64>)
        ensures
            r == lookup(self.fired(), key@),
    {
        let ghost all = self.fired();
        let mut i: usize = 0;
        assert(all.subrange(0, all.len() as int) =~= all);
        while i < self.last_fired.len()
            invariant
                i <= self.last_fired@.len(),
                all == self.fired(),
                lookup(all, key@) == lookup(all.subrange(i as int, all.len() as int), key@),
            decreases self.last_fired@.len() - i,
        {
            let ghost sub = all.subrange(i as int, all.len() as int);
            assert(sub[0] == (self.last_fired@[i as int].0@, self.last_fired@[i as int].1));
            if str_eq(self.last_fired[i].0.as_str(), key) {
                return Some(self.last_fired[i].1);
            }
            assert(sub.subrange(1, sub.len() as int) =~= all.subrange(i + 1, all.len() as int));
            i = i + 1;
        }
        assert(all.subrange(self.last_fired@.len() as int, all.len() as int) =~= Seq::<(Seq<char>, u64)>::empty());
        None
    }

    fn set_last_time(&mut self, key: &str, t: u64)
        ensures
            final(self).fired() == set_time(old(self).fired(), key@, t),
            final(self).planned_sec == old(self).planned_sec,
            final(self).fails == old(self).fails,
    {
        let ghost es = time_entries(self.last_fired@);
        let mut i: usize = 0;
        while i < self.last_fired.len()
            invariant
                i <= self.last_fired@.len(),
                self.last_fired@ == old(self).last_fired@,
                self.planned_sec == old(self).planned_sec,
                self.fails == old(self).fails,
                es == time_entries(self.last_fired@),
                forall|k: int| 0 <= k < i ==> es[k].0 != key@,
            decreases self.last_fired@.len() - i,
        {
            if str_eq(self.last_fired[i].0.as_str(), key) {
                proof {
                    lemma_key_index(es, key@);
                    assert(es[i as int].0 == key@);
                    if key_index(es, key@) < i {
                        assert(es[key_index(es, key@)].0 == key@);
                    }
                    assert(key_index(es, key@) == i);
                }
                self.last_fired[i].1 = t;
                assert(time_entries(self.last_fired@) =~= es.update(i as int, (key@, t)));
                return;
            }
            i = i + 1;
        }
        proof {
            lemma_key_index(es, key@);
            if key_index(es, key@) < es.len() {
                assert(es[key_index(es, key@)].0 == key@);
            }
        }
        self.last_fired.push((lit(key), t));
        assert(time_entries(self.last_fired@) =~= es.push((key@, t)));
    }
}

/// The live feedback events of surviving check-in issues.
pub fn checkin_events(issues: &[CheckinIssue]) -> (r: Vec<FeedbackEvent>)
    ensures
        r@.len() == issues@.len(),
        forall|i: int| 0 <= i < r@.len() ==> {
            &&& (#[trigger] r@[i]).kind == FeedbackKind::AiCheckin
            &&& r@[i].sentence_id is None
            &&& r@[i].message@ == issues@[i].message@
            &&& r@[i].payload matches Payload::AiCheckin { issue_type } && issue_type@ == issues@[i].kind.key_spec()
        },
{
    let mut r: Vec<FeedbackEvent> = Vec::new();
    let mut i: usize = 0;
    while i < issues.len()
        invariant
            i <= issues@.len(),
            r@.len() == i,
            forall|k: int| 0 <= k < i ==> {
                &&& (#[trigger] r@[k]).kind == FeedbackKind::AiCheckin
                &&& r@[k].sentence_id is None
                &&& r@[k].message@ == issues@[k].message@
                &&& r@[k].payload matches Payload::AiCheckin { issue_type } && issue_type@ == issues@[k].kind.key_spec()
            },
        decreases issues@.len() - i,
    {
        r.push(FeedbackEvent {
            kind: FeedbackKind::AiCheckin,
            sentence_id: None,
            message: issues[i].message.clone(),
            payload: Payload::AiCheckin { issue_type: lit(issues[i].kind.key()) },
        });
        i = i + 1;
    }
    r
}

} // verus!

verus! {

/// The non-whitespace characters of a text, in order.
pub open spec fn nonws_chars(s: Seq<char>) -> Seq<char>
    decreases s.len(),
{
    if s.len() == 0 {
        seq![]
    } else {
        nonws_chars(s.drop_last()) + if crate::text::is_ws(s.last()) {
            Seq::<char>::empty()
        } else {
            seq![s.last()]
        }
    }
}

/// The non-whitespace characters of all texts, sentence after sentence.
pub open spec fn nonws_joined(ss: Seq<Sentence>) -> Seq<char>
    decreases ss.len(),
{
    if ss.len() == 0 {
        seq![]
    } else {
        nonws_joined(ss.drop_last()) + nonws_chars(ss.last().text@)
    }
}

/// The non-whitespace characters of the last three sentences (all when
/// there are fewer).
pub open spec fn recent_chars(ss: Seq<Sentence>) -> Seq<char> {
    nonws_joined(ss.subrange(if ss.len() > 3 { ss.len() - 3 } else { 0 }, ss.len() as int))
}

/// How many characters of `d` occur in `pool`.
pub open spec fn count_in(d: Seq<char>, pool: Seq<char>) -> nat
    decreases d.len(),
{
    if d.len() == 0 {
        0
    } else {
        count_in(d.drop_last(), pool) + if pool.contains(d.last()) {
            1nat
        } else {
            0nat
        }
    }
}

/// Character overlap of the topic with the last three sentences, as the
/// pair (distinct topic characters that occur there, distinct characters of
/// both together); whitespace never counts. `None` for a topic with no
/// other character.
pub open spec fn topic_overlap_spec(topic: Seq<char>, ss: Seq<Sentence>) -> Option<(nat, nat)> {
    let a = nonws_chars(topic);
    let r = recent_chars(ss);
    if a.len() == 0 {
        None
    } else {
        Some((count_in(crate::rules::lexicon::dedup(a), r), crate::rules::lexicon::dedup(a + r).len()))
    }
}

fn push_nonws(out: &mut Vec<char>, v: &[char])
    ensures
        final(out)@ == old(out)@ + nonws_chars(v@),
{
    let mut i: usize = 0;
    assert(v@.subrange(0, 0) =~= Seq::<char>::empty());
    assert(old(out)@ + Seq::<char>::empty() =~= old(out)@);
    while i < v.len()
        invariant
            i <= v@.len(),
            out@ == old(out)@ + nonws_chars(v@.subrange(0, i as int)),
        decreases v@.len() - i,
    {
        let ghost before = out@;
        if !crate::text::char_is_ws(v[i]) {
            out.push(v[i]);
        }
        proof {
            let sub = v@.subrange(0, i + 1);
            assert(sub.drop_last() =~= v@.subrange(0, i as int));
            assert(sub.last() == v@[i as int]);
            assert(out@ =~= old(out)@ + nonws_chars(sub));
        }
        i = i + 1;
    }
    assert(v@.subrange(0, v@.len() as int) =~= v@);
}

fn dedup_chars(v: &[char]) -> (r: Vec<char>)
    ensures
        r@ == crate::rules::lexicon::dedup(v@),
{
    let mut out: Vec<char> = Vec::new();
    let mut i: usize = 0;
    assert(v@.subrange(0, 0) =~= Seq::<char>::empty());
    while i < v.len()
        invariant
            i <= v@.len(),
            out@ == crate::rules::lexicon::dedup(v@.subrange(0, i as int)),
        decreases v@.len() - i,
    {
        let c = v[i];
        let found = crate::text::char_in(out.as_slice(), c);
        if !found {
            out.push(c);
        }
        proof {
            let sub = v@.subrange(0, i + 1);
            assert(sub.drop_last() =~= v@.subrange(0, i as int));
            assert(sub.last() == c);
        }
        i = i + 1;
    }
    assert(v@.subrange(0, v@.len() as int) =~= v@);
    out
}

/// Character overlap of a check-in topic with the last three sentences
/// (see [`topic_overlap_spec`]).
pub fn topic_overlap(topic: &str, sentences: &[Sentence]) -> (r: Option<(u64, u64)>)
    ensures
        match topic_overlap_spec(topic@, sentences@) {
            Some((i, u)) => r matches Some((a, b)) && a == i && b == u,
            None => r is None,
        },
{
    let tc = chars_of(topic);
    let mut a: Vec<char> = Vec::new();
    push_nonws(&mut a, tc.as_slice());
    assert(a@ =~= nonws_chars(topic@));
    if a.len() == 0 {
        return None;
    }
    let n = sentences.len();
    let start = if n > 3 { n - 3 } else { 0 };
    let mut rc: Vec<char> = Vec::new();
    let mut i = start;
    assert(sentences@.subrange(start as int, start as int) =~= Seq::<Sentence>::empty());
    while i < n
        invariant
            start <= i <= n == sentences@.len(),
            rc@ == nonws_joined(sentences@.subrange(start as int, i as int)),
        decreases n - i,
    {
        let sc = chars_of(sentences[i].text.as_str());
        push_nonws(&mut rc, sc.as_slice());
        proof {
            let sub = sentences@.subrange(start as int, i + 1);
            assert(sub.drop_last() =~= sentences@.subrange(start as int, i as int));
            assert(sub.last() == sentences@[i as int]);
        }
        i = i + 1;
    }
    let da = dedup_chars(a.as_slice());
    let mut inter: usize = 0;
    let mut k: usize = 0;
    assert(da@.subrange(0, 0) =~= Seq::<char>::empty());
    proof {
        crate::rules::lexicon::lemma_dedup_len(a@);
    }
    while k < da.len()
        invariant
            k <= da@.len(),
            inter == count_in(da@.subrange(0, k as int), rc@),
            inter <= k,
        decreases da@.len() - k,
    {
        let inside = crate::text::char_in(rc.as_slice(), da[k]);
        proof {
            let sub = da@.subrange(0, k + 1);
            assert(sub.drop_last() =~= da@.subrange(0, k as int));
            assert(sub.last() == da@[k as int]);
        }
        if inside {
            inter = inter + 1;
        }
        k = k + 1;
    }
    assert(da@.subrange(0, da@.len() as int) =~= da@);
    let mut all = a.clone();
    let mut j: usize = 0;
    while j < rc.len()
        invariant
            j <= rc@.len(),
            all@ == a@ + rc@.subrange(0, j as int),
        decreases rc@.len() - j,
    {
        all.push(rc[j]);
        assert(all@ =~= a@ + rc@.subrange(0, j + 1));
        j = j + 1;
    }
    assert(all@ =~= a@ + rc@);
    let du = dedup_chars(all.as_slice());
    Some((inter as u64, du.len() as u64))
}

pub open spec fn opt_sview(o: Option<String>) -> Option<Seq<char>> {
    match o {
        Some(s) => Some(s@),
        None => None,
    }
}

/// The trimmed topic when it is not blank.
pub open spec fn clean_topic(topic: Option<Seq<char>>) -> Option<Seq<char>> {
    match topic {
        Some(t) => if trim(t).len() > 0 {
            Some(trim(t))
        } else {
            None
        },
        None => None,
    }
}

/// A member holding a number, present only when the number is known.
pub open spec fn opt_num_member(key: Seq<char>, v: Option<u64>) -> Seq<Seq<char>> {
    match v {
        Some(n) => seq![crate::json::jmember(key, crate::text::dec(n as nat))],
        None => seq![],
    }
}

/// The topic overlap ratio (two decimal places) when there is a topic.
pub open spec fn ratio_member(topic: Option<Seq<char>>, recent: Seq<Sentence>) -> Seq<Seq<char>> {
    match topic {
        Some(t) => match topic_overlap_spec(t, recent) {
            Some((i, u)) => if u > 0 {
                seq![crate::json::jmember("topic_match_last3"@, crate::json::jfixed(crate::json::rounded_units(i, u, 100), 2))]
            } else {
                seq![]
            },
            None => seq![],
        },
        None => seq![],
    }
}

/// The user message of a check-in request: the trimmed topic (null when
/// blank), the recent sentences as id and text, the progress hints that are
/// known (elapsed and planned seconds, the topic overlap of the last three
/// sentences, the sentence count), and the earlier sentences' quote.
pub open spec fn checkin_payload_spec(
    topic: Option<Seq<char>>,
    recent: Seq<Sentence>,
    before: Option<Seq<char>>,
    elapsed_sec: Option<u64>,
    planned_sec: Option<u64>,
    sentence_count_total: Option<u64>,
) -> Seq<char> {
    let ct = clean_topic(topic);
    crate::json::jobj(
        seq![
            crate::json::jmember("topic"@, match ct {
                Some(t) => crate::json::jstr(t),
                None => "null"@,
            }),
            crate::json::jmember("sentences"@, crate::json::jarr(recent.map_values(|s: Sentence| crate::json::jobj(
                seq![crate::json::jmember("id"@, crate::text::dec(s.id as nat)), crate::json::jmember("text"@, crate::json::jstr(s.text@))],
            )))),
            crate::json::jmember("hints"@, crate::json::jobj(
                opt_num_member("elapsed_sec"@, elapsed_sec) + opt_num_member("planned_sec"@, planned_sec)
                    + ratio_member(ct, recent) + opt_num_member("sentence_count_total"@, sentence_count_total),
            )),
        ] + match before {
            Some(b) => seq![crate::json::jmember("recent_before"@, crate::json::jstr(b))],
            None => seq![],
        },
    )
}

fn push_opt_num(ms: &mut Vec<String>, key: &str, v: Option<u64>)
    ensures
        crate::text::views(final(ms)@) == crate::text::views(old(ms)@) + opt_num_member(key@, v),
{
    match v {
        Some(n) => {
            ms.push(crate::json::member(key, crate::json::num_of(n)));
        },
        None => {},
    }
    assert(crate::text::views(ms@) =~= crate::text::views(old(ms)@) + opt_num_member(key@, v));
}

/// The user message of a check-in request as JSON text.
pub fn build_checkin_user_payload(
    topic: Option<&str>,
    recent: &[Sentence],
    before: Option<&str>,
    elapsed_sec: Option<u64>,
    planned_sec: Option<u64>,
    sentence_count_total: Option<u64>,
) -> (r: String)
    ensures
        r@ == checkin_payload_spec(
            crate::report::opt_view(topic),
            recent@,
            crate::report::opt_view(before),
            elapsed_sec,
            planned_sec,
            sentence_count_total,
        ),
{
    let ct: Option<String> = match topic {
        Some(t) => crate::report::trimmed_nonblank(t),
        None => None,
    };
    let ghost ctv: Option<Seq<char>> = opt_sview(ct);
    assert(ctv == clean_topic(crate::report::opt_view(topic)));
    let ghost f = |s: Sentence| crate::json::jobj(
        seq![crate::json::jmember("id"@, crate::text::dec(s.id as nat)), crate::json::jmember("text"@, crate::json::jstr(s.text@))],
    );
    let mut items: Vec<String> = Vec::new();
    let mut i: usize = 0;
    while i < recent.len()
        invariant
            i <= recent@.len(),
            f == (|s: Sentence| crate::json::jobj(
                seq![crate::json::jmember("id"@, crate::text::dec(s.id as nat)), crate::json::jmember("text"@, crate::json::jstr(s.text@))],
            )),
            crate::text::views(items@) == recent@.subrange(0, i as int).map_values(f),
        decreases recent@.len() - i,
    {
        let mut ms: Vec<String> = Vec::new();
        ms.push(crate::json::member("id", crate::json::num_of(recent[i].id)));
        ms.push(crate::json::member("text", crate::json::jstr_of(recent[i].text.as_str())));
        let ghost mv = crate::text::views(ms@);
        let item = crate::json::obj_of(ms.as_slice());
        let ghost before_items = items@;
        items.push(item);
        proof {
            assert(mv =~= seq![crate::json::jmember("id"@, crate::text::dec(recent@[i as int].id as nat)), crate::json::jmember("text"@, crate::json::jstr(recent@[i as int].text@))]);
            assert(recent@.subrange(0, i + 1) =~= recent@.subrange(0, i as int).push(recent@[i as int]));
            assert(crate::text::views(items@) =~= crate::text::views(before_items).push(item@));
            assert(crate::text::views(items@) =~= recent@.subrange(0, i + 1).map_values(f));
        }
        i = i + 1;
    }
    assert(recent@.subrange(0, recent@.len() as int) =~= recent@);
    let mut hs: Vec<String> = Vec::new();
    push_opt_num(&mut hs, "elapsed_sec", elapsed_sec);
    push_opt_num(&mut hs, "planned_sec", planned_sec);
    let ghost h1 = crate::text::views(hs@);
    match &ct {
        Some(t) => {
            match topic_overlap(t.as_str(), recent) {
                Some((a, b)) => {
                    if b > 0 {
                        hs.push(crate::json::member("topic_match_last3", crate::json::two_places(a as u128, b)));
                    }
                },
                None => {},
            }
        },
        None => {},
    }
    let ghost h2 = crate::text::views(hs@);
    assert(h2 =~= h1 + ratio_member(ctv, recent@));
    push_opt_num(&mut hs, "sentence_count_total", sentence_count_total);
    let hints = crate::json::obj_of(hs.as_slice());
    let mut ms: Vec<String> = Vec::new();
    let topic_text = match &ct {
        Some(t) => crate::json::jstr_of(t.as_str()),
        None => lit("null"),
    };
    assert(topic_text@ == match ctv {
        Some(t) => crate::json::jstr(t),
        None => "null"@,
    });
    ms.push(crate::json::member("topic", topic_text));
    ms.push(crate::json::member("sentences", crate::json::arr_of(items.as_slice())));
    ms.push(crate::json::member("hints", hints));
    let ghost m0 = crate::text::views(ms@);
    match before {
        Some(b) => {
            ms.push(crate::json::member("recent_before", crate::json::jstr_of(b)));
        },
        None => {},
    }
    proof {
        assert(crate::text::views(hs@) =~= opt_num_member("elapsed_sec"@, elapsed_sec) + opt_num_member("planned_sec"@, planned_sec)
            + ratio_member(ctv, recent@) + opt_num_member("sentence_count_total"@, sentence_count_total));
        assert(m0 =~= seq![
            crate::json::jmember("topic"@, match ctv {
                Some(t) => crate::json::jstr(t),
                None => "null"@,
            }),
            crate::json::jmember("sentences"@, crate::json::jarr(recent@.map_values(f))),
            crate::json::jmember("hints"@, hints@),
        ]);
        assert(crate::text::views(ms@) =~= m0 + match crate::report::opt_view(before) {
            Some(b) => seq![crate::json::jmember("recent_before"@, crate::json::jstr(b))],
            None => seq![],
        });
    }
    crate::json::obj_of(ms.as_slice())
}

} // verus!
