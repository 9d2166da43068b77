//! Report layer logic: prompt and mode selection, the transcript as text,
//! mock-interview answer merging, the score marker and small formatters of
//! the local fallback report.
use vstd::prelude::*;
use crate::rules::{Sentence, FeedbackKind};
use crate::rules::lexicon::{drop_empty, hit_words, is_boundary_entry, WordMatcher, LexiconV2};
use crate::text::{
    chars_of, trim, trim_vec, lines, lines_of, str_eq, lit, push_str, push_chars, push_char, push_dec, dec,
    string_of, trim_string, is_ws, char_is_ws, nonws_count, lemma_nonws_prefix, truncated, views, clone_strings, join,
    push_join,
};
use crate::json::{
    jstr, jmember, jobj, jarr, jbool, jfixed, rounded_units, jstr_of, num_of, bool_of, member, obj_of, arr_of,
    one_place,
};

verus! {

/// The system prompt a report is generated with.
#[derive(Debug, Clone, Copy, PartialEq, Eq, Structural)]
pub enum Prompt {
    Free,
    Interview,
    Vlog,
    Workreport,
    MockInterview,
    /// The short four-section report, for every scenario.
    Quick,
}

/// Every scenario a report can be made for.
pub const SCENARIOS: [&'static str; 5] = ["free", "interview", "vlog", "workreport", "mockInterview"];

/// Report modes: the full eight-section report or the quick one.
pub const REPORT_MODES: [&'static str; 2] = ["full", "quick"];

/// Output token cap of the quick mode.
pub const QUICK_MAX_TOKENS: u32 = 2000;

/// Prefix of the score marker at the end of a report.
pub const SCORE_MARKER_PREFIX: &'static str = "<!--SCORE:";

/// The scenario prompt, or `None` for an unknown scenario.
pub open spec fn scenario_prompt(s: Seq<char>) -> Option<Prompt> {
    if s == "free"@ {
        Some(Prompt::Free)
    } else if s == "interview"@ {
        Some(Prompt::Interview)
    } else if s == "vlog"@ {
        Some(Prompt::Vlog)
    } else if s == "workreport"@ {
        Some(Prompt::Workreport)
    } else if s == "mockInterview"@ {
        Some(Prompt::MockInterview)
    } else {
        None
    }
}

pub open spec fn unknown_scenario_msg(s: Seq<char>) -> Seq<char> {
    "未知场景："@ + s + "（支持 free / interview / vlog / workreport / mockInterview）"@
}

pub open spec fn unknown_mode_msg(m: Seq<char>) -> Seq<char> {
    "未知报告模式："@ + m + "（支持 full / quick）"@
}

fn message(head: &str, value: &str, tail: &str) -> (r: String)
    ensures
        r@ == head@ + value@ + tail@,
{
    let mut s = lit(head);
    push_str(&mut s, value);
    push_str(&mut s, tail);
    s
}

/// The scenario prompt; an unknown scenario is an error naming the
/// supported ones.
pub fn system_prompt_for(scenario: &str) -> (r: Result<Prompt, String>)
    ensures
        match r {
            Ok(p) => scenario_prompt(scenario@) == Some(p),
            Err(e) => scenario_prompt(scenario@) is None && e@ == unknown_scenario_msg(scenario@),
        },
{
    if str_eq(scenario, "free") {
        Ok(Prompt::Free)
    } else if str_eq(scenario, "interview") {
        Ok(Prompt::Interview)
    } else if str_eq(scenario, "vlog") {
        Ok(Prompt::Vlog)
    } else if str_eq(scenario, "workreport") {
        Ok(Prompt::Workreport)
    } else if str_eq(scenario, "mockInterview") {
        Ok(Prompt::MockInterview)
    } else {
        Err(message("未知场景：", scenario, "（支持 free / interview / vlog / workreport / mockInterview）"))
    }
}

/// The prompt for a scenario and mode: the scenario is checked in both
/// modes; `quick` always uses the quick prompt, `full` the scenario's.
pub fn system_prompt_for_mode(scenario: &str, mode: &str) -> (r: Result<Prompt, String>)
    ensures
        scenario_prompt(scenario@) is None ==> r == Err::<Prompt, String>(r->Err_0) && r->Err_0@
            == unknown_scenario_msg(scenario@),
        scenario_prompt(scenario@) is Some && mode@ == "quick"@ ==> r == Ok::<Prompt, String>(
            Prompt::Quick,
        ),
        scenario_prompt(scenario@) is Some && mode@ == "full"@ ==> r == Ok::<Prompt, String>(
            scenario_prompt(scenario@)->0,
        ),
        scenario_prompt(scenario@) is Some && mode@ != "quick"@ && mode@ != "full"@ ==> r is Err
            && r->Err_0@ == unknown_mode_msg(mode@),
{
    let p = match system_prompt_for(scenario) {
        Ok(p) => p,
        Err(e) => {
            return Err(e);
        },
    };
    proof {
        reveal_strlit("quick");
        reveal_strlit("full");
        assert("quick"@.len() == 5);
        assert("full"@.len() == 4);
        assert("quick"@ != "full"@);
    }
    if str_eq(mode, "quick") {
        Ok(Prompt::Quick)
    } else if str_eq(mode, "full") {
        Ok(p)
    } else {
        Err(message("未知报告模式：", mode, "（支持 full / quick）"))
    }
}

/// The report mode asked for: none or blank means `full`; `full` and
/// `quick` (trimmed) are accepted; anything else is an error.
pub open spec fn report_mode_spec(mode: Option<Seq<char>>) -> Result<Seq<char>, Seq<char>> {
    match mode {
        None => Ok("full"@),
        Some(m) => {
            let t = trim(m);
            if t.len() == 0 || t == "full"@ {
                Ok("full"@)
            } else if t == "quick"@ {
                Ok("quick"@)
            } else {
                Err(unknown_mode_msg(t))
            }
        },
    }
}

pub fn parse_report_mode(mode: Option<&str>) -> (r: Result<&'static str, String>)
    ensures
        match r {
            Ok(m) => report_mode_spec(
                match mode {
                    Some(s) => Some(s@),
                    None => None,
                },
            ) == Ok::<Seq<char>, Seq<char>>(m@),
            Err(e) => report_mode_spec(
                match mode {
                    Some(s) => Some(s@),
                    None => None,
                },
            ) == Err::<Seq<char>, Seq<char>>(e@),
        },
{
    match mode {
        None => Ok("full"),
        Some(m) => {
            let t = trim_string(m);
            if t.as_str().is_empty() || str_eq(t.as_str(), "full") {
                Ok("full")
            } else if str_eq(t.as_str(), "quick") {
                Ok("quick")
            } else {
                Err(message("未知报告模式：", t.as_str(), "（支持 full / quick）"))
            }
        },
    }
}

/// Display name of a scenario; unknown ones read as free practice.
pub open spec fn scenario_label_spec(s: Seq<char>) -> Seq<char> {
    if s == "interview"@ {
        "面试回答"@
    } else if s == "vlog"@ {
        "口播视频"@
    } else if s == "workreport"@ {
        "工作汇报"@
    } else if s == "mockInterview"@ {
        "模拟面试"@
    } else {
        "自由练习"@
    }
}

pub fn scenario_label(scenario: &str) -> (r: &'static str)
    ensures
        r@ == scenario_label_spec(scenario@),
{
    if str_eq(scenario, "interview") {
        "面试回答"
    } else if str_eq(scenario, "vlog") {
        "口播视频"
    } else if str_eq(scenario, "workreport") {
        "工作汇报"
    } else if str_eq(scenario, "mockInterview") {
        "模拟面试"
    } else {
        "自由练习"
    }
}

/// Display name of a feedback kind in the local report.
pub fn kind_label(kind: &FeedbackKind) -> (r: &'static str)
    ensures
        r@ == match *kind {
            FeedbackKind::FillerWord => "口头禅"@,
            FeedbackKind::WordPrecision => "词汇精确度"@,
            FeedbackKind::Repetition => "重复"@,
            FeedbackKind::ConclusionMissing => "结论缺失"@,
            FeedbackKind::ExampleMissing => "缺举例"@,
            FeedbackKind::Emotion => "情感词"@,
            FeedbackKind::Hedge => "立场模糊"@,
            FeedbackKind::TimeVague => "时间模糊"@,
            FeedbackKind::Imagery => "画面感"@,
            FeedbackKind::GoldenQuote => "金句"@,
            FeedbackKind::AiCheckin => "AI 快评"@,
        },
{
    match kind {
        FeedbackKind::FillerWord => "口头禅",
        FeedbackKind::WordPrecision => "词汇精确度",
        FeedbackKind::Repetition => "重复",
        FeedbackKind::ConclusionMissing => "结论缺失",
        FeedbackKind::ExampleMissing => "缺举例",
        FeedbackKind::Emotion => "情感词",
        FeedbackKind::Hedge => "立场模糊",
        FeedbackKind::TimeVague => "时间模糊",
        FeedbackKind::Imagery => "画面感",
        FeedbackKind::GoldenQuote => "金句",
        FeedbackKind::AiCheckin => "AI 快评",
    }
}

} // verus!

verus! {

/// The non-blank lines of a transcript text, trimmed.
pub open spec fn nonblank_lines(text: Seq<char>) -> Seq<Seq<char>> {
    drop_empty(lines(text).map_values(|l: Seq<char>| trim(l)))
}

/// Sentences numbered from 1 holding `ts` in order, timestamps unknown (0).
pub open spec fn numbered(r: Seq<Sentence>, ts: Seq<Seq<char>>) -> bool {
    &&& r.len() == ts.len()
    &&& forall|i: int|
        0 <= i < r.len() ==> (#[trigger] r[i]).id == i + 1 && r[i].text@ == ts[i] && r[i].start_ms == 0
            && r[i].end_ms == 0
}

/// The texts of a list of sentences.
pub open spec fn texts_of(ss: Seq<Sentence>) -> Seq<Seq<char>> {
    ss.map_values(|s: Sentence| s.text@)
}

/// The non-blank trimmed lines of `text`.
fn nonblank_lines_of(text: &str) -> (r: Vec<Vec<char>>)
    ensures
        r@.map_values(|l: Vec<char>| l@) == nonblank_lines(text@),
{
    let chars = chars_of(text);
    let ls = lines_of(chars.as_slice());
    let ghost all = ls@.map_values(|l: Vec<char>| l@).map_values(|l: Seq<char>| trim(l));
    assert(all =~= lines(text@).map_values(|l: Seq<char>| trim(l)));
    let mut out: Vec<Vec<char>> = Vec::new();
    let mut i: usize = 0;
    assert(all.subrange(0, 0) =~= Seq::<Seq<char>>::empty());
    while i < ls.len()
        invariant
            i <= ls@.len(),
            all == ls@.map_values(|l: Vec<char>| l@).map_values(|l: Seq<char>| trim(l)),
            out@.map_values(|l: Vec<char>| l@) == drop_empty(all.subrange(0, i as int)),
        decreases ls@.len() - i,
    {
        let t = trim_vec(ls[i].as_slice());
        let ghost prev = all.subrange(0, i as int);
        let ghost next = all.subrange(0, i + 1);
        let ghost d = out@.map_values(|l: Vec<char>| l@);
        proof {
            assert(next.drop_last() =~= prev);
            assert(next.last() == t@);
        }
        if t.len() > 0 {
            out.push(t);
            assert(out@.map_values(|l: Vec<char>| l@) =~= d.push(next.last()));
        }
        i = i + 1;
    }
    assert(all.subrange(0, ls@.len() as int) =~= all);
    out
}

/// Sentences numbered from `first + 1` on, one per line of `ls`.
fn push_numbered(out: &mut Vec<Sentence>, ls: &Vec<Vec<char>>)
    requires
        old(out)@.len() + ls@.len() <= usize::MAX,
    ensures
        final(out)@.len() == old(out)@.len() + ls@.len(),
        forall|i: int| 0 <= i < old(out)@.len() ==> final(out)@[i] == old(out)@[i],
        forall|i: int|
            0 <= i < ls@.len() ==> (#[trigger] final(out)@[old(out)@.len() + i]).id == old(out)@.len()
                + i + 1 && final(out)@[old(out)@.len() + i].text@ == ls@[i]@ && final(out)@[old(out)@.len()
                + i].start_ms == 0 && final(out)@[old(out)@.len() + i].end_ms == 0,
{
    let ghost base = old(out)@;
    let mut i: usize = 0;
    while i < ls.len()
        invariant
            i <= ls@.len(),
            base.len() + ls@.len() <= usize::MAX,
            out@.len() == base.len() + i,
            forall|k: int| 0 <= k < base.len() ==> out@[k] == base[k],
            forall|k: int|
                0 <= k < i ==> (#[trigger] out@[base.len() + k]).id == base.len() + k + 1 && out@[base.len()
                    + k].text@ == ls@[k]@ && out@[base.len() + k].start_ms == 0 && out@[base.len()
                    + k].end_ms == 0,
        decreases ls@.len() - i,
    {
        let id: u64 = out.len() as u64 + 1;
        let s = Sentence { id, text: string_of(ls[i].as_slice()), start_ms: 0, end_ms: 0 };
        out.push(s);
        i = i + 1;
    }
}

/// The transcript text the user edited (one sentence per line) as
/// sentences: blank lines skipped, lines trimmed, ids are the line numbers
/// from 1, timestamps unknown (0).
pub fn parse_transcript_text(text: &str) -> (r: Vec<Sentence>)
    ensures
        numbered(r@, nonblank_lines(text@)),
{
    let ls = nonblank_lines_of(text);
    let mut out: Vec<Sentence> = Vec::new();
    assert(ls@.len() == ls.len());
    push_numbered(&mut out, &ls);
    proof {
        let nl = nonblank_lines(text@);
        assert forall|i: int| 0 <= i < out@.len() implies (#[trigger] out@[i]).id == i + 1
            && out@[i].text@ == nl[i] && out@[i].start_ms == 0 && out@[i].end_ms == 0 by {
            assert(out@[0 + i] == out@[i]);
            assert(ls@.map_values(|l: Vec<char>| l@)[i] == ls@[i]@);
        }
    }
    out
}

/// Lines joined with `\n` between them.
pub open spec fn join_lines(ts: Seq<Seq<char>>) -> Seq<char>
    decreases ts.len(),
{
    if ts.len() == 0 {
        seq![]
    } else if ts.len() == 1 {
        ts[0]
    } else {
        ts[0] + seq!['\n'] + join_lines(ts.subrange(1, ts.len() as int))
    }
}

proof fn lemma_join_push(ts: Seq<Seq<char>>, t: Seq<char>)
    requires
        ts.len() >= 1,
    ensures
        join_lines(ts.push(t)) == join_lines(ts) + seq!['\n'] + t,
    decreases ts.len(),
{
    let tp = ts.push(t);
    assert(tp[0] == ts[0]);
    if ts.len() == 1 {
        assert(tp.subrange(1, tp.len() as int) =~= seq![t]);
        assert(join_lines(seq![t]) == t);
        assert(join_lines(tp) == tp[0] + seq!['\n'] + join_lines(tp.subrange(1, tp.len() as int)));
    } else {
        assert(tp.subrange(1, tp.len() as int) =~= ts.subrange(1, ts.len() as int).push(t));
        lemma_join_push(ts.subrange(1, ts.len() as int), t);
        let rest = ts.subrange(1, ts.len() as int);
        assert(join_lines(tp) == tp[0] + seq!['\n'] + join_lines(rest.push(t)));
        assert(join_lines(ts) == ts[0] + seq!['\n'] + join_lines(rest));
        assert(ts[0] + seq!['\n'] + (join_lines(rest) + seq!['\n'] + t) =~= (ts[0] + seq!['\n'] + join_lines(rest))
            + seq!['\n'] + t);
    }
}

/// The sentences' texts, one per line.
pub fn transcript_text(sentences: &[Sentence]) -> (r: String)
    ensures
        r@ == join_lines(texts_of(sentences@)),
{
    let ghost ts = texts_of(sentences@);
    let mut out = String::new();
    if sentences.len() == 0 {
        return out;
    }
    push_str(&mut out, sentences[0].text.as_str());
    assert(ts.subrange(0, 1) =~= seq![ts[0]]);
    let mut i: usize = 1;
    while i < sentences.len()
        invariant
            1 <= i <= sentences@.len(),
            ts == texts_of(sentences@),
            out@ == join_lines(ts.subrange(0, i as int)),
        decreases sentences@.len() - i,
    {
        push_char(&mut out, '\n');
        push_str(&mut out, sentences[i].text.as_str());
        proof {
            lemma_join_push(ts.subrange(0, i as int), ts[i as int]);
            assert(ts.subrange(0, i + 1) =~= ts.subrange(0, i as int).push(ts[i as int]));
        }
        i = i + 1;
    }
    assert(ts.subrange(0, sentences@.len() as int) =~= ts);
    out
}

/// A line that comes back unchanged through the transcript text: not
/// empty, no surrounding whitespace and no line break.
pub open spec fn plain_line(t: Seq<char>) -> bool {
    t.len() > 0 && !is_ws(t[0]) && !is_ws(t.last()) && !t.contains('\n')
}

proof fn lemma_plain_trim(t: Seq<char>)
    requires
        plain_line(t),
    ensures
        trim(t) == t,
        lines(t) == seq![t],
{
    assert(crate::text::ltrim(t) == t);
    assert(crate::text::rtrim(t) == t);
    crate::text::lemma_index_of(t, '\n');
    if crate::text::index_of(t, '\n') < t.len() {
        assert(t.contains('\n'));
    }
}

proof fn lemma_lines_join(ts: Seq<Seq<char>>)
    requires
        forall|i: int| 0 <= i < ts.len() ==> plain_line(#[trigger] ts[i]),
    ensures
        lines(join_lines(ts)) == ts,
    decreases ts.len(),
{
    if ts.len() == 1 {
        lemma_plain_trim(ts[0]);
        assert(seq![ts[0]] =~= ts);
    } else if ts.len() >= 2 {
        let t0 = ts[0];
        let rest = ts.subrange(1, ts.len() as int);
        assert forall|i: int| 0 <= i < rest.len() implies plain_line(#[trigger] rest[i]) by {
            assert(rest[i] == ts[i + 1]);
        }
        lemma_lines_join(rest);
        assert(plain_line(t0));
        let j = join_lines(ts);
        assert(j == t0 + seq!['\n'] + join_lines(rest));
        assert forall|k: int| 0 <= k < t0.len() implies j[k] != '\n' by {
            assert(j[k] == t0[k]);
            if t0[k] == '\n' {
                assert(t0.contains('\n'));
            }
        }
        assert(j[t0.len() as int] == '\n');
        crate::text::lemma_index_of_at(j, '\n', t0.len() as int);
        assert(j.subrange(0, t0.len() as int) =~= t0);
        assert(j.subrange(t0.len() as int + 1, j.len() as int) =~= join_lines(rest));
        assert(is_ws('\r'));
        assert(crate::text::line_body(t0) == t0);
        assert(seq![t0] + rest =~= ts);
    }
}

proof fn lemma_drop_empty_id(s: Seq<Seq<char>>)
    requires
        forall|i: int| 0 <= i < s.len() ==> (#[trigger] s[i]).len() > 0,
    ensures
        drop_empty(s) == s,
    decreases s.len(),
{
    if s.len() > 0 {
        lemma_drop_empty_id(s.drop_last());
        assert(s.drop_last().push(s.last()) =~= s);
    }
}

/// Writing sentences as a transcript text and reading it back gives the
/// same texts, for sentences that are non-empty, trimmed and on one line.
pub proof fn lemma_transcript_roundtrip(ts: Seq<Seq<char>>)
    requires
        forall|i: int| 0 <= i < ts.len() ==> plain_line(#[trigger] ts[i]),
    ensures
        nonblank_lines(join_lines(ts)) == ts,
{
    lemma_lines_join(ts);
    assert forall|i: int| 0 <= i < ts.len() implies trim(#[trigger] ts[i]) == ts[i] by {
        lemma_plain_trim(ts[i]);
    }
    assert(ts.map_values(|l: Seq<char>| trim(l)) =~= ts);
    lemma_drop_empty_id(ts);
}

} // verus!

verus! {

/// Non-whitespace characters over a list of texts.
pub open spec fn total_nonws(ts: Seq<Seq<char>>) -> nat
    decreases ts.len(),
{
    if ts.len() == 0 {
        0
    } else {
        total_nonws(ts.drop_last()) + nonws_count(ts.last())
    }
}

proof fn lemma_total_prefix(ts: Seq<Seq<char>>, j: int)
    requires
        0 <= j <= ts.len(),
    ensures
        total_nonws(ts.subrange(0, j)) <= total_nonws(ts),
    decreases ts.len() - j,
{
    if j < ts.len() {
        lemma_total_prefix(ts.drop_last(), j);
        assert(ts.drop_last().subrange(0, j) =~= ts.subrange(0, j));
    } else {
        assert(ts.subrange(0, j) =~= ts);
    }
}

/// Non-whitespace characters over all sentences.
pub fn count_chars(sentences: &[Sentence]) -> (r: u64)
    requires
        total_nonws(texts_of(sentences@)) <= u64::MAX,
    ensures
        r == total_nonws(texts_of(sentences@)),
{
    let ghost ts = texts_of(sentences@);
    let mut acc: u64 = 0;
    let mut i: usize = 0;
    assert(ts.subrange(0, 0) =~= Seq::<Seq<char>>::empty());
    while i < sentences.len()
        invariant
            i <= sentences@.len(),
            ts == texts_of(sentences@),
            total_nonws(ts) <= u64::MAX,
            acc == total_nonws(ts.subrange(0, i as int)),
        decreases sentences@.len() - i,
    {
        let chars = chars_of(sentences[i].text.as_str());
        let ghost t = ts[i as int];
        proof {
            assert(ts.subrange(0, i + 1).drop_last() =~= ts.subrange(0, i as int));
            lemma_total_prefix(ts, i + 1);
        }
        let mut j: usize = 0;
        assert(chars@.subrange(0, 0) =~= Seq::<char>::empty());
        while j < chars.len()
            invariant
                j <= chars@.len(),
                chars@ == t,
                total_nonws(ts.subrange(0, i as int)) + nonws_count(t) <= u64::MAX,
                acc == total_nonws(ts.subrange(0, i as int)) + nonws_count(chars@.subrange(0, j as int)),
            decreases chars@.len() - j,
        {
            proof {
                assert(chars@.subrange(0, j + 1).drop_last() =~= chars@.subrange(0, j as int));
                lemma_nonws_prefix(chars@, j + 1);
            }
            if !char_is_ws(chars[j]) {
                acc = acc + 1;
            }
            j = j + 1;
        }
        assert(chars@.subrange(0, chars@.len() as int) =~= t);
        i = i + 1;
    }
    assert(ts.subrange(0, sentences@.len() as int) =~= ts);
    acc
}

/// One mock-interview question with the user's (edited) answer; an empty
/// answer means the question was skipped.
#[derive(Debug, Clone, PartialEq)]
pub struct QaItem {
    pub question: String,
    pub intent: String,
    pub answer: String,
    /// Answer time in ms; `None` or 0 when unknown.
    pub duration_ms: Option<u64>,
}

/// All answers' non-blank lines, question after question.
pub open spec fn answers_lines(qa: Seq<QaItem>) -> Seq<Seq<char>>
    decreases qa.len(),
{
    if qa.len() == 0 {
        seq![]
    } else {
        answers_lines(qa.drop_last()) + nonblank_lines(qa.last().answer@)
    }
}

/// The answers merged into one transcript, numbered from 1 across all
/// questions, with the line count of each answer.
pub fn merge_qa_answers(qa: &[QaItem]) -> (r: (Vec<Sentence>, Vec<usize>))
    ensures
        numbered(r.0@, answers_lines(qa@)),
        r.1@.len() == qa@.len(),
        forall|i: int| 0 <= i < qa@.len() ==> #[trigger] r.1@[i] == nonblank_lines(qa@[i].answer@).len(),
{
    let mut sentences: Vec<Sentence> = Vec::new();
    let mut counts: Vec<usize> = Vec::new();
    let mut i: usize = 0;
    assert(qa@.subrange(0, 0) =~= Seq::<QaItem>::empty());
    while i < qa.len()
        invariant
            i <= qa@.len(),
            texts_of(sentences@) == answers_lines(qa@.subrange(0, i as int)),
            forall|k: int| 0 <= k < sentences@.len() ==> (#[trigger] sentences@[k]).start_ms == 0
                && sentences@[k].end_ms == 0,
            counts@.len() == i,
            forall|k: int| 0 <= k < i ==> #[trigger] counts@[k] == nonblank_lines(qa@[k].answer@).len(),
        decreases qa@.len() - i,
    {
        let mut parsed = parse_transcript_text(qa[i].answer.as_str());
        counts.push(parsed.len());
        let ghost before = sentences@;
        let ghost p = parsed@;
        sentences.append(&mut parsed);
        proof {
            let nl = nonblank_lines(qa@[i as int].answer@);
            assert(qa@.subrange(0, i + 1).drop_last() =~= qa@.subrange(0, i as int));
            assert(qa@.subrange(0, i + 1).last() == qa@[i as int]);
            assert(texts_of(p) =~= nl);
            assert(texts_of(sentences@) =~= texts_of(before) + texts_of(p));
            assert forall|k: int| 0 <= k < sentences@.len() implies (#[trigger] sentences@[k]).start_ms == 0
                && sentences@[k].end_ms == 0 by {
                if k >= before.len() {
                    assert(sentences@[k] == p[k - before.len()]);
                }
            }
        }
        i = i + 1;
    }
    assert(qa@.subrange(0, qa@.len() as int) =~= qa@);
    let ghost merged = sentences@;
    let mut j: usize = 0;
    while j < sentences.len()
        invariant
            j <= sentences@.len(),
            sentences@.len() == merged.len(),
            forall|k: int| 0 <= k < sentences@.len() ==> (#[trigger] sentences@[k]).text == merged[k].text
                && sentences@[k].start_ms == 0 && sentences@[k].end_ms == 0,
            forall|k: int| 0 <= k < j ==> (#[trigger] sentences@[k]).id == k + 1,
        decreases sentences@.len() - j,
    {
        let id: u64 = j as u64 + 1;
        sentences[j].id = id;
        j = j + 1;
    }
    proof {
        let al = answers_lines(qa@);
        assert forall|k: int| 0 <= k < sentences@.len() implies (#[trigger] sentences@[k]).text@ == al[k] by {
            assert(texts_of(merged)[k] == merged[k].text@);
        }
    }
    (sentences, counts)
}

/// The known answer times added up.
pub open spec fn total_duration(qa: Seq<QaItem>) -> int
    decreases qa.len(),
{
    if qa.len() == 0 {
        0
    } else {
        total_duration(qa.drop_last()) + match qa.last().duration_ms {
            Some(ms) => ms as int,
            None => 0,
        }
    }
}

proof fn lemma_total_duration_prefix(qa: Seq<QaItem>, j: int)
    requires
        0 <= j <= qa.len(),
    ensures
        total_duration(qa.subrange(0, j)) <= total_duration(qa),
    decreases qa.len() - j,
{
    if j < qa.len() {
        lemma_total_duration_prefix(qa.drop_last(), j);
        assert(qa.drop_last().subrange(0, j) =~= qa.subrange(0, j));
    } else {
        assert(qa.subrange(0, j) =~= qa);
    }
}

/// Total interview time: the sum of the known answer times.
pub fn qa_total_duration_ms(qa: &[QaItem]) -> (r: u64)
    requires
        total_duration(qa@) <= u64::MAX,
    ensures
        r == total_duration(qa@),
{
    let mut acc: u64 = 0;
    let mut i: usize = 0;
    assert(qa@.subrange(0, 0) =~= Seq::<QaItem>::empty());
    while i < qa.len()
        invariant
            i <= qa@.len(),
            total_duration(qa@) <= u64::MAX,
            acc == total_duration(qa@.subrange(0, i as int)),
        decreases qa@.len() - i,
    {
        proof {
            assert(qa@.subrange(0, i + 1).drop_last() =~= qa@.subrange(0, i as int));
            lemma_total_duration_prefix(qa@, i + 1);
        }
        match qa[i].duration_ms {
            Some(ms) => {
                acc = acc + ms;
            },
            None => {},
        }
        i = i + 1;
    }
    assert(qa@.subrange(0, qa@.len() as int) =~= qa@);
    acc
}

} // verus!

verus! {

/// The chat-completions endpoint under a base URL, without a doubled `/`.
pub fn chat_url(base_url: &str) -> (r: String)
    ensures
        r@ == crate::text::strip_end(base_url@, '/') + "/chat/completions"@,
{
    let v = chars_of(base_url);
    let b = crate::text::strip_end_vec(v.as_slice(), '/');
    let mut s = string_of(b.as_slice());
    push_str(&mut s, "/chat/completions");
    s
}

pub open spec fn marker_close() -> Seq<char> {
    seq!['-', '-', '>']
}

/// A report without its score marker: no marker leaves the text as it is;
/// an unclosed marker (mid-stream) cuts the tail; otherwise the marker is
/// removed, a blank line left behind collapses, and the text ends with one
/// line break.
pub open spec fn strip_marker_spec(t: Seq<char>) -> Seq<char> {
    let p = crate::text::first_occ_from(t, SCORE_MARKER_PREFIX@, 0);
    if p < 0 {
        t
    } else {
        let q = crate::text::first_occ_from(t, marker_close(), p);
        if q < 0 {
            crate::text::rtrim(t.subrange(0, p))
        } else {
            crate::text::rtrim(
                crate::text::replace_all(
                    t.subrange(0, p) + t.subrange(q + 3, t.len() as int),
                    seq!['\n', '\n', '\n'],
                    seq!['\n', '\n'],
                ),
            ).push('\n')
        }
    }
}

pub fn strip_score_marker(text: &str) -> (r: String)
    ensures
        r@ == strip_marker_spec(text@),
{
    let v = chars_of(text);
    let prefix = chars_of(SCORE_MARKER_PREFIX);
    let start = match crate::text::find_occ(v.as_slice(), prefix.as_slice(), 0) {
        Some(p) => p,
        None => {
            return lit(text);
        },
    };
    let mut close: Vec<char> = Vec::new();
    close.push('-');
    close.push('-');
    close.push('>');
    assert(close@ =~= marker_close());
    let end = match crate::text::find_occ(v.as_slice(), close.as_slice(), start) {
        Some(q) => q,
        None => {
            let head = crate::text::slice_chars(v.as_slice(), 0, start);
            let t = crate::text::rtrim_vec(head.as_slice());
            return string_of(t.as_slice());
        },
    };
    assert(crate::text::occurs_at(v@, close@, end as int));
    assert(end + 3 <= v.len());
    let mut joined = crate::text::slice_chars(v.as_slice(), 0, start);
    let tail = crate::text::slice_chars(v.as_slice(), end + 3, v.len());
    crate::text::extend_chars(&mut joined, tail.as_slice());
    let mut three: Vec<char> = Vec::new();
    three.push('\n');
    three.push('\n');
    three.push('\n');
    let mut two: Vec<char> = Vec::new();
    two.push('\n');
    two.push('\n');
    assert(three@ =~= seq!['\n', '\n', '\n']);
    assert(two@ =~= seq!['\n', '\n']);
    let replaced = crate::text::replace_chars(joined.as_slice(), three.as_slice(), two.as_slice());
    let mut t = crate::text::rtrim_vec(replaced.as_slice());
    t.push('\n');
    string_of(t.as_slice())
}

/// Markers whose presence counts as stating a conclusion.
pub open spec fn conclusion_markers() -> Seq<Seq<char>> {
    seq![
        "总之"@,
        "综上"@,
        "因此"@,
        "所以"@,
        "结论是"@,
        "总结一下"@,
        "一句话总结"@,
        "我的结论"@,
        "我认为"@,
    ]
}

fn conclusion_marker(i: usize) -> (r: &'static str)
    requires
        i < 9,
    ensures
        r@ == conclusion_markers()[i as int],
{
    match i {
        0 => "总之",
        1 => "综上",
        2 => "因此",
        3 => "所以",
        4 => "结论是",
        5 => "总结一下",
        6 => "一句话总结",
        7 => "我的结论",
        _ => "我认为",
    }
}

/// The text holds one of the conclusion markers.
pub open spec fn has_marker(t: Seq<char>) -> bool {
    exists|m: int| 0 <= m < 9 && crate::text::contains_seq(t, #[trigger] conclusion_markers()[m])
}

/// Whether any sentence holds a conclusion marker.
pub fn has_conclusion_sentence(sentences: &[Sentence]) -> (r: bool)
    ensures
        r == exists|i: int| 0 <= i < sentences@.len() && has_marker(#[trigger] sentences@[i].text@),
{
    let mut i: usize = 0;
    while i < sentences.len()
        invariant
            i <= sentences@.len(),
            forall|k: int| 0 <= k < i ==> !has_marker(#[trigger] sentences@[k].text@),
        decreases sentences@.len() - i,
    {
        let mut m: usize = 0;
        while m < 9
            invariant
                m <= 9,
                i < sentences@.len(),
                forall|k: int| 0 <= k < m ==> !crate::text::contains_seq(
                    sentences@[i as int].text@,
                    #[trigger] conclusion_markers()[k],
                ),
            decreases 9 - m,
        {
            if crate::text::str_contains(sentences[i].text.as_str(), conclusion_marker(m)) {
                assert(has_marker(sentences@[i as int].text@));
                return true;
            }
            m = m + 1;
        }
        i = i + 1;
    }
    false
}

/// Two-digit seconds: `07` for 7.
pub open spec fn two_digits(n: nat) -> Seq<char> {
    if n < 10 {
        seq!['0'] + dec(n)
    } else {
        dec(n)
    }
}

/// `3 分 07 秒`, or `59 秒` under a minute.
pub open spec fn duration_text(ms: nat) -> Seq<char> {
    let total = ms / 1000;
    let m = total / 60;
    let s = total % 60;
    if m > 0 {
        dec(m) + seq![' ', '分', ' '] + two_digits(s) + seq![' ', '秒']
    } else {
        dec(s) + seq![' ', '秒']
    }
}

pub fn format_duration(duration_ms: u64) -> (r: String)
    ensures
        r@ == duration_text(duration_ms as nat),
{
    let total_sec = duration_ms / 1000;
    let m = total_sec / 60;
    let s = total_sec % 60;
    let mut out = String::new();
    if m > 0 {
        push_dec(&mut out, m);
        push_char(&mut out, ' ');
        push_char(&mut out, '分');
        push_char(&mut out, ' ');
        if s < 10 {
            push_char(&mut out, '0');
        }
        push_dec(&mut out, s);
    } else {
        push_dec(&mut out, s);
    }
    push_char(&mut out, ' ');
    push_char(&mut out, '秒');
    proof {
        assert(out@ =~= duration_text(duration_ms as nat));
    }
    out
}

/// At most `max` characters, with `…` when cut.
pub fn truncate(s: &str, max: usize) -> (r: String)
    ensures
        r@ == crate::text::truncated(s@, max as nat),
{
    let v = chars_of(s);
    let t = crate::text::truncate_vec(v.as_slice(), max);
    string_of(t.as_slice())
}

} // verus!

verus! {

#[verifier::external_type_specification]
#[verifier::external_body]
pub struct ExJsonValue(serde_json::Value);

/// What `serde_json` reads as the assistant text of a non-streamed chat
/// reply: `choices[0].message.content` when it is a string, the empty text
/// when it is missing or not a string; `None` when the text is not JSON.
pub uninterp spec fn json_message_content(text: Seq<char>) -> Option<Seq<char>>;

/// `serde_json::from_str::<serde_json::Value>`, then indexing
/// `["choices"][0]["message"]["content"]` and `Value::as_str` with the empty
/// text as default; a parse error comes back as its `Display` text. Claimed:
/// `Ok` exactly when the name has a reading, with that text; nothing is
/// stated of the error's words.
#[verifier::external_body]
fn parse_message_content(text: &str) -> (r: Result<String, String>)
    ensures
        match r {
            Ok(c) => json_message_content(text@) == Some(c@),
            Err(_) => json_message_content(text@) is None,
        },
{
    match serde_json::from_str::<serde_json::Value>(text) {
        Ok(v) => Ok(v["choices"][0]["message"]["content"].as_str().unwrap_or_default().to_string()),
        Err(e) => Err(e.to_string()),
    }
}

/// The assistant text of a non-streamed chat reply; a body that is not JSON
/// gives the parser's message.
pub fn reply_content(text: &str) -> (r: Result<String, String>)
    ensures
        match r {
            Ok(c) => json_message_content(text@) == Some(c@),
            Err(_) => json_message_content(text@) is None,
        },
{
    parse_message_content(text)
}

/// Whether `serde_json` reads the text as a JSON object.
pub uninterp spec fn json_object_text(s: Seq<char>) -> bool;

/// `serde_json::from_str::<serde_json::Value>` followed by
/// `Value::is_object`: the parsed value when the text is a JSON object.
/// Claimed: `Some` exactly for the texts the name calls objects; the value
/// itself is not described.
#[verifier::external_body]
fn parse_json_object(s: &str) -> (r: Option<serde_json::Value>)
    ensures
        r is Some <==> json_object_text(s@),
{
    let v: serde_json::Value = serde_json::from_str(s).ok()?;
    match v {
        serde_json::Value::Object(_) => Some(v),
        _ => None,
    }
}

/// The text inside the first score marker, trimmed: after `<!--SCORE:` up
/// to the first `-->` that follows it.
pub open spec fn score_marker_body(t: Seq<char>) -> Option<Seq<char>> {
    let p = crate::text::first_occ_from(t, SCORE_MARKER_PREFIX@, 0);
    if p < 0 {
        None
    } else {
        let rest = t.subrange(p + SCORE_MARKER_PREFIX@.len(), t.len() as int);
        let e = crate::text::first_occ_from(rest, marker_close(), 0);
        if e < 0 {
            None
        } else {
            Some(trim(rest.subrange(0, e)))
        }
    }
}

fn score_marker_body_exec(text: &str) -> (r: Option<String>)
    ensures
        match r {
            Some(s) => score_marker_body(text@) == Some(s@),
            None => score_marker_body(text@) is None,
        },
{
    let v = chars_of(text);
    let prefix = chars_of(SCORE_MARKER_PREFIX);
    let start = match crate::text::find_occ(v.as_slice(), prefix.as_slice(), 0) {
        Some(p) => p,
        None => {
            return None;
        },
    };
    assert(crate::text::occurs_at(v@, prefix@, start as int));
    assert(start + prefix.len() <= v.len());
    let rest = crate::text::slice_chars(v.as_slice(), start + prefix.len(), v.len());
    let mut close: Vec<char> = Vec::new();
    close.push('-');
    close.push('-');
    close.push('>');
    assert(close@ =~= marker_close());
    let end = match crate::text::find_occ(rest.as_slice(), close.as_slice(), 0) {
        Some(e) => e,
        None => {
            return None;
        },
    };
    let inner = crate::text::slice_chars(rest.as_slice(), 0, end);
    let t = trim_vec(inner.as_slice());
    Some(string_of(t.as_slice()))
}

/// The scores at the end of a report: the first marker's JSON when it is an
/// object; a missing marker, an unclosed one or other JSON give `None`.
pub fn parse_score_marker(text: &str) -> (r: Option<serde_json::Value>)
    ensures
        match score_marker_body(text@) {
            None => r is None,
            Some(inner) => r is Some <==> json_object_text(inner),
        },
{
    match score_marker_body_exec(text) {
        Some(inner) => parse_json_object(inner.as_str()),
        None => None,
    }
}

} // verus!

verus! {

/// Filler hits over lines, by the matcher with entries `es` and modes `bs`.
pub open spec fn line_fillers(es: Seq<Seq<char>>, bs: Seq<bool>, ls: Seq<Seq<char>>) -> nat
    decreases ls.len(),
{
    if ls.len() == 0 {
        0
    } else {
        line_fillers(es, bs, ls.drop_last()) + hit_words(es, bs, ls.last()).len()
    }
}

/// Boundary modes of entries.
pub open spec fn modes_of(es: Seq<Seq<char>>) -> Seq<bool> {
    es.map_values(|w: Seq<char>| is_boundary_entry(w))
}

/// The statistics filler entries of a lexicon: high then medium words,
/// empty ones dropped.
pub open spec fn stat_fillers(lex: LexiconV2) -> Seq<Seq<char>> {
    drop_empty(views(lex.fillers.high@ + lex.fillers.medium@))
}

/// One row of the per-question overview.
pub open spec fn qa_row(i: nat, item: QaItem, es: Seq<Seq<char>>) -> Seq<char> {
    let ls = nonblank_lines(item.answer@);
    let head = "| "@ + dec(i + 1) + ". "@ + truncated(item.question@, 24);
    if ls.len() == 0 {
        head + " | — | — | 未作答 |\n"@
    } else {
        let concl = if exists|k: int| 0 <= k < ls.len() && has_marker(#[trigger] ls[k]) {
            "有"@
        } else {
            "未检出"@
        };
        head + " | "@ + dec(total_nonws(ls)) + " | "@ + dec(line_fillers(es, modes_of(es), ls)) + " 次 | "@ + concl
            + " |\n"@
    }
}

/// The rows of the first questions.
pub open spec fn qa_rows(qa: Seq<QaItem>, es: Seq<Seq<char>>) -> Seq<char>
    decreases qa.len(),
{
    if qa.len() == 0 {
        seq![]
    } else {
        qa_rows(qa.drop_last(), es) + qa_row((qa.len() - 1) as nat, qa.last(), es)
    }
}

/// Answers the overview can count without overflow.
pub open spec fn qa_countable(qa: Seq<QaItem>, lex: LexiconV2) -> bool {
    forall|i: int| 0 <= i < qa.len() ==> {
        let ls = nonblank_lines((#[trigger] qa[i]).answer@);
        &&& total_nonws(ls) <= u64::MAX
        &&& line_fillers(stat_fillers(lex), modes_of(stat_fillers(lex)), ls) <= u64::MAX
    }
}

/// The per-question overview section of a mock interview's local report.
pub open spec fn qa_section(qa: Seq<QaItem>, lex: LexiconV2) -> Seq<char> {
    "## 逐题速览\n\n"@ + "| 题 | 字数 | 口头禅 | 结论句 |\n|---|---|---|---|\n"@ + qa_rows(qa, stat_fillers(lex))
        + "\n（机械统计：口头禅按内置词表计数、结论句按结论标记词检出，仅供无 AI 时参考。）\n\n"@
}

/// The mock interview's per-question overview of the local report: for each
/// question its characters, filler hits (by the lexicon's statistics filler
/// words) and whether a conclusion sentence was found; an empty answer is
/// marked unanswered.
pub fn local_mock_qa_section(qa: &[QaItem], lex: &LexiconV2) -> (r: String)
    requires
        qa_countable(qa@, *lex),
    ensures
        r@ == qa_section(qa@, *lex),
{
    let mut words = clone_strings(lex.fillers.high.as_slice());
    let mut medium = clone_strings(lex.fillers.medium.as_slice());
    let ghost hv = lex.fillers.high@;
    let ghost mv = lex.fillers.medium@;
    words.append(&mut medium);
    assert(views(words@) =~= views(lex.fillers.high@ + lex.fillers.medium@));
    let m = WordMatcher::new(words);
    let ghost es = stat_fillers(*lex);
    assert(m.entries() == es);
    assert(m.modes() =~= modes_of(es));
    let mut md = String::new();
    push_str(&mut md, "## 逐题速览\n\n");
    push_str(&mut md, "| 题 | 字数 | 口头禅 | 结论句 |\n|---|---|---|---|\n");
    let ghost head = md@;
    let mut i: usize = 0;
    assert(qa@.subrange(0, 0) =~= Seq::<QaItem>::empty());
    while i < qa.len()
        invariant
            i <= qa@.len(),
            m.wf(),
            m.entries() == es,
            m.modes() == modes_of(es),
            es == stat_fillers(*lex),
            qa_countable(qa@, *lex),
            md@ == head + qa_rows(qa@.subrange(0, i as int), es),
        decreases qa@.len() - i,
    {
        proof {
            assert(qa@.subrange(0, i + 1).drop_last() =~= qa@.subrange(0, i as int));
            assert(qa@.subrange(0, i + 1).last() == qa@[i as int]);
            let _ = qa@[i as int];
        }
        push_qa_row(&mut md, i, &qa[i], &m, Ghost(es));
        i = i + 1;
    }
    assert(qa@.subrange(0, qa@.len() as int) =~= qa@);
    push_str(&mut md, "\n（机械统计：口头禅按内置词表计数、结论句按结论标记词检出，仅供无 AI 时参考。）\n\n");
    md
}

/// Appends row `i` of the per-question overview.
fn push_qa_row(md: &mut String, i: usize, item: &QaItem, m: &WordMatcher, es: Ghost<Seq<Seq<char>>>)
    requires
        i < usize::MAX,
        m.wf(),
        m.entries() == es@,
        m.modes() == modes_of(es@),
        total_nonws(nonblank_lines(item.answer@)) <= u64::MAX,
        line_fillers(es@, modes_of(es@), nonblank_lines(item.answer@)) <= u64::MAX,
    ensures
        final(md)@ == old(md)@ + qa_row(i as nat, *item, es@),
{
    let sentences = parse_transcript_text(item.answer.as_str());
    let ghost ls = nonblank_lines(item.answer@);
    assert(texts_of(sentences@) =~= ls);
    push_str(md, "| ");
    push_dec(md, i as u64 + 1);
    push_str(md, ". ");
    let q = truncate(item.question.as_str(), 24);
    push_str(md, q.as_str());
    if sentences.len() == 0 {
        push_str(md, " | — | — | 未作答 |\n");
    } else {
        let chars = count_chars(sentences.as_slice());
        let fillers = count_line_fillers(m, sentences.as_slice());
        let concl = has_conclusion_sentence(sentences.as_slice());
        push_str(md, " | ");
        push_dec(md, chars);
        push_str(md, " | ");
        push_dec(md, fillers);
        push_str(md, " 次 | ");
        if concl {
            push_str(md, "有");
        } else {
            push_str(md, "未检出");
        }
        push_str(md, " |\n");
        proof {
            assert(concl == exists|k: int| 0 <= k < ls.len() && has_marker(#[trigger] ls[k])) by {
                if concl {
                    let k = choose|k: int| 0 <= k < sentences@.len() && has_marker(#[trigger] sentences@[k].text@);
                    assert(ls[k] == sentences@[k].text@);
                }
                if exists|k: int| 0 <= k < ls.len() && has_marker(#[trigger] ls[k]) {
                    let k = choose|k: int| 0 <= k < ls.len() && has_marker(#[trigger] ls[k]);
                    assert(ls[k] == sentences@[k].text@);
                }
            }
        }
    }
    assert(md@ =~= old(md)@ + qa_row(i as nat, *item, es@));
}

/// Filler hits over the sentences' texts.
fn count_line_fillers(m: &WordMatcher, sentences: &[Sentence]) -> (r: u64)
    requires
        m.wf(),
        line_fillers(m.entries(), m.modes(), texts_of(sentences@)) <= u64::MAX,
    ensures
        r == line_fillers(m.entries(), m.modes(), texts_of(sentences@)),
{
    let ghost ts = texts_of(sentences@);
    let mut n: u64 = 0;
    let mut i: usize = 0;
    assert(ts.subrange(0, 0) =~= Seq::<Seq<char>>::empty());
    while i < sentences.len()
        invariant
            i <= sentences@.len(),
            m.wf(),
            ts == texts_of(sentences@),
            line_fillers(m.entries(), m.modes(), ts) <= u64::MAX,
            n == line_fillers(m.entries(), m.modes(), ts.subrange(0, i as int)),
        decreases sentences@.len() - i,
    {
        assert(ts.subrange(0, i + 1).drop_last() =~= ts.subrange(0, i as int));
        assert(ts.subrange(0, i + 1).last() == sentences@[i as int].text@);
        proof {
            lemma_line_fillers_prefix(m.entries(), m.modes(), ts, i + 1);
        }
        let hits = m.find_all(sentences[i].text.as_str());
        assert(hits@.map_values(|s: &str| s@).len() == hits@.len());
        n = n + hits.len() as u64;
        i = i + 1;
    }
    assert(ts.subrange(0, sentences@.len() as int) =~= ts);
    n
}

proof fn lemma_line_fillers_prefix(es: Seq<Seq<char>>, bs: Seq<bool>, ls: Seq<Seq<char>>, j: int)
    requires
        0 <= j <= ls.len(),
    ensures
        line_fillers(es, bs, ls.subrange(0, j)) <= line_fillers(es, bs, ls),
    decreases ls.len() - j,
{
    if j < ls.len() {
        lemma_line_fillers_prefix(es, bs, ls.drop_last(), j);
        assert(ls.drop_last().subrange(0, j) =~= ls.subrange(0, j));
    } else {
        assert(ls.subrange(0, j) =~= ls);
    }
}


/// Outcome of a connection test: success with its latency, or the error.
#[derive(Debug, Clone)]
pub struct TestConnectionResult {
    pub ok: bool,
    pub latency_ms: u64,
    pub error: Option<String>,
}

impl TestConnectionResult {
    /// A failed test: no latency, the error message.
    pub fn failed(msg: String) -> (r: Self)
        ensures
            !r.ok && r.latency_ms == 0 && r.error == Some(msg),
    {
        TestConnectionResult { ok: false, latency_ms: 0, error: Some(msg) }
    }

    /// A successful test with its latency.
    pub fn succeeded(latency_ms: u64) -> (r: Self)
        ensures
            r.ok && r.latency_ms == latency_ms && r.error is None,
    {
        TestConnectionResult { ok: true, latency_ms, error: None }
    }
}

} // verus!

verus! {

/// One sentence of a request transcript: id, text and its time span.
pub open spec fn sentence_json(id: nat, text: Seq<char>, start_ms: nat, end_ms: nat) -> Seq<char> {
    jobj(
        seq![
            jmember("id"@, dec(id)),
            jmember("text"@, jstr(text)),
            jmember("start_ms"@, dec(start_ms)),
            jmember("end_ms"@, dec(end_ms)),
        ],
    )
}

/// A transcript as the request lists it, sentence after sentence.
pub open spec fn transcript_json(ss: Seq<Sentence>) -> Seq<char> {
    jarr(
        ss.map_values(
            |s: Sentence| sentence_json(s.id as nat, s.text@, s.start_ms as nat, s.end_ms as nat),
        ),
    )
}

/// Lines numbered from 1 as a request transcript, timestamps 0.
pub open spec fn numbered_json(ts: Seq<Seq<char>>) -> Seq<char> {
    jarr(Seq::new(ts.len(), |i: int| sentence_json((i + 1) as nat, ts[i], 0, 0)))
}

fn sentence_json_of(s: &Sentence) -> (r: String)
    ensures
        r@ == sentence_json(s.id as nat, s.text@, s.start_ms as nat, s.end_ms as nat),
{
    let mut ms: Vec<String> = Vec::new();
    ms.push(member("id", num_of(s.id)));
    ms.push(member("text", jstr_of(s.text.as_str())));
    ms.push(member("start_ms", num_of(s.start_ms)));
    ms.push(member("end_ms", num_of(s.end_ms)));
    let r = obj_of(ms.as_slice());
    proof {
        assert(views(ms@) =~= seq![
            jmember("id"@, dec(s.id as nat)),
            jmember("text"@, jstr(s.text@)),
            jmember("start_ms"@, dec(s.start_ms as nat)),
            jmember("end_ms"@, dec(s.end_ms as nat)),
        ]);
    }
    r
}

/// The request transcript of a list of sentences.
pub fn transcript_json_of(sentences: &[Sentence]) -> (r: String)
    ensures
        r@ == transcript_json(sentences@),
{
    let ghost f = |s: Sentence| sentence_json(s.id as nat, s.text@, s.start_ms as nat, s.end_ms as nat);
    let mut items: Vec<String> = Vec::new();
    let mut i: usize = 0;
    while i < sentences.len()
        invariant
            i <= sentences@.len(),
            f == (|s: Sentence| sentence_json(s.id as nat, s.text@, s.start_ms as nat, s.end_ms as nat)),
            views(items@) == sentences@.subrange(0, i as int).map_values(f),
        decreases sentences@.len() - i,
    {
        let ghost before = items@;
        let item = sentence_json_of(&sentences[i]);
        items.push(item);
        proof {
            assert(sentences@.subrange(0, i + 1) =~= sentences@.subrange(0, i as int).push(sentences@[i as int]));
            assert(views(items@) =~= views(before).push(item@));
            assert(views(items@) =~= sentences@.subrange(0, i + 1).map_values(f));
        }
        i = i + 1;
    }
    assert(sentences@.subrange(0, sentences@.len() as int) =~= sentences@);
    arr_of(items.as_slice())
}

/// A chat message with its role.
pub open spec fn message_json(role: Seq<char>, content: Seq<char>) -> Seq<char> {
    jobj(seq![jmember("role"@, jstr(role)), jmember("content"@, jstr(content))])
}

fn message_json_of(role: &str, content: &str) -> (r: String)
    ensures
        r@ == message_json(role@, content@),
{
    let mut ms: Vec<String> = Vec::new();
    ms.push(member("role", jstr_of(role)));
    ms.push(member("content", jstr_of(content)));
    let r = obj_of(ms.as_slice());
    assert(views(ms@) =~= seq![jmember("role"@, jstr(role@)), jmember("content"@, jstr(content@))]);
    r
}

/// The streaming chat-completions request of a report: model, the system
/// prompt and the user content as two messages, temperature 0.4, and the
/// token limit only when one is given.
pub open spec fn request_body_spec(model: Seq<char>, system: Seq<char>, user_content: Seq<char>, max_tokens: Option<u32>) -> Seq<char> {
    jobj(
        seq![
            jmember("model"@, jstr(model)),
            jmember("stream"@, "true"@),
            jmember("temperature"@, "0.4"@),
            jmember("messages"@, jarr(seq![message_json("system"@, system), message_json("user"@, user_content)])),
        ] + match max_tokens {
            Some(n) => seq![jmember("max_tokens"@, dec(n as nat))],
            None => seq![],
        },
    )
}

/// The report request body as JSON text.
pub fn build_request_body(model: &str, system: &str, user_content: &str, max_tokens: Option<u32>) -> (r: String)
    ensures
        r@ == request_body_spec(model@, system@, user_content@, max_tokens),
{
    let mut msgs: Vec<String> = Vec::new();
    msgs.push(message_json_of("system", system));
    msgs.push(message_json_of("user", user_content));
    let messages = arr_of(msgs.as_slice());
    let mut ms: Vec<String> = Vec::new();
    ms.push(member("model", jstr_of(model)));
    ms.push(member("stream", lit("true")));
    ms.push(member("temperature", lit("0.4")));
    ms.push(member("messages", messages));
    let ghost base = views(ms@);
    match max_tokens {
        Some(n) => {
            ms.push(member("max_tokens", num_of(n as u64)));
        },
        None => {},
    }
    proof {
        assert(views(msgs@) =~= seq![message_json("system"@, system@), message_json("user"@, user_content@)]);
        assert(views(ms@) =~= seq![
            jmember("model"@, jstr(model@)),
            jmember("stream"@, "true"@),
            jmember("temperature"@, "0.4"@),
            jmember("messages"@, jarr(seq![message_json("system"@, system@), message_json("user"@, user_content@)])),
        ] + match max_tokens {
            Some(n) => seq![jmember("max_tokens"@, dec(n as nat))],
            None => seq![],
        });
    }
    obj_of(ms.as_slice())
}

/// Count per minute over `duration_ms`, to one decimal place.
pub open spec fn per_minute_json(count: nat, duration_ms: nat) -> Seq<char> {
    jfixed(rounded_units(count * 60000, duration_ms, 10), 1)
}

/// One filler word of the report statistics: word, count and, when the
/// duration is known, its rate per minute.
pub open spec fn filler_json(word: Seq<char>, count: u32, duration_ms: u64) -> Seq<char> {
    jobj(
        seq![jmember("word"@, jstr(word)), jmember("count"@, dec(count as nat))] + if duration_ms > 0 {
            seq![jmember("per_minute"@, per_minute_json(count as nat, duration_ms as nat))]
        } else {
            seq![]
        },
    )
}

/// The statistics object of a report request. A missing field means
/// unknown: the golden-quote count only when above zero, the speech rate
/// (characters per minute) only when the duration is known, the filler
/// list only when there are fillers.
pub open spec fn stats_spec(ss: Seq<Sentence>, duration_ms: u64, fillers: Seq<(String, u32)>, golden_quote_count: u32) -> Seq<char> {
    let total = total_nonws(texts_of(ss));
    jobj(
        seq![
            jmember("duration_sec"@, dec((duration_ms / 1000) as nat)),
            jmember("total_chars"@, dec(total)),
            jmember("sentence_count"@, dec(ss.len())),
        ] + (if golden_quote_count > 0 {
            seq![jmember("goldenQuoteCount"@, dec(golden_quote_count as nat))]
        } else {
            seq![]
        }) + (if duration_ms > 0 {
            seq![jmember("speech_rate"@, per_minute_json(total, duration_ms as nat))]
        } else {
            seq![]
        }) + (if fillers.len() > 0 {
            seq![jmember("fillers"@, jarr(fillers.map_values(|p: (String, u32)| filler_json(p.0@, p.1, duration_ms))))]
        } else {
            seq![]
        }),
    )
}

fn per_minute_of(count: u64, duration_ms: u64) -> (r: String)
    requires
        duration_ms > 0,
    ensures
        r@ == per_minute_json(count as nat, duration_ms as nat),
{
    one_place(count as u128 * 60000, duration_ms)
}

fn filler_json_of(word: &str, count: u32, duration_ms: u64) -> (r: String)
    ensures
        r@ == filler_json(word@, count, duration_ms),
{
    let mut ms: Vec<String> = Vec::new();
    ms.push(member("word", jstr_of(word)));
    ms.push(member("count", num_of(count as u64)));
    let ghost base = views(ms@);
    if duration_ms > 0 {
        ms.push(member("per_minute", per_minute_of(count as u64, duration_ms)));
    }
    assert(views(ms@) =~= seq![jmember("word"@, jstr(word@)), jmember("count"@, dec(count as nat))] + if duration_ms > 0 {
        seq![jmember("per_minute"@, per_minute_json(count as nat, duration_ms as nat))]
    } else {
        seq![]
    });
    obj_of(ms.as_slice())
}

/// The statistics object of a report request as JSON text.
pub fn build_stats(sentences: &[Sentence], duration_ms: u64, filler_counts: &[(String, u32)], golden_quote_count: u32) -> (r: String)
    requires
        total_nonws(texts_of(sentences@)) <= u64::MAX,
    ensures
        r@ == stats_spec(sentences@, duration_ms, filler_counts@, golden_quote_count),
{
    let total = count_chars(sentences);
    let mut ms: Vec<String> = Vec::new();
    ms.push(member("duration_sec", num_of(duration_ms / 1000)));
    ms.push(member("total_chars", num_of(total)));
    ms.push(member("sentence_count", num_of(sentences.len() as u64)));
    let ghost m0 = views(ms@);
    if golden_quote_count > 0 {
        ms.push(member("goldenQuoteCount", num_of(golden_quote_count as u64)));
    }
    let ghost m1 = views(ms@);
    if duration_ms > 0 {
        ms.push(member("speech_rate", per_minute_of(total, duration_ms)));
    }
    let ghost m2 = views(ms@);
    if filler_counts.len() > 0 {
        let ghost f = |p: (String, u32)| filler_json(p.0@, p.1, duration_ms);
        let mut items: Vec<String> = Vec::new();
        let mut i: usize = 0;
        while i < filler_counts.len()
            invariant
                i <= filler_counts@.len(),
                f == (|p: (String, u32)| filler_json(p.0@, p.1, duration_ms)),
                views(items@) == filler_counts@.subrange(0, i as int).map_values(f),
            decreases filler_counts@.len() - i,
        {
            let ghost before = items@;
            let item = filler_json_of(filler_counts[i].0.as_str(), filler_counts[i].1, duration_ms);
            items.push(item);
            proof {
                assert(filler_counts@.subrange(0, i + 1) =~= filler_counts@.subrange(0, i as int).push(filler_counts@[i as int]));
                assert(views(items@) =~= views(before).push(item@));
                assert(views(items@) =~= filler_counts@.subrange(0, i + 1).map_values(f));
            }
            i = i + 1;
        }
        assert(filler_counts@.subrange(0, filler_counts@.len() as int) =~= filler_counts@);
        ms.push(member("fillers", arr_of(items.as_slice())));
    }
    proof {
        let total_s = total_nonws(texts_of(sentences@));
        assert(m0 =~= seq![
            jmember("duration_sec"@, dec((duration_ms / 1000) as nat)),
            jmember("total_chars"@, dec(total_s)),
            jmember("sentence_count"@, dec(sentences@.len())),
        ]);
        assert(views(ms@) =~= m0 + (if golden_quote_count > 0 {
            seq![jmember("goldenQuoteCount"@, dec(golden_quote_count as nat))]
        } else {
            seq![]
        }) + (if duration_ms > 0 {
            seq![jmember("speech_rate"@, per_minute_json(total_s, duration_ms as nat))]
        } else {
            seq![]
        }) + (if filler_counts@.len() > 0 {
            seq![jmember("fillers"@, jarr(filler_counts@.map_values(|p: (String, u32)| filler_json(p.0@, p.1, duration_ms))))]
        } else {
            seq![]
        }));
    }
    obj_of(ms.as_slice())
}

} // verus!

verus! {

/// The topic member of a report request: the trimmed topic, keyed
/// `question` for interviews and `topic` otherwise; none for a missing or
/// blank topic.
pub open spec fn topic_member(scenario: Seq<char>, topic: Option<Seq<char>>) -> Seq<Seq<char>> {
    match topic {
        Some(t) => if trim(t).len() > 0 {
            seq![jmember(if scenario == "interview"@ { "question"@ } else { "topic"@ }, jstr(trim(t)))]
        } else {
            seq![]
        },
        None => seq![],
    }
}

/// The `previous` member when a previous session is given (its JSON text).
pub open spec fn previous_member(previous: Option<Seq<char>>) -> Seq<Seq<char>> {
    match previous {
        Some(p) => seq![jmember("previous"@, p)],
        None => seq![],
    }
}

/// The user message of a report request: the transcript, the statistics
/// (JSON text), the topic or interview question, and the previous session
/// (JSON text) when there is one.
pub open spec fn user_payload_spec(
    scenario: Seq<char>,
    topic: Option<Seq<char>>,
    ss: Seq<Sentence>,
    stats: Seq<char>,
    previous: Option<Seq<char>>,
) -> Seq<char> {
    jobj(
        seq![jmember("transcript"@, transcript_json(ss)), jmember("stats"@, stats)] + topic_member(scenario, topic)
            + previous_member(previous),
    )
}

pub open spec fn opt_view(o: Option<&str>) -> Option<Seq<char>> {
    match o {
        Some(s) => Some(s@),
        None => None,
    }
}

/// The trimmed text when it is not blank.
pub fn trimmed_nonblank(t: &str) -> (r: Option<String>)
    ensures
        match r {
            Some(s) => trim(t@).len() > 0 && s@ == trim(t@),
            None => trim(t@).len() == 0,
        },
{
    let c = chars_of(t);
    let v = trim_vec(c.as_slice());
    if v.len() > 0 {
        Some(string_of(v.as_slice()))
    } else {
        None
    }
}

fn push_topic_member(ms: &mut Vec<String>, scenario: &str, topic: Option<&str>)
    ensures
        views(final(ms)@) == views(old(ms)@) + topic_member(scenario@, opt_view(topic)),
{
    match topic {
        Some(t) => {
            match trimmed_nonblank(t) {
                Some(tt) => {
                    let key = if str_eq(scenario, "interview") {
                        "question"
                    } else {
                        "topic"
                    };
                    ms.push(member(key, jstr_of(tt.as_str())));
                    assert(views(ms@) =~= views(old(ms)@) + topic_member(scenario@, opt_view(topic)));
                },
                None => {
                    assert(views(ms@) =~= views(old(ms)@) + topic_member(scenario@, opt_view(topic)));
                },
            }
        },
        None => {
            assert(views(ms@) =~= views(old(ms)@) + topic_member(scenario@, opt_view(topic)));
        },
    }
}

fn push_previous_member(ms: &mut Vec<String>, previous: Option<&str>)
    ensures
        views(final(ms)@) == views(old(ms)@) + previous_member(opt_view(previous)),
{
    match previous {
        Some(p) => {
            ms.push(member("previous", lit(p)));
        },
        None => {},
    }
    assert(views(ms@) =~= views(old(ms)@) + previous_member(opt_view(previous)));
}

/// The user message of a report request as JSON text.
pub fn build_user_payload(
    scenario: &str,
    topic: Option<&str>,
    sentences: &[Sentence],
    stats: &str,
    previous: Option<&str>,
) -> (r: String)
    ensures
        r@ == user_payload_spec(scenario@, opt_view(topic), sentences@, stats@, opt_view(previous)),
{
    let mut ms: Vec<String> = Vec::new();
    ms.push(member("transcript", transcript_json_of(sentences)));
    ms.push(member("stats", lit(stats)));
    let ghost m0 = views(ms@);
    assert(m0 =~= seq![jmember("transcript"@, transcript_json(sentences@)), jmember("stats"@, stats@)]);
    push_topic_member(&mut ms, scenario, topic);
    push_previous_member(&mut ms, previous);
    obj_of(ms.as_slice())
}

/// Line count of every answer before question `i`: the id the first line of
/// answer `i` follows in the merged transcript.
pub open spec fn lines_before(qa: Seq<QaItem>, i: int) -> nat {
    answers_lines(qa.subrange(0, i)).len()
}

/// One question of a mock-interview request: its number from 1, question,
/// intent and whether it was skipped; for an answered question the first
/// and last sentence id of its answer and, when known and above zero, the
/// answer time in whole seconds.
pub open spec fn qa_entry_json(index: nat, item: QaItem, offset: nat) -> Seq<char> {
    let lc = nonblank_lines(item.answer@).len();
    jobj(
        seq![
            jmember("index"@, dec(index)),
            jmember("question"@, jstr(item.question@)),
            jmember("intent"@, jstr(item.intent@)),
            jmember("skipped"@, jbool(lc == 0)),
        ] + if lc > 0 {
            seq![jmember("sentence_ids"@, jarr(seq![dec(offset + 1), dec(offset + lc)]))] + match item.duration_ms {
                Some(ms) => if ms > 0 {
                    seq![jmember("duration_sec"@, dec((ms / 1000) as nat))]
                } else {
                    seq![]
                },
                None => seq![],
            }
        } else {
            seq![]
        },
    )
}

/// Every question's entry, in order.
pub open spec fn qa_entries(qa: Seq<QaItem>) -> Seq<Seq<char>> {
    Seq::new(qa.len(), |i: int| qa_entry_json((i + 1) as nat, qa[i], lines_before(qa, i)))
}

/// The user message of a mock-interview report: the questions with their
/// sentence ranges, the merged transcript numbered from 1, the statistics,
/// the trimmed role when not blank, and the previous session.
pub open spec fn mock_payload_spec(
    role: Option<Seq<char>>,
    qa: Seq<QaItem>,
    stats: Seq<char>,
    previous: Option<Seq<char>>,
) -> Seq<char> {
    jobj(
        seq![
            jmember("qa"@, jarr(qa_entries(qa))),
            jmember("transcript"@, numbered_json(answers_lines(qa))),
            jmember("stats"@, stats),
        ] + (match role {
            Some(r) => if trim(r).len() > 0 {
                seq![jmember("role"@, jstr(trim(r)))]
            } else {
                seq![]
            },
            None => seq![],
        }) + previous_member(previous),
    )
}

proof fn lemma_answers_lines_push(qa: Seq<QaItem>, i: int)
    requires
        0 <= i < qa.len(),
    ensures
        answers_lines(qa.subrange(0, i + 1)) == answers_lines(qa.subrange(0, i)) + nonblank_lines(qa[i].answer@),
{
    assert(qa.subrange(0, i + 1).drop_last() =~= qa.subrange(0, i));
}

fn qa_entry_json_of(index: u64, item: &QaItem, line_count: usize, offset: u64) -> (r: String)
    requires
        line_count == nonblank_lines(item.answer@).len(),
        offset + line_count <= u64::MAX,
    ensures
        r@ == qa_entry_json(index as nat, *item, offset as nat),
{
    let mut ms: Vec<String> = Vec::new();
    ms.push(member("index", num_of(index)));
    ms.push(member("question", jstr_of(item.question.as_str())));
    ms.push(member("intent", jstr_of(item.intent.as_str())));
    ms.push(member("skipped", bool_of(line_count == 0)));
    let ghost m0 = views(ms@);
    if line_count > 0 {
        let mut ids: Vec<String> = Vec::new();
        ids.push(num_of(offset + 1));
        ids.push(num_of(offset + line_count as u64));
        let ghost iv = views(ids@);
        ms.push(member("sentence_ids", arr_of(ids.as_slice())));
        assert(iv =~= seq![dec(offset as nat + 1), dec(offset as nat + line_count as nat)]);
        match item.duration_ms {
            Some(d) => {
                if d > 0 {
                    ms.push(member("duration_sec", num_of(d / 1000)));
                }
            },
            None => {},
        }
    }
    proof {
        let lc = nonblank_lines(item.answer@).len();
        assert(m0 =~= seq![
            jmember("index"@, dec(index as nat)),
            jmember("question"@, jstr(item.question@)),
            jmember("intent"@, jstr(item.intent@)),
            jmember("skipped"@, jbool(lc == 0)),
        ]);
        assert(views(ms@) =~= m0 + if lc > 0 {
            seq![jmember("sentence_ids"@, jarr(seq![dec(offset as nat + 1), dec(offset as nat + lc)]))] + match item.duration_ms {
                Some(ms) => if ms > 0 {
                    seq![jmember("duration_sec"@, dec((ms / 1000) as nat))]
                } else {
                    seq![]
                },
                None => seq![],
            }
        } else {
            seq![]
        });
    }
    obj_of(ms.as_slice())
}

fn numbered_json_of(sentences: &[Sentence], Ghost(ts): Ghost<Seq<Seq<char>>>) -> (r: String)
    requires
        numbered(sentences@, ts),
    ensures
        r@ == numbered_json(ts),
{
    let r = transcript_json_of(sentences);
    proof {
        let f = |s: Sentence| sentence_json(s.id as nat, s.text@, s.start_ms as nat, s.end_ms as nat);
        assert(sentences@.map_values(f) =~= Seq::new(ts.len(), |i: int| sentence_json((i + 1) as nat, ts[i], 0, 0)));
    }
    r
}

/// The user message of a mock-interview report as JSON text.
pub fn build_mock_interview_payload(role: Option<&str>, qa: &[QaItem], stats: &str, previous: Option<&str>) -> (r: String)
    requires
        answers_lines(qa@).len() <= u64::MAX,
    ensures
        r@ == mock_payload_spec(opt_view(role), qa@, stats@, opt_view(previous)),
{
    let (sentences, counts) = merge_qa_answers(qa);
    let mut entries: Vec<String> = Vec::new();
    let mut id: u64 = 0;
    let mut i: usize = 0;
    proof {
        assert(qa@.subrange(0, 0) =~= Seq::<QaItem>::empty());
        lemma_answers_lines_prefix_len(qa@, 0);
    }
    while i < qa.len()
        invariant
            i <= qa@.len(),
            counts@.len() == qa@.len(),
            forall|k: int| 0 <= k < qa@.len() ==> #[trigger] counts@[k] == nonblank_lines(qa@[k].answer@).len(),
            answers_lines(qa@).len() <= u64::MAX,
            id == lines_before(qa@, i as int),
            views(entries@) == qa_entries(qa@).subrange(0, i as int),
        decreases qa@.len() - i,
    {
        let lc = counts[i];
        proof {
            lemma_answers_lines_push(qa@, i as int);
            lemma_answers_lines_prefix_len(qa@, i + 1);
        }
        let ghost before = views(entries@);
        let e = qa_entry_json_of(i as u64 + 1, &qa[i], lc, id);
        entries.push(e);
        id = id + lc as u64;
        proof {
            assert(views(entries@) =~= before.push(e@));
            assert(qa_entries(qa@)[i as int] == qa_entry_json((i + 1) as nat, qa@[i as int], lines_before(qa@, i as int)));
            assert(views(entries@) =~= qa_entries(qa@).subrange(0, i + 1));
        }
        i = i + 1;
    }
    assert(qa_entries(qa@).subrange(0, qa@.len() as int) =~= qa_entries(qa@));
    let mut ms: Vec<String> = Vec::new();
    ms.push(member("qa", arr_of(entries.as_slice())));
    ms.push(member("transcript", numbered_json_of(sentences.as_slice(), Ghost(answers_lines(qa@)))));
    ms.push(member("stats", lit(stats)));
    let ghost m0 = views(ms@);
    match role {
        Some(rl) => {
            match trimmed_nonblank(rl) {
                Some(t) => {
                    ms.push(member("role", jstr_of(t.as_str())));
                },
                None => {},
            }
        },
        None => {},
    }
    let ghost m1 = views(ms@);
    push_previous_member(&mut ms, previous);
    proof {
        assert(m0 =~= seq![
            jmember("qa"@, jarr(qa_entries(qa@))),
            jmember("transcript"@, numbered_json(answers_lines(qa@))),
            jmember("stats"@, stats@),
        ]);
        assert(m1 =~= m0 + (match opt_view(role) {
            Some(r) => if trim(r).len() > 0 {
                seq![jmember("role"@, jstr(trim(r)))]
            } else {
                seq![]
            },
            None => seq![],
        }));
    }
    obj_of(ms.as_slice())
}

proof fn lemma_answers_lines_prefix_len(qa: Seq<QaItem>, j: int)
    requires
        0 <= j <= qa.len(),
    ensures
        answers_lines(qa.subrange(0, j)).len() <= answers_lines(qa).len(),
    decreases qa.len() - j,
{
    if j < qa.len() {
        lemma_answers_lines_prefix_len(qa.drop_last(), j);
        assert(qa.drop_last().subrange(0, j) =~= qa.subrange(0, j));
    } else {
        assert(qa.subrange(0, j) =~= qa);
    }
}

} // verus!

verus! {

/// The figures of a session snapshot the local report shows; the three
/// rates (one decimal place in the snapshot) are kept in tenths.
#[derive(Debug, Clone)]
pub struct ReportFigures {
    pub duration_ms: u64,
    pub sentence_count: u64,
    pub total_chars: u64,
    /// Characters per minute, in tenths; 0 when the duration is unknown.
    pub speech_rate_tenths: u64,
    /// Characters per sentence, in tenths; 0 without sentences.
    pub avg_sentence_chars_tenths: u64,
    /// Filler hits per minute, in tenths.
    pub filler_per_minute_tenths: u64,
    /// Filler words with their counts, highest first.
    pub filler_counts: Vec<(String, u32)>,
    /// Hedge words with their counts, highest first.
    pub hedge_counts: Vec<(String, u32)>,
    pub hedge_total: u32,
}

/// The previous session as the comparison line quotes it; rates in tenths.
#[derive(Debug, Clone)]
pub struct PreviousFigures {
    /// `YYYY-MM-DD HH:MM:SS`; the line quotes the part before the first space.
    pub date: String,
    pub filler_per_minute_tenths: u64,
    pub speech_rate_tenths: u64,
    pub avg_sentence_chars_tenths: u64,
}

/// A number in tenths as `{}` shows the float: `12.3`, and `12` when whole.
pub open spec fn disp1(t: nat) -> Seq<char> {
    if t % 10 == 0 {
        dec(t / 10)
    } else {
        dec(t / 10) + seq!['.'] + dec(t % 10)
    }
}

/// A number in tenths with exactly one decimal: `12.0`.
pub open spec fn fixed1(t: nat) -> Seq<char> {
    jfixed(t, 1)
}

/// `count` per minute over `duration_ms`, in tenths (halves away from zero).
pub open spec fn rate_tenths(count: nat, duration_ms: nat) -> nat {
    rounded_units(count * 60000, duration_ms, 10)
}

/// The first `n` items (all when there are fewer).
pub open spec fn first_n<T>(s: Seq<T>, n: nat) -> Seq<T> {
    if s.len() > n {
        s.subrange(0, n as int)
    } else {
        s
    }
}

pub open spec fn report_header(scenario: Seq<char>, topic: Option<Seq<char>>) -> Seq<char> {
    "# 表达训练 · 本地报告\n\n"@ + "> 当前未配置 AI 后端，这是基于本地统计与规则的降级报告。"@
        + "在「设置」中配置 API Key 后，可生成含逐句改写与行为模式分析的完整 AI 报告。\n\n"@ + "- 场景："@
        + scenario_label_spec(scenario) + "\n"@ + match crate::checkin::clean_topic(topic) {
        Some(t) => "- 主题："@ + t + "\n"@,
        None => Seq::<char>::empty(),
    } + "\n"@
}

pub open spec fn stats_section(f: ReportFigures) -> Seq<char> {
    "## 数据统计\n\n"@ + "| 指标 | 数值 |\n|---|---|\n"@ + "| 时长 | "@ + duration_text(f.duration_ms as nat) + " |\n"@
        + "| 句数 | "@ + dec(f.sentence_count as nat) + " |\n"@ + "| 字数 | "@ + dec(f.total_chars as nat) + " |\n"@
        + (if f.speech_rate_tenths > 0 {
        "| 语速 | "@ + disp1(f.speech_rate_tenths as nat) + " 字/分钟 |\n"@
    } else {
        Seq::<char>::empty()
    }) + (if f.avg_sentence_chars_tenths > 0 {
        "| 平均句长 | "@ + disp1(f.avg_sentence_chars_tenths as nat) + " 字 |\n"@
    } else {
        Seq::<char>::empty()
    }) + "\n"@
}

pub open spec fn filler_row(word: Seq<char>, count: u32, duration_ms: u64) -> Seq<char> {
    "| "@ + word + " | "@ + dec(count as nat) + " | "@ + (if duration_ms > 0 {
        disp1(rate_tenths(count as nat, duration_ms as nat)) + " 次/分钟"@
    } else {
        "—"@
    }) + " |\n"@
}

pub open spec fn filler_rows(fc: Seq<(String, u32)>, duration_ms: u64) -> Seq<char>
    decreases fc.len(),
{
    if fc.len() == 0 {
        seq![]
    } else {
        filler_rows(fc.drop_last(), duration_ms) + filler_row(fc.last().0@, fc.last().1, duration_ms)
    }
}

/// The filler table (the ten most frequent words, with their rate per
/// minute when the duration is known) and the total; none without fillers.
pub open spec fn filler_section(f: ReportFigures) -> Seq<char> {
    if f.filler_counts@.len() == 0 {
        seq![]
    } else {
        "## 口头禅\n\n"@ + "| 词 | 次数 | 频率 |\n|---|---|---|\n"@ + filler_rows(first_n(f.filler_counts@, 10), f.duration_ms)
            + "\n合计 "@ + dec(crate::rules::filler::count_sum(f.filler_counts@)) + " 次"@ + (if f.duration_ms > 0 {
            "，总频率 "@ + disp1(f.filler_per_minute_tenths as nat) + " 次/分钟"@
        } else {
            Seq::<char>::empty()
        }) + "。\n\n"@
    }
}

pub open spec fn count_row(word: Seq<char>, count: u32) -> Seq<char> {
    "| "@ + word + " | "@ + dec(count as nat) + " |\n"@
}

pub open spec fn count_rows(fc: Seq<(String, u32)>) -> Seq<char>
    decreases fc.len(),
{
    if fc.len() == 0 {
        seq![]
    } else {
        count_rows(fc.drop_last()) + count_row(fc.last().0@, fc.last().1)
    }
}

/// The hedge-word section: the total and the ten most frequent words; none
/// when no hedge word was said.
pub open spec fn hedge_section(f: ReportFigures) -> Seq<char> {
    if f.hedge_total == 0 {
        seq![]
    } else {
        "## 立场模糊词\n\n"@ + "共出现 "@ + dec(f.hedge_total as nat) + " 次；单句堆叠 ≥2 个会实时提醒。\n\n"@
            + "| 词 | 次数 |\n|---|---|\n"@ + count_rows(first_n(f.hedge_counts@, 10)) + "\n"@
    }
}

/// A sentence reference: `#id`, or a dash without one.
pub open spec fn id_text(id: Option<u64>) -> Seq<char> {
    match id {
        Some(i) => seq!['#'] + dec(i as nat),
        None => "—"@,
    }
}

/// Golden-quote events, in order.
pub open spec fn goldens(es: Seq<crate::rules::FeedbackEvent>) -> Seq<crate::rules::FeedbackEvent>
    decreases es.len(),
{
    if es.len() == 0 {
        seq![]
    } else if es.last().kind == FeedbackKind::GoldenQuote {
        goldens(es.drop_last()).push(es.last())
    } else {
        goldens(es.drop_last())
    }
}

/// Events other than filler and golden-quote ones, in order.
pub open spec fn notable(es: Seq<crate::rules::FeedbackEvent>) -> Seq<crate::rules::FeedbackEvent>
    decreases es.len(),
{
    if es.len() == 0 {
        seq![]
    } else if es.last().kind != FeedbackKind::GoldenQuote && es.last().kind != FeedbackKind::FillerWord {
        notable(es.drop_last()).push(es.last())
    } else {
        notable(es.drop_last())
    }
}

pub open spec fn golden_lines(es: Seq<crate::rules::FeedbackEvent>) -> Seq<char>
    decreases es.len(),
{
    if es.len() == 0 {
        seq![]
    } else {
        golden_lines(es.drop_last()) + "- 「"@ + id_text(es.last().sentence_id) + "」"@ + es.last().message@
            + "（原文见下方逐字稿）\n"@
    }
}

/// Highlights: the first three golden quotes; none without any.
pub open spec fn golden_section(es: Seq<crate::rules::FeedbackEvent>) -> Seq<char> {
    if goldens(es).len() == 0 {
        seq![]
    } else {
        "## 亮点\n\n"@ + golden_lines(first_n(goldens(es), 3)) + "\n"@
    }
}

pub open spec fn kind_label_spec(k: FeedbackKind) -> Seq<char> {
    match k {
        FeedbackKind::FillerWord => "口头禅"@,
        FeedbackKind::WordPrecision => "词汇精确度"@,
        FeedbackKind::Repetition => "重复"@,
        FeedbackKind::ConclusionMissing => "结论缺失"@,
        FeedbackKind::ExampleMissing => "缺举例"@,
        FeedbackKind::Emotion => "情感词"@,
        FeedbackKind::Hedge => "立场模糊"@,
        FeedbackKind::TimeVague => "时间模糊"@,
        FeedbackKind::Imagery => "画面感"@,
        FeedbackKind::GoldenQuote => "金句"@,
        FeedbackKind::AiCheckin => "AI 快评"@,
    }
}

pub open spec fn event_rows(es: Seq<crate::rules::FeedbackEvent>) -> Seq<char>
    decreases es.len(),
{
    if es.len() == 0 {
        seq![]
    } else {
        event_rows(es.drop_last()) + "| "@ + kind_label_spec(es.last().kind) + " | "@ + id_text(es.last().sentence_id)
            + " | "@ + es.last().message@ + " |\n"@
    }
}

/// The rule events (filler and golden-quote ones left out): the first forty
/// as a table and how many more there were.
pub open spec fn events_section(es: Seq<crate::rules::FeedbackEvent>) -> Seq<char> {
    let n = notable(es);
    "## 规则事件汇总\n\n"@ + if n.len() == 0 {
        "本次练习未触发规则提醒。\n\n"@
    } else {
        "| 类型 | 句 | 提示 |\n|---|---|---|\n"@ + event_rows(first_n(n, 40)) + (if n.len() > 40 {
            "\n（其余 "@ + dec((n.len() - 40) as nat) + " 条略）\n"@
        } else {
            Seq::<char>::empty()
        }) + "\n"@
    }
}

/// The comparison with the previous session.
pub open spec fn previous_section(p: PreviousFigures, f: ReportFigures) -> Seq<char> {
    "## 对比上次\n\n上次（"@ + p.date@.subrange(0, crate::text::index_of(p.date@, ' ')) + "）：口头禅 "@
        + fixed1(p.filler_per_minute_tenths as nat) + " → 本次 "@ + fixed1(f.filler_per_minute_tenths as nat)
        + " 次/分钟；语速 "@ + fixed1(p.speech_rate_tenths as nat) + " → "@ + fixed1(f.speech_rate_tenths as nat)
        + " 字/分钟；平均句长 "@ + fixed1(p.avg_sentence_chars_tenths as nat) + " → "@ + fixed1(
        f.avg_sentence_chars_tenths as nat,
    ) + " 字。\n\n"@
}

pub open spec fn transcript_lines(ss: Seq<Sentence>) -> Seq<char>
    decreases ss.len(),
{
    if ss.len() == 0 {
        seq![]
    } else {
        transcript_lines(ss.drop_last()) + dec(ss.last().id as nat) + ". "@ + ss.last().text@ + "\n"@
    }
}

/// The hint on frequent words the lexicon lacks; none without any.
pub open spec fn candidate_hint(words: Seq<Seq<char>>) -> Seq<char> {
    if words.len() == 0 {
        seq![]
    } else {
        "\n> 发现高频词 "@ + join(words, "、"@) + " 未收录，可到「设置 → 词库候选」补充替代词。\n"@
    }
}

/// The local fallback report (no AI backend): header with scenario and
/// topic; for an empty session only a notice; otherwise the statistics, the
/// mock-interview overview, the voice and tone sections (given as text),
/// fillers, hedge words, highlights, rule events, the comparison with the
/// previous session, the transcript and the candidate-word hint.
pub open spec fn local_report_spec(
    scenario: Seq<char>,
    topic: Option<Seq<char>>,
    ss: Seq<Sentence>,
    f: ReportFigures,
    es: Seq<crate::rules::FeedbackEvent>,
    previous: Option<PreviousFigures>,
    voice_section: Seq<char>,
    tone_section: Seq<char>,
    candidates: Seq<Seq<char>>,
    qa: Option<Seq<QaItem>>,
    lex: LexiconV2,
) -> Seq<char> {
    if ss.len() == 0 {
        report_header(scenario, topic) + "本次会话没有识别到句子，无法生成统计。请重新开始练习。\n"@
    } else {
        report_header(scenario, topic) + stats_section(f) + match qa {
            Some(q) => qa_section(q, lex),
            None => Seq::<char>::empty(),
        } + voice_section + tone_section + filler_section(f) + hedge_section(f) + golden_section(es)
            + events_section(es) + match previous {
            Some(p) => previous_section(p, f),
            None => Seq::<char>::empty(),
        } + "## 逐字稿\n\n"@ + transcript_lines(ss) + candidate_hint(candidates)
    }
}

} // verus!

verus! {

fn push_header(md: &mut String, scenario: &str, topic: Option<&str>)
    ensures
        final(md)@ == old(md)@ + report_header(scenario@, opt_view(topic)),
{
    push_str(md, "# 表达训练 · 本地报告\n\n");
    push_str(md, "> 当前未配置 AI 后端，这是基于本地统计与规则的降级报告。");
    push_str(md, "在「设置」中配置 API Key 后，可生成含逐句改写与行为模式分析的完整 AI 报告。\n\n");
    push_str(md, "- 场景：");
    push_str(md, scenario_label(scenario));
    push_str(md, "\n");
    let ghost mid = md@;
    let t = match topic {
        Some(t) => trimmed_nonblank(t),
        None => None,
    };
    assert(crate::checkin::opt_sview(t) == crate::checkin::clean_topic(opt_view(topic)));
    match t {
        Some(tt) => {
            push_str(md, "- 主题：");
            push_str(md, tt.as_str());
            push_str(md, "\n");
        },
        None => {},
    }
    push_str(md, "\n");
    assert(md@ =~= old(md)@ + report_header(scenario@, opt_view(topic)));
}

fn push_disp1(md: &mut String, t: u64)
    ensures
        final(md)@ == old(md)@ + disp1(t as nat),
{
    push_dec(md, t / 10);
    if t % 10 != 0 {
        push_char(md, '.');
        push_dec(md, t % 10);
    }
    assert(md@ =~= old(md)@ + disp1(t as nat));
}

fn push_fixed1(md: &mut String, t: u64)
    ensures
        final(md)@ == old(md)@ + fixed1(t as nat),
{
    push_dec(md, t / 10);
    push_char(md, '.');
    push_dec(md, t % 10);
    assert(md@ =~= old(md)@ + fixed1(t as nat));
}

#[verifier::rlimit(40)]
fn push_stats(md: &mut String, f: &ReportFigures)
    ensures
        final(md)@ == old(md)@ + stats_section(*f),
{
    push_str(md, "## 数据统计\n\n");
    push_str(md, "| 指标 | 数值 |\n|---|---|\n");
    push_str(md, "| 时长 | ");
    let d = format_duration(f.duration_ms);
    push_str(md, d.as_str());
    push_str(md, " |\n");
    push_str(md, "| 句数 | ");
    push_dec(md, f.sentence_count);
    push_str(md, " |\n");
    push_str(md, "| 字数 | ");
    push_dec(md, f.total_chars);
    push_str(md, " |\n");
    let ghost a = md@;
    if f.speech_rate_tenths > 0 {
        push_str(md, "| 语速 | ");
        push_disp1(md, f.speech_rate_tenths);
        push_str(md, " 字/分钟 |\n");
    }
    let ghost b = md@;
    if f.avg_sentence_chars_tenths > 0 {
        push_str(md, "| 平均句长 | ");
        push_disp1(md, f.avg_sentence_chars_tenths);
        push_str(md, " 字 |\n");
    }
    push_str(md, "\n");
    assert(md@ =~= old(md)@ + stats_section(*f));
}

/// A count per minute over `duration_ms`, in tenths.
fn count_rate_tenths(count: u32, duration_ms: u64) -> (r: u64)
    requires
        duration_ms > 0,
    ensures
        r == rate_tenths(count as nat, duration_ms as nat),
{
    let num: u128 = 2 * (count as u128 * 60000) * 10 + duration_ms as u128;
    let den: u128 = 2 * duration_ms as u128;
    let units: u128 = num / den;
    assert(units <= num / 2) by (nonlinear_arith)
        requires
            den >= 2,
            units == num / den,
    {
        assert(num / den <= num / 2) by {
            vstd::arithmetic::div_mod::lemma_div_is_ordered_by_denominator(num as int, 2, den as int);
        }
    }
    assert(units < 0x1_0000_0000_0000_0000);
    units as u64
}

fn push_filler_rows(md: &mut String, fc: &Vec<(String, u32)>, n: usize, duration_ms: u64)
    requires
        n <= fc@.len(),
    ensures
        final(md)@ == old(md)@ + filler_rows(fc@.subrange(0, n as int), duration_ms),
{
    let mut i: usize = 0;
    assert(fc@.subrange(0, 0) =~= Seq::<(String, u32)>::empty());
    assert(old(md)@ + Seq::<char>::empty() =~= old(md)@);
    while i < n
        invariant
            i <= n <= fc@.len(),
            md@ == old(md)@ + filler_rows(fc@.subrange(0, i as int), duration_ms),
        decreases n - i,
    {
        let ghost before = md@;
        push_str(md, "| ");
        push_str(md, fc[i].0.as_str());
        push_str(md, " | ");
        push_dec(md, fc[i].1 as u64);
        push_str(md, " | ");
        if duration_ms > 0 {
            let tenths = count_rate_tenths(fc[i].1, duration_ms);
            push_disp1(md, tenths);
            push_str(md, " 次/分钟");
        } else {
            push_str(md, "—");
        }
        push_str(md, " |\n");
        proof {
            let sub = fc@.subrange(0, i + 1);
            assert(sub.drop_last() =~= fc@.subrange(0, i as int));
            assert(sub.last() == fc@[i as int]);
            assert(md@ =~= before + filler_row(fc@[i as int].0@, fc@[i as int].1, duration_ms));
        }
        i = i + 1;
    }
}

fn push_filler_section(md: &mut String, f: &ReportFigures)
    requires
        crate::rules::filler::count_sum(f.filler_counts@) <= u32::MAX,
    ensures
        final(md)@ == old(md)@ + filler_section(*f),
{
    if f.filler_counts.len() == 0 {
        assert(md@ =~= old(md)@ + filler_section(*f));
        return;
    }
    push_str(md, "## 口头禅\n\n");
    push_str(md, "| 词 | 次数 | 频率 |\n|---|---|---|\n");
    let n = if f.filler_counts.len() > 10 { 10 } else { f.filler_counts.len() };
    push_filler_rows(md, &f.filler_counts, n, f.duration_ms);
    assert(f.filler_counts@.subrange(0, n as int) == first_n(f.filler_counts@, 10)) by {
        if f.filler_counts@.len() <= 10 {
            assert(f.filler_counts@.subrange(0, n as int) =~= f.filler_counts@);
        }
    }
    push_str(md, "\n合计 ");
    let total = match crate::rules::engine::sum_capped(&f.filler_counts) {
        Some(v) => v,
        None => 0,
    };
    push_dec(md, total);
    push_str(md, " 次");
    let ghost a = md@;
    if f.duration_ms > 0 {
        push_str(md, "，总频率 ");
        push_disp1(md, f.filler_per_minute_tenths);
        push_str(md, " 次/分钟");
    }
    push_str(md, "。\n\n");
    assert(md@ =~= old(md)@ + filler_section(*f));
}

fn push_count_rows(md: &mut String, fc: &Vec<(String, u32)>, n: usize)
    requires
        n <= fc@.len(),
    ensures
        final(md)@ == old(md)@ + count_rows(fc@.subrange(0, n as int)),
{
    let mut i: usize = 0;
    assert(fc@.subrange(0, 0) =~= Seq::<(String, u32)>::empty());
    assert(old(md)@ + Seq::<char>::empty() =~= old(md)@);
    while i < n
        invariant
            i <= n <= fc@.len(),
            md@ == old(md)@ + count_rows(fc@.subrange(0, i as int)),
        decreases n - i,
    {
        let ghost before = md@;
        push_str(md, "| ");
        push_str(md, fc[i].0.as_str());
        push_str(md, " | ");
        push_dec(md, fc[i].1 as u64);
        push_str(md, " |\n");
        proof {
            let sub = fc@.subrange(0, i + 1);
            assert(sub.drop_last() =~= fc@.subrange(0, i as int));
            assert(sub.last() == fc@[i as int]);
            assert(md@ =~= before + count_row(fc@[i as int].0@, fc@[i as int].1));
        }
        i = i + 1;
    }
}

fn push_hedge_section(md: &mut String, f: &ReportFigures)
    ensures
        final(md)@ == old(md)@ + hedge_section(*f),
{
    if f.hedge_total == 0 {
        assert(md@ =~= old(md)@ + hedge_section(*f));
        return;
    }
    push_str(md, "## 立场模糊词\n\n");
    push_str(md, "共出现 ");
    push_dec(md, f.hedge_total as u64);
    push_str(md, " 次；单句堆叠 ≥2 个会实时提醒。\n\n");
    push_str(md, "| 词 | 次数 |\n|---|---|\n");
    let n = if f.hedge_counts.len() > 10 { 10 } else { f.hedge_counts.len() };
    push_count_rows(md, &f.hedge_counts, n);
    assert(f.hedge_counts@.subrange(0, n as int) == first_n(f.hedge_counts@, 10)) by {
        if f.hedge_counts@.len() <= 10 {
            assert(f.hedge_counts@.subrange(0, n as int) =~= f.hedge_counts@);
        }
    }
    push_str(md, "\n");
    assert(md@ =~= old(md)@ + hedge_section(*f));
}

fn push_id_text(md: &mut String, id: Option<u64>)
    ensures
        final(md)@ == old(md)@ + id_text(id),
{
    match id {
        Some(i) => {
            push_char(md, '#');
            push_dec(md, i);
        },
        None => {
            push_str(md, "—");
        },
    }
    assert(md@ =~= old(md)@ + id_text(id));
}

fn push_golden_section(md: &mut String, es: &[crate::rules::FeedbackEvent])
    ensures
        final(md)@ == old(md)@ + golden_section(es@),
{
    let mut lines = String::new();
    let mut count: usize = 0;
    let mut i: usize = 0;
    assert(es@.subrange(0, 0) =~= Seq::<crate::rules::FeedbackEvent>::empty());
    assert(lines@ =~= golden_lines(first_n(goldens(es@.subrange(0, 0)), 3)));
    while i < es.len()
        invariant
            i <= es@.len(),
            count == goldens(es@.subrange(0, i as int)).len(),
            count <= i,
            lines@ == golden_lines(first_n(goldens(es@.subrange(0, i as int)), 3)),
        decreases es@.len() - i,
    {
        let ghost g0 = goldens(es@.subrange(0, i as int));
        proof {
            let sub = es@.subrange(0, i + 1);
            assert(sub.drop_last() =~= es@.subrange(0, i as int));
            assert(sub.last() == es@[i as int]);
        }
        if es[i].kind == FeedbackKind::GoldenQuote {
            if count < 3 {
                let ghost before = lines@;
                push_str(&mut lines, "- 「");
                push_id_text(&mut lines, es[i].sentence_id);
                push_str(&mut lines, "」");
                push_str(&mut lines, es[i].message.as_str());
                push_str(&mut lines, "（原文见下方逐字稿）\n");
                proof {
                    let g1 = g0.push(es@[i as int]);
                    assert(first_n(g0, 3) =~= g0);
                    assert(first_n(g1, 3) =~= g1);
                    assert(g1.drop_last() =~= g0);
                }
            } else {
                proof {
                    let g1 = g0.push(es@[i as int]);
                    assert(first_n(g1, 3) =~= first_n(g0, 3));
                }
            }
            count = count + 1;
        }
        i = i + 1;
    }
    assert(es@.subrange(0, es@.len() as int) =~= es@);
    if count > 0 {
        push_str(md, "## 亮点\n\n");
        push_str(md, lines.as_str());
        push_str(md, "\n");
    }
    assert(md@ =~= old(md)@ + golden_section(es@));
}

fn push_events_section(md: &mut String, es: &[crate::rules::FeedbackEvent])
    ensures
        final(md)@ == old(md)@ + events_section(es@),
{
    let mut rows = String::new();
    let mut count: usize = 0;
    let mut i: usize = 0;
    assert(es@.subrange(0, 0) =~= Seq::<crate::rules::FeedbackEvent>::empty());
    assert(rows@ =~= event_rows(first_n(notable(es@.subrange(0, 0)), 40)));
    while i < es.len()
        invariant
            i <= es@.len(),
            count == notable(es@.subrange(0, i as int)).len(),
            count <= i,
            rows@ == event_rows(first_n(notable(es@.subrange(0, i as int)), 40)),
        decreases es@.len() - i,
    {
        let ghost g0 = notable(es@.subrange(0, i as int));
        proof {
            let sub = es@.subrange(0, i + 1);
            assert(sub.drop_last() =~= es@.subrange(0, i as int));
            assert(sub.last() == es@[i as int]);
        }
        if es[i].kind != FeedbackKind::GoldenQuote && es[i].kind != FeedbackKind::FillerWord {
            if count < 40 {
                push_str(&mut rows, "| ");
                push_str(&mut rows, kind_label(&es[i].kind));
                push_str(&mut rows, " | ");
                push_id_text(&mut rows, es[i].sentence_id);
                push_str(&mut rows, " | ");
                push_str(&mut rows, es[i].message.as_str());
                push_str(&mut rows, " |\n");
                proof {
                    let g1 = g0.push(es@[i as int]);
                    assert(first_n(g0, 40) =~= g0);
                    assert(first_n(g1, 40) =~= g1);
                    assert(g1.drop_last() =~= g0);
                    assert(kind_label_spec(es@[i as int].kind) == kind_label_spec(es@[i as int].kind));
                }
            } else {
                proof {
                    let g1 = g0.push(es@[i as int]);
                    assert(first_n(g1, 40) =~= first_n(g0, 40));
                }
            }
            count = count + 1;
        }
        i = i + 1;
    }
    assert(es@.subrange(0, es@.len() as int) =~= es@);
    push_str(md, "## 规则事件汇总\n\n");
    if count == 0 {
        push_str(md, "本次练习未触发规则提醒。\n\n");
    } else {
        push_str(md, "| 类型 | 句 | 提示 |\n|---|---|---|\n");
        push_str(md, rows.as_str());
        if count > 40 {
            push_str(md, "\n（其余 ");
            push_dec(md, (count - 40) as u64);
            push_str(md, " 条略）\n");
        }
        push_str(md, "\n");
    }
    assert(md@ =~= old(md)@ + events_section(es@));
}

fn push_previous_section(md: &mut String, p: &PreviousFigures, f: &ReportFigures)
    ensures
        final(md)@ == old(md)@ + previous_section(*p, *f),
{
    let dv = chars_of(p.date.as_str());
    let cut = match crate::text::find_char(dv.as_slice(), ' ') {
        Some(k) => k,
        None => dv.len(),
    };
    proof {
        crate::text::lemma_index_of(p.date@, ' ');
    }
    push_str(md, "## 对比上次\n\n上次（");
    let head = slice_of(dv.as_slice(), cut);
    push_chars(md, head.as_slice());
    push_str(md, "）：口头禅 ");
    push_fixed1(md, p.filler_per_minute_tenths);
    push_str(md, " → 本次 ");
    push_fixed1(md, f.filler_per_minute_tenths);
    push_str(md, " 次/分钟；语速 ");
    push_fixed1(md, p.speech_rate_tenths);
    push_str(md, " → ");
    push_fixed1(md, f.speech_rate_tenths);
    push_str(md, " 字/分钟；平均句长 ");
    push_fixed1(md, p.avg_sentence_chars_tenths);
    push_str(md, " → ");
    push_fixed1(md, f.avg_sentence_chars_tenths);
    push_str(md, " 字。\n\n");
    assert(md@ =~= old(md)@ + previous_section(*p, *f));
}

fn slice_of(v: &[char], n: usize) -> (r: Vec<char>)
    requires
        n <= v@.len(),
    ensures
        r@ == v@.subrange(0, n as int),
{
    let mut r: Vec<char> = Vec::new();
    let mut i: usize = 0;
    while i < n
        invariant
            i <= n <= v@.len(),
            r@ == v@.subrange(0, i as int),
        decreases n - i,
    {
        r.push(v[i]);
        assert(r@ =~= v@.subrange(0, i + 1));
        i = i + 1;
    }
    r
}

fn push_transcript_lines(md: &mut String, ss: &[Sentence])
    ensures
        final(md)@ == old(md)@ + transcript_lines(ss@),
{
    let mut i: usize = 0;
    assert(ss@.subrange(0, 0) =~= Seq::<Sentence>::empty());
    assert(old(md)@ + Seq::<char>::empty() =~= old(md)@);
    while i < ss.len()
        invariant
            i <= ss@.len(),
            md@ == old(md)@ + transcript_lines(ss@.subrange(0, i as int)),
        decreases ss@.len() - i,
    {
        let ghost before = md@;
        push_dec(md, ss[i].id);
        push_str(md, ". ");
        push_str(md, ss[i].text.as_str());
        push_str(md, "\n");
        proof {
            let sub = ss@.subrange(0, i + 1);
            assert(sub.drop_last() =~= ss@.subrange(0, i as int));
            assert(sub.last() == ss@[i as int]);
            assert(md@ =~= old(md)@ + transcript_lines(sub));
        }
        i = i + 1;
    }
    assert(ss@.subrange(0, ss@.len() as int) =~= ss@);
}

/// The local fallback report as Markdown (see [`local_report_spec`]).
#[verifier::rlimit(30)]
pub fn build_local_report(
    scenario: &str,
    topic: Option<&str>,
    sentences: &[Sentence],
    figures: &ReportFigures,
    events: &[crate::rules::FeedbackEvent],
    previous: Option<&PreviousFigures>,
    voice_section: &str,
    tone_section: &str,
    candidate_words: &[String],
    qa: Option<&[QaItem]>,
    lex: &LexiconV2,
) -> (r: String)
    requires
        crate::rules::filler::count_sum(figures.filler_counts@) <= u32::MAX,
        qa matches Some(q) ==> qa_countable(q@, *lex),
    ensures
        r@ == local_report_spec(
            scenario@,
            opt_view(topic),
            sentences@,
            *figures,
            events@,
            match previous {
                Some(p) => Some(*p),
                None => None,
            },
            voice_section@,
            tone_section@,
            views(candidate_words@),
            match qa {
                Some(q) => Some(q@),
                None => None,
            },
            *lex,
        ),
{
    let mut md = String::new();
    push_header(&mut md, scenario, topic);
    if sentences.len() == 0 {
        push_str(&mut md, "本次会话没有识别到句子，无法生成统计。请重新开始练习。\n");
        assert(md@ =~= report_header(scenario@, opt_view(topic)) + "本次会话没有识别到句子，无法生成统计。请重新开始练习。\n"@);
        return md;
    }
    let ghost h = md@;
    push_stats(&mut md, figures);
    let ghost s1 = md@;
    match qa {
        Some(q) => {
            let sec = local_mock_qa_section(q, lex);
            push_str(&mut md, sec.as_str());
        },
        None => {},
    }
    let ghost s2 = md@;
    push_str(&mut md, voice_section);
    push_str(&mut md, tone_section);
    push_filler_section(&mut md, figures);
    push_hedge_section(&mut md, figures);
    push_golden_section(&mut md, events);
    push_events_section(&mut md, events);
    let ghost s3 = md@;
    match previous {
        Some(p) => {
            push_previous_section(&mut md, p, figures);
        },
        None => {},
    }
    let ghost s4 = md@;
    push_str(&mut md, "## 逐字稿\n\n");
    push_transcript_lines(&mut md, sentences);
    if candidate_words.len() > 0 {
        push_str(&mut md, "\n> 发现高频词 ");
        push_join(&mut md, candidate_words, "、");
        push_str(&mut md, " 未收录，可到「设置 → 词库候选」补充替代词。\n");
    }
    proof {
        assert(s2 =~= s1 + match qa {
            Some(q) => qa_section(q@, *lex),
            None => Seq::<char>::empty(),
        });
        assert(md@ =~= local_report_spec(
            scenario@,
            opt_view(topic),
            sentences@,
            *figures,
            events@,
            match previous {
                Some(p) => Some(*p),
                None => None,
            },
            voice_section@,
            tone_section@,
            views(candidate_words@),
            match qa {
                Some(q) => Some(q@),
                None => None,
            },
            *lex,
        ));
    }
    md
}

} // verus!

verus! {

/// A non-streaming chat-completions request: model, system and user
/// messages, the given temperature text and token limit.
pub open spec fn plain_request_spec(
    model: Seq<char>,
    system: Seq<char>,
    user_content: Seq<char>,
    temperature: Seq<char>,
    max_tokens: u32,
) -> Seq<char> {
    jobj(
        seq![
            jmember("model"@, jstr(model)),
            jmember("stream"@, "false"@),
            jmember("temperature"@, temperature),
            jmember("max_tokens"@, dec(max_tokens as nat)),
            jmember("messages"@, jarr(seq![message_json("system"@, system), message_json("user"@, user_content)])),
        ],
    )
}

fn plain_request(model: &str, system: &str, user_content: &str, temperature: &str, max_tokens: u32) -> (r: String)
    ensures
        r@ == plain_request_spec(model@, system@, user_content@, temperature@, max_tokens),
{
    let mut msgs: Vec<String> = Vec::new();
    msgs.push(message_json_of("system", system));
    msgs.push(message_json_of("user", user_content));
    let messages = arr_of(msgs.as_slice());
    let mut ms: Vec<String> = Vec::new();
    ms.push(member("model", jstr_of(model)));
    ms.push(member("stream", lit("false")));
    ms.push(member("temperature", lit(temperature)));
    ms.push(member("max_tokens", num_of(max_tokens as u64)));
    ms.push(member("messages", messages));
    proof {
        assert(views(msgs@) =~= seq![message_json("system"@, system@), message_json("user"@, user_content@)]);
        assert(views(ms@) =~= seq![
            jmember("model"@, jstr(model@)),
            jmember("stream"@, "false"@),
            jmember("temperature"@, temperature@),
            jmember("max_tokens"@, dec(max_tokens as nat)),
            jmember("messages"@, jarr(seq![message_json("system"@, system@), message_json("user"@, user_content@)])),
        ]);
    }
    obj_of(ms.as_slice())
}

/// The check-in request: not streamed, temperature 0, at most 120 tokens.
pub fn checkin_request_body(model: &str, system: &str, user_content: &str) -> (r: String)
    ensures
        r@ == plain_request_spec(model@, system@, user_content@, "0.0"@, 120),
{
    plain_request(model, system, user_content, "0.0", 120)
}

/// The interview-question request: not streamed, temperature 0.7 (more
/// varied than a report), at most 2400 tokens.
pub fn questions_request_body(model: &str, system: &str, user_content: &str) -> (r: String)
    ensures
        r@ == plain_request_spec(model@, system@, user_content@, "0.7"@, 2400),
{
    plain_request(model, system, user_content, "0.7", 2400)
}

} // verus!

verus! {

/// What a report request works on, once its inputs are checked.
pub struct ReportPlan {
    /// `full` or `quick`.
    pub mode: &'static str,
    /// The mock-interview answers (mock interviews only).
    pub qa: Option<Vec<QaItem>>,
    /// The transcript the report is about.
    pub sentences: Vec<Sentence>,
    /// Whether the transcript is the live session's own (its snapshot then
    /// applies unchanged).
    pub from_engine: bool,
}

pub open spec fn mock_qa_msg() -> Seq<char> {
    "模拟面试报告需要逐题问答内容（qa 为空）"@
}

pub open spec fn no_transcript_msg() -> Seq<char> {
    "没有可用的逐字稿（本此会话未识别到句子，也未提供修正稿）"@
}

/// Answers are given: a list with at least one item.
pub open spec fn qa_given(qa: Option<Vec<QaItem>>) -> bool {
    qa matches Some(q) && q@.len() > 0
}

/// The transcript a report is about: a mock interview's merged answers;
/// else the edited transcript when one is given (trimmed, not blank);
/// else the live session's sentences.
pub open spec fn plan_sentences(
    scenario: Seq<char>,
    transcript: Option<Seq<char>>,
    qa: Option<Vec<QaItem>>,
    engine: Seq<Sentence>,
    p: ReportPlan,
) -> bool {
    if scenario == "mockInterview"@ && qa_given(qa) {
        &&& numbered(p.sentences@, answers_lines(qa->0@))
        &&& p.qa matches Some(q) && q@ == qa->0@
        &&& !p.from_engine
    } else if transcript matches Some(t) && trim(t).len() > 0 {
        &&& numbered(p.sentences@, nonblank_lines(trim(transcript->0)))
        &&& p.qa is None
        &&& !p.from_engine
    } else {
        &&& p.sentences@ == engine
        &&& p.qa is None
        &&& p.from_engine
    }
}

/// Checks a report request and picks its transcript: an unknown mode is
/// refused first, then a mock interview without answers, then an empty
/// transcript.
pub fn plan_report(
    scenario: &str,
    transcript: Option<&str>,
    qa: Option<Vec<QaItem>>,
    mode: Option<&str>,
    engine_sentences: Vec<Sentence>,
) -> (r: Result<ReportPlan, String>)
    requires
        qa matches Some(q) ==> answers_lines(q@).len() <= usize::MAX,
    ensures
        match report_mode_spec(opt_view(mode)) {
            Err(m) => r matches Err(e) && e@ == m,
            Ok(m) => if scenario@ == "mockInterview"@ && !qa_given(qa) {
                r matches Err(e) && e@ == mock_qa_msg()
            } else {
                match r {
                    Ok(p) => p.mode@ == m && plan_sentences(scenario@, opt_view(transcript), qa, engine_sentences@, p)
                        && p.sentences@.len() > 0,
                    Err(e) => e@ == no_transcript_msg() && (exists|p: ReportPlan|
                        #[trigger] plan_sentences(scenario@, opt_view(transcript), qa, engine_sentences@, p)
                            && p.sentences@.len() == 0),
                }
            },
        },
{
    let mode = match parse_report_mode(mode) {
        Ok(m) => m,
        Err(e) => {
            return Err(e);
        },
    };
    let given = match &qa {
        Some(q) => q.len() > 0,
        None => false,
    };
    let mock = str_eq(scenario, "mockInterview");
    if mock && !given {
        return Err(lit("模拟面试报告需要逐题问答内容（qa 为空）"));
    }
    let plan = if mock {
        let q = match qa {
            Some(q) => q,
            None => Vec::new(),
        };
        let (sentences, _) = merge_qa_answers(q.as_slice());
        ReportPlan { mode, qa: Some(q), sentences, from_engine: false }
    } else {
        let edited = match transcript {
            Some(t) => trimmed_nonblank(t),
            None => None,
        };
        match edited {
            Some(text) => {
                let sentences = parse_transcript_text(text.as_str());
                ReportPlan { mode, qa: None, sentences, from_engine: false }
            },
            None => ReportPlan { mode, qa: None, sentences: engine_sentences, from_engine: true },
        }
    };
    assert(plan_sentences(scenario@, opt_view(transcript), qa, engine_sentences@, plan));
    if plan.sentences.len() == 0 {
        return Err(lit("没有可用的逐字稿（本此会话未识别到句子，也未提供修正稿）"));
    }
    Ok(plan)
}

} // verus!

verus! {

/// The text a streamed report shows: an empty or blank reply is an error;
/// otherwise the reply without its score marker.
pub fn remote_report_text(full: &str) -> (r: Result<String, String>)
    ensures
        trim(full@).len() == 0 ==> (r matches Err(e) && e@ == "模型返回了空报告"@),
        trim(full@).len() > 0 ==> (r matches Ok(t) && t@ == strip_marker_spec(full@)),
{
    match trimmed_nonblank(full) {
        None => Err(lit("模型返回了空报告")),
        Some(_) => Ok(strip_score_marker(full)),
    }
}

/// The smallest request a connection test sends: one `ping` message, at
/// most one token, not streamed.
pub open spec fn ping_body_spec(model: Seq<char>) -> Seq<char> {
    jobj(
        seq![
            jmember("model"@, jstr(model)),
            jmember("stream"@, "false"@),
            jmember("max_tokens"@, "1"@),
            jmember("messages"@, jarr(seq![message_json("user"@, "ping"@)])),
        ],
    )
}

pub fn ping_request_body(model: &str) -> (r: String)
    ensures
        r@ == ping_body_spec(model@),
{
    let mut msgs: Vec<String> = Vec::new();
    msgs.push(message_json_of("user", "ping"));
    let messages = arr_of(msgs.as_slice());
    let mut ms: Vec<String> = Vec::new();
    ms.push(member("model", jstr_of(model)));
    ms.push(member("stream", lit("false")));
    ms.push(member("max_tokens", lit("1")));
    ms.push(member("messages", messages));
    proof {
        assert(views(msgs@) =~= seq![message_json("user"@, "ping"@)]);
        assert(views(ms@) =~= seq![
            jmember("model"@, jstr(model@)),
            jmember("stream"@, "false"@),
            jmember("max_tokens"@, "1"@),
            jmember("messages"@, jarr(seq![message_json("user"@, "ping"@)])),
        ]);
    }
    obj_of(ms.as_slice())
}

/// Where a connection test goes, or why it cannot run: no usable key (a
/// local Ollama needs none), or no base URL / model to fall back on.
pub fn connection_target(backend: &str, api_key: &str, base_url: &str, model_name: &str) -> (r: Result<
    (String, String),
    String,
>)
    ensures
        !(backend@ == "ollama"@ || trim(api_key@).len() > 0) ==> (r matches Err(e) && e@ == "未配置 API Key"@),
        (backend@ == "ollama"@ || trim(api_key@).len() > 0) ==> match crate::settings::endpoint_spec(
            backend@,
            base_url@,
            model_name@,
        ) {
            Some((b, m)) => r matches Ok((rb, rm)) && rb@ == b && rm@ == m,
            None => r matches Err(e) && e@ == "后端地址未配置（自定义后端需填写 baseURL）"@,
        },
{
    if !crate::settings::can_call_remote(backend, api_key) {
        return Err(lit("未配置 API Key"));
    }
    match crate::settings::resolve_endpoint(backend, base_url, model_name) {
        Some(t) => Ok(t),
        None => Err(lit("后端地址未配置（自定义后端需填写 baseURL）")),
    }
}

} // verus!
