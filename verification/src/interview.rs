//! Mock-interview question logic: role names, request checks and the
//! offline fallback drawn from the built-in banks.
use vstd::prelude::*;
use crate::interview_bank::{
    BankQuestion, bank_for, bank_spec, general_bank, general_questions, pick_offline, picked, take_count,
};
use crate::text::{str_eq, lit, trim, chars_of};

verus! {

/// Role codes the interview accepts.
pub const ROLES: [&'static str; 7] = ["general", "backend", "frontend", "product", "ops", "management", "custom"];

/// Accepted question counts.
pub const QUESTION_COUNTS: [u32; 3] = [3, 5, 8];

/// One interview question as shown to the user; `index` counts from 1.
#[derive(Debug, Clone, PartialEq)]
pub struct InterviewQuestion {
    pub index: u32,
    pub question: String,
    pub intent: String,
}

/// Questions for a mock interview and where they came from: `ai` (the
/// model wrote them) or `offline` (the built-in bank).
#[derive(Debug, Clone)]
pub struct InterviewQuestionsResult {
    pub source: String,
    pub questions: Vec<InterviewQuestion>,
    pub role: String,
}

pub open spec fn role_label_spec(role: Seq<char>) -> Seq<char> {
    if role == "backend"@ {
        "后端开发"@
    } else if role == "frontend"@ {
        "前端开发"@
    } else if role == "product"@ {
        "产品经理"@
    } else if role == "ops"@ {
        "运营"@
    } else if role == "management"@ {
        "管理岗位"@
    } else if role == "custom"@ {
        "自定义岗位"@
    } else {
        "通用面试"@
    }
}

/// Display name of a role; unknown codes read as a general interview.
pub fn role_label(role: &str) -> (r: &'static str)
    ensures
        r@ == role_label_spec(role@),
{
    if str_eq(role, "backend") {
        "后端开发"
    } else if str_eq(role, "frontend") {
        "前端开发"
    } else if str_eq(role, "product") {
        "产品经理"
    } else if str_eq(role, "ops") {
        "运营"
    } else if str_eq(role, "management") {
        "管理岗位"
    } else if str_eq(role, "custom") {
        "自定义岗位"
    } else {
        "通用面试"
    }
}

/// The bank offline questions come from: the role's, else the general one.
pub open spec fn offline_bank(role: Seq<char>) -> Seq<BankQuestion> {
    match bank_spec(role) {
        Some(b) => b,
        None => general_questions(),
    }
}

/// Questions drawn from the built-in bank of a role (`custom` and unknown
/// roles use the general bank), numbered from 1.
pub fn offline_questions(role: &str, count: u32, seed: u64) -> (r: Vec<InterviewQuestion>)
    ensures
        r@.len() == take_count(count as nat, offline_bank(role@).len()),
        forall|k: int|
            0 <= k < r@.len() ==> (#[trigger] r@[k]).index == k + 1 && r@[k].question@ == offline_bank(
                role@,
            )[picked(offline_bank(role@).len(), count as nat, seed)[k]].question@ && r@[k].intent@
                == offline_bank(role@)[picked(offline_bank(role@).len(), count as nat, seed)[k]].intent@,
{
    let bank = match bank_for(role) {
        Some(b) => b,
        None => general_bank(),
    };
    let ghost b = offline_bank(role@);
    assert(bank@ == b);
    let picks = pick_offline(bank.as_slice(), count as usize, seed);
    let mut out: Vec<InterviewQuestion> = Vec::new();
    let mut i: usize = 0;
    while i < picks.len()
        invariant
            i <= picks@.len(),
            out@.len() == i,
            forall|k: int| 0 <= k < i ==> (#[trigger] out@[k]).index == picks@[k].0 && out@[k].question@
                == picks@[k].1@ && out@[k].intent@ == picks@[k].2@,
        decreases picks@.len() - i,
    {
        let (index, question, intent) = picks[i];
        out.push(InterviewQuestion { index, question: lit(question), intent: lit(intent) });
        i = i + 1;
    }
    out
}

pub open spec fn role_listed(role: Seq<char>) -> bool {
    role == "general"@ || role == "backend"@ || role == "frontend"@ || role == "product"@ || role
        == "ops"@ || role == "management"@ || role == "custom"@
}

/// The error a question request gets, or `None` when it is well-formed:
/// the role must be listed, the count one of 3 / 5 / 8, and a custom role
/// needs a non-blank job description.
pub open spec fn request_error(role: Seq<char>, count: u32, jd: Option<Seq<char>>) -> Option<Seq<char>> {
    if !role_listed(role) {
        Some(
            "未知岗位方向："@ + role
                + "（支持 general / backend / frontend / product / ops / management / custom）"@,
        )
    } else if count != 3 && count != 5 && count != 8 {
        Some("题数仅支持 3 / 5 / 8（收到 "@ + crate::text::dec(count as nat) + "）"@)
    } else if role == "custom"@ && (jd is None || trim(jd->0).len() == 0) {
        Some("自定义岗位必须填写职位描述（JD）"@)
    } else {
        None
    }
}

/// Checks a question request before any question is generated.
pub fn validate_question_request(role: &str, count: u32, jd: Option<&str>) -> (r: Result<(), String>)
    ensures
        match r {
            Ok(()) => request_error(
                role@,
                count,
                match jd {
                    Some(s) => Some(s@),
                    None => None,
                },
            ) is None,
            Err(e) => request_error(
                role@,
                count,
                match jd {
                    Some(s) => Some(s@),
                    None => None,
                },
            ) == Some(e@),
        },
{
    let listed = str_eq(role, "general") || str_eq(role, "backend") || str_eq(role, "frontend")
        || str_eq(role, "product") || str_eq(role, "ops") || str_eq(role, "management") || str_eq(
        role,
        "custom",
    );
    if !listed {
        let mut e = lit("未知岗位方向：");
        crate::text::push_str(&mut e, role);
        crate::text::push_str(&mut e, "（支持 general / backend / frontend / product / ops / management / custom）");
        return Err(e);
    }
    if count != 3 && count != 5 && count != 8 {
        let mut e = lit("题数仅支持 3 / 5 / 8（收到 ");
        crate::text::push_dec(&mut e, count as u64);
        crate::text::push_str(&mut e, "）");
        return Err(e);
    }
    if str_eq(role, "custom") {
        let blank = match jd {
            Some(s) => crate::text::trim_string(s).as_str().is_empty(),
            None => true,
        };
        if blank {
            return Err(lit("自定义岗位必须填写职位描述（JD）"));
        }
    }
    Ok(())
}

} // verus!

verus! {

/// One element of a JSON array of questions: its `question` and `intent`
/// fields when they are strings.
pub type QuestionItem = (Option<String>, Option<String>);

pub open spec fn item_view(i: QuestionItem) -> (Option<Seq<char>>, Option<Seq<char>>) {
    (
        match i.0 {
            Some(s) => Some(s@),
            None => None,
        },
        match i.1 {
            Some(s) => Some(s@),
            None => None,
        },
    )
}

/// What `serde_json` reads from a text as an array of values, each taken
/// by its `question` and `intent` string fields; `None` when the text is not
/// a JSON array.
pub uninterp spec fn json_question_items(raw: Seq<char>) -> Option<Seq<(Option<Seq<char>>, Option<Seq<char>>)>>;

/// `serde_json::from_str::<Vec<serde_json::Value>>`, each element read by
/// `Value::get` and `Value::as_str` for its `question` and `intent` fields.
/// Claimed: the result is the named reading of `raw`.
#[verifier::external_body]
fn parse_question_items(raw: &str) -> (r: Option<Vec<QuestionItem>>)
    ensures
        match r {
            Some(v) => json_question_items(raw@) == Some(v@.map_values(|i: QuestionItem| item_view(i))),
            None => json_question_items(raw@) is None,
        },
{
    let items: Vec<serde_json::Value> = serde_json::from_str(raw).ok()?;
    Some(
        items.iter().map(
            |v| (
                v.get("question").and_then(|q| q.as_str()).map(|q| q.to_string()),
                v.get("intent").and_then(|q| q.as_str()).map(|q| q.to_string()),
            ),
        ).collect(),
    )
}

/// Intent of a question: the trimmed text, or `综合考察` when missing or blank.
pub open spec fn intent_of(o: Option<Seq<char>>) -> Seq<char> {
    match o {
        Some(s) => if trim(s).len() > 0 {
            trim(s)
        } else {
            "综合考察"@
        },
        None => "综合考察"@,
    }
}

/// The (question, intent) pairs of the items: every item needs a string
/// question that is not blank and not a repeat; otherwise `None`.
pub open spec fn collect_questions(items: Seq<(Option<Seq<char>>, Option<Seq<char>>)>) -> Option<
    Seq<(Seq<char>, Seq<char>)>,
>
    decreases items.len(),
{
    if items.len() == 0 {
        Some(seq![])
    } else {
        match collect_questions(items.drop_last()) {
            None => None,
            Some(prev) => match items.last().0 {
                None => None,
                Some(q) => {
                    let t = trim(q);
                    if t.len() == 0 || exists|k: int| 0 <= k < prev.len() && (#[trigger] prev[k]).0 == t {
                        None
                    } else {
                        Some(prev.push((t, intent_of(items.last().1))))
                    }
                },
            },
        }
    }
}

/// The questions of a parsed reply: exactly `expected` of them, numbered
/// from 1.
pub open spec fn questions_spec(items: Seq<(Option<Seq<char>>, Option<Seq<char>>)>, expected: u32) -> Option<
    Seq<(Seq<char>, Seq<char>)>,
> {
    match collect_questions(items) {
        Some(qs) => if qs.len() == expected {
            Some(qs)
        } else {
            None
        },
        None => None,
    }
}

pub open spec fn numbered_questions(r: Seq<InterviewQuestion>, qs: Seq<(Seq<char>, Seq<char>)>) -> bool {
    &&& r.len() == qs.len()
    &&& forall|i: int|
        0 <= i < r.len() ==> (#[trigger] r[i]).index == i + 1 && r[i].question@ == qs[i].0 && r[i].intent@
            == qs[i].1
}

/// Questions from the items of a parsed reply (see `questions_spec`).
pub fn questions_from_items(items: Vec<QuestionItem>, expected_count: u32) -> (r: Option<Vec<InterviewQuestion>>)
    ensures
        match r {
            Some(v) => questions_spec(items@.map_values(|i: QuestionItem| item_view(i)), expected_count)
                matches Some(qs) && numbered_questions(v@, qs),
            None => questions_spec(items@.map_values(|i: QuestionItem| item_view(i)), expected_count) is None,
        },
{
    let ghost iv = items@.map_values(|i: QuestionItem| item_view(i));
    if items.len() != expected_count as usize {
        proof {
            lemma_collect_len(iv);
        }
        return None;
    }
    let mut out: Vec<InterviewQuestion> = Vec::new();
    let mut seen: Vec<Vec<char>> = Vec::new();
    let mut i: usize = 0;
    assert(iv.subrange(0, 0) =~= Seq::<(Option<Seq<char>>, Option<Seq<char>>)>::empty());
    while i < items.len()
        invariant
            i <= items@.len(),
            items@.len() == expected_count,
            iv == items@.map_values(|i: QuestionItem| item_view(i)),
            collect_questions(iv.subrange(0, i as int)) matches Some(qs) && numbered_questions(out@, qs)
                && seen@.map_values(|v: Vec<char>| v@) == qs.map_values(|p: (Seq<char>, Seq<char>)| p.0),
        decreases items@.len() - i,
    {
        let ghost prev_items = iv.subrange(0, i as int);
        let ghost next_items = iv.subrange(0, i + 1);
        let ghost qs = collect_questions(prev_items)->0;
        proof {
            assert(next_items.drop_last() =~= prev_items);
            assert(next_items.last() == iv[i as int]);
            assert(iv[i as int] == item_view(items@[i as int]));
        }
        let q = match &items[i].0 {
            Some(q) => q,
            None => {
                proof {
                    lemma_collect_none_sticky(iv, i as int + 1);
                }
                return None;
            },
        };
        let t = crate::text::trim_vec(chars_of(q.as_str()).as_slice());
        let dup = crate::settings::seen_before(&seen, t.as_slice());
        proof {
            let sv = seen@.map_values(|v: Vec<char>| v@);
            if dup {
                let k = choose|k: int| 0 <= k < sv.len() && sv[k] == t@;
                assert(qs[k].0 == t@);
            } else {
                assert forall|k: int| 0 <= k < qs.len() implies (#[trigger] qs[k]).0 != t@ by {
                    assert(sv[k] == qs[k].0);
                }
            }
        }
        if t.len() == 0 || dup {
            proof {
                lemma_collect_none_sticky(iv, i as int + 1);
            }
            return None;
        }
        let intent = match &items[i].1 {
            Some(s) => {
                let it = crate::text::trim_string(s.as_str());
                if it.as_str().is_empty() {
                    lit("综合考察")
                } else {
                    it
                }
            },
            None => lit("综合考察"),
        };
        let ghost tv = t@;
        let ghost before = out@;
        let ghost seen_before = seen@;
        proof {
            lemma_collect_len(prev_items);
        }
        let index: u32 = (i as u32) + 1;
        assert(out@.len() == i);
        out.push(InterviewQuestion { index, question: crate::text::string_of(t.as_slice()), intent });
        seen.push(t);
        proof {
            let qs2 = qs.push((tv, intent_of(iv[i as int].1)));
            assert(collect_questions(next_items) == Some(qs2));
            assert forall|k: int| 0 <= k < out@.len() implies (#[trigger] out@[k]).index == k + 1
                && out@[k].question@ == qs2[k].0 && out@[k].intent@ == qs2[k].1 by {
                if k < before.len() {
                    assert(out@[k] == before[k]);
                }
            }
            assert(seen@.map_values(|v: Vec<char>| v@) =~= seen_before.map_values(|v: Vec<char>| v@).push(tv));
            assert(qs2.map_values(|p: (Seq<char>, Seq<char>)| p.0) =~= qs.map_values(
                |p: (Seq<char>, Seq<char>)| p.0,
            ).push(tv));
        }
        i = i + 1;
    }
    assert(iv.subrange(0, items@.len() as int) =~= iv);
    proof {
        lemma_collect_len(iv);
    }
    Some(out)
}

proof fn lemma_collect_len(items: Seq<(Option<Seq<char>>, Option<Seq<char>>)>)
    ensures
        collect_questions(items) matches Some(qs) ==> qs.len() == items.len(),
    decreases items.len(),
{
    if items.len() > 0 {
        lemma_collect_len(items.drop_last());
    }
}

proof fn lemma_collect_none_sticky(items: Seq<(Option<Seq<char>>, Option<Seq<char>>)>, k: int)
    requires
        0 <= k <= items.len(),
        collect_questions(items.subrange(0, k)) is None,
    ensures
        collect_questions(items) is None,
    decreases items.len() - k,
{
    if k < items.len() {
        let next = items.subrange(0, k + 1);
        assert(next.drop_last() =~= items.subrange(0, k));
        lemma_collect_none_sticky(items, k + 1);
    } else {
        assert(items.subrange(0, k) =~= items);
    }
}

pub open spec fn fence_json() -> Seq<char> {
    seq!['`', '`', '`', 'j', 's', 'o', 'n']
}

pub open spec fn fence() -> Seq<char> {
    seq!['`', '`', '`']
}

/// The JSON array text in a reply: fences stripped, from the first `[` to
/// the last `]`; `None` when there is no such pair.
pub open spec fn reply_array(reply: Seq<char>) -> Option<Seq<char>> {
    let a = trim(reply);
    let b = match crate::text::strip_prefix(a, fence_json()) {
        Some(x) => x,
        None => match crate::text::strip_prefix(a, fence()) {
            Some(x) => x,
            None => a,
        },
    };
    let c = match crate::text::strip_suffix(b, fence()) {
        Some(x) => x,
        None => a,
    };
    let d = trim(c);
    let start = crate::text::index_of(d, '[');
    let end = crate::text::last_index_of(d, ']');
    if start >= d.len() || end < 0 || end <= start {
        None
    } else {
        Some(d.subrange(start, end + 1))
    }
}

fn reply_array_exec(reply: &str) -> (r: Option<String>)
    ensures
        match r {
            Some(s) => reply_array(reply@) == Some(s@),
            None => reply_array(reply@) is None,
        },
{
    let v = chars_of(reply);
    let a = crate::text::trim_vec(v.as_slice());
    let mut fj: Vec<char> = Vec::new();
    fj.push('`');
    fj.push('`');
    fj.push('`');
    fj.push('j');
    fj.push('s');
    fj.push('o');
    fj.push('n');
    assert(fj@ =~= fence_json());
    let mut f: Vec<char> = Vec::new();
    f.push('`');
    f.push('`');
    f.push('`');
    assert(f@ =~= fence());
    let b = match crate::text::strip_prefix_chars(a.as_slice(), fj.as_slice()) {
        Some(x) => x,
        None => match crate::text::strip_prefix_chars(a.as_slice(), f.as_slice()) {
            Some(x) => x,
            None => crate::text::slice_chars(a.as_slice(), 0, a.len()),
        },
    };
    assert(a@.subrange(0, a@.len() as int) =~= a@);
    let c = match crate::text::strip_suffix_chars(b.as_slice(), f.as_slice()) {
        Some(x) => x,
        None => crate::text::slice_chars(a.as_slice(), 0, a.len()),
    };
    let d = crate::text::trim_vec(c.as_slice());
    let start = match crate::text::find_char(d.as_slice(), '[') {
        Some(s) => s,
        None => {
            return None;
        },
    };
    let end = match crate::text::rfind_char(d.as_slice(), ']') {
        Some(e) => e,
        None => {
            return None;
        },
    };
    if end <= start {
        return None;
    }
    proof {
        crate::text::lemma_last_index_of(d@, ']');
    }
    assert(end < d@.len());
    assert(d@.len() == d.len());
    let raw = crate::text::slice_chars(d.as_slice(), start, end + 1);
    Some(crate::text::string_of(raw.as_slice()))
}

/// The questions of the model's reply (see `reply_array` and `questions_spec`).
pub fn parse_questions_reply(reply: &str, expected_count: u32) -> (r: Option<Vec<InterviewQuestion>>)
    ensures
        match reply_array(reply@) {
            None => r is None,
            Some(raw) => match json_question_items(raw) {
                None => r is None,
                Some(items) => match questions_spec(items, expected_count) {
                    None => r is None,
                    Some(qs) => r matches Some(v) && numbered_questions(v@, qs),
                },
            },
        },
{
    let raw = match reply_array_exec(reply) {
        Some(s) => s,
        None => {
            return None;
        },
    };
    let items = match parse_question_items(raw.as_str()) {
        Some(v) => v,
        None => {
            return None;
        },
    };
    questions_from_items(items, expected_count)
}

} // verus!

verus! {

/// The user message of a question request: role code, role name, number of
/// questions, and the trimmed job description when not blank.
pub open spec fn questions_payload_spec(role: Seq<char>, count: u32, jd: Option<Seq<char>>) -> Seq<char> {
    crate::json::jobj(
        seq![
            crate::json::jmember("role"@, crate::json::jstr(role)),
            crate::json::jmember("role_label"@, crate::json::jstr(role_label_spec(role))),
            crate::json::jmember("number"@, crate::text::dec(count as nat)),
        ] + match crate::checkin::clean_topic(jd) {
            Some(j) => seq![crate::json::jmember("jd"@, crate::json::jstr(j))],
            None => seq![],
        },
    )
}

/// The user message of a question request as JSON text.
pub fn build_questions_payload(role: &str, count: u32, jd: Option<&str>) -> (r: String)
    ensures
        r@ == questions_payload_spec(role@, count, crate::report::opt_view(jd)),
{
    let mut ms: Vec<String> = Vec::new();
    ms.push(crate::json::member("role", crate::json::jstr_of(role)));
    ms.push(crate::json::member("role_label", crate::json::jstr_of(role_label(role))));
    ms.push(crate::json::member("number", crate::json::num_of(count as u64)));
    let ghost m0 = crate::text::views(ms@);
    match jd {
        Some(j) => {
            match crate::report::trimmed_nonblank(j) {
                Some(t) => {
                    ms.push(crate::json::member("jd", crate::json::jstr_of(t.as_str())));
                },
                None => {},
            }
        },
        None => {},
    }
    proof {
        assert(m0 =~= seq![
            crate::json::jmember("role"@, crate::json::jstr(role@)),
            crate::json::jmember("role_label"@, crate::json::jstr(role_label_spec(role@))),
            crate::json::jmember("number"@, crate::text::dec(count as nat)),
        ]);
        assert(crate::text::views(ms@) =~= m0 + match crate::checkin::clean_topic(crate::report::opt_view(jd)) {
            Some(j) => seq![crate::json::jmember("jd"@, crate::json::jstr(j))],
            None => seq![],
        });
    }
    crate::json::obj_of(ms.as_slice())
}

} // verus!
