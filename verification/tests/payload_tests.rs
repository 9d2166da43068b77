use express_trainer::checkin::{build_checkin_user_payload, topic_overlap};
use express_trainer::interview::{build_questions_payload, QUESTION_COUNTS};
use express_trainer::report::{
    build_mock_interview_payload, build_request_body, build_stats, build_user_payload, checkin_request_body,
    connection_target, ping_request_body, plan_report, questions_request_body, remote_report_text, QaItem,
    QUICK_MAX_TOKENS,
};
use express_trainer::rules::Sentence;
use serde_json::Value;

fn sent(id: u64, text: &str, start_ms: u64, end_ms: u64) -> Sentence {
    Sentence { id, text: text.into(), start_ms, end_ms }
}

fn parse(text: &str) -> Value {
    serde_json::from_str(text).expect("payload is valid JSON")
}

fn qa_item(question: &str, intent: &str, answer: &str, duration_ms: u64) -> QaItem {
    QaItem { question: question.into(), intent: intent.into(), answer: answer.into(), duration_ms: Some(duration_ms) }
}

const PREVIOUS: &str =
    r#"{"date":"2026-08-29 10:00:00","filler_per_minute":4.2,"speech_rate":230.0,"avg_sentence_chars":18.0}"#;

#[test]
fn build_stats_computes_rates_when_duration_known() {
    let s = vec![sent(1, "五个字啊哈", 0, 30_000), sent(2, "再来五个字", 30_000, 60_000)];
    let fillers = vec![("就是".to_string(), 3u32), ("然后".to_string(), 1u32)];
    let stats = parse(&build_stats(&s, 60_000, &fillers, 0));
    assert_eq!(stats["duration_sec"], 60);
    assert_eq!(stats["total_chars"], 10);
    assert_eq!(stats["sentence_count"], 2);
    assert_eq!(stats["speech_rate"], 10.0);
    assert_eq!(stats["fillers"][0]["per_minute"], 3.0);
    assert_eq!(stats["fillers"][1]["per_minute"], 1.0);
    assert!(stats.get("goldenQuoteCount").is_none());
}

#[test]
fn build_stats_includes_golden_quote_count_when_present() {
    let s = vec![sent(1, "这就像把 3 个月的工作压缩到 3 周", 0, 60_000)];
    let stats = parse(&build_stats(&s, 60_000, &[], 2));
    assert_eq!(stats["goldenQuoteCount"], 2);
}

#[test]
fn build_stats_omits_rates_when_duration_unknown() {
    let s = vec![sent(1, "修正稿没有时间戳", 0, 0)];
    let stats = parse(&build_stats(&s, 0, &[], 0));
    assert!(stats.get("speech_rate").is_none());
    assert!(stats.get("fillers").is_none());
    assert_eq!(stats["total_chars"], 8);
}

#[test]
fn build_stats_rates_round_to_one_decimal() {
    // 7 characters over 90 s: 4.666… per minute → 4.7; 1 filler → 0.7
    let s = vec![sent(1, "七个字的一句话", 0, 90_000)];
    let stats = parse(&build_stats(&s, 90_000, &[("嗯".to_string(), 1)], 0));
    assert_eq!(stats["speech_rate"], 4.7);
    assert_eq!(stats["fillers"][0]["per_minute"], 0.7);
    assert_eq!(stats["duration_sec"], 90);
}

#[test]
fn user_payload_free_uses_topic_and_snake_case() {
    let s = vec![sent(1, "内容", 120, 3400)];
    let payload = parse(&build_user_payload("free", Some("自律"), &s, "{}", None));
    assert_eq!(payload["topic"], "自律");
    assert!(payload.get("question").is_none());
    assert!(payload.get("previous").is_none());
    assert_eq!(payload["transcript"][0]["start_ms"], 120);
    assert_eq!(payload["transcript"][0]["end_ms"], 3400);
}

#[test]
fn user_payload_interview_uses_question_and_skips_empty_topic() {
    let payload = parse(&build_user_payload("interview", Some("  "), &[], "{}", None));
    assert!(payload.get("question").is_none());
    assert!(payload.get("topic").is_none());
    let payload = parse(&build_user_payload("interview", Some("讲一次推动协作的经历"), &[], "{}", None));
    assert_eq!(payload["question"], "讲一次推动协作的经历");
}

#[test]
fn user_payload_includes_previous_when_present() {
    let payload = parse(&build_user_payload("free", None, &[], "{}", Some(PREVIOUS)));
    assert_eq!(payload["previous"]["date"], "2026-08-29 10:00:00");
    assert_eq!(payload["previous"]["filler_per_minute"], 4.2);
    assert_eq!(payload["previous"]["speech_rate"], 230.0);
    assert_eq!(payload["previous"]["avg_sentence_chars"], 18.0);
}

#[test]
fn user_payload_escapes_quotes_and_control_characters() {
    let s = vec![sent(1, "他说\"好\"\\\n\t结束\u{1}", 0, 1000)];
    let payload = parse(&build_user_payload("free", Some("a\"b"), &s, "{}", None));
    assert_eq!(payload["transcript"][0]["text"], "他说\"好\"\\\n\t结束\u{1}");
    assert_eq!(payload["topic"], "a\"b");
}

#[test]
fn request_body_is_streaming_with_json_string_user_content() {
    let body = parse(&build_request_body("deepseek-chat", "SYS", r#"{ "topic": "x" }"#, None));
    assert_eq!(body["model"], "deepseek-chat");
    assert_eq!(body["stream"], true);
    assert_eq!(body["messages"][0]["role"], "system");
    let user = body["messages"][1]["content"].as_str().unwrap();
    let parsed: Value = serde_json::from_str(user).unwrap();
    assert_eq!(parsed["topic"], "x");
    assert!(body.get("max_tokens").is_none());
    assert_eq!(body["temperature"], 0.4);
}

#[test]
fn request_body_quick_mode_sets_smaller_max_tokens() {
    let body = parse(&build_request_body("deepseek-chat", "SYS", "{}", Some(QUICK_MAX_TOKENS)));
    assert_eq!(body["max_tokens"], QUICK_MAX_TOKENS);
    assert_eq!(body["stream"], true);
}

#[test]
fn plain_request_bodies_fix_temperature_and_token_limit() {
    let c = parse(&checkin_request_body("m", "SYS", "USER"));
    assert_eq!(c["stream"], false);
    assert_eq!(c["temperature"], 0.0);
    assert_eq!(c["max_tokens"], 120);
    assert_eq!(c["messages"][1]["content"], "USER");
    let q = parse(&questions_request_body("m", "SYS", "USER"));
    assert_eq!(q["temperature"], 0.7);
    assert_eq!(q["max_tokens"], 2400);
    assert_eq!(q["messages"][0]["content"], "SYS");
}

#[test]
fn mock_interview_payload_injects_qa_with_ranges_and_durations() {
    let qa = vec![
        qa_item("第一题？", "自我介绍", "第一题答句甲\n第一题答句乙", 95_000),
        qa_item("第二题？", "项目深挖", "", 30_000),
        qa_item("第三题？", "压力题", "第三题答句丙", 40_000),
    ];
    let payload = parse(&build_mock_interview_payload(Some("后端开发"), &qa, r#"{"total_chars":30}"#, Some(PREVIOUS)));
    assert_eq!(payload["role"], "后端开发");
    assert_eq!(payload["qa"].as_array().unwrap().len(), 3);
    assert_eq!(payload["qa"][0]["index"], 1);
    assert_eq!(payload["qa"][0]["question"], "第一题？");
    assert_eq!(payload["qa"][0]["intent"], "自我介绍");
    assert_eq!(payload["qa"][0]["sentence_ids"], parse("[1,2]"));
    assert_eq!(payload["qa"][0]["duration_sec"], 95);
    assert_eq!(payload["qa"][0]["skipped"], false);
    assert_eq!(payload["qa"][1]["skipped"], true);
    assert!(payload["qa"][1].get("sentence_ids").is_none());
    assert!(payload["qa"][1].get("duration_sec").is_none());
    assert_eq!(payload["qa"][2]["sentence_ids"], parse("[3,3]"));
    assert_eq!(payload["transcript"].as_array().unwrap().len(), 3);
    assert_eq!(payload["transcript"][2]["id"], 3);
    assert_eq!(payload["previous"]["filler_per_minute"], 4.2);
    let bare = parse(&build_mock_interview_payload(None, &qa, "{}", None));
    assert!(bare.get("role").is_none());
    assert!(bare.get("previous").is_none());
}

#[test]
fn build_payload_shape_matches_prompt_contract() {
    let recent = vec![sent(28, "我每天六点起床", 0, 28_000), sent(29, "这个习惯让我清醒", 0, 29_000)];
    let payload = parse(&build_checkin_user_payload(
        Some("自律"),
        &recent,
        Some("第 25–27 句：……"),
        Some(95),
        Some(180),
        Some(31),
    ));
    assert_eq!(payload["topic"], "自律");
    assert_eq!(payload["sentences"][0]["id"], 28);
    assert_eq!(payload["recent_before"], "第 25–27 句：……");
    assert_eq!(payload["hints"]["elapsed_sec"], 95);
    assert_eq!(payload["hints"]["planned_sec"], 180);
    assert!(payload["hints"].get("topic_match_last3").is_some());
    assert_eq!(payload["hints"]["sentence_count_total"], 31);
}

#[test]
fn build_payload_omits_optionals() {
    let payload = parse(&build_checkin_user_payload(None, &[], None, None, None, None));
    assert!(payload["topic"].is_null());
    assert!(payload.get("recent_before").is_none());
    assert!(payload["hints"].as_object().unwrap().is_empty());
}

#[test]
fn topic_overlap_counts_distinct_characters() {
    // topic 效率 vs recent "效率高": intersection {效,率} = 2, union {效,率,高} = 3
    let recent = vec![sent(1, "效率 高", 0, 1000)];
    assert_eq!(topic_overlap(" 效 率 ", &recent), Some((2, 3)));
    assert_eq!(topic_overlap("   ", &recent), None);
    // only the last three sentences count
    let many = vec![sent(1, "甲", 0, 1), sent(2, "乙", 0, 2), sent(3, "丙", 0, 3), sent(4, "丁", 0, 4)];
    assert_eq!(topic_overlap("甲丁", &many), Some((1, 4)));
    let payload = parse(&build_checkin_user_payload(Some("效率"), &recent, None, None, None, None));
    assert_eq!(payload["hints"]["topic_match_last3"], 0.67);
}

#[test]
fn questions_payload_shape() {
    let p = parse(&build_questions_payload("backend", 5, Some(" 负责推荐系统 ")));
    assert_eq!(p["role"], "backend");
    assert_eq!(p["role_label"], "后端开发");
    assert_eq!(p["number"], 5);
    assert_eq!(p["jd"], "负责推荐系统");
    let p = parse(&build_questions_payload("general", 3, None));
    assert!(p.get("jd").is_none());
    let p = parse(&build_questions_payload("general", QUESTION_COUNTS[0], Some("   ")));
    assert!(p.get("jd").is_none());
    assert_eq!(p["role_label"], "通用面试");
}

#[test]
fn plan_report_checks_mode_then_answers_then_transcript() {
    let live = vec![sent(1, "现场第一句", 0, 1000)];
    let e = plan_report("free", None, None, Some("slow"), live.clone()).err().unwrap();
    assert_eq!(e, "未知报告模式：slow（支持 full / quick）");
    let e = plan_report("mockInterview", None, Some(vec![]), None, live.clone()).err().unwrap();
    assert_eq!(e, "模拟面试报告需要逐题问答内容（qa 为空）");
    let e = plan_report("free", Some("   "), None, None, vec![]).err().unwrap();
    assert_eq!(e, "没有可用的逐字稿（本此会话未识别到句子，也未提供修正稿）");
}

#[test]
fn plan_report_picks_answers_then_edited_then_live_transcript() {
    let live = vec![sent(7, "现场第一句", 0, 1000)];
    let qa = vec![qa_item("为什么？", "动机", "甲\n乙", 10_000)];
    let p = plan_report("mockInterview", Some("修正稿"), Some(qa.clone()), Some(" quick "), live.clone()).unwrap();
    assert_eq!(p.mode, "quick");
    assert_eq!(p.sentences.iter().map(|s| s.text.as_str()).collect::<Vec<_>>(), vec!["甲", "乙"]);
    assert_eq!(p.qa.unwrap().len(), 1);
    assert!(!p.from_engine);
    // answers only count in a mock interview
    let p = plan_report("free", Some(" 修正一句\n\n修正二句 "), Some(qa), None, live.clone()).unwrap();
    assert_eq!(p.mode, "full");
    assert!(p.qa.is_none());
    assert_eq!(p.sentences.len(), 2);
    assert_eq!(p.sentences[1].id, 2);
    assert_eq!(p.sentences[1].text, "修正二句");
    let p = plan_report("free", None, None, None, live).unwrap();
    assert!(p.from_engine);
    assert_eq!(p.sentences[0].id, 7);
}

#[test]
fn remote_report_text_refuses_blank_and_strips_marker() {
    assert_eq!(remote_report_text("  \n ").err().unwrap(), "模型返回了空报告");
    let t = remote_report_text("正文\n<!--SCORE:{\"overall\":80}-->").unwrap();
    assert_eq!(t, "正文\n");
}

#[test]
fn ping_body_and_connection_target() {
    let b = parse(&ping_request_body("deepseek-chat"));
    assert_eq!(b["model"], "deepseek-chat");
    assert_eq!(b["max_tokens"], 1);
    assert_eq!(b["stream"], false);
    assert_eq!(b["messages"][0]["content"], "ping");
    assert_eq!(connection_target("deepseek", "  ", "", "").err().unwrap(), "未配置 API Key");
    assert_eq!(
        connection_target("custom", "k", "", "").err().unwrap(),
        "后端地址未配置（自定义后端需填写 baseURL）"
    );
    let (url, model) = connection_target("ollama", "", "", "").unwrap();
    assert!(url.starts_with("http"));
    assert!(!model.is_empty());
}
