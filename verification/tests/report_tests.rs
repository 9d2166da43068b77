use express_trainer::report::parse_score_marker;
use express_trainer::report::{
    chat_url, count_chars, format_duration, has_conclusion_sentence, kind_label, merge_qa_answers,
    parse_report_mode, parse_transcript_text, qa_total_duration_ms, scenario_label, strip_score_marker,
    system_prompt_for, system_prompt_for_mode, transcript_text, truncate, Prompt, QaItem, SCENARIOS,
};
use express_trainer::rules::{FeedbackKind, Sentence};
use express_trainer::sse::{extract_delta, SseParser};
use express_trainer::report::reply_content;

fn sent(id: u64, text: &str, start_ms: u64, end_ms: u64) -> Sentence {
    Sentence { id, text: text.into(), start_ms, end_ms }
}

fn qa_item(question: &str, intent: &str, answer: &str, duration_ms: u64) -> QaItem {
    QaItem {
        question: question.into(),
        intent: intent.into(),
        answer: answer.into(),
        duration_ms: Some(duration_ms),
    }
}

#[test]
fn system_prompt_for_maps_scenarios() {
    assert_eq!(system_prompt_for("free").unwrap(), Prompt::Free);
    assert_eq!(system_prompt_for("interview").unwrap(), Prompt::Interview);
    assert_eq!(system_prompt_for("vlog").unwrap(), Prompt::Vlog);
    assert_eq!(system_prompt_for("workreport").unwrap(), Prompt::Workreport);
    assert_eq!(system_prompt_for("mockInterview").unwrap(), Prompt::MockInterview);
    assert!(system_prompt_for("other").is_err());
}

#[test]
fn unknown_scenario_error_lists_the_supported_ones() {
    assert_eq!(
        system_prompt_for("other").unwrap_err(),
        "未知场景：other（支持 free / interview / vlog / workreport / mockInterview）"
    );
}

#[test]
fn report_mode_whitelist_and_defaults() {
    assert_eq!(parse_report_mode(None).unwrap(), "full");
    assert_eq!(parse_report_mode(Some("")).unwrap(), "full");
    assert_eq!(parse_report_mode(Some("   ")).unwrap(), "full");
    assert_eq!(parse_report_mode(Some("full")).unwrap(), "full");
    assert_eq!(parse_report_mode(Some("quick")).unwrap(), "quick");
    assert_eq!(parse_report_mode(Some(" quick ")).unwrap(), "quick");
    assert!(parse_report_mode(Some("fast")).is_err());
    assert!(parse_report_mode(Some("FULL")).is_err());
    let err = parse_report_mode(Some("fast")).unwrap_err();
    assert!(err.contains("full / quick"), "错误信息应列出支持的模式：{err}");
}

#[test]
fn system_prompt_for_mode_selects_quick_or_scenario() {
    for scenario in SCENARIOS {
        assert_eq!(system_prompt_for_mode(scenario, "quick").unwrap(), Prompt::Quick);
    }
    assert!(system_prompt_for_mode("other", "quick").is_err());
    assert_eq!(system_prompt_for_mode("free", "full").unwrap(), Prompt::Free);
    assert_eq!(system_prompt_for_mode("vlog", "full").unwrap(), Prompt::Vlog);
    assert!(system_prompt_for_mode("free", "turbo").is_err());
}

#[test]
fn scenario_labels_cover_all_scenarios() {
    assert_eq!(scenario_label("free"), "自由练习");
    assert_eq!(scenario_label("interview"), "面试回答");
    assert_eq!(scenario_label("vlog"), "口播视频");
    assert_eq!(scenario_label("workreport"), "工作汇报");
    assert_eq!(scenario_label("mockInterview"), "模拟面试");
    assert_eq!(scenario_label("unknown"), "自由练习");
}

#[test]
fn kind_labels_name_every_kind() {
    assert_eq!(kind_label(&FeedbackKind::FillerWord), "口头禅");
    assert_eq!(kind_label(&FeedbackKind::GoldenQuote), "金句");
    assert_eq!(kind_label(&FeedbackKind::AiCheckin), "AI 快评");
}

#[test]
fn parse_transcript_text_assigns_line_ids_and_skips_blanks() {
    let s = parse_transcript_text("第一句\r\n\r\n  \n第二句\n");
    assert_eq!(s.len(), 2);
    assert_eq!(s[0].id, 1);
    assert_eq!(s[0].text, "第一句");
    assert_eq!(s[1].id, 2);
    assert!(s.iter().all(|x| x.start_ms == 0 && x.end_ms == 0));
}

#[test]
fn transcript_text_roundtrips() {
    let text = "第一句\n第二句";
    assert_eq!(transcript_text(&parse_transcript_text(text)), text);
}

#[test]
fn transcript_text_of_written_sentences_reads_back() {
    let ss = vec![sent(7, "甲", 1, 2), sent(9, "乙 丙", 3, 4)];
    let back = parse_transcript_text(&transcript_text(&ss));
    assert_eq!(back.iter().map(|s| s.text.as_str()).collect::<Vec<_>>(), vec!["甲", "乙 丙"]);
}

#[test]
fn count_chars_ignores_whitespace() {
    let s = vec![sent(1, "你好 世界", 0, 1000)];
    assert_eq!(count_chars(&s), 4);
}

#[test]
fn chat_url_joins_without_double_slash() {
    assert_eq!(chat_url("https://api.x.com/v1/"), "https://api.x.com/v1/chat/completions");
    assert_eq!(chat_url("https://api.x.com/v1"), "https://api.x.com/v1/chat/completions");
}

#[test]
fn sse_parser_handles_multi_chunk_and_utf8_split() {
    let raw = "data: {\"choices\":[{\"delta\":{\"content\":\"你好\"}}]}\n\n\
               data: {\"choices\":[{\"delta\":{\"content\":\"世界\"}}]}\n\n\
               data: [DONE]\n\n";
    let mut p = SseParser::new();
    let mut datas = Vec::new();
    for b in raw.as_bytes() {
        datas.extend(p.push(&[*b]));
    }
    assert_eq!(datas.len(), 2);
    assert!(datas[0].contains("你好"));
    assert!(datas[1].contains("世界"));
    assert!(!datas.iter().any(|d| d.contains("DONE")));
}

#[test]
fn sse_parser_handles_crlf_and_ignores_comment_lines() {
    let raw = ": keep-alive\r\ndata: {\"x\":1}\r\n\r\ndata: [DONE]\r\n";
    let mut p = SseParser::new();
    let datas = p.push(raw.as_bytes());
    assert_eq!(datas, vec![r#"{"x":1}"#.to_string()]);
}

#[test]
fn format_duration_variants() {
    assert_eq!(format_duration(0), "0 秒");
    assert_eq!(format_duration(59_000), "59 秒");
    assert_eq!(format_duration(187_400), "3 分 07 秒");
    assert_eq!(format_duration(600_000), "10 分 00 秒");
}

#[test]
fn truncate_respects_char_boundaries() {
    assert_eq!(truncate("abcdef", 3), "abc…");
    assert_eq!(truncate("短", 5), "短");
}

#[test]
fn merge_qa_answers_renumbers_globally_and_counts_lines() {
    let qa = vec![
        qa_item("第一题？", "开场", "第一题答句甲\n第一题答句乙", 60_000),
        qa_item("第二题？", "深挖", "  \n第二题答句丙", 0),
        qa_item("第三题？", "跳过", "", 0),
    ];
    let (sentences, counts) = merge_qa_answers(&qa);
    assert_eq!(counts, vec![2, 1, 0]);
    assert_eq!(sentences.iter().map(|s| s.id).collect::<Vec<_>>(), vec![1, 2, 3]);
    assert_eq!(sentences[2].text, "第二题答句丙");
}

#[test]
fn qa_total_duration_sums_known_durations() {
    let qa = vec![
        qa_item("a？", "x", "答", 60_000),
        QaItem { question: "b？".into(), intent: "y".into(), answer: String::new(), duration_ms: None },
        qa_item("c？", "z", "答", 30_000),
    ];
    assert_eq!(qa_total_duration_ms(&qa), 90_000);
}

#[test]
fn strip_score_marker_removes_marker_and_keeps_body() {
    let with = "## 八、下次练习重点\n1. 先给结论。\n\n<!--SCORE:{\"overall\":78}-->";
    let stripped = strip_score_marker(with);
    assert_eq!(stripped, "## 八、下次练习重点\n1. 先给结论。\n");
    assert!(!stripped.contains("SCORE"));
    let plain = "普通报告\n内容";
    assert_eq!(strip_score_marker(plain), plain);
    assert_eq!(strip_score_marker("正文\n<!--SCORE:{\"ov"), "正文");
    assert_eq!(strip_score_marker("a\n<!--SCORE:{}-->b"), "a\nb\n");
}

#[test]
fn conclusion_markers_are_detected() {
    assert!(has_conclusion_sentence(&[sent(1, "所以我的优势是稳。", 0, 0)]));
    assert!(!has_conclusion_sentence(&[sent(1, "我做了三年后端。", 0, 0)]));
    assert!(!has_conclusion_sentence(&[]));
}

#[test]
fn parse_score_marker_valid_cases() {
    let text = "## 八、下次练习重点\n1. 先给结论。\n\n<!--SCORE:{\"overall\":78,\"表达效率\":80}-->";
    let v = parse_score_marker(text).unwrap();
    assert_eq!(v["overall"], 78);
    assert_eq!(v["表达效率"], 80);
    let spaced = "正文\n<!--SCORE: {\"overall\": 60} -->尾";
    assert_eq!(parse_score_marker(spaced).unwrap()["overall"], 60);
    let twice = "<!--SCORE:{\"overall\":1}-->\n<!--SCORE:{\"overall\":2}-->";
    assert_eq!(parse_score_marker(twice).unwrap()["overall"], 1);
}

#[test]
fn parse_score_marker_tolerates_missing_and_malformed() {
    assert!(parse_score_marker("没有任何标记的报告").is_none());
    assert!(parse_score_marker("").is_none());
    assert!(parse_score_marker("<!--SCORE:{overall:78}-->").is_none());
    assert!(parse_score_marker("<!--SCORE:[1,2]-->").is_none());
    assert!(parse_score_marker("<!--SCORE:78-->").is_none());
    assert!(parse_score_marker("<!--SCORE:{\"overall\":78-->").is_none());
    assert!(parse_score_marker("<!--SCORE:{\"overall\":78}").is_none());
}

#[test]
fn extract_delta_reads_content() {
    let data = r#"{"choices":[{"delta":{"content":"评分"}}]}"#;
    assert_eq!(extract_delta(data).as_deref(), Some("评分"));
    assert_eq!(extract_delta(r#"{"choices":[{"delta":{"role":"assistant"}}]}"#), None);
    assert_eq!(extract_delta(r#"{"choices":[{"finish_reason":"stop"}]}"#), None);
    assert_eq!(extract_delta("not json"), None);
}

#[test]
fn reply_content_reads_message_or_empty() {
    let body = r#"{"choices":[{"message":{"role":"assistant","content":"先给结论"}}]}"#;
    assert_eq!(reply_content(body), Ok("先给结论".to_string()));
    assert_eq!(reply_content(r#"{"choices":[]}"#), Ok(String::new()));
    assert_eq!(reply_content(r#"{"choices":[{"message":{"content":7}}]}"#), Ok(String::new()));
    assert!(reply_content("<html>502</html>").is_err());
}
