use express_trainer::checkin::{
    parse_checkin_reply, recent_before_text, truncate_chars, CheckinIssueKind, FailTracker,
    CHECKIN_MAX_CONSECUTIVE_FAILURES, MESSAGE_MAX_CHARS,
};
use express_trainer::rules::Sentence;

fn sent(id: u64, text: &str) -> Sentence {
    Sentence { id, text: text.into(), start_ms: 0, end_ms: id * 1000 }
}

#[test]
fn parse_ok_reply_is_silent() {
    assert!(parse_checkin_reply("OK").is_empty());
    assert!(parse_checkin_reply("  \nOK\n").is_empty());
    assert!(parse_checkin_reply("").is_empty());
    assert!(parse_checkin_reply("   ").is_empty());
}

#[test]
fn parse_three_lines_in_fixed_order() {
    let reply = "TOPIC 这几句在讲室友矛盾，与主题无关\n\
                 CONTRA 第 28 句说每天六点起床，第 33 句说睡到自然醒\n\
                 WRAP 观点已讲透且开始重复，建议收结论";
    let issues = parse_checkin_reply(reply);
    assert_eq!(issues.len(), 3);
    assert_eq!(issues[0].kind, CheckinIssueKind::Topic);
    assert_eq!(issues[1].kind, CheckinIssueKind::Contra);
    assert_eq!(issues[2].kind, CheckinIssueKind::Wrap);
    assert!(issues[0].message.contains("室友矛盾"));
}

#[test]
fn parse_ignores_malformed_lines() {
    let reply = "好的，检查结果如下\nTOPIC\nCONTRA\n随便一行\nOK\nTOPIC 只有这行有效";
    let issues = parse_checkin_reply(reply);
    assert_eq!(issues.len(), 1);
    assert_eq!(issues[0].kind, CheckinIssueKind::Topic);
    assert_eq!(issues[0].message, "只有这行有效");
}

#[test]
fn parse_truncates_overlong_line() {
    let long = "字".repeat(100);
    let reply = format!("WRAP {long}");
    let issues = parse_checkin_reply(&reply);
    assert_eq!(issues.len(), 1);
    assert_eq!(issues[0].message.chars().count(), MESSAGE_MAX_CHARS + 1);
    assert!(issues[0].message.ends_with('…'));
}

#[test]
fn parse_keeps_first_occurrence_of_duplicated_prefix() {
    let reply = "TOPIC 第一次\nTOPIC 第二次";
    let issues = parse_checkin_reply(reply);
    assert_eq!(issues.len(), 1);
    assert_eq!(issues[0].message, "第一次");
}

#[test]
fn recent_before_text_joins_earlier_sentences() {
    let s: Vec<Sentence> = (1..=8).map(|i| sent(i, &format!("第{i}句内容"))).collect();
    let text = recent_before_text(&s, 5).unwrap();
    assert!(text.starts_with("第 1–3 句："));
    assert!(text.contains("第3句内容"));
    assert!(recent_before_text(&s[..5], 5).is_none());
}

#[test]
fn truncate_chars_handles_short_and_long() {
    assert_eq!(truncate_chars("短句", 10), "短句");
    let cut = truncate_chars(&"字".repeat(80), 60);
    assert_eq!(cut.chars().count(), 61);
    assert!(cut.ends_with('…'));
}

#[test]
fn fail_tracker_disables_exactly_at_threshold() {
    let mut t = FailTracker::new();
    assert!(!t.is_disabled());
    assert_eq!(t.record_failure("超时"), None);
    assert_eq!(t.record_failure("HTTP 500"), None);
    assert!(!t.is_disabled());
    assert_eq!(t.record_failure("连接失败"), Some("连接失败".into()));
    assert!(t.is_disabled());
    assert_eq!(t.record_failure("又失败"), None);
    assert!(t.is_disabled());
}

#[test]
fn fail_tracker_success_resets_streak_but_not_disabled() {
    let mut t = FailTracker::new();
    t.record_failure("a");
    t.record_failure("b");
    t.record_success();
    assert_eq!(t.record_failure("c"), None);
    assert_eq!(t.record_failure("d"), None);
    assert_eq!(t.record_failure("e"), Some("e".into()));
    assert!(t.is_disabled());
    t.record_success();
    assert!(t.is_disabled());
    t.reset();
    assert!(!t.is_disabled());
}

#[test]
fn fail_tracker_never_fires_below_threshold_after_reset() {
    let mut t = FailTracker::new();
    t.record_failure("x");
    t.record_failure("y");
    t.reset();
    assert!(!t.is_disabled());
    assert_eq!(t.record_failure("z"), None);
    assert!(!t.is_disabled());
    assert_eq!(CHECKIN_MAX_CONSECUTIVE_FAILURES, 3);
}

#[test]
fn issue_kinds_have_stable_keys() {
    assert_eq!(CheckinIssueKind::Topic.key(), "topic");
    assert_eq!(CheckinIssueKind::Contra.key(), "contra");
    assert_eq!(CheckinIssueKind::Wrap.key(), "wrap");
}

#[test]
fn fail_tracker_counts_failures_since_latest_success_or_reset() {
    let mut t = FailTracker::new();
    assert_eq!(t.record_failure("a"), None);
    assert_eq!(t.record_failure("b"), None);
    t.record_success();
    assert_eq!(t.record_failure("c"), None);
    assert_eq!(t.record_failure("d"), None);
    assert_eq!(t.record_failure("e"), Some("e".to_string()));
    assert!(t.is_disabled());
    t.record_success();
    assert_eq!(t.record_failure("f"), None);
    assert!(t.is_disabled());
    t.reset();
    assert_eq!(t.record_failure("g"), None);
    assert_eq!(t.record_failure("h"), None);
    assert_eq!(t.record_failure("i"), Some("i".to_string()));
}
