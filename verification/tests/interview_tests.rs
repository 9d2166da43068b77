use express_trainer::interview::{parse_questions_reply, questions_from_items};
use express_trainer::interview::{offline_questions, role_label, validate_question_request, QUESTION_COUNTS, ROLES};
use express_trainer::interview_bank::{
    backend_bank, bank_for, frontend_bank, general_bank, management_bank, ops_bank, pick_offline, product_bank,
};

#[test]
fn banks_have_expected_sizes_and_nonempty_fields() {
    assert_eq!(general_bank().len(), 12);
    for (name, bank) in [
        ("backend", backend_bank()),
        ("frontend", frontend_bank()),
        ("product", product_bank()),
        ("ops", ops_bank()),
        ("management", management_bank()),
    ] {
        assert!((8..=10).contains(&bank.len()), "{name} 库容应在 8–10，实际 {}", bank.len());
    }
    for (name, bank) in [
        ("general", general_bank()),
        ("backend", backend_bank()),
        ("frontend", frontend_bank()),
        ("product", product_bank()),
        ("ops", ops_bank()),
        ("management", management_bank()),
    ] {
        for q in bank {
            assert!(!q.question.trim().is_empty(), "{name} 有空题面");
            assert!(!q.intent.trim().is_empty(), "{name} 有空考察点");
            assert!(q.question.chars().count() <= 60, "{name} 题面超长：{}", q.question);
        }
    }
}

#[test]
fn bank_for_maps_all_roles_and_custom_is_none() {
    for role in ["general", "backend", "frontend", "product", "ops", "management"] {
        assert!(bank_for(role).is_some(), "{role} 应有题库");
    }
    assert!(bank_for("custom").is_none());
    assert!(bank_for("bogus").is_none());
}

#[test]
fn pick_offline_is_unique_and_deterministic_per_seed() {
    let general = general_bank();
    let a = pick_offline(&general, 5, 42);
    let b = pick_offline(&general, 5, 42);
    assert_eq!(a, b, "同种子应完全一致");
    assert_eq!(a.len(), 5);
    let mut seen = std::collections::HashSet::new();
    for (_, q, _) in &a {
        assert!(seen.insert(*q), "出现重复题：{q}");
    }
    for (n, (i, _, _)) in a.iter().enumerate() {
        assert_eq!(*i, n as u32 + 1);
    }
    let c = pick_offline(&general, 5, 43);
    assert_ne!(a, c);
}

#[test]
fn pick_offline_caps_at_bank_size_and_handles_zero() {
    let backend = backend_bank();
    assert_eq!(pick_offline(&backend, 99, 7).len(), backend.len());
    assert!(pick_offline(&general_bank(), 0, 7).is_empty());
}

#[test]
fn pick_offline_zero_seed_still_shuffles_whole_bank() {
    let general = general_bank();
    let all = pick_offline(&general, 12, 0);
    let mut qs: Vec<&str> = all.iter().map(|(_, q, _)| *q).collect();
    qs.sort();
    let mut expect: Vec<&str> = general.iter().map(|b| b.question).collect();
    expect.sort();
    assert_eq!(qs, expect);
}

#[test]
fn role_labels_cover_whitelist() {
    assert_eq!(role_label("general"), "通用面试");
    assert_eq!(role_label("backend"), "后端开发");
    assert_eq!(role_label("custom"), "自定义岗位");
    assert_eq!(role_label("unknown"), "通用面试");
    assert_eq!(ROLES.len(), 7);
    assert_eq!(QUESTION_COUNTS, [3, 5, 8]);
}

#[test]
fn offline_questions_use_role_bank_and_cap_count() {
    let qs = offline_questions("backend", 5, 42);
    assert_eq!(qs.len(), 5);
    assert_eq!(qs[0].index, 1);
    let bank_q: std::collections::HashSet<&str> = backend_bank().iter().map(|b| b.question).collect();
    assert!(qs.iter().all(|q| bank_q.contains(q.question.as_str())));
    let general = offline_questions("custom", 3, 7);
    assert_eq!(general.len(), 3);
    let general_q: std::collections::HashSet<&str> = general_bank().iter().map(|b| b.question).collect();
    assert!(general.iter().all(|q| general_q.contains(q.question.as_str())));
}

#[test]
fn question_requests_are_checked() {
    assert!(validate_question_request("backend", 5, None).is_ok());
    assert_eq!(
        validate_question_request("bogus", 5, None).unwrap_err(),
        "未知岗位方向：bogus（支持 general / backend / frontend / product / ops / management / custom）"
    );
    assert_eq!(validate_question_request("general", 4, None).unwrap_err(), "题数仅支持 3 / 5 / 8（收到 4）");
    assert_eq!(validate_question_request("custom", 3, Some("  ")).unwrap_err(), "自定义岗位必须填写职位描述（JD）");
    assert!(validate_question_request("custom", 3, Some("负责推荐系统")).is_ok());
}

#[test]
fn parse_plain_array_and_reindexes() {
    let reply = r#"[
        {"index": 5, "question": "第一题？", "intent": "自我介绍"},
        {"index": 9, "question": "第二题？", "intent": "项目深挖"}
    ]"#;
    let qs = parse_questions_reply(reply, 2).unwrap();
    assert_eq!(qs.len(), 2);
    assert_eq!(qs[0].index, 1);
    assert_eq!(qs[1].index, 2);
    assert_eq!(qs[0].question, "第一题？");
    assert_eq!(qs[1].intent, "项目深挖");
}

#[test]
fn parse_tolerates_fences_and_surrounding_text() {
    let reply = "好的，以下是题目：\n```json\n[{\"question\":\"题一？\",\"intent\":\"动机\"},{\"question\":\"题二？\"}]\n```\n以上。";
    let qs = parse_questions_reply(reply, 2).unwrap();
    assert_eq!(qs.len(), 2);
    assert_eq!(qs[1].intent, "综合考察");
}

#[test]
fn parse_rejects_bad_outputs() {
    assert!(parse_questions_reply(r#"[{"question":"只有一道？","intent":"a"}]"#, 3).is_none());
    assert!(parse_questions_reply(r#"[{"question":"  ","intent":"a"},{"question":"x？","intent":"b"}]"#, 2).is_none());
    assert!(parse_questions_reply(r#"[{"question":"同题？","intent":"a"},{"question":"同题？","intent":"b"}]"#, 2).is_none());
    assert!(parse_questions_reply("不会出题", 3).is_none());
    assert!(parse_questions_reply(r#"{"question":"x？"}"#, 3).is_none());
    assert!(parse_questions_reply("[{bad json}]", 3).is_none());
    assert!(parse_questions_reply("", 3).is_none());
}

#[test]
fn questions_from_items_checks_each_item() {
    let items = vec![(Some(" 甲？ ".to_string()), Some("  ".to_string())), (Some("乙？".to_string()), Some("考".to_string()))];
    let qs = questions_from_items(items.clone(), 2).unwrap();
    assert_eq!((qs[0].index, qs[0].question.as_str(), qs[0].intent.as_str()), (1, "甲？", "综合考察"));
    assert_eq!((qs[1].index, qs[1].question.as_str(), qs[1].intent.as_str()), (2, "乙？", "考"));
    assert!(questions_from_items(items, 3).is_none());
    assert!(questions_from_items(vec![(None, Some("x".to_string()))], 1).is_none());
}
