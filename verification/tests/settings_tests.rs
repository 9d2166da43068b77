use express_trainer::settings::hotwords_file_body;
use express_trainer::settings::{
    apply_corrections, can_call_remote, default_checkin_interval_sec, normalize_checkin_interval,
    normalize_choice, parse_correction_map, parse_custom_fillers, parse_hotwords, preset_for,
    resolve_endpoint, Correction, BACKENDS, SCENARIOS, VAD_SENSITIVITIES,
};

#[test]
fn presets_cover_all_non_custom_backends() {
    for b in BACKENDS {
        if b == "custom" {
            assert!(preset_for(b).is_none());
        } else {
            let p = preset_for(b).unwrap();
            assert!(p.base_url.starts_with("http"));
            assert!(!p.model.is_empty());
        }
    }
}

#[test]
fn parse_custom_fillers_splits_and_dedupes() {
    assert_eq!(
        parse_custom_fillers("老铁, 绝绝子，就是说、 老铁 "),
        vec!["老铁".to_string(), "绝绝子".to_string(), "就是说".to_string()]
    );
    assert!(parse_custom_fillers("  ，,、 ").is_empty());
    assert!(parse_custom_fillers("").is_empty());
}

#[test]
fn parse_hotwords_splits_across_commas_and_lines() {
    assert_eq!(
        parse_hotwords("DeepSeek, 米糕\n大模型，、小米；\r\nDeepSeek"),
        vec!["DeepSeek".to_string(), "米糕".to_string(), "大模型".to_string(), "小米".to_string()]
    );
    assert!(parse_hotwords("  ，,、 \n\r ").is_empty());
    assert!(parse_hotwords("").is_empty());
}

#[test]
fn parse_correction_map_accepts_arrow_equals_and_skips_bad_lines() {
    let raw = "深seek->DeepSeek\n大模 型→大模型\nai = AI\n没有分隔符\n->只有对\n只有错->\n深seek->另一个";
    let map = parse_correction_map(raw);
    assert_eq!(
        map,
        vec![
            Correction { from: "深seek".into(), to: "DeepSeek".into() },
            Correction { from: "大模 型".into(), to: "大模型".into() },
            Correction { from: "ai".into(), to: "AI".into() },
        ]
    );
    assert!(parse_correction_map("").is_empty());
    assert!(parse_correction_map("\n  \n").is_empty());
}

#[test]
fn apply_corrections_replaces_longest_first_and_keeps_plain_text() {
    let map = parse_correction_map("深seek->DeepSeek\n深->神");
    assert_eq!(apply_corrections("我常用深seek做开发", &map), "我常用DeepSeek做开发");
    assert_eq!(apply_corrections("这段话很深奥", &map), "这段话很神奥");
    assert_eq!(apply_corrections("深思考", &parse_correction_map("深->神")), "神思考");
    assert_eq!(apply_corrections("原文", &[]), "原文");
    assert_eq!(apply_corrections("", &map), "");
}

#[test]
fn corrections_replace_every_occurrence_once() {
    let map = vec![Correction { from: "a".into(), to: "aa".into() }];
    assert_eq!(apply_corrections("abca", &map), "aabcaa");
    let tie = vec![
        Correction { from: "ab".into(), to: "X".into() },
        Correction { from: "bc".into(), to: "Y".into() },
    ];
    assert_eq!(apply_corrections("abc", &tie), "Xc");
}

#[test]
fn resolve_falls_back_to_preset_when_blank() {
    let (base, model) = resolve_endpoint("deepseek", "  ", "").unwrap();
    assert_eq!(base, "https://api.deepseek.com/v1");
    assert_eq!(model, "deepseek-chat");
}

#[test]
fn resolve_honors_user_override() {
    let (base, model) = resolve_endpoint("deepseek", "https://my-proxy.example.com/v1", "my-model").unwrap();
    assert_eq!(base, "https://my-proxy.example.com/v1");
    assert_eq!(model, "my-model");
}

#[test]
fn resolve_fails_for_custom_without_base_url() {
    assert!(resolve_endpoint("custom", "", "").is_none());
    assert!(resolve_endpoint("custom", "https://x", "").is_none());
    assert!(resolve_endpoint("custom", "https://x", "m").is_some());
}

#[test]
fn ollama_needs_no_key_others_do() {
    assert!(!can_call_remote("deepseek", ""));
    assert!(!can_call_remote("deepseek", "   "));
    assert!(can_call_remote("deepseek", "sk"));
    assert!(can_call_remote("ollama", ""));
}

#[test]
fn normalized_choices_and_interval() {
    assert_eq!(normalize_choice("bogus", &BACKENDS, "deepseek"), "deepseek");
    assert_eq!(normalize_choice("groq", &BACKENDS, "deepseek"), "groq");
    for sc in SCENARIOS {
        assert_eq!(normalize_choice(sc, &SCENARIOS, "free"), sc);
    }
    assert_eq!(normalize_choice("loud", &VAD_SENSITIVITIES, "standard"), "standard");
    assert_eq!(default_checkin_interval_sec(), 45);
    assert_eq!(normalize_checkin_interval(5), 15);
    assert_eq!(normalize_checkin_interval(9999), 45);
    assert_eq!(normalize_checkin_interval(0), 45);
    assert_eq!(normalize_checkin_interval(600), 600);
}

#[test]
fn hotwords_file_has_one_word_per_line() {
    assert_eq!(hotwords_file_body("  "), None);
    assert_eq!(hotwords_file_body("SpeakMirror，知识管理\n知识管理").unwrap(), "SpeakMirror\n知识管理");
}
