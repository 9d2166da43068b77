use express_trainer::report::{
    build_local_report, local_mock_qa_section, merge_qa_answers, parse_transcript_text, transcript_text,
    PreviousFigures, QaItem, ReportFigures,
};
use express_trainer::rules::engine::{collect_rule_events, RuleEngine, SnapshotCounts};
use express_trainer::rules::lexicon::{EmotionGroup, Fillers, LexiconEn, LexiconV2};
use express_trainer::rules::{FeedbackEvent, FeedbackKind, Payload, Sentence};

fn strs(ws: &[&str]) -> Vec<String> {
    ws.iter().map(|w| w.to_string()).collect()
}

fn pairs(es: &[(&str, &[&str])]) -> Vec<(String, Vec<String>)> {
    es.iter().map(|(k, v)| (k.to_string(), strs(v))).collect()
}

fn zh() -> LexiconV2 {
    LexiconV2 {
        fillers: Fillers { high: strs(&["然后", "那个", "就是"]), medium: strs(&["其实"]) },
        hedges: strs(&["可能", "大概", "应该"]),
        vague_to_precise: pairs(&[("很多", &["大量", "众多"]), ("东西", &["物品"])]),
        emotion_words: vec![(
            "乐".to_string(),
            EmotionGroup { description: "喜悦".to_string(), words: vec![("开心".to_string(), 5)] },
        )],
        time_vague: Vec::new(),
        imagery_pairs: Vec::new(),
        hedge_to_direct_map: Vec::new(),
    }
}

fn en() -> LexiconEn {
    LexiconEn { fillers: Fillers { high: strs(&["um"]), medium: Vec::new() }, hedges: Vec::new(), vague_to_precise: Vec::new() }
}

fn sent(id: u64, text: &str, start_ms: u64, end_ms: u64) -> Sentence {
    Sentence { id, text: text.into(), start_ms, end_ms }
}

fn qa_item(question: &str, intent: &str, answer: &str, duration_ms: u64) -> QaItem {
    QaItem { question: question.into(), intent: intent.into(), answer: answer.into(), duration_ms: Some(duration_ms) }
}

fn round1(x: f64) -> f64 {
    (x * 10.0).round() / 10.0
}

fn tenths(x: f64) -> u64 {
    (x * 10.0).round() as u64
}

/// The figures the app derives from a snapshot: the rates at one decimal place.
fn figures(c: &SnapshotCounts) -> ReportFigures {
    let minutes = c.duration_ms as f64 / 60_000.0;
    let per_min = |n: f64| if minutes > 0.0 { round1(n / minutes) } else { 0.0 };
    ReportFigures {
        duration_ms: c.duration_ms,
        sentence_count: c.sentence_count,
        total_chars: c.total_chars,
        speech_rate_tenths: tenths(per_min(c.total_chars as f64)),
        avg_sentence_chars_tenths: if c.sentence_count > 0 {
            tenths(round1(c.total_chars as f64 / c.sentence_count as f64))
        } else {
            0
        },
        filler_per_minute_tenths: tenths(per_min(c.total_fillers as f64)),
        filler_counts: c.filler_counts.clone(),
        hedge_counts: c.hedge_counts.clone(),
        hedge_total: c.hedge_total,
    }
}

fn engine_figures(sentences: &[Sentence]) -> ReportFigures {
    let mut engine = RuleEngine::new(&zh(), &en());
    engine.start(0);
    engine.replay(sentences);
    figures(&engine.snapshot_counts())
}

fn empty_figures() -> ReportFigures {
    let engine = RuleEngine::new(&zh(), &en());
    figures(&engine.snapshot_counts())
}

fn report(
    scenario: &str,
    topic: Option<&str>,
    sentences: &[Sentence],
    f: &ReportFigures,
    events: &[FeedbackEvent],
    previous: Option<&PreviousFigures>,
    candidates: &[String],
    qa: Option<&[QaItem]>,
) -> String {
    build_local_report(scenario, topic, sentences, f, events, previous, "", "", candidates, qa, &zh())
}

#[test]
fn replay_shows_repetition_and_precision() {
    let sentences = vec![
        sent(1, "这个系统可以实时分析你的表达问题", 0, 1000),
        sent(2, "这个系统可以实时分析你的表达问题啊", 1000, 2000),
        sent(3, "然后我想说很多", 2000, 3000),
    ];
    let events = collect_rule_events(&sentences, &zh(), &en());
    assert!(events.iter().any(|e| e.kind == FeedbackKind::Repetition));
    assert!(events.iter().any(|e| e.kind == FeedbackKind::WordPrecision));
    // the same transcript always gives the same events
    let again = collect_rule_events(&sentences, &zh(), &en());
    assert_eq!(events.len(), again.len());
}

#[test]
fn local_report_renders_stats_fillers_and_events() {
    let sentences = vec![
        sent(1, "然后我想要很多东西", 0, 30_000),
        sent(2, "然后这个系统可以实时分析你的表达问题啊", 30_000, 60_000),
        sent(3, "这个系统可以实时分析你的表达问题呢", 60_000, 90_000),
    ];
    let f = engine_figures(&sentences);
    let events = collect_rule_events(&sentences, &zh(), &en());
    let md = report("free", Some("自律"), &sentences, &f, &events, None, &[], None);
    assert!(md.contains("# 表达训练 · 本地报告"));
    assert!(md.contains("- 场景：自由练习"));
    assert!(md.contains("- 主题：自律"));
    assert!(md.contains("## 数据统计"));
    assert!(md.contains("## 口头禅"));
    assert!(md.contains("| 然后 | 2 |"));
    assert!(md.contains("## 规则事件汇总"));
    assert!(md.contains("重复"));
    assert!(md.contains("词汇精确度"));
    assert!(md.contains("## 逐字稿"));
    assert!(md.contains("1. 然后我想要很多东西"));
    assert!(!md.contains("| 口头禅 |"));
    assert!(!md.contains("怎么说的"));
    assert!(!md.contains("对比上次"));
    assert!(!md.contains("## 亮点"));
    assert!(!md.contains("词库候选"));
}

#[test]
fn local_report_stats_table_exact_rows() {
    let sentences = vec![sent(1, "然后我想要很多东西", 0, 30_000), sent(2, "然后就是这样", 30_000, 90_000)];
    let f = engine_figures(&sentences);
    let md = report("free", None, &sentences, &f, &[], None, &[], None);
    // 15 characters over 1.5 minutes: 10 per minute; 7.5 per sentence
    assert!(md.contains("| 时长 | 1 分 30 秒 |\n| 句数 | 2 |\n| 字数 | 15 |\n| 语速 | 10 字/分钟 |\n| 平均句长 | 7.5 字 |\n"));
    // 然后 twice in 1.5 minutes → 1.3 per minute; 就是 once → 0.7
    assert!(md.contains("| 然后 | 2 | 1.3 次/分钟 |\n"));
    assert!(md.contains("| 就是 | 1 | 0.7 次/分钟 |\n"));
    assert!(md.contains("\n合计 3 次，总频率 2 次/分钟。\n"));
    assert!(md.contains("本次练习未触发规则提醒。"));
}

#[test]
fn local_report_handles_empty_session() {
    let md = report("interview", None, &[], &empty_figures(), &[], None, &[], None);
    assert!(md.contains("- 场景：面试回答"));
    assert!(md.contains("没有识别到句子"));
    assert!(!md.contains("## 数据统计"));
}

#[test]
fn local_report_labels_new_scenarios() {
    let md = report("vlog", None, &[], &empty_figures(), &[], None, &[], None);
    assert!(md.contains("- 场景：口播视频"));
    let md = report("workreport", Some("Q3 进展"), &[], &empty_figures(), &[], None, &[], None);
    assert!(md.contains("- 场景：工作汇报"));
    assert!(md.contains("- 主题：Q3 进展"));
}

#[test]
fn local_report_renders_golden_quotes_and_candidate_hint() {
    let sentences = vec![
        sent(1, "这就像把 3 个月的工作压缩到 3 周", 0, 60_000),
        sent(2, "写周报就像照镜子，一目了然、毫不留情", 60_000, 120_000),
        sent(3, "普通的一句过渡", 120_000, 150_000),
    ];
    let events = collect_rule_events(&sentences, &zh(), &en());
    assert!(events.iter().any(|e| e.kind == FeedbackKind::GoldenQuote));
    let md = report(
        "free",
        None,
        &sentences,
        &empty_figures(),
        &events,
        None,
        &["颗粒度".to_string(), "抓手".to_string()],
        None,
    );
    assert!(md.contains("## 亮点"));
    assert!(md.contains("「#1」"));
    assert!(md.contains("金句信号"));
    assert!(!md.contains("| 金句 |"));
    assert!(md.contains("发现高频词 颗粒度、抓手 未收录"));
    assert!(md.contains("设置 → 词库候选"));
}

#[test]
fn local_report_renders_voice_and_previous_sections() {
    let sentences = vec![sent(1, "然后我想聊聊知识管理", 0, 120_000)];
    let mut f = engine_figures(&sentences);
    f.speech_rate_tenths = 2000;
    f.filler_per_minute_tenths = 30;
    f.avg_sentence_chars_tenths = 160;
    let events = collect_rule_events(&sentences, &zh(), &en());
    let prev = PreviousFigures {
        date: "2026-08-29 10:00:00".into(),
        filler_per_minute_tenths: 42,
        speech_rate_tenths: 2300,
        avg_sentence_chars_tenths: 180,
    };
    let voice = "## 怎么说的（声音）\n\n- 失控停顿：1 次\n\n";
    let md = build_local_report("free", None, &sentences, &f, &events, Some(&prev), voice, "", &[], None, &zh());
    assert!(md.contains("## 怎么说的（声音）"));
    assert!(md.contains("失控停顿：1 次"));
    assert!(md.contains("## 对比上次"));
    assert!(md.contains("上次（2026-08-29）"));
    assert!(md.contains("口头禅 4.2 → 本次 3.0 次/分钟"));
    assert!(md.contains("语速 230.0 → 200.0 字/分钟"));
    assert!(md.contains("平均句长 18.0 → 16.0 字"));
    // sections stand in order: statistics, voice, fillers, events, comparison, transcript
    let at = |s: &str| md.find(s).unwrap();
    assert!(at("## 数据统计") < at("## 怎么说的") && at("## 怎么说的") < at("## 口头禅"));
    assert!(at("## 规则事件汇总") < at("## 对比上次") && at("## 对比上次") < at("## 逐字稿"));
}

#[test]
fn degraded_flow_from_engine_through_correction_to_local_report() {
    let mut engine = RuleEngine::new(&zh(), &en());
    engine.start(0);
    engine.ingest(sent(1, "然后我想聊聊只是管理这个话题", 0, 62_100));
    engine.ingest(sent(2, "就是很多人觉得只是管理就是记笔记", 62_100, 124_800));
    let sentences = engine.sentences().to_vec();
    let c = engine.snapshot_counts();
    assert_eq!(c.sentence_count, 2);
    assert!(c.total_chars > 0);
    let f = figures(&c);
    assert!(f.speech_rate_tenths > 0);
    let corrected_text = transcript_text(&sentences).replace("只是", "知识");
    let corrected = parse_transcript_text(&corrected_text);
    assert!(corrected.iter().all(|s| s.text.contains("知识")));
    let events = collect_rule_events(&corrected, &zh(), &en());
    let md = report("free", Some("知识管理"), &corrected, &f, &events, None, &[], None);
    assert!(md.contains("知识管理"));
    assert!(md.contains("## 数据统计"));
    assert!(md.contains("## 口头禅"));
    assert!(md.contains("## 逐字稿"));
    assert!(md.contains("知识管理这个话题"));
}

#[test]
fn local_mock_qa_section_renders_mechanical_stats() {
    let qa = vec![
        qa_item("请自我介绍？", "开场", "我做了三年后端。\n所以我的优势是稳。", 60_000),
        qa_item("讲个失败经历？", "复盘", "", 0),
    ];
    let md = local_mock_qa_section(&qa, &zh());
    assert!(md.contains("## 逐题速览"));
    assert!(md.contains("| 1. 请自我介绍？ |"));
    assert!(md.contains("| 有 |"));
    assert!(md.contains("| 2. 讲个失败经历？ | — | — | 未作答 |"));
    assert!(md.contains("机械统计"));
}

#[test]
fn local_report_with_qa_renders_mock_section_and_scenario_label() {
    let qa = vec![qa_item("为什么离职？", "动机", "我想找更大的舞台。", 45_000)];
    let (sentences, counts) = merge_qa_answers(&qa);
    assert_eq!(counts, vec![1]);
    let mut f = engine_figures(&sentences);
    f.duration_ms = 45_000;
    let events = collect_rule_events(&sentences, &zh(), &en());
    let md = report("mockInterview", Some("后端开发"), &sentences, &f, &events, None, &[], Some(&qa));
    assert!(md.contains("- 场景：模拟面试"));
    assert!(md.contains("- 主题：后端开发"));
    assert!(md.contains("## 逐题速览"));
    assert!(md.contains("为什么离职"));
    let plain = report("free", None, &sentences, &f, &events, None, &[], None);
    assert!(!plain.contains("逐题速览"));
}

#[test]
fn local_report_caps_event_table_at_forty_rows() {
    let sentences = vec![sent(1, "句子", 0, 1000)];
    let mut events: Vec<FeedbackEvent> = (1..=45)
        .map(|i| FeedbackEvent {
            kind: FeedbackKind::ConclusionMissing,
            sentence_id: Some(i),
            message: format!("提示{i}"),
            payload: Payload::Streak { streak: 3 },
        })
        .collect();
    events.push(FeedbackEvent {
        kind: FeedbackKind::FillerWord,
        sentence_id: None,
        message: "口头禅提示".into(),
        payload: Payload::Streak { streak: 1 },
    });
    let md = report("free", None, &sentences, &empty_figures(), &events, None, &[], None);
    let rows = md.lines().filter(|l| l.starts_with("| 结论缺失 |")).count();
    assert_eq!(rows, 40);
    assert!(md.contains("| 结论缺失 | #40 | 提示40 |\n"));
    assert!(!md.contains("提示41"));
    assert!(md.contains("\n（其余 5 条略）\n"));
    assert!(!md.contains("口头禅提示"));
    // events without a sentence show a dash
    let one = vec![FeedbackEvent {
        kind: FeedbackKind::AiCheckin,
        sentence_id: None,
        message: "该收结论了".into(),
        payload: Payload::Streak { streak: 0 },
    }];
    let md = report("free", None, &sentences, &empty_figures(), &one, None, &[], None);
    assert!(md.contains("| AI 快评 | — | 该收结论了 |\n"));
}
