use express_trainer::rules::engine::{EngineConfig, RuleEngine, ALL_RULES};
use express_trainer::rules::filler::{FillerTier, FillerWordsRule};
use express_trainer::rules::lexicon::{merge_user_lexicon, EmotionGroup, Fillers, LexiconEn, LexiconStore, LexiconV2, UserLexicon};
use express_trainer::rules::{EmotionAccumulator, FeedbackEvent, FeedbackKind, Sentence, SessionContext};

fn strs(ws: &[&str]) -> Vec<String> {
    ws.iter().map(|w| w.to_string()).collect()
}

fn pairs(es: &[(&str, &[&str])]) -> Vec<(String, Vec<String>)> {
    es.iter().map(|(k, v)| (k.to_string(), strs(v))).collect()
}

fn zh_lexicon() -> LexiconV2 {
    LexiconV2 {
        fillers: Fillers { high: strs(&["然后", "那个", "然后就是", "就是"]), medium: strs(&["其实"]) },
        hedges: strs(&["可能", "大概", "也许", "或许", "好像", "似乎", "估计", "八成", "差不多", "应该", "吧"]),
        vague_to_precise: pairs(&[("很多", &["大量", "众多"]), ("很好", &["出色", "扎实"])]),
        emotion_words: vec![(
            "乐".to_string(),
            EmotionGroup {
                description: "喜悦".to_string(),
                words: vec![("开心".to_string(), 5), ("狂喜".to_string(), 9)],
            },
        )],
        time_vague: vec![
            ("description".to_string(), "模糊时间词".to_string()),
            ("最近".to_string(), "给出具体的时间范围".to_string()),
        ],
        imagery_pairs: pairs(&[("很累", &["眼皮打架"])]),
        hedge_to_direct_map: Vec::new(),
    }
}

fn en_lexicon() -> LexiconEn {
    LexiconEn {
        fillers: Fillers { high: strs(&["um"]), medium: strs(&["basically"]) },
        hedges: strs(&["maybe"]),
        vague_to_precise: Vec::new(),
    }
}

fn sent(id: u64, text: &str, end_ms: u64) -> Sentence {
    Sentence { id, text: text.into(), start_ms: end_ms - 1000, end_ms }
}

fn kind_count(events: &[FeedbackEvent], k: FeedbackKind) -> usize {
    events.iter().filter(|e| e.kind == k).count()
}

fn config_without(name: &str) -> EngineConfig {
    let mut cfg = EngineConfig::default();
    cfg.enabled.retain(|n| n != name);
    cfg
}

#[test]
fn default_config_enables_every_rule() {
    let cfg = EngineConfig::default();
    assert_eq!(cfg.enabled.len(), ALL_RULES.len());
    for name in ALL_RULES {
        assert!(cfg.is_enabled(name));
    }
    assert!(!cfg.is_enabled("unknown_rule"));
    assert!(!config_without("hedge").is_enabled("hedge"));
}

#[test]
fn ingest_runs_rules_and_accumulates_stats() {
    let mut engine = RuleEngine::new(&zh_lexicon(), &en_lexicon());
    engine.start(0);
    let events = engine.ingest(sent(1, "然后我真的很开心", 60_000));
    assert_eq!(kind_count(&events, FeedbackKind::Emotion), 1);
    let snap = engine.snapshot_counts();
    assert_eq!(snap.sentence_count, 1);
    assert_eq!(snap.filler_counts, vec![("然后".to_string(), 1)]);
    assert_eq!(snap.total_fillers, 1);
    assert_eq!(snap.emotion_counts, vec![("乐".to_string(), EmotionAccumulator { count: 1, intensity_sum: 5 })]);
    assert_eq!(snap.duration_ms, 60_000);
}

#[test]
fn repetition_rule_sees_previous_sentences_via_ctx() {
    let mut engine = RuleEngine::new(&zh_lexicon(), &en_lexicon());
    engine.start(0);
    engine.ingest(sent(1, "这个系统可以实时分析你的表达问题", 60_000));
    let events = engine.ingest(sent(2, "这个系统可以实时分析你的表达问题啊", 120_000));
    assert!(events.iter().any(|e| e.kind == FeedbackKind::Repetition));
}

#[test]
fn snapshot_counts_chars_and_duration() {
    let mut engine = RuleEngine::new(&zh_lexicon(), &en_lexicon());
    engine.start(0);
    engine.ingest(Sentence { id: 1, text: "今天天气好".into(), start_ms: 0, end_ms: 60_000 });
    engine.ingest(Sentence { id: 2, text: "明天天气预报说会下雨".into(), start_ms: 60_000, end_ms: 180_000 });
    let snap = engine.snapshot_counts();
    assert_eq!(snap.total_chars, 15);
    assert_eq!(snap.duration_ms, 180_000);
    assert_eq!(snap.sentence_count, 2);
}

#[test]
fn snapshot_empty_before_any_sentence() {
    let mut engine = RuleEngine::new(&zh_lexicon(), &en_lexicon());
    engine.start(5_000);
    let snap = engine.snapshot_counts();
    assert_eq!(snap.total_chars, 0);
    assert_eq!(snap.sentence_count, 0);
    assert_eq!(snap.duration_ms, 0);
    assert!(engine.sentences().is_empty());
}

#[test]
fn sentences_getter_returns_final_sentences() {
    let mut engine = RuleEngine::new(&zh_lexicon(), &en_lexicon());
    engine.start(0);
    engine.ingest(sent(1, "第一句", 30_000));
    engine.ingest(sent(2, "第二句", 60_000));
    let texts: Vec<&str> = engine.sentences().iter().map(|s| s.text.as_str()).collect();
    assert_eq!(texts, vec!["第一句", "第二句"]);
}

#[test]
fn same_kind_events_cooldown_three_sentences() {
    let mut engine = RuleEngine::new(&zh_lexicon(), &en_lexicon());
    engine.start(0);
    let e1 = engine.ingest(sent(1, "可能大概是这样", 10_000));
    assert_eq!(kind_count(&e1, FeedbackKind::Hedge), 1);
    let e2 = engine.ingest(sent(2, "也许或许有变化", 20_000));
    assert_eq!(kind_count(&e2, FeedbackKind::Hedge), 0);
    let e3 = engine.ingest(sent(3, "好像似乎差不多", 30_000));
    assert_eq!(kind_count(&e3, FeedbackKind::Hedge), 0);
    let e4 = engine.ingest(sent(4, "估计八成是这样", 40_000));
    assert_eq!(kind_count(&e4, FeedbackKind::Hedge), 0);
    let e5 = engine.ingest(sent(5, "应该差不多吧", 50_000));
    assert_eq!(kind_count(&e5, FeedbackKind::Hedge), 1);
}

#[test]
fn cooldown_does_not_block_other_rules() {
    let mut engine = RuleEngine::new(&zh_lexicon(), &en_lexicon());
    engine.start(0);
    let e = engine.ingest(sent(1, "可能大概是这样", 10_000));
    assert!(e.iter().any(|e2| e2.kind == FeedbackKind::Hedge));
    let e = engine.ingest(sent(2, "最近我在想时间管理的问题", 20_000));
    assert!(e.iter().any(|e2| e2.kind == FeedbackKind::TimeVague));
}

#[test]
fn hedge_stats_count_even_single_occurrence_and_no_event() {
    let mut engine = RuleEngine::new(&zh_lexicon(), &en_lexicon());
    engine.start(0);
    let events = engine.ingest(sent(1, "可能是我记错了", 10_000));
    assert_eq!(kind_count(&events, FeedbackKind::Hedge), 0);
    let snap = engine.snapshot_counts();
    assert_eq!(snap.hedge_counts, vec![("可能".to_string(), 1)]);
    assert_eq!(snap.hedge_total, 1);
}

#[test]
fn hedge_stats_survive_rule_disabled() {
    let mut engine = RuleEngine::from_config(config_without("hedge"), &zh_lexicon(), &en_lexicon());
    engine.start(0);
    let events = engine.ingest(sent(1, "可能大概是这样", 10_000));
    assert!(events.iter().all(|e| e.kind != FeedbackKind::Hedge));
    assert_eq!(engine.snapshot_counts().hedge_total, 2);
}

#[test]
fn filler_stats_count_medium_tier() {
    let mut engine = RuleEngine::new(&zh_lexicon(), &en_lexicon());
    engine.start(0);
    engine.ingest(sent(1, "其实我今天想聊聊计划", 300_000));
    let snap = engine.snapshot_counts();
    assert!(snap.filler_counts.contains(&("其实".to_string(), 1)));
}

#[test]
fn custom_fillers_counted_in_stats_and_hits() {
    let mut cfg = EngineConfig::default();
    cfg.custom_fillers = vec!["老铁".to_string(), "".to_string(), "然后".to_string()];
    let mut engine = RuleEngine::from_config(cfg, &zh_lexicon(), &en_lexicon());
    engine.start(0);
    let s = sent(1, "老铁们看过来", 10_000);
    let hits = engine.filler_hits(&s);
    assert_eq!(hits.len(), 1);
    assert_eq!(hits[0].word, "老铁");
    assert_eq!(hits[0].tier, FillerTier::Custom);
    engine.ingest(s);
    assert!(engine.snapshot_counts().filler_counts.contains(&("老铁".to_string(), 1)));
}

#[test]
fn filler_hits_report_tiers_and_running_totals() {
    let mut engine = RuleEngine::new(&zh_lexicon(), &en_lexicon());
    engine.start(0);
    engine.ingest(sent(1, "然后然后", 10_000));
    let s = sent(2, "然后那个然后就是", 60_000);
    let hits = engine.filler_hits(&s);
    let words: Vec<&str> = hits.iter().map(|h| h.word.as_str()).collect();
    assert_eq!(words, vec!["然后", "那个", "然后就是"]);
    assert_eq!(hits[0].tier, FillerTier::High);
    assert_eq!(hits[0].count_in_sentence, 1);
    assert_eq!(hits[0].word_total, 3);
    assert_eq!(hits[0].cumulative_total, 3);
    assert_eq!(hits[1].cumulative_total, 4);
    assert_eq!(hits[2].cumulative_total, 5);
    assert!(!hits[0].english);
}

#[test]
fn filler_rule_routes_english_words_to_the_english_list() {
    let rule = FillerWordsRule::with_lexicon(&zh_lexicon(), &en_lexicon(), &strs(&["you know", "老铁"]));
    let ctx = SessionContext::default();
    let s = Sentence { id: 1, text: "然后 um you know basically".into(), start_ms: 0, end_ms: 1000 };
    let hits = rule.hits(&s, &ctx);
    let words: Vec<(&str, bool, FillerTier)> = hits.iter().map(|h| (h.word.as_str(), h.english, h.tier)).collect();
    assert_eq!(
        words,
        vec![
            ("然后", false, FillerTier::High),
            ("um", true, FillerTier::High),
            ("you know", true, FillerTier::Custom),
            ("basically", true, FillerTier::Medium),
        ]
    );
    assert!(rule.hits(&Sentence { id: 2, text: "今天介绍产品设计的三个要点".into(), start_ms: 0, end_ms: 1000 }, &ctx).is_empty());
}

#[test]
fn emotion_stats_aggregate_count_and_intensity() {
    let mut engine = RuleEngine::new(&zh_lexicon(), &en_lexicon());
    engine.start(0);
    engine.ingest(sent(1, "我特别开心", 10_000));
    engine.ingest(sent(2, "简直是狂喜", 20_000));
    let snap = engine.snapshot_counts();
    assert_eq!(snap.emotion_counts, vec![("乐".to_string(), EmotionAccumulator { count: 2, intensity_sum: 14 })]);
}

#[test]
fn disabled_rule_not_installed() {
    let mut engine = RuleEngine::from_config(config_without("time_vague"), &zh_lexicon(), &en_lexicon());
    engine.start(0);
    let events = engine.ingest(sent(1, "最近我在想很多", 10_000));
    assert!(events.iter().all(|e| e.kind != FeedbackKind::TimeVague));
}

#[test]
fn golden_quote_cooldown_and_cap_with_stats() {
    let golden = "这就像把 3 个月的工作压缩到 3 周";
    let mut engine = RuleEngine::new(&zh_lexicon(), &en_lexicon());
    engine.start(0);
    assert_eq!(kind_count(&engine.ingest(sent(1, golden, 10_000)), FeedbackKind::GoldenQuote), 1);
    assert_eq!(kind_count(&engine.ingest(sent(2, golden, 20_000)), FeedbackKind::GoldenQuote), 0);
    assert_eq!(kind_count(&engine.ingest(sent(3, golden, 30_000)), FeedbackKind::GoldenQuote), 0);
    assert_eq!(kind_count(&engine.ingest(sent(4, golden, 40_000)), FeedbackKind::GoldenQuote), 0);
    assert_eq!(kind_count(&engine.ingest(sent(5, golden, 50_000)), FeedbackKind::GoldenQuote), 0);
    assert_eq!(engine.snapshot_counts().golden_quote_count, 3);
}

#[test]
fn golden_quote_survives_cooldown_when_spaced_out() {
    let golden = "写周报就像照镜子，一目了然、毫不留情";
    let plain = "然后我们进入下一项议题的讨论";
    let mut engine = RuleEngine::new(&zh_lexicon(), &en_lexicon());
    engine.start(0);
    assert_eq!(kind_count(&engine.ingest(sent(1, golden, 10_000)), FeedbackKind::GoldenQuote), 1);
    for i in 2..=4 {
        engine.ingest(sent(i, plain, i * 10_000));
    }
    assert_eq!(kind_count(&engine.ingest(sent(5, golden, 50_000)), FeedbackKind::GoldenQuote), 1);
    assert_eq!(engine.snapshot_counts().golden_quote_count, 2);
}

#[test]
fn golden_quote_rule_can_be_disabled() {
    let mut engine = RuleEngine::from_config(config_without("golden_quote"), &zh_lexicon(), &en_lexicon());
    engine.start(0);
    let events = engine.ingest(sent(1, "这就像把 3 个月的工作压缩到 3 周", 10_000));
    assert!(events.iter().all(|e| e.kind != FeedbackKind::GoldenQuote));
    assert_eq!(engine.snapshot_counts().golden_quote_count, 0);
}

#[test]
fn filler_rule_off_gives_no_hits() {
    let engine = RuleEngine::from_config(config_without("filler_words"), &zh_lexicon(), &en_lexicon());
    assert!(engine.filler_hits(&sent(1, "然后然后", 1000)).is_empty());
}

#[test]
fn snapshot_lists_most_frequent_first() {
    let mut engine = RuleEngine::new(&zh_lexicon(), &en_lexicon());
    engine.start(0);
    engine.ingest(sent(1, "那个然后然后", 10_000));
    let snap = engine.snapshot_counts();
    assert_eq!(snap.filler_counts, vec![("然后".to_string(), 2), ("那个".to_string(), 1)]);
}

#[test]
fn has_room_for_ordinary_sentences() {
    let engine = RuleEngine::new(&zh_lexicon(), &en_lexicon());
    assert!(engine.has_room(&sent(1, "然后我们继续", 1000)));
}

// --- user lexicon -----------------------------------------------------------

#[test]
fn user_lexicon_overrides_and_extends_builtin() {
    let base = zh_lexicon();
    let user = UserLexicon {
        vague_to_precise: pairs(&[("很多", &["一大把", "成片"]), ("内卷", &["过度竞争", "非理性内耗"])]),
        fillers: strs(&["然后", "绝绝子"]),
    };
    let merged = merge_user_lexicon(&base, &user);
    let get = |k: &str| merged.vague_to_precise.iter().find(|(w, _)| w == k).map(|(_, v)| v.clone());
    assert_eq!(get("很多"), Some(strs(&["一大把", "成片"])));
    assert_eq!(get("内卷"), Some(strs(&["过度竞争", "非理性内耗"])));
    assert_eq!(merged.vague_to_precise.len(), base.vague_to_precise.len() + 1);
    assert!(merged.fillers.high.contains(&"绝绝子".to_string()));
    assert_eq!(merged.fillers.high.iter().filter(|w| *w == "然后").count(), 1);
    assert_eq!(merged.fillers.high.len(), base.fillers.high.len() + 1);
    assert_eq!(base.vague_to_precise.len(), 2);
    assert_eq!(merged.hedges, base.hedges);
}

#[test]
fn user_lexicon_skips_invalid_entries() {
    let base = zh_lexicon();
    let user = UserLexicon {
        vague_to_precise: pairs(&[("  ", &["替代"]), ("空替代", &["  ", ""])]),
        fillers: strs(&["  ", ""]),
    };
    let merged = merge_user_lexicon(&base, &user);
    assert_eq!(merged.vague_to_precise.len(), base.vague_to_precise.len());
    assert_eq!(merged.fillers.high.len(), base.fillers.high.len());
    assert!(UserLexicon::default().is_empty());
    assert!(!user.is_empty());
}

#[test]
fn user_entries_are_trimmed() {
    let user = UserLexicon { vague_to_precise: pairs(&[(" 内卷 ", &[" 过度竞争 ", " "])]), fillers: strs(&[" 老铁 "]) };
    let merged = merge_user_lexicon(&zh_lexicon(), &user);
    assert!(merged.vague_to_precise.contains(&("内卷".to_string(), strs(&["过度竞争"]))));
    assert_eq!(merged.fillers.high.last().map(|s| s.as_str()), Some("老铁"));
}

#[test]
fn applied_user_lexicon_is_in_effect_until_replaced() {
    let mut store = LexiconStore::new(zh_lexicon());
    assert_eq!(store.lexicon().vague_to_precise.len(), 2);
    let user = UserLexicon { vague_to_precise: pairs(&[("内卷", &["过度竞争"])]), fillers: Vec::new() };
    store.apply_user_lexicon(Some(&user));
    assert_eq!(store.lexicon().vague_to_precise.len(), 3);
    store.apply_user_lexicon(Some(&UserLexicon::default()));
    assert_eq!(store.lexicon().vague_to_precise.len(), 2);
    store.apply_user_lexicon(Some(&user));
    store.apply_user_lexicon(None);
    assert_eq!(store.lexicon().vague_to_precise.len(), 2);
}
