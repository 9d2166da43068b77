use express_trainer::rules::emotion::EmotionRule;
use express_trainer::rules::golden_quote::GoldenQuoteRule;
use express_trainer::rules::hedge::HedgeRule;
use express_trainer::rules::imagery::ImageryRule;
use express_trainer::rules::lexicon::{EmotionGroup, Fillers, LexiconEn, LexiconV2};
use express_trainer::rules::precision::PrecisionRule;
use express_trainer::rules::repetition::{char_bigram_jaccard_parts, RepetitionRule};
use express_trainer::rules::structure::{ConclusionMissingRule, ExampleMissingRule};
use express_trainer::rules::time_vague::TimeVagueRule;
use express_trainer::rules::{FeedbackEvent, FeedbackKind, Payload, Sentence, SessionContext};

fn sent(id: u64, text: &str) -> Sentence {
    Sentence { id, text: text.into(), start_ms: 0, end_ms: id * 1000 }
}

fn strs(ws: &[&str]) -> Vec<String> {
    ws.iter().map(|w| w.to_string()).collect()
}

fn pairs(es: &[(&str, &[&str])]) -> Vec<(String, Vec<String>)> {
    es.iter().map(|(k, v)| (k.to_string(), strs(v))).collect()
}

/// A small Chinese lexicon holding the words these scenarios rely on.
fn zh_lexicon() -> LexiconV2 {
    LexiconV2 {
        fillers: Fillers { high: strs(&["然后", "那个", "然后就是", "就是"]), medium: strs(&["其实"]) },
        hedges: strs(&["可能", "大概", "我觉得", "我觉得吧", "还行", "可能吧", "也许", "或许", "好像", "似乎", "估计", "应该"]),
        vague_to_precise: pairs(&[
            ("想", &["渴望", "打算"]),
            ("想想", &["琢磨", "推敲"]),
            ("很好", &["出色", "扎实"]),
            ("东西", &["产品", "方案"]),
            ("很多", &["大量", "众多"]),
        ]),
        emotion_words: vec![
            (
                "乐".to_string(),
                EmotionGroup {
                    description: "喜悦".to_string(),
                    words: vec![("开心".to_string(), 5), ("狂喜".to_string(), 9)],
                },
            ),
            (
                "惧".to_string(),
                EmotionGroup { description: "害怕".to_string(), words: vec![("紧张".to_string(), 6)] },
            ),
            (
                "惊".to_string(),
                EmotionGroup {
                    description: "意外".to_string(),
                    words: vec![("吃惊".to_string(), 5), ("大吃一惊".to_string(), 7)],
                },
            ),
        ],
        time_vague: vec![
            ("description".to_string(), "模糊时间词".to_string()),
            ("最近".to_string(), "给出具体的时间范围，比如「过去两周」".to_string()),
            ("回头".to_string(), "说清楚具体哪天".to_string()),
            ("过几天".to_string(), "约一个明确日期".to_string()),
        ],
        imagery_pairs: pairs(&[
            ("很累", &["眼皮打架", "腿像灌了铅"]),
            ("很忙", &["连轴转到半夜", "饭都顾不上吃"]),
        ]),
        hedge_to_direct_map: vec![("description".to_string(), "弱化词替换".to_string())],
    }
}

/// A small English lexicon holding the words these scenarios rely on.
fn en_lexicon() -> LexiconEn {
    LexiconEn {
        fillers: Fillers { high: strs(&["um", "like"]), medium: strs(&["basically"]) },
        hedges: strs(&["maybe", "I think", "probably", "approximately", "presumably"]),
        vague_to_precise: pairs(&[
            ("a lot of", &["dozens of", "a large share of"]),
            ("thing", &["component", "issue"]),
            ("very", &["remarkably", "exceptionally"]),
            ("good", &["solid", "effective"]),
            ("stuff", &["material", "details"]),
        ]),
    }
}

fn words_of(e: &FeedbackEvent) -> Vec<String> {
    match &e.payload {
        Payload::Hedge { words, .. } => words.clone(),
        _ => panic!("not a hedge event"),
    }
}

fn count_of(e: &FeedbackEvent) -> u64 {
    match &e.payload {
        Payload::Hedge { count, .. } => *count,
        _ => panic!("not a hedge event"),
    }
}

fn original_of(e: &FeedbackEvent) -> String {
    match &e.payload {
        Payload::Precision { original, .. } => original.clone(),
        _ => panic!("not a precision event"),
    }
}

fn reasons_of(e: &FeedbackEvent) -> Vec<String> {
    match &e.payload {
        Payload::GoldenQuote { reasons, .. } => reasons.clone(),
        _ => panic!("not a golden-quote event"),
    }
}

fn golden_run(rule: &mut GoldenQuoteRule, text: &str) -> Vec<FeedbackEvent> {
    let ctx = SessionContext::default();
    rule.on_sentence(&sent(1, text), &ctx)
}

// --- structure nudges -------------------------------------------------------

#[test]
fn conclusion_nudge_after_five_descriptive_sentences() {
    let mut rule = ConclusionMissingRule::default();
    let ctx = SessionContext::default();
    for i in 1..=4 {
        assert!(rule.on_sentence(&sent(i, "这里有一个很细节的描述"), &ctx).is_empty());
    }
    let events = rule.on_sentence(&sent(5, "继续补充更多的细节内容"), &ctx);
    assert_eq!(events.len(), 1);
    assert_eq!(events[0].kind, FeedbackKind::ConclusionMissing);
}

#[test]
fn conclusion_marker_resets_streak() {
    let mut rule = ConclusionMissingRule::default();
    let ctx = SessionContext::default();
    for i in 1..=4 {
        rule.on_sentence(&sent(i, "细节描述"), &ctx);
    }
    assert!(rule.on_sentence(&sent(5, "所以这就是结论"), &ctx).is_empty());
    assert!(rule.on_sentence(&sent(6, "又开始描述"), &ctx).is_empty());
}

#[test]
fn example_nudge_after_four_opinions_without_example() {
    let mut rule = ExampleMissingRule::default();
    let ctx = SessionContext::default();
    for i in 1..=3 {
        assert!(rule.on_sentence(&sent(i, "我觉得这个方向没问题"), &ctx).is_empty());
    }
    let events = rule.on_sentence(&sent(4, "我认为还应该继续推进"), &ctx);
    assert_eq!(events.len(), 1);
    assert_eq!(events[0].kind, FeedbackKind::ExampleMissing);
}

#[test]
fn example_marker_resets_opinion_streak() {
    let mut rule = ExampleMissingRule::default();
    let ctx = SessionContext::default();
    for i in 1..=3 {
        rule.on_sentence(&sent(i, "我觉得这样更好"), &ctx);
    }
    assert!(rule.on_sentence(&sent(4, "举个例子来说明一下"), &ctx).is_empty());
    assert!(rule.on_sentence(&sent(5, "我觉得还要继续"), &ctx).is_empty());
}

#[test]
fn english_conclusion_marker_resets_streak() {
    let mut rule = ConclusionMissingRule::default();
    let ctx = SessionContext::default();
    for i in 1..=4 {
        assert!(rule.on_sentence(&sent(i, "We worked on the search ranking this quarter"), &ctx).is_empty());
    }
    assert!(rule.on_sentence(&sent(5, "In conclusion, the ranking improved"), &ctx).is_empty());
    assert!(rule.on_sentence(&sent(6, "The dashboard also changed a lot"), &ctx).is_empty());
}

#[test]
fn english_description_streak_nudges_conclusion() {
    let mut rule = ConclusionMissingRule::default();
    let ctx = SessionContext::default();
    let mut fired = false;
    for i in 1..=5 {
        let events = rule.on_sentence(&sent(i, "The dashboard shows usage trends across regions"), &ctx);
        if !events.is_empty() {
            fired = true;
            assert_eq!(events[0].kind, FeedbackKind::ConclusionMissing);
        }
    }
    assert!(fired, "five descriptive sentences in a row earn a conclusion nudge");
}

#[test]
fn english_opinions_without_example_nudge() {
    let mut rule = ExampleMissingRule::default();
    let ctx = SessionContext::default();
    for i in 1..=3 {
        assert!(rule.on_sentence(&sent(i, "I think we should rewrite the module"), &ctx).is_empty());
    }
    let events = rule.on_sentence(&sent(4, "I believe the rewrite pays off quickly"), &ctx);
    assert_eq!(events.len(), 1);
    assert_eq!(events[0].kind, FeedbackKind::ExampleMissing);
}

#[test]
fn english_example_marker_resets_opinion_streak() {
    let mut rule = ExampleMissingRule::default();
    let ctx = SessionContext::default();
    for i in 1..=3 {
        rule.on_sentence(&sent(i, "I think this approach is better"), &ctx);
    }
    assert!(rule.on_sentence(&sent(4, "For instance, the retry path shrinks"), &ctx).is_empty());
    assert!(rule.on_sentence(&sent(5, "I think the win is clear"), &ctx).is_empty());
}

#[test]
fn conclusion_nudge_message_and_streak_payload() {
    let mut rule = ConclusionMissingRule::default();
    let ctx = SessionContext::default();
    for i in 1..=4 {
        rule.on_sentence(&sent(i, "描述"), &ctx);
    }
    let events = rule.on_sentence(&sent(5, "描述"), &ctx);
    assert_eq!(events[0].message, "描述已持续很久，该给结论了");
    assert_eq!(events[0].sentence_id, Some(5));
    assert!(matches!(events[0].payload, Payload::Streak { streak: 5 }));
    // the streak starts over: four more descriptive sentences stay quiet
    for i in 6..=9 {
        assert!(rule.on_sentence(&sent(i, "描述"), &ctx).is_empty());
    }
    assert_eq!(rule.on_sentence(&sent(10, "描述"), &ctx).len(), 1);
}

#[test]
fn sentence_without_opinion_resets_example_streak() {
    let mut rule = ExampleMissingRule::default();
    let ctx = SessionContext::default();
    for i in 1..=3 {
        rule.on_sentence(&sent(i, "我认为要改"), &ctx);
    }
    assert!(rule.on_sentence(&sent(4, "今天下雨了"), &ctx).is_empty());
    for i in 5..=7 {
        assert!(rule.on_sentence(&sent(i, "我认为要改"), &ctx).is_empty());
    }
    let events = rule.on_sentence(&sent(8, "我认为要改"), &ctx);
    assert_eq!(events[0].message, "连续输出观点了，举个例子会更有画面感");
}

// --- hedging ----------------------------------------------------------------

#[test]
fn single_hedge_does_not_trigger() {
    let mut rule = HedgeRule::from_lexicon(&zh_lexicon(), &en_lexicon());
    let ctx = SessionContext::default();
    assert!(rule.on_sentence(&sent(1, "我觉得这个方案挺好"), &ctx).is_empty());
}

#[test]
fn two_distinct_hedges_trigger_once() {
    let mut rule = HedgeRule::from_lexicon(&zh_lexicon(), &en_lexicon());
    let ctx = SessionContext::default();
    let events = rule.on_sentence(&sent(1, "可能大概是这个意思吧"), &ctx);
    assert_eq!(events.len(), 1);
    assert_eq!(events[0].kind, FeedbackKind::Hedge);
    assert_eq!(count_of(&events[0]), 2);
    let words = words_of(&events[0]);
    assert!(words.contains(&"可能".to_string()));
    assert!(words.contains(&"大概".to_string()));
    assert_eq!(events[0].message, "立场模糊：一句话里堆了 2 个弱化词（「可能」「大概」），可以直接给判断");
}

#[test]
fn same_hedge_twice_also_triggers() {
    let mut rule = HedgeRule::from_lexicon(&zh_lexicon(), &en_lexicon());
    let ctx = SessionContext::default();
    let events = rule.on_sentence(&sent(1, "可能吧也可能是我记错了"), &ctx);
    assert_eq!(events.len(), 1);
    assert!(count_of(&events[0]) >= 2);
}

#[test]
fn longest_first_no_double_count_for_compound_hedge() {
    let mut rule = HedgeRule::from_lexicon(&zh_lexicon(), &en_lexicon());
    let ctx = SessionContext::default();
    let events = rule.on_sentence(&sent(1, "我觉得吧这事还行"), &ctx);
    assert_eq!(events.len(), 1);
    assert_eq!(count_of(&events[0]), 2);
}

#[test]
fn clean_sentence_has_no_event() {
    let mut rule = HedgeRule::from_lexicon(&zh_lexicon(), &en_lexicon());
    let ctx = SessionContext::default();
    assert!(rule.on_sentence(&sent(1, "这个结论有三个数据支撑"), &ctx).is_empty());
}

#[test]
fn english_hedges_trigger_with_english_copy() {
    let mut rule = HedgeRule::from_lexicon(&zh_lexicon(), &en_lexicon());
    let ctx = SessionContext::default();
    let events = rule.on_sentence(&sent(1, "Maybe I think we could ship it"), &ctx);
    assert_eq!(events.len(), 1);
    assert_eq!(events[0].kind, FeedbackKind::Hedge);
    assert_eq!(count_of(&events[0]), 2);
    let words = words_of(&events[0]);
    assert!(words.contains(&"maybe".to_string()));
    assert!(words.contains(&"I think".to_string()));
    assert!(events[0].message.contains("Hedging"));
    assert!(rule.on_sentence(&sent(2, "It is probably fine"), &ctx).is_empty());
}

#[test]
fn english_boundary_prevents_subword_hedge_hits() {
    let mut rule = HedgeRule::from_lexicon(&zh_lexicon(), &en_lexicon());
    let ctx = SessionContext::default();
    let events = rule.on_sentence(&sent(1, "The approximation was rough, presumption aside"), &ctx);
    assert!(events.is_empty());
}

#[test]
fn english_hedge_message_lists_quoted_words() {
    let mut rule = HedgeRule::new(strs(&[]), strs(&["maybe", "probably"]));
    let ctx = SessionContext::default();
    let events = rule.on_sentence(&sent(7, "maybe it is probably fine, maybe"), &ctx);
    assert_eq!(events[0].sentence_id, Some(7));
    assert_eq!(count_of(&events[0]), 3);
    assert_eq!(
        events[0].message,
        "Hedging: 3 weakening words stacked in one sentence (「maybe」 「probably」), give your verdict directly"
    );
}

// --- word precision ---------------------------------------------------------

#[test]
fn suggests_alternatives_for_vague_words() {
    let mut rule = PrecisionRule::from_lexicon(&zh_lexicon(), &en_lexicon());
    let ctx = SessionContext::default();
    let events = rule.on_sentence(&sent(1, "我想做一个很好的东西"), &ctx);
    let originals: Vec<String> = events.iter().map(original_of).collect();
    assert!(originals.contains(&"想".to_string()));
    assert!(originals.contains(&"很好".to_string()));
    assert!(originals.contains(&"东西".to_string()));
    let first = events.iter().find(|e| original_of(e) == "想").unwrap();
    match &first.payload {
        Payload::Precision { alternatives, .. } => assert_eq!(alternatives[0], "渴望"),
        _ => panic!("not a precision event"),
    }
    assert_eq!(first.message, "「想」可以更精确");
}

#[test]
fn suggests_each_word_at_most_once_per_session() {
    let mut rule = PrecisionRule::from_lexicon(&zh_lexicon(), &en_lexicon());
    let ctx = SessionContext::default();
    assert_eq!(rule.on_sentence(&sent(1, "我想要这个"), &ctx).len(), 1);
    assert!(rule.on_sentence(&sent(2, "我还想要那个"), &ctx).is_empty());
}

#[test]
fn longest_first_avoids_splitting_longer_keys() {
    let mut rule = PrecisionRule::from_lexicon(&zh_lexicon(), &en_lexicon());
    let ctx = SessionContext::default();
    let events = rule.on_sentence(&sent(1, "大家想想这个思路"), &ctx);
    let originals: Vec<String> = events.iter().map(original_of).collect();
    assert_eq!(originals, vec!["想想".to_string()]);
    let events = rule.on_sentence(&sent(2, "我想到了一个点子"), &ctx);
    assert_eq!(events.len(), 1);
    assert_eq!(original_of(&events[0]), "想");
}

#[test]
fn english_vague_words_get_english_copy() {
    let mut rule = PrecisionRule::from_lexicon(&zh_lexicon(), &en_lexicon());
    let ctx = SessionContext::default();
    let events = rule.on_sentence(&sent(1, "We did a lot of work on this thing"), &ctx);
    let originals: Vec<String> = events.iter().map(original_of).collect();
    assert!(originals.contains(&"a lot of".to_string()));
    assert!(originals.contains(&"thing".to_string()));
    let events = rule.on_sentence(&sent(2, "It was very good"), &ctx);
    let very = events.iter().find(|e| original_of(e) == "very").unwrap();
    assert!(very.message.starts_with("'very' → "));
    assert_eq!(very.message, "'very' → remarkably, exceptionally");
    match &very.payload {
        Payload::Precision { alternatives, .. } => assert!(alternatives.len() >= 2),
        _ => panic!("not a precision event"),
    }
}

#[test]
fn english_boundary_prevents_subword_hits() {
    let mut rule = PrecisionRule::from_lexicon(&zh_lexicon(), &en_lexicon());
    let ctx = SessionContext::default();
    let events = rule.on_sentence(&sent(1, "The goodness of this stuffing surprised us"), &ctx);
    let originals: Vec<String> = events.iter().map(original_of).collect();
    assert!(!originals.contains(&"good".to_string()));
    assert!(!originals.contains(&"stuff".to_string()));
    let events = rule.on_sentence(&sent(2, "Good design matters"), &ctx);
    assert_eq!(events.len(), 1);
    assert_eq!(original_of(&events[0]), "good");
}

#[test]
fn suggested_set_shared_across_languages() {
    let mut rule = PrecisionRule::from_lexicon(&zh_lexicon(), &en_lexicon());
    let ctx = SessionContext::default();
    assert!(!rule.on_sentence(&sent(1, "good enough"), &ctx).is_empty());
    assert!(rule.on_sentence(&sent(2, "still good"), &ctx).is_empty());
}

#[test]
fn english_word_without_alternatives_asks_for_precision() {
    let mut rule = PrecisionRule::new(&pairs(&[]), &pairs(&[("nice", &[])]));
    let ctx = SessionContext::default();
    let events = rule.on_sentence(&sent(1, "a nice result"), &ctx);
    assert_eq!(events.len(), 1);
    assert_eq!(events[0].message, "'nice' could be more precise");
}

// --- vague time -------------------------------------------------------------

#[test]
fn fires_with_suggestion_from_lexicon() {
    let mut rule = TimeVagueRule::from_lexicon(&zh_lexicon());
    let ctx = SessionContext::default();
    let events = rule.on_sentence(&sent(1, "最近我在坚持早起"), &ctx);
    assert_eq!(events.len(), 1);
    assert_eq!(events[0].kind, FeedbackKind::TimeVague);
    match &events[0].payload {
        Payload::TimeVague { word, suggestion } => {
            assert_eq!(word, "最近");
            assert!(suggestion.contains("时间范围"));
        },
        _ => panic!("not a time event"),
    }
    assert_eq!(events[0].message, "时间有点模糊：「最近」可以更具体");
}

#[test]
fn each_word_reminded_once_per_session() {
    let mut rule = TimeVagueRule::from_lexicon(&zh_lexicon());
    let ctx = SessionContext::default();
    assert_eq!(rule.on_sentence(&sent(1, "回头我再把文档发你"), &ctx).len(), 1);
    assert!(rule.on_sentence(&sent(2, "回头再说吧"), &ctx).is_empty());
    assert_eq!(rule.on_sentence(&sent(3, "过几天我们碰一下"), &ctx).len(), 1);
}

#[test]
fn description_key_never_matches() {
    let mut rule = TimeVagueRule::from_lexicon(&zh_lexicon());
    let ctx = SessionContext::default();
    assert!(rule.on_sentence(&sent(1, "description"), &ctx).is_empty());
    assert_eq!(zh_lexicon().time_vague_entries().len(), 3);
    assert_eq!(zh_lexicon().hedge_to_direct_entries().len(), 0);
}

#[test]
fn no_event_for_specific_time_sentence() {
    let mut rule = TimeVagueRule::from_lexicon(&zh_lexicon());
    let ctx = SessionContext::default();
    assert!(rule.on_sentence(&sent(1, "上周三我们开了复盘会"), &ctx).is_empty());
}

#[test]
fn english_sentence_is_skipped() {
    let mut rule = TimeVagueRule::from_lexicon(&zh_lexicon());
    let ctx = SessionContext::default();
    assert!(rule.on_sentence(&sent(1, "We will finish it soon, maybe later"), &ctx).is_empty());
}

// --- imagery ----------------------------------------------------------------

#[test]
fn marker_hint_fires_once_per_session() {
    let mut rule = ImageryRule::from_lexicon(&zh_lexicon());
    let ctx = SessionContext::default();
    let events = rule.on_sentence(&sent(1, "写周报就像给老板讲脱口秀"), &ctx);
    assert_eq!(events.len(), 1);
    match &events[0].payload {
        Payload::ImageryMarker { marker } => assert_eq!(marker, "就像"),
        _ => panic!("not a marker event"),
    }
    assert_eq!(events[0].message, "用了「就像」打比方，画面感好，继续保持");
    assert!(rule.on_sentence(&sent(2, "这就好比每天都有一场开放麦"), &ctx).is_empty());
}

#[test]
fn abstract_word_gets_concrete_suggestion() {
    let mut rule = ImageryRule::from_lexicon(&zh_lexicon());
    let ctx = SessionContext::default();
    let events = rule.on_sentence(&sent(1, "这一周我很忙"), &ctx);
    assert_eq!(events.len(), 1);
    match &events[0].payload {
        Payload::ImageryAbstract { word, suggestions } => {
            assert_eq!(word, "很忙");
            assert!(suggestions.len() >= 2);
            assert!(!suggestions[0].is_empty());
        },
        _ => panic!("not an abstract-word event"),
    }
    assert_eq!(events[0].message, "「很忙」偏抽象，可以说得更有画面感，比如「连轴转到半夜」");
}

#[test]
fn each_abstract_word_hinted_once_per_session() {
    let mut rule = ImageryRule::from_lexicon(&zh_lexicon());
    let ctx = SessionContext::default();
    assert_eq!(rule.on_sentence(&sent(1, "这周连轴转，我已经很累了"), &ctx).len(), 1);
    assert_eq!(rule.on_sentence(&sent(2, "还是很累但也很忙"), &ctx).len(), 1);
}

#[test]
fn concrete_sentence_no_event() {
    let mut rule = ImageryRule::from_lexicon(&zh_lexicon());
    let ctx = SessionContext::default();
    assert!(rule.on_sentence(&sent(1, "会议纪要已同步到共享文档"), &ctx).is_empty());
}

// --- emotion words ----------------------------------------------------------

#[test]
fn detects_emotion_words_with_category_and_intensity() {
    let mut rule = EmotionRule::from_lexicon(&zh_lexicon());
    let ctx = SessionContext::default();
    let events = rule.on_sentence(&sent(1, "我真的很开心但也有点紧张"), &ctx);
    assert_eq!(events.len(), 2);
    match (&events[0].payload, &events[1].payload) {
        (
            Payload::Emotion { category: c0, intensity: i0, .. },
            Payload::Emotion { category: c1, intensity: i1, .. },
        ) => {
            assert_eq!(c0, "乐");
            assert_eq!(*i0, 5);
            assert_eq!(c1, "惧");
            assert_eq!(*i1, 6);
        },
        _ => panic!("not emotion events"),
    }
    assert_eq!(events[0].message, "情感词「开心」（乐，强度 5）");
}

#[test]
fn no_event_for_neutral_sentence() {
    let mut rule = EmotionRule::from_lexicon(&zh_lexicon());
    let ctx = SessionContext::default();
    assert!(rule.on_sentence(&sent(1, "这个按钮在页面右上角"), &ctx).is_empty());
}

#[test]
fn longest_first_no_double_count_inside_compound() {
    let mut rule = EmotionRule::from_lexicon(&zh_lexicon());
    let ctx = SessionContext::default();
    let events = rule.on_sentence(&sent(1, "这个结果让我大吃一惊"), &ctx);
    assert_eq!(events.len(), 1);
    match &events[0].payload {
        Payload::Emotion { word, category, .. } => {
            assert_eq!(word, "大吃一惊");
            assert_eq!(category, "惊");
        },
        _ => panic!("not an emotion event"),
    }
}

#[test]
fn emotion_entries_sorted_longest_first_stably() {
    let entries = zh_lexicon().emotion_entries();
    let words: Vec<&str> = entries.iter().map(|e| e.0.as_str()).collect();
    assert_eq!(words, vec!["大吃一惊", "开心", "狂喜", "紧张", "吃惊"]);
    assert_eq!(entries[0].1, "惊");
    assert_eq!(entries[0].2, 7);
}

// --- repetition -------------------------------------------------------------

#[test]
fn bigram_parts_identical_and_disjoint() {
    assert_eq!(char_bigram_jaccard_parts("今天天气不错", "今天天气不错"), (5, 5));
    assert_eq!(char_bigram_jaccard_parts("abcde", "xyz"), (0, 6));
    // too short for a bigram: equal texts are identical, others unrelated
    assert_eq!(char_bigram_jaccard_parts("a", "a"), (1, 1));
    assert_eq!(char_bigram_jaccard_parts("a", "ab"), (0, 1));
    // repeated bigrams count once
    assert_eq!(char_bigram_jaccard_parts("aaaa", "aa"), (1, 1));
}

#[test]
fn flags_near_duplicate_sentence() {
    let mut rule = RepetitionRule::default();
    let mut ctx = SessionContext::default();
    ctx.sentences.push(sent(1, "这个系统可以实时分析你的表达问题"));
    let events = rule.on_sentence(&sent(2, "这个系统可以实时分析你的表达问题啊"), &ctx);
    assert_eq!(events.len(), 1);
    match &events[0].payload {
        Payload::Repetition { similar_to, shared, union, text } => {
            assert_eq!(*similar_to, 1);
            assert_eq!((*shared, *union), (15, 16));
            assert_eq!(text, "这个系统可以实时分析你的表达问题");
        },
        _ => panic!("not a repetition event"),
    }
    assert_eq!(events[0].message, "这句话已经说过一遍了");
}

#[test]
fn ignores_different_sentence() {
    let mut rule = RepetitionRule::default();
    let mut ctx = SessionContext::default();
    ctx.sentences.push(sent(1, "这个系统可以实时分析你的表达问题"));
    let events = rule.on_sentence(&sent(2, "晚饭吃什么比较好呢"), &ctx);
    assert!(events.is_empty());
}

#[test]
fn repetition_names_newest_match_and_skips_itself() {
    let mut rule = RepetitionRule::default();
    let mut ctx = SessionContext::default();
    ctx.sentences.push(sent(1, "我们下周发布新版本"));
    ctx.sentences.push(sent(2, "我们下周发布新版本"));
    ctx.sentences.push(sent(3, "我们下周发布新版本"));
    let events = rule.on_sentence(&sent(3, "我们下周发布新版本"), &ctx);
    assert_eq!(events.len(), 1);
    assert!(matches!(events[0].payload, Payload::Repetition { similar_to: 2, .. }));
}

#[test]
fn repetition_looks_back_twenty_sentences_only() {
    let mut rule = RepetitionRule::default();
    let mut ctx = SessionContext::default();
    ctx.sentences.push(sent(1, "这个系统可以实时分析你的表达问题"));
    for i in 2..=21 {
        ctx.sentences.push(sent(i, &format!("第{i}句完全不同的内容")));
    }
    assert!(rule.on_sentence(&sent(22, "这个系统可以实时分析你的表达问题"), &ctx).is_empty());
    ctx.sentences.remove(1);
    assert_eq!(rule.on_sentence(&sent(22, "这个系统可以实时分析你的表达问题"), &ctx).len(), 1);
}

// --- golden quotes ----------------------------------------------------------

#[test]
fn metaphor_plus_number_conclusion_triggers() {
    let mut rule = GoldenQuoteRule::new();
    let events = golden_run(&mut rule, "这就像把 3 个月的工作压缩到 3 周");
    assert_eq!(events.len(), 1);
    assert_eq!(events[0].kind, FeedbackKind::GoldenQuote);
    let reasons = reasons_of(&events[0]);
    assert!(reasons.contains(&"比喻".to_string()));
    assert!(reasons.contains(&"数字结论".to_string()));
    assert_eq!(events[0].message, "金句信号：比喻+数字结论——这句值得保留复用");
}

#[test]
fn number_conclusion_plus_emphasis_triggers() {
    let mut rule = GoldenQuoteRule::new();
    let events = golden_run(&mut rule, "1 页纸就能讲清，不是写多而是写少");
    assert_eq!(events.len(), 1);
    let reasons = reasons_of(&events[0]);
    assert!(reasons.contains(&"数字结论".to_string()));
    assert!(reasons.contains(&"强调结构".to_string()));
}

#[test]
fn four_char_pairs_plus_number_triggers() {
    let mut rule = GoldenQuoteRule::new();
    let events = golden_run(&mut rule, "季度复盘：纲举目张、事半功倍，3 天就出结论");
    assert_eq!(events.len(), 1);
    let reasons = reasons_of(&events[0]);
    assert!(reasons.contains(&"四字对仗".to_string()));
    assert!(reasons.contains(&"数字结论".to_string()));
}

#[test]
fn metaphor_plus_four_char_pairs_triggers() {
    let mut rule = GoldenQuoteRule::new();
    let events = golden_run(&mut rule, "写周报就像照镜子，一目了然、毫不留情");
    assert_eq!(events.len(), 1);
    let reasons = reasons_of(&events[0]);
    assert!(reasons.contains(&"比喻".to_string()));
    assert!(reasons.contains(&"四字对仗".to_string()));
}

#[test]
fn metaphor_alone_does_not_trigger() {
    let mut rule = GoldenQuoteRule::new();
    assert!(golden_run(&mut rule, "这个方案就像之前讨论过的那样").is_empty());
}

#[test]
fn number_conclusion_alone_does_not_trigger() {
    let mut rule = GoldenQuoteRule::new();
    assert!(golden_run(&mut rule, "我们 3 天就完成了开发").is_empty());
}

#[test]
fn four_char_pairs_alone_do_not_trigger() {
    let mut rule = GoldenQuoteRule::new();
    assert!(golden_run(&mut rule, "脚踏实地、埋头苦干是我们的底色").is_empty());
}

#[test]
fn emphasis_alone_does_not_trigger() {
    let mut rule = GoldenQuoteRule::new();
    assert!(golden_run(&mut rule, "这件事不是我不懂，而是我不想").is_empty());
}

#[test]
fn plain_sentence_no_event() {
    let mut rule = GoldenQuoteRule::new();
    assert!(golden_run(&mut rule, "然后我们进入下一项议题的讨论").is_empty());
}

#[test]
fn at_most_three_quotes_per_session() {
    let mut rule = GoldenQuoteRule::new();
    let golden = "这就像把 3 个月的工作压缩到 3 周";
    let ctx = SessionContext::default();
    for i in 1..=3 {
        assert_eq!(rule.on_sentence(&sent(i, golden), &ctx).len(), 1);
    }
    assert!(rule.on_sentence(&sent(4, golden), &ctx).is_empty());
    assert!(rule.on_sentence(&sent(5, golden), &ctx).is_empty());
}
