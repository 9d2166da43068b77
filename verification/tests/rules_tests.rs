use express_trainer::rules::filler::{merge_filler_tiers, FillerTier};
use express_trainer::rules::golden_quote::{golden_quote_reasons, GoldenQuoteRule};
use express_trainer::rules::lang::{count_scripts, detect_lang, detect_transcript_lang, lexicon_routes, SentenceLang};
use express_trainer::rules::lexicon::WordMatcher;
use express_trainer::rules::Sentence;

fn words(ws: &[&str]) -> Vec<String> {
    ws.iter().map(|w| w.to_string()).collect()
}

#[test]
fn matcher_prefers_longest_word() {
    let m = WordMatcher::new(words(&["然后", "就是", "然后就是", "就是就是"]));
    assert_eq!(m.find_all("他说然后就是没问题"), vec!["然后就是"]);
    assert_eq!(m.find_all("然后我就是"), vec!["然后", "就是"]);
}

#[test]
fn matcher_skips_overlapped_shorter_word() {
    let m = WordMatcher::new(words(&["吃惊", "大吃一惊"]));
    assert_eq!(m.find_all("我大吃一惊"), vec!["大吃一惊"]);
    assert_eq!(m.find_all("我很吃惊"), vec!["吃惊"]);
}

#[test]
fn matcher_counts_repeats_and_finds_distinct() {
    let m = WordMatcher::new(words(&["可能", "可能吧"]));
    assert_eq!(m.find_all("可能可能吧"), vec!["可能", "可能吧"]);
    assert_eq!(m.find_distinct("可能可能"), vec!["可能"]);
    assert!(m.find_all("毫无命中").is_empty());
}

#[test]
fn matcher_handles_empty_word_list() {
    let m = WordMatcher::new(Vec::<String>::new());
    assert!(m.is_empty());
    assert!(m.find_all("任意文本").is_empty());
}

#[test]
fn matcher_english_word_boundary() {
    let m = WordMatcher::new(words(&["like"]));
    assert!(m.find_all("this is likely fine").is_empty());
    assert!(m.find_all("unlikely candidate").is_empty());
    assert_eq!(m.find_all("I like it"), vec!["like"]);
    assert_eq!(m.find_all("like, um, like"), vec!["like", "like"]);
}

#[test]
fn matcher_english_boundary_case_insensitive() {
    let m = WordMatcher::new(words(&["like", "you know"]));
    assert_eq!(m.find_all("Like, You know what I mean"), vec!["like", "you know"]);
}

#[test]
fn matcher_english_boundary_with_cjk_neighbors() {
    let m = WordMatcher::new(words(&["um"]));
    assert_eq!(m.find_all("然后 um 我们继续"), vec!["um"]);
}

#[test]
fn matcher_phrase_with_apostrophe_and_spaces() {
    let m = WordMatcher::new(words(&["don't", "you know", "kind of"]));
    assert_eq!(m.find_all("I don't know, you know?"), vec!["don't", "you know"]);
    assert_eq!(m.find_all("kind of works"), vec!["kind of"]);
    assert!(m.find_all("kindness of the team").is_empty());
}

#[test]
fn matcher_longest_first_still_wins_for_english() {
    let m = WordMatcher::new(words(&["so", "sort of"]));
    assert_eq!(m.find_all("it's sort of fine"), vec!["sort of"]);
    assert_eq!(m.find_all("sorted list, so we proceed"), vec!["so"]);
}

#[test]
fn matcher_cjk_words_keep_substring_behavior() {
    let m = WordMatcher::new(words(&["然后", "就是"]));
    assert_eq!(m.find_all("然后就是没问题"), vec!["然后", "就是"]);
}

#[test]
fn matcher_keeps_the_given_words_without_empty_ones() {
    let m = WordMatcher::new(words(&["", "然后"]));
    assert!(!m.is_empty());
    assert_eq!(m.words(), &["然后".to_string()][..]);
}

#[test]
fn chinese_sentence_detected() {
    assert_eq!(detect_lang("今天介绍产品设计的三个要点"), SentenceLang::Chinese);
    assert_eq!(detect_lang("然后用 React 做前端界面"), SentenceLang::Chinese);
}

#[test]
fn english_sentence_detected() {
    assert_eq!(detect_lang("I think this is a great idea"), SentenceLang::English);
    assert_eq!(
        detect_lang("We shipped the feature last week, basically on time, 顺便修了 bug"),
        SentenceLang::English
    );
}

#[test]
fn neutral_and_threshold_cases() {
    assert_eq!(detect_lang("123 456"), SentenceLang::Neutral);
    assert_eq!(detect_lang(""), SentenceLang::Neutral);
    assert_eq!(count_scripts("中文句 abcdefg"), (3, 7));
    assert_eq!(detect_lang("中文句 abcdefg"), SentenceLang::Chinese);
    assert_eq!(detect_lang("中文 abcdefg"), SentenceLang::English);
}

#[test]
fn lexicon_routes_skip_pure_symbols_and_run_both_for_mixed() {
    assert_eq!(lexicon_routes("然后那个就是这样"), (true, false));
    assert_eq!(lexicon_routes("you know, like, basically"), (false, true));
    assert_eq!(lexicon_routes("然后 um 我们 continue 吧"), (true, true));
    assert_eq!(lexicon_routes("666 666"), (false, false));
}

#[test]
fn transcript_lang_aggregates_across_sentences() {
    let s = |id: u64, text: &str| Sentence { id, text: text.into(), start_ms: 0, end_ms: 0 };
    assert_eq!(
        detect_transcript_lang(&[s(1, "第一句中文"), s(2, "第二句也是中文")]),
        SentenceLang::Chinese
    );
    assert_eq!(
        detect_transcript_lang(&[s(1, "First sentence"), s(2, "Second one here")]),
        SentenceLang::English
    );
    assert_eq!(detect_transcript_lang(&[]), SentenceLang::Chinese);
    assert_eq!(detect_transcript_lang(&[s(1, "123 456")]), SentenceLang::Chinese);
}

#[test]
fn reasons_helper_counts_conditions() {
    let r = golden_quote_reasons("这就像把 3 个月的工作压缩到 3 周");
    assert_eq!(r, vec!["比喻", "数字结论"]);
    assert!(golden_quote_reasons("普通的一句话").is_empty());
}

#[test]
fn golden_quote_signals_each_path() {
    assert_eq!(golden_quote_reasons("1 页纸就能讲清，不是写多而是写少"), vec!["数字结论", "强调结构"]);
    assert_eq!(golden_quote_reasons("季度复盘：纲举目张、事半功倍，3 天就出结论"), vec!["数字结论", "四字对仗"]);
    assert_eq!(golden_quote_reasons("写周报就像照镜子，一目了然、毫不留情"), vec!["比喻", "数字结论", "四字对仗"]);
    assert_eq!(golden_quote_reasons("这件事不是我不懂，而是我不想"), vec!["强调结构"]);
}

#[test]
fn at_most_three_golden_quotes_per_session() {
    let mut rule = GoldenQuoteRule::new();
    let golden = "这就像把 3 个月的工作压缩到 3 周";
    for _ in 0..3 {
        assert_eq!(rule.on_text(golden), Some(vec!["比喻", "数字结论"]));
    }
    assert_eq!(rule.on_text(golden), None);
    assert_eq!(rule.on_text(golden), None);
    let mut fresh = GoldenQuoteRule::new();
    assert_eq!(fresh.on_text("这个方案就像之前讨论过的那样"), None);
}

#[test]
fn filler_tiers_keep_first_tier_and_skip_empty() {
    assert_eq!(FillerTier::High.as_str(), "high");
    assert_eq!(FillerTier::Medium.as_str(), "medium");
    assert_eq!(FillerTier::Custom.as_str(), "custom");
    let merged = merge_filler_tiers(&words(&["然后", ""]), &words(&["就是", "然后"]), &words(&["老铁", "就是"]));
    assert_eq!(
        merged,
        vec![
            ("然后".to_string(), FillerTier::High),
            ("就是".to_string(), FillerTier::Medium),
            ("老铁".to_string(), FillerTier::Custom),
        ]
    );
}
