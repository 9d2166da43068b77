use express_trainer::growth::{count_session, top_candidate_words, totals_fit, try_count_session};
use express_trainer::growth::{
    aggregate_candidates, already_counted, clean_alternatives, count_chinese_bigrams, extract_candidate_counts,
    is_candidate_stopword, normalize_dismissed_word, normalize_new_word, visible_candidates, without_word,
    CandidateEntry, CandidateFile, CANDIDATES_CAP, CANDIDATE_STOPWORDS,
};
use express_trainer::rules::Sentence;

fn sent(id: u64, text: &str) -> Sentence {
    Sentence { id, text: text.into(), start_ms: 0, end_ms: id * 1000 }
}

fn get(table: &[(String, u32)], w: &str) -> Option<u32> {
    table.iter().find(|(k, _)| k == w).map(|(_, c)| *c)
}

#[test]
fn bigram_counts_across_cjk_runs_only() {
    let counts = count_chinese_bigrams(&["我们对齐颗粒度", "let's go", "A 对齐 B"]);
    for w in ["我们", "们对", "齐颗", "颗粒", "粒度"] {
        assert_eq!(get(&counts, w), Some(1), "{w}");
    }
    assert_eq!(get(&counts, "对齐"), Some(2));
    assert_eq!(get(&counts, "t"), None);
    let keys: Vec<&str> = counts.iter().map(|(k, _)| k.as_str()).collect();
    let mut sorted = keys.clone();
    sorted.sort();
    assert_eq!(keys, sorted);
}

#[test]
fn stopwords_filter_typical_grammar_words() {
    for w in ["我们", "他们", "这个", "那个", "然后", "但是", "所以", "因为", "如果",
              "就是", "的话", "自己", "现在", "时候", "东西", "事情", "问题", "方面",
              "进行", "通过", "对于", "可以", "可能", "已经", "还是", "而且", "以及",
              "或者", "方法", "方式", "时间", "很多"] {
        assert!(is_candidate_stopword(w), "{w} 应为停用词");
    }
    for w in ["颗粒", "粒度", "抓手", "底层", "闭环", "赋能"] {
        assert!(!is_candidate_stopword(w), "{w} 不应为停用词");
    }
    assert!(
        (60..=100).contains(&CANDIDATE_STOPWORDS.len()),
        "停用词表应在 60–100 个，实际 {}",
        CANDIDATE_STOPWORDS.len()
    );
    let set: std::collections::HashSet<&str> = CANDIDATE_STOPWORDS.iter().copied().collect();
    assert_eq!(set.len(), CANDIDATE_STOPWORDS.len());
}

#[test]
fn extract_excludes_known_words() {
    let known = vec!["我们".to_string(), "对齐".to_string()];
    let sentences = vec![sent(1, "我们要对齐颗粒度"), sent(2, "先对齐再动手"), sent(3, "颗粒度要再细一点")];
    let delta = extract_candidate_counts(&sentences, &known);
    assert_eq!(get(&delta, "颗粒"), Some(2));
    assert_eq!(get(&delta, "粒度"), Some(2));
    assert_eq!(get(&delta, "我们"), None);
    assert_eq!(get(&delta, "对齐"), None);
}

#[test]
fn extract_filters_stopwords_from_typical_sentence() {
    let sentences = vec![
        sent(1, "我们这个项目的问题是通过很多数据进行训练"),
        sent(2, "但是这个方法可能会因为数据的事情出现偏差"),
    ];
    let delta = extract_candidate_counts(&sentences, &[]);
    for stop in ["我们", "这个", "但是", "可能", "因为", "很多", "进行", "通过", "问题", "方法"] {
        assert!(get(&delta, stop).is_none(), "停用词 {stop} 不应成为候选");
    }
    assert!(get(&delta, "数据").is_some(), "实义词应保留：{delta:?}");
    assert!(get(&delta, "训练").is_some());
    assert!(get(&delta, "偏差").is_some());
    assert!(get(&delta, "出现").is_some());
}

#[test]
fn aggregate_drops_stopwords_from_existing_entries() {
    let existing = vec![
        CandidateEntry { word: "我们".into(), count: 9 },
        CandidateEntry { word: "颗粒".into(), count: 4 },
    ];
    let delta = vec![("这个".to_string(), 5), ("颗粒".to_string(), 2)];
    let out = aggregate_candidates(&existing, &delta, &[]);
    assert_eq!(out, vec![CandidateEntry { word: "颗粒".into(), count: 6 }]);
}

#[test]
fn aggregate_accumulates_and_sorts_desc() {
    let existing = vec![
        CandidateEntry { word: "颗粒".into(), count: 2 },
        CandidateEntry { word: "底层".into(), count: 5 },
    ];
    let delta = vec![("抓手".to_string(), 3), ("颗粒".to_string(), 2)];
    let out = aggregate_candidates(&existing, &delta, &[]);
    assert_eq!(
        out,
        vec![
            CandidateEntry { word: "底层".into(), count: 5 },
            CandidateEntry { word: "颗粒".into(), count: 4 },
            CandidateEntry { word: "抓手".into(), count: 3 },
        ]
    );
}

#[test]
fn aggregate_drops_words_known_midway_and_caps_200() {
    let existing: Vec<CandidateEntry> =
        (0..250).map(|i| CandidateEntry { word: format!("词{i:03}"), count: 1 }).collect();
    let delta = vec![("词000".to_string(), 1)];
    let known = vec!["词249".to_string()];
    let out = aggregate_candidates(&existing, &delta, &known);
    assert_eq!(out.len(), CANDIDATES_CAP);
    assert!(!out.iter().any(|c| c.word == "词249"));
    assert_eq!(out.iter().find(|c| c.word == "词000").unwrap().count, 2);
    assert!(out.iter().all(|c| c.count >= 1));
}

#[test]
fn aggregate_ties_break_by_word_order() {
    let delta = vec![("乙乙".to_string(), 1), ("甲甲".to_string(), 1), ("丙丙".to_string(), 2)];
    let out = aggregate_candidates(&[], &delta, &[]);
    let words: Vec<&str> = out.iter().map(|c| c.word.as_str()).collect();
    assert_eq!(words, vec!["丙丙", "乙乙", "甲甲"]);
}

#[test]
fn visible_candidates_threshold_is_three() {
    let file = CandidateFile {
        last_session_id: None,
        candidates: vec![
            CandidateEntry { word: "甲".into(), count: 5 },
            CandidateEntry { word: "乙".into(), count: 3 },
            CandidateEntry { word: "丙".into(), count: 2 },
        ],
    };
    let visible: Vec<String> = visible_candidates(&file).into_iter().map(|c| c.word).collect();
    assert_eq!(visible, vec!["甲".to_string(), "乙".to_string()]);
}

#[test]
fn added_words_and_alternatives_are_cleaned() {
    assert_eq!(normalize_new_word("  颗粒度 ").unwrap(), "颗粒度");
    assert_eq!(normalize_new_word("   ").unwrap_err(), "词条不能为空");
    assert_eq!(normalize_new_word(&"长".repeat(13)).unwrap_err(), "词条过长（最多 12 字）");
    assert_eq!(normalize_dismissed_word(" x ").unwrap(), "x");
    assert!(normalize_dismissed_word("").is_err());
    let alts: Vec<String> = [" 细节 ", "", "细节", "a", "b", "c", "d", "e", "f"].iter().map(|s| s.to_string()).collect();
    assert_eq!(clean_alternatives(&alts), vec!["细节", "a", "b", "c", "d", "e"]);
}

#[test]
fn dismissing_and_session_bookkeeping() {
    let cands = vec![
        CandidateEntry { word: "甲".into(), count: 5 },
        CandidateEntry { word: "乙".into(), count: 3 },
    ];
    assert_eq!(without_word(&cands, "甲"), vec![CandidateEntry { word: "乙".into(), count: 3 }]);
    let file = CandidateFile { last_session_id: Some("s1".into()), candidates: cands };
    assert!(already_counted(&file, "s1"));
    assert!(!already_counted(&file, "s2"));
    assert!(!already_counted(&CandidateFile::default(), "s1"));
}

#[test]
fn top_candidate_words_take_first_visible() {
    let entry = |w: &str, c: u32| CandidateEntry { word: w.into(), count: c };
    let file = CandidateFile {
        last_session_id: None,
        candidates: vec![entry("抓手", 9), entry("赋能", 2), entry("颗粒度", 5), entry("闭环", 3)],
    };
    assert_eq!(top_candidate_words(&file, 2), vec!["抓手".to_string(), "颗粒度".to_string()]);
    assert_eq!(top_candidate_words(&file, 10).len(), 3);
    assert!(top_candidate_words(&file, 0).is_empty());
}

#[test]
fn count_session_counts_a_session_once() {
    let file = CandidateFile {
        last_session_id: Some("s0".into()),
        candidates: vec![CandidateEntry { word: "对齐".into(), count: 2 }],
    };
    let delta = vec![("对齐".to_string(), 1u32), ("赋能".to_string(), 3u32)];
    let once = count_session(file, "s1", &delta, &[]);
    assert_eq!(once.last_session_id.as_deref(), Some("s1"));
    assert_eq!(
        once.candidates,
        vec![CandidateEntry { word: "对齐".into(), count: 3 }, CandidateEntry { word: "赋能".into(), count: 3 }]
    );
    let twice = count_session(once.clone(), "s1", &delta, &[]);
    assert_eq!(twice, once);
}

#[test]
fn try_count_session_refuses_overflowing_totals() {
    let file = CandidateFile {
        last_session_id: None,
        candidates: vec![CandidateEntry { word: "对齐".into(), count: u32::MAX }],
    };
    let delta = vec![("对齐".to_string(), 1u32)];
    assert!(!totals_fit(&file.candidates, &delta, &[]));
    assert!(totals_fit(&file.candidates, &delta, &["对齐".to_string()]));
    assert_eq!(try_count_session(file.clone(), "s1", &delta, &[]), Err("候选词计数溢出".to_string()));
    let ok = try_count_session(file.clone(), "s1", &delta, &["对齐".to_string()]).unwrap();
    assert_eq!(ok.last_session_id.as_deref(), Some("s1"));
    assert!(ok.candidates.is_empty());
    let counted = CandidateFile { last_session_id: Some("s1".into()), ..file };
    assert_eq!(try_count_session(counted.clone(), "s1", &delta, &[]), Ok(counted));
}
