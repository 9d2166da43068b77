use express_trainer::history::{
    is_orphan_audio, order_newest_first, pick_previous, record_fields, record_file_name, referenced_keys, valid_id,
    SessionPersistInfo,
};
use express_trainer::SessionMeta;

fn ids(xs: &[&str]) -> Vec<String> {
    xs.iter().map(|x| x.to_string()).collect()
}

#[test]
fn history_order_is_newest_id_first_and_stable() {
    let v = ids(&["2026-08-01-100000", "2026-08-03-090000", "2026-08-02-120000", "2026-08-03-090000"]);
    assert_eq!(order_newest_first(&v), vec![1, 3, 2, 0]);
    assert_eq!(order_newest_first(&[]), Vec::<usize>::new());
}

#[test]
fn previous_is_newest_other_than_the_current_record() {
    let v = ids(&["2026-08-01-100000", "2026-08-03-090000", "2026-08-02-120000"]);
    assert_eq!(pick_previous(&v, None), Some(1));
    assert_eq!(pick_previous(&v, Some("2026-08-03-090000")), Some(2));
    assert_eq!(pick_previous(&ids(&["only"]), Some("only")), None);
    assert_eq!(pick_previous(&[], None), None);
}

#[test]
fn orphan_rule_needs_wav_unreferenced_and_old() {
    let referenced = referenced_keys(&[Some("/Data/Audio/A.WAV".to_string()), None]);
    assert_eq!(referenced, vec!["/data/audio/a.wav".to_string()]);
    let week = 7 * 24 * 3600;
    assert!(is_orphan_audio(Some("wav"), "/data/audio/b.wav", &referenced, Some(week), week));
    assert!(is_orphan_audio(Some("WaV"), "/data/audio/b.WaV", &referenced, Some(week + 1), week));
    // referenced (compared without case): kept
    assert!(!is_orphan_audio(Some("wav"), "/DATA/audio/a.wav", &referenced, Some(week), week));
    // fresh or of unknown age: kept
    assert!(!is_orphan_audio(Some("wav"), "/data/audio/c.wav", &referenced, Some(week - 1), week));
    assert!(!is_orphan_audio(Some("wav"), "/data/audio/c.wav", &referenced, None, week));
    // not a recording
    assert!(!is_orphan_audio(Some("json"), "/data/audio/c.json", &referenced, Some(week), week));
    assert!(!is_orphan_audio(None, "/data/audio/wav", &referenced, Some(week), week));
}

#[test]
fn path_traversal_ids_are_refused() {
    assert!(valid_id("2026-08-29-100000"));
    assert!(!valid_id("../etc/passwd"));
    assert!(!valid_id(""));
    assert!(!valid_id(&"a".repeat(65)));
    assert_eq!(record_file_name("abc_1").unwrap(), "abc_1.json");
    assert!(record_file_name("a/b").is_none());
}

#[test]
fn record_fields_reuse_saved_id_and_trim_topic() {
    let info = SessionPersistInfo {
        existing_id: Some("2024-05-01-101500".into()),
        meta: SessionMeta { source: "file".into(), file_name: Some("a.mp3".into()) },
        audio_file: None,
    };
    let f = record_fields(info, "2024-05-01-120000".into(), Some("  周报  "));
    assert_eq!(f.id, "2024-05-01-101500");
    assert_eq!(f.topic, "周报");
    assert_eq!(f.source, "file");
    assert_eq!(f.file_name.as_deref(), Some("a.mp3"));
    assert_eq!(f.audio_file, None);
    let g = record_fields(SessionPersistInfo::default(), "2024-05-01-120000".into(), None);
    assert_eq!(g.id, "2024-05-01-120000");
    assert_eq!(g.topic, "");
    assert_eq!(g.source, "mic");
}
