use express_trainer::history::{default_report_mode, default_source, record_file_name, valid_id, SessionPersistInfo};
use express_trainer::paniclog::{compose_line, needs_rotation, LOG_FILE, MAX_LOG_BYTES, ROTATED_FILE};
use express_trainer::secrets::{
    after_store_write, delete_result, effective_key, key_after_lookup, key_from_read, resolve_key, set_api_key,
    key_saved, key_write, write_result, DeleteOutcome, KeyLookup, KeyWrite, ResolvedKey, SecureStore, SystemKeyring, KEYRING_ACCOUNT, KEYRING_SERVICE,
};
use express_trainer::{session_exit_cleanup, SessionMeta, StopSignal};
use std::cell::RefCell;
use std::sync::Mutex;

#[test]
fn session_exit_never_clears_newer_generation_stop_signal() {
    let (tx2, _rx2) = std::sync::mpsc::channel::<()>();
    let stop = Mutex::new(Some(StopSignal { generation: 2, tx: tx2 }));
    assert!(!session_exit_cleanup(&mut stop.lock().unwrap(), 1));
    assert_eq!(
        stop.lock().unwrap().as_ref().map(|s| s.generation),
        Some(2),
        "旧线程退出不得清掉新会话的停止信号"
    );
    assert!(session_exit_cleanup(&mut stop.lock().unwrap(), 2));
    assert!(stop.lock().unwrap().is_none());
    assert!(!session_exit_cleanup(&mut stop.lock().unwrap(), 2));
}

#[test]
fn session_meta_defaults_to_microphone() {
    let m = SessionMeta::default();
    assert_eq!(m.source, "mic");
    assert!(m.file_name.is_none());
    let info = SessionPersistInfo::default();
    assert!(info.existing_id.is_none() && info.audio_file.is_none());
    assert_eq!(info.meta.source, "mic");
}

#[test]
fn compose_line_format_is_stable() {
    assert_eq!(
        compose_line("2026-08-30 10:00:00", "src/main.rs:12:5", "测试爆炸"),
        "[2026-08-30 10:00:00] panic at src/main.rs:12:5: 测试爆炸\n"
    );
    assert_eq!(LOG_FILE, "app.log");
    assert_eq!(ROTATED_FILE, "app.log.1");
    assert_eq!(MAX_LOG_BYTES, 1024 * 1024);
    assert!(!needs_rotation(MAX_LOG_BYTES - 1));
    assert!(needs_rotation(MAX_LOG_BYTES));
}

#[test]
fn history_ids_reject_paths() {
    assert!(valid_id("2026-08-30-101500"));
    assert!(valid_id("a_b-C9"));
    assert!(!valid_id(""));
    assert!(!valid_id("../etc"));
    assert!(!valid_id("自律"));
    assert!(!valid_id(&"a".repeat(65)));
    assert!(valid_id(&"a".repeat(64)));
    assert_eq!(record_file_name("abc").as_deref(), Some("abc.json"));
    assert_eq!(record_file_name("a/b"), None);
    assert_eq!(default_source(), "mic");
    assert_eq!(default_report_mode(), "full");
}

struct MockStore {
    value: RefCell<Option<String>>,
    fail_set: bool,
}

impl SecureStore for MockStore {
    fn get(&self) -> Option<String> {
        self.value.borrow().clone()
    }
    fn set(&self, key: &str) -> Result<(), String> {
        if self.fail_set {
            return Err("写入失败（模拟）".into());
        }
        *self.value.borrow_mut() = Some(key.to_string());
        Ok(())
    }
    fn delete(&self) -> Result<(), String> {
        *self.value.borrow_mut() = None;
        Ok(())
    }
}

#[test]
fn resolve_none_when_both_empty() {
    let mock = MockStore { value: RefCell::new(None), fail_set: false };
    assert_eq!(resolve_key(&mock, ""), ResolvedKey::NoKey);
    assert_eq!(resolve_key(&mock, "   "), ResolvedKey::NoKey);
}

#[test]
fn resolve_keyring_wins_and_flags_stale_plaintext() {
    let mock = MockStore { value: RefCell::new(Some("sk-new".into())), fail_set: false };
    assert_eq!(resolve_key(&mock, "sk-old"), ResolvedKey::Keyring { key: "sk-new".into(), clear_plain: true });
    assert_eq!(resolve_key(&mock, ""), ResolvedKey::Keyring { key: "sk-new".into(), clear_plain: false });
}

#[test]
fn resolve_migrates_plaintext_into_store() {
    let mock = MockStore { value: RefCell::new(None), fail_set: false };
    assert_eq!(resolve_key(&mock, " sk-legacy "), ResolvedKey::Migrated { key: "sk-legacy".into() });
    assert_eq!(mock.get().as_deref(), Some("sk-legacy"));
}

#[test]
fn resolve_degrades_to_plaintext_when_store_fails() {
    let mock = MockStore { value: RefCell::new(None), fail_set: true };
    assert_eq!(resolve_key(&mock, "sk-legacy"), ResolvedKey::Degraded { key: "sk-legacy".into() });
}

#[test]
fn production_constants_match_spec() {
    assert_eq!(KEYRING_SERVICE, "SpeakMirror");
    assert_eq!(KEYRING_ACCOUNT, "ai_api_key");
    let _entry = SystemKeyring::ai_api_key();
}

#[test]
fn set_api_key_stores_trimmed_or_deletes_blank() {
    let mock = MockStore { value: RefCell::new(Some("old".into())), fail_set: false };
    let r = set_api_key(&mock, "  sk-new  ");
    assert!(r.secure && r.message.is_none());
    assert_eq!(mock.get().as_deref(), Some("sk-new"));
    let r = set_api_key(&mock, "   ");
    assert!(r.secure);
    assert_eq!(mock.get(), None);
    let failing = MockStore { value: RefCell::new(None), fail_set: true };
    let r = set_api_key(&failing, "sk-x");
    assert!(!r.secure);
    assert_eq!(r.message.as_deref(), Some("写入失败（模拟）；API Key 将以明文保存在本机设置文件中"));
}

#[test]
fn effective_key_is_none_when_blank() {
    assert_eq!(effective_key("  "), None);
    assert_eq!(effective_key(" sk "), Some(" sk ".to_string()));
}

#[test]
fn key_after_lookup_stored_key_wins() {
    assert_eq!(
        key_after_lookup(Some("sk-stored".into()), " sk-plain "),
        KeyLookup::Settled(ResolvedKey::Keyring { key: "sk-stored".into(), clear_plain: true })
    );
    assert_eq!(
        key_after_lookup(Some("sk-stored".into()), "  "),
        KeyLookup::Settled(ResolvedKey::Keyring { key: "sk-stored".into(), clear_plain: false })
    );
}

#[test]
fn key_after_lookup_without_stored_key() {
    assert_eq!(key_after_lookup(None, " \t"), KeyLookup::Settled(ResolvedKey::NoKey));
    assert_eq!(key_after_lookup(None, " sk-plain "), KeyLookup::Migrate { key: "sk-plain".into() });
}

#[test]
fn after_store_write_migrates_or_degrades() {
    assert_eq!(after_store_write("k".into(), true), ResolvedKey::Migrated { key: "k".into() });
    assert_eq!(after_store_write("k".into(), false), ResolvedKey::Degraded { key: "k".into() });
}

#[test]
fn key_from_read_trims_and_drops_blank() {
    assert_eq!(key_from_read(Ok("  sk-1 \n".into())), Some("sk-1".to_string()));
    assert_eq!(key_from_read(Ok("   ".into())), None);
    assert_eq!(key_from_read(Err(keyring::Error::NoEntry)), None);
}

#[test]
fn write_result_prefixes_store_error() {
    assert_eq!(write_result(Ok(())), Ok(()));
    let e = write_result(Err(keyring::Error::NoEntry)).unwrap_err();
    assert_eq!(e, "写入系统凭据管理器失败：No matching entry found in secure storage");
}

#[test]
fn delete_result_missing_entry_counts_as_deleted() {
    assert_eq!(delete_result(DeleteOutcome::Deleted), Ok(()));
    assert_eq!(delete_result(DeleteOutcome::NoEntry), Ok(()));
    let e = delete_result(DeleteOutcome::Failed(keyring::Error::TooLong("user".into(), 8))).unwrap_err();
    assert_eq!(e, "删除系统凭据失败：Attribute 'user' is longer than platform limit of 8 chars");
}

#[test]
fn key_write_deletes_blank_and_stores_trimmed() {
    assert_eq!(key_write("  \t"), KeyWrite::Delete);
    assert_eq!(key_write(" sk-9 "), KeyWrite::Store { key: "sk-9".into() });
}

#[test]
fn key_saved_notes_what_happens_to_plain_copy() {
    let ok = key_saved(false, Ok(()));
    assert!(ok.secure && ok.message.is_none());
    let d = key_saved(true, Err("删除失败".into()));
    assert!(!d.secure);
    assert_eq!(d.message.as_deref(), Some("删除失败；已保留原有明文存储"));
    let s = key_saved(false, Err("写入失败".into()));
    assert_eq!(s.message.as_deref(), Some("写入失败；API Key 将以明文保存在本机设置文件中"));
}
