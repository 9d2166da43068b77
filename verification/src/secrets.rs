//! API key storage: the key lives in the system credential store; a key
//! left in plain settings is moved there, or kept when the store fails.
use vstd::prelude::*;
use crate::text::{lit, push_str, trim, trim_string, starts_with};

verus! {

/// Credential entry of the production key.
pub const KEYRING_SERVICE: &'static str = "SpeakMirror";

pub const KEYRING_ACCOUNT: &'static str = "ai_api_key";

/// The smallest interface of a credential store.
pub trait SecureStore {
    /// The stored key; a missing entry, a failed read or a blank key all read
    /// as `None`.
    fn get(&self) -> Option<String>;

    fn set(&self, key: &str) -> Result<(), String>;

    fn delete(&self) -> Result<(), String>;
}

#[verifier::external_type_specification]
#[verifier::external_body]
pub struct ExKeyringEntry(keyring::Entry);

#[verifier::external_type_specification]
#[verifier::external_body]
pub struct ExKeyringError(keyring::Error);

/// `keyring::Entry::new`: opens the entry of a service and user. Whether it
/// succeeds depends on the platform store; nothing is stated.
#[verifier::external_body]
fn entry_new(service: &str, user: &str) -> Result<keyring::Entry, keyring::Error> {
    keyring::Entry::new(service, user)
}

/// `keyring::Entry::get_password`: what the platform store holds; nothing
/// is stated.
#[verifier::external_body]
fn entry_get_password(entry: &keyring::Entry) -> Result<String, keyring::Error> {
    entry.get_password()
}

/// `keyring::Entry::set_password`; nothing is stated of the outcome.
#[verifier::external_body]
fn entry_set_password(entry: &keyring::Entry, password: &str) -> Result<(), keyring::Error> {
    entry.set_password(password)
}

/// `keyring::Entry::delete_credential`, its outcome told apart as deleted,
/// no such entry (`keyring::Error::NoEntry`) or another error. Which one comes
/// back depends on the platform store; nothing is stated.
#[verifier::external_body]
fn entry_delete_credential(entry: &keyring::Entry) -> DeleteOutcome {
    match entry.delete_credential() {
        Ok(()) => DeleteOutcome::Deleted,
        Err(keyring::Error::NoEntry) => DeleteOutcome::NoEntry,
        Err(e) => DeleteOutcome::Failed(e),
    }
}

/// The `Display` text of a keyring error; nothing is stated of it.
#[verifier::external_body]
fn keyring_error_text(err: &keyring::Error) -> String {
    format!("{err}")
}

/// The system credential store (an entry of the platform keyring).
pub struct SystemKeyring {
    service: String,
    account: String,
}

impl SystemKeyring {
    /// (service, account) of the entry.
    pub closed spec fn entry_names(&self) -> (Seq<char>, Seq<char>) {
        (self.service@, self.account@)
    }

    /// The production entry of the AI API key.
    pub fn ai_api_key() -> (r: Self)
        ensures
            r.entry_names() == (KEYRING_SERVICE@, KEYRING_ACCOUNT@),
    {
        SystemKeyring { service: lit(KEYRING_SERVICE), account: lit(KEYRING_ACCOUNT) }
    }

    /// An entry of another service and account.
    pub fn with_entry(service: &str, account: &str) -> (r: Self)
        ensures
            r.entry_names() == (service@, account@),
    {
        SystemKeyring { service: lit(service), account: lit(account) }
    }
}

pub open spec fn open_failed_head() -> Seq<char> {
    "打开系统凭据管理器失败："@
}

pub open spec fn write_failed_head() -> Seq<char> {
    "写入系统凭据管理器失败："@
}

pub open spec fn delete_failed_head() -> Seq<char> {
    "删除系统凭据失败："@
}

fn failure(head: &str, err: &keyring::Error) -> (r: String)
    ensures
        r@.len() >= head@.len(),
        r@.subrange(0, head@.len() as int) == head@,
{
    let mut s = lit(head);
    let t = keyring_error_text(err);
    push_str(&mut s, t.as_str());
    assert(s@.subrange(0, head@.len() as int) =~= head@);
    s
}

/// The key a read of the store gives: the password trimmed, `None` when it
/// is blank or the read failed.
pub fn key_from_read(read: Result<String, keyring::Error>) -> (r: Option<String>)
    ensures
        match read {
            Ok(k) => if trim(k@).len() > 0 {
                r matches Some(t) && t@ == trim(k@)
            } else {
                r is None
            },
            Err(_) => r is None,
        },
{
    match read {
        Ok(k) => {
            let t = trim_string(k.as_str());
            if t.as_str().is_empty() {
                None
            } else {
                Some(t)
            }
        },
        Err(_) => None,
    }
}

/// What writing a password to the store means for the caller: success, or
/// the store's error after the words "写入系统凭据管理器失败：".
pub fn write_result(outcome: Result<(), keyring::Error>) -> (r: Result<(), String>)
    ensures
        outcome is Ok <==> r is Ok,
        r matches Err(e) ==> starts_with(e@, write_failed_head()),
{
    match outcome {
        Ok(()) => Ok(()),
        Err(e) => Err(failure("写入系统凭据管理器失败：", &e)),
    }
}

/// How a deletion in the store came out.
pub enum DeleteOutcome {
    Deleted,
    /// There was no entry to delete.
    NoEntry,
    Failed(keyring::Error),
}

/// What a deletion means for the caller: a missing entry counts as deleted;
/// any other error fails, after the words "删除系统凭据失败：".
pub fn delete_result(outcome: DeleteOutcome) -> (r: Result<(), String>)
    ensures
        outcome is Failed <==> r is Err,
        r matches Err(e) ==> starts_with(e@, delete_failed_head()),
{
    match outcome {
        DeleteOutcome::Deleted => Ok(()),
        DeleteOutcome::NoEntry => Ok(()),
        DeleteOutcome::Failed(e) => Err(failure("删除系统凭据失败：", &e)),
    }
}

impl SecureStore for SystemKeyring {
    /// The stored key, trimmed; blank or unreadable is `None`.
    fn get(&self) -> (r: Option<String>)
        ensures
            r matches Some(k) ==> k@.len() > 0 && !crate::text::is_ws(k@[0]) && !crate::text::is_ws(k@.last()),
    {
        let entry = match entry_new(self.service.as_str(), self.account.as_str()) {
            Ok(e) => e,
            Err(_) => {
                return None;
            },
        };
        let read = entry_get_password(&entry);
        let ghost before = read;
        let r = key_from_read(read);
        proof {
            if let Ok(k) = before {
                crate::text::lemma_trim_ends(k@);
            }
        }
        r
    }

    /// Stores the trimmed key. A failure names the step that failed: opening
    /// the entry or writing it.
    fn set(&self, key: &str) -> (r: Result<(), String>)
        ensures
            r matches Err(e) ==> starts_with(e@, open_failed_head()) || starts_with(e@, write_failed_head()),
    {
        let entry = match entry_new(self.service.as_str(), self.account.as_str()) {
            Ok(e) => e,
            Err(e) => {
                return Err(failure("打开系统凭据管理器失败：", &e));
            },
        };
        let k = trim_string(key);
        write_result(entry_set_password(&entry, k.as_str()))
    }

    /// Deletes the entry; a missing entry counts as deleted. A failure names
    /// the step that failed: opening the entry or deleting it.
    fn delete(&self) -> (r: Result<(), String>)
        ensures
            r matches Err(e) ==> starts_with(e@, open_failed_head()) || starts_with(e@, delete_failed_head()),
    {
        let entry = match entry_new(self.service.as_str(), self.account.as_str()) {
            Ok(e) => e,
            Err(e) => {
                return Err(failure("打开系统凭据管理器失败：", &e));
            },
        };
        delete_result(entry_delete_credential(&entry))
    }
}

/// The key in effect and what to do with the plain copy in the settings.
#[derive(Debug, Clone, PartialEq, Eq)]
pub enum ResolvedKey {
    /// The credential store has a key; `clear_plain` when a stale plain copy
    /// is still in the settings.
    Keyring { key: String, clear_plain: bool },
    /// The plain key was moved into the credential store.
    Migrated { key: String },
    /// The credential store failed: the plain key stays in use.
    Degraded { key: String },
    /// No key anywhere.
    NoKey,
}

/// The decision after reading the store: settled, or a plain key to be
/// written into the store.
#[derive(Debug, Clone, PartialEq, Eq)]
pub enum KeyLookup {
    Settled(ResolvedKey),
    Migrate { key: String },
}

/// What the key resolution gives when the store held `stored`, the settings
/// hold `plain`, and writing the plain key into the store `written` or not.
pub open spec fn resolved_from(stored: Option<Seq<char>>, plain: Seq<char>, written: bool, r: ResolvedKey) -> bool {
    match stored {
        Some(k) => r matches ResolvedKey::Keyring { key, clear_plain } && key@ == k && clear_plain == (trim(
            plain,
        ).len() > 0),
        None => if trim(plain).len() == 0 {
            r is NoKey
        } else if written {
            r matches ResolvedKey::Migrated { key } && key@ == trim(plain)
        } else {
            r matches ResolvedKey::Degraded { key } && key@ == trim(plain)
        },
    }
}

/// First step of the key resolution, given what the store returned: a
/// stored key wins (and a non-blank plain copy is flagged for clearing);
/// without one, a blank plain key is `NoKey` and another is to be migrated,
/// trimmed.
pub fn key_after_lookup(stored: Option<String>, plain: &str) -> (r: KeyLookup)
    ensures
        match stored {
            Some(k) => r == KeyLookup::Settled(
                ResolvedKey::Keyring { key: k, clear_plain: trim(plain@).len() > 0 },
            ),
            None => if trim(plain@).len() == 0 {
                r == KeyLookup::Settled(ResolvedKey::NoKey)
            } else {
                r matches KeyLookup::Migrate { key } && key@ == trim(plain@)
            },
        },
{
    let p = trim_string(plain);
    match stored {
        Some(key) => KeyLookup::Settled(ResolvedKey::Keyring { key, clear_plain: !p.as_str().is_empty() }),
        None => {
            if p.as_str().is_empty() {
                KeyLookup::Settled(ResolvedKey::NoKey)
            } else {
                KeyLookup::Migrate { key: p }
            }
        },
    }
}

/// Second step: the plain key was written into the store (`Migrated`) or
/// the store failed and the plain key stays in use (`Degraded`).
pub fn after_store_write(key: String, written: bool) -> (r: ResolvedKey)
    ensures
        r == (if written {
            ResolvedKey::Migrated { key }
        } else {
            ResolvedKey::Degraded { key }
        }),
{
    if written {
        ResolvedKey::Migrated { key }
    } else {
        ResolvedKey::Degraded { key }
    }
}

/// Which key is in effect: the store is read once, `key_after_lookup`
/// decides on what it returned, and a key to migrate is written to the store
/// once, `after_store_write` deciding on the outcome. The result is that of
/// these steps for some value the store returned and some outcome of the
/// write.
pub fn resolve_key<S: SecureStore + ?Sized>(store: &S, plain: &str) -> (r: ResolvedKey)
    ensures
        exists|stored: Option<Seq<char>>, written: bool| #[trigger] resolved_from(stored, plain@, written, r),
        r matches ResolvedKey::Keyring { clear_plain, .. } ==> clear_plain == (trim(plain@).len() > 0),
        r matches ResolvedKey::Migrated { key } ==> key@ == trim(plain@) && trim(plain@).len() > 0,
        r matches ResolvedKey::Degraded { key } ==> key@ == trim(plain@) && trim(plain@).len() > 0,
        r is NoKey ==> trim(plain@).len() == 0,
{
    let stored = store.get();
    let ghost sv = crate::checkin::opt_sview(stored);
    match key_after_lookup(stored, plain) {
        KeyLookup::Settled(r) => {
            assert(resolved_from(sv, plain@, false, r));
            r
        },
        KeyLookup::Migrate { key } => {
            let written = match store.set(key.as_str()) {
                Ok(()) => true,
                Err(_) => false,
            };
            let r = after_store_write(key, written);
            assert(resolved_from(sv, plain@, written, r));
            r
        },
    }
}

} // verus!

verus! {

/// Outcome of saving the API key: `secure` when the credential store took
/// it (no plain copy needed); otherwise a notice about the plain fallback.
#[derive(Debug, Clone, PartialEq, Eq)]
pub struct SetApiKeyResult {
    pub secure: bool,
    pub message: Option<String>,
}

pub open spec fn kept_plain_note() -> Seq<char> {
    "；已保留原有明文存储"@
}

pub open spec fn plain_fallback_note() -> Seq<char> {
    "；API Key 将以明文保存在本机设置文件中"@
}

/// What saving a key asks of the credential store.
#[derive(Debug, Clone, PartialEq, Eq)]
pub enum KeyWrite {
    /// A blank key: delete the entry.
    Delete,
    /// Store this key (the given one, trimmed).
    Store { key: String },
}

/// The store call for saving `key`: delete for a blank key, else store the
/// trimmed key.
pub fn key_write(key: &str) -> (r: KeyWrite)
    ensures
        trim(key@).len() == 0 ==> r is Delete,
        trim(key@).len() > 0 ==> (r matches KeyWrite::Store { key: k } && k@ == trim(key@)),
{
    let k = trim_string(key);
    if k.as_str().is_empty() {
        KeyWrite::Delete
    } else {
        KeyWrite::Store { key: k }
    }
}

/// The notice after a failed store call: the store's message, then what
/// happens to the plain copy (kept after a failed delete, used after a
/// failed store).
pub open spec fn fallback_note(deleting: bool) -> Seq<char> {
    if deleting {
        kept_plain_note()
    } else {
        plain_fallback_note()
    }
}

/// The outcome of saving, given the store call's outcome: `secure` on
/// success; else the store's message followed by the note on the plain copy.
pub fn key_saved(deleting: bool, outcome: Result<(), String>) -> (r: SetApiKeyResult)
    ensures
        match outcome {
            Ok(()) => r.secure && r.message is None,
            Err(e) => !r.secure && (r.message matches Some(m) && m@ == e@ + fallback_note(deleting)),
        },
{
    match outcome {
        Ok(()) => SetApiKeyResult { secure: true, message: None },
        Err(e) => {
            let mut m = e;
            if deleting {
                push_str(&mut m, "；已保留原有明文存储");
            } else {
                push_str(&mut m, "；API Key 将以明文保存在本机设置文件中");
            }
            SetApiKeyResult { secure: false, message: Some(m) }
        },
    }
}

/// Saves the key in the credential store: a blank key deletes the entry,
/// any other is stored trimmed (`key_write`). A store failure is not an
/// error: the result says so, with the store's message and what happens to
/// the plain copy (`key_saved`).
pub fn set_api_key<S: SecureStore + ?Sized>(store: &S, key: &str) -> (r: SetApiKeyResult)
    ensures
        r.secure <==> r.message is None,
        r.message matches Some(m) ==> exists|e: Seq<char>| #[trigger] noted(e, key@) == m@,
{
    let deleting: bool;
    let outcome = match key_write(key) {
        KeyWrite::Delete => {
            deleting = true;
            store.delete()
        },
        KeyWrite::Store { key: k } => {
            deleting = false;
            store.set(k.as_str())
        },
    };
    let ghost o = outcome;
    let r = key_saved(deleting, outcome);
    proof {
        if let Err(e) = o {
            assert(noted(e@, key@) == e@ + fallback_note(deleting));
        }
    }
    r
}

/// A store's message `e` followed by the note for saving `key`.
pub open spec fn noted(e: Seq<char>, key: Seq<char>) -> Seq<char> {
    e + fallback_note(trim(key).len() == 0)
}

/// The key the front end starts with: the settings' key, unless blank.
pub fn effective_key(settings_key: &str) -> (r: Option<String>)
    ensures
        trim(settings_key@).len() == 0 ==> r is None,
        trim(settings_key@).len() > 0 ==> (r matches Some(k) && k@ == settings_key@),
{
    match crate::report::trimmed_nonblank(settings_key) {
        Some(_) => Some(lit(settings_key)),
        None => None,
    }
}

} // verus!
