//! Session history naming rules and the data captured for saving a report.
use vstd::prelude::*;
use crate::text::{chars_of, lit, push_str};
use crate::SessionMeta;

verus! {

pub open spec fn id_char(c: char) -> bool {
    ('a' <= c && c <= 'z') || ('A' <= c && c <= 'Z') || ('0' <= c && c <= '9') || c == '-' || c == '_'
}

/// A history id: 1 to 64 characters from `[A-Za-z0-9-_]` (no path can be
/// smuggled in).
pub open spec fn valid_id_spec(id: Seq<char>) -> bool {
    0 < id.len() <= 64 && forall|i: int| 0 <= i < id.len() ==> id_char(#[trigger] id[i])
}

pub fn valid_id(id: &str) -> (r: bool)
    ensures
        r == valid_id_spec(id@),
{
    let v = chars_of(id);
    if v.len() == 0 || v.len() > 64 {
        return false;
    }
    let mut i: usize = 0;
    while i < v.len()
        invariant
            i <= v@.len(),
            v@ == id@,
            forall|k: int| 0 <= k < i ==> id_char(#[trigger] v@[k]),
        decreases v@.len() - i,
    {
        let c = v[i];
        if !(('a' <= c && c <= 'z') || ('A' <= c && c <= 'Z') || ('0' <= c && c <= '9') || c == '-' || c
            == '_') {
            return false;
        }
        i = i + 1;
    }
    true
}

/// File name of a history record: `id.json`, for a valid id only.
pub fn record_file_name(id: &str) -> (r: Option<String>)
    ensures
        match r {
            Some(n) => valid_id_spec(id@) && n@ == id@ + ".json"@,
            None => !valid_id_spec(id@),
        },
{
    if valid_id(id) {
        let mut s = lit(id);
        push_str(&mut s, ".json");
        Some(s)
    } else {
        None
    }
}

/// Source of a record saved before the field existed: the microphone.
pub fn default_source() -> (r: String)
    ensures
        r@ == "mic"@,
{
    lit("mic")
}

/// Report mode of a record saved before the field existed.
pub fn default_report_mode() -> (r: String)
    ensures
        r@ == "full"@,
{
    lit("full")
}

/// What saving a report needs from the session, taken once when the report
/// starts (a new session may begin while the report streams).
#[derive(Debug, Clone)]
pub struct SessionPersistInfo {
    /// Id of this session's record when one was saved already.
    pub existing_id: Option<String>,
    pub meta: SessionMeta,
    /// Recording of the session, when there is one.
    pub audio_file: Option<String>,
}

/// The fields of a session record decided from the session itself.
#[derive(Debug, Clone)]
pub struct RecordFields {
    /// The record's id: the session's saved id, so a report retried for the
    /// same session overwrites its record, else a fresh one.
    pub id: String,
    /// The topic, trimmed; empty without one.
    pub topic: String,
    pub source: String,
    pub file_name: Option<String>,
    pub audio_file: Option<String>,
}

/// The topic as a record keeps it.
pub open spec fn record_topic(topic: Option<&str>) -> Seq<char> {
    match topic {
        Some(t) => crate::text::trim(t@),
        None => Seq::<char>::empty(),
    }
}

/// The record fields for a saved report: the id already saved for this
/// session if there is one (no second record), else `fresh_id`; the trimmed
/// topic; source, file name and recording as taken when the report started.
pub fn record_fields(info: SessionPersistInfo, fresh_id: String, topic: Option<&str>) -> (r: RecordFields)
    ensures
        r.id@ == (match info.existing_id {
            Some(e) => e@,
            None => fresh_id@,
        }),
        r.topic@ == record_topic(topic),
        r.source == info.meta.source,
        r.file_name == info.meta.file_name,
        r.audio_file == info.audio_file,
{
    let id = match info.existing_id {
        Some(e) => e,
        None => fresh_id,
    };
    let topic = match topic {
        Some(t) => crate::text::trim_string(t),
        None => String::new(),
    };
    RecordFields {
        id,
        topic,
        source: info.meta.source,
        file_name: info.meta.file_name,
        audio_file: info.audio_file,
    }
}

impl Default for SessionPersistInfo {
    fn default() -> (r: Self)
        ensures
            r.existing_id is None,
            r.meta.source@ == "mic"@,
            r.meta.file_name is None,
            r.audio_file is None,
    {
        SessionPersistInfo { existing_id: None, meta: SessionMeta::default(), audio_file: None }
    }
}

} // verus!

verus! {

/// Stable insertion of record `k` into an order kept newest id first (ids
/// compare as strings; a later id is newer).
pub open spec fn insert_newest(ids: Seq<Seq<char>>, s: Seq<int>, k: int) -> Seq<int>
    decreases s.len(),
{
    if s.len() == 0 {
        seq![k]
    } else if crate::growth::lex_lt(ids[s.last()], ids[k]) {
        insert_newest(ids, s.drop_last(), k).push(s.last())
    } else {
        s.push(k)
    }
}

/// The first `n` records in history order: newest id first, records with
/// equal ids in their listing order.
pub open spec fn newest_first(ids: Seq<Seq<char>>, n: nat) -> Seq<int>
    decreases n,
{
    if n == 0 {
        seq![]
    } else {
        insert_newest(ids, newest_first(ids, (n - 1) as nat), n - 1)
    }
}

proof fn lemma_insert_newest(ids: Seq<Seq<char>>, s: Seq<int>, k: int, p: int)
    requires
        0 <= p <= s.len(),
        forall|j: int| p <= j < s.len() ==> crate::growth::lex_lt(ids[#[trigger] s[j]], ids[k]),
        p == 0 || !crate::growth::lex_lt(ids[s[p - 1]], ids[k]),
    ensures
        insert_newest(ids, s, k) == s.insert(p, k),
    decreases s.len(),
{
    if s.len() == 0 {
        assert(s.insert(p, k) =~= seq![k]);
    } else if p == s.len() {
        assert(s.insert(p, k) =~= s.push(k));
    } else {
        lemma_insert_newest(ids, s.drop_last(), k, p);
        assert(s.insert(p, k) =~= s.drop_last().insert(p, k).push(s.last()));
    }
}

proof fn lemma_newest_first_range(ids: Seq<Seq<char>>, n: nat)
    ensures
        newest_first(ids, n).len() == n,
        forall|j: int| 0 <= j < n ==> 0 <= #[trigger] newest_first(ids, n)[j] < n,
    decreases n,
{
    if n > 0 {
        lemma_newest_first_range(ids, (n - 1) as nat);
        lemma_insert_range(ids, newest_first(ids, (n - 1) as nat), n - 1);
    }
}

proof fn lemma_insert_range(ids: Seq<Seq<char>>, s: Seq<int>, k: int)
    requires
        forall|j: int| 0 <= j < s.len() ==> 0 <= #[trigger] s[j] < k,
        k >= 0,
    ensures
        insert_newest(ids, s, k).len() == s.len() + 1,
        forall|j: int| 0 <= j < s.len() + 1 ==> 0 <= #[trigger] insert_newest(ids, s, k)[j] <= k,
    decreases s.len(),
{
    if s.len() > 0 && crate::growth::lex_lt(ids[s.last()], ids[k]) {
        lemma_insert_range(ids, s.drop_last(), k);
        let t = insert_newest(ids, s.drop_last(), k);
        assert forall|j: int| 0 <= j < s.len() + 1 implies 0 <= #[trigger] insert_newest(ids, s, k)[j] <= k by {
            if j < s.len() {
                assert(insert_newest(ids, s, k)[j] == t[j]);
            }
        }
    }
}

/// History order of a list of record ids: the positions of the records,
/// newest id first (see [`newest_first`]).
pub fn order_newest_first(ids: &[String]) -> (r: Vec<usize>)
    ensures
        r@.len() == ids@.len(),
        forall|j: int| 0 <= j < r@.len() ==> #[trigger] r@[j] as int == newest_first(crate::text::views(ids@), ids@.len() as nat)[j],
        history_ordered(crate::text::views(ids@), r@.map_values(|x: usize| x as int), ids@.len() as int),
{
    let ghost vs = crate::text::views(ids@);
    let mut r: Vec<usize> = Vec::new();
    let mut i: usize = 0;
    while i < ids.len()
        invariant
            i <= ids@.len(),
            vs == crate::text::views(ids@),
            r@.len() == i,
            forall|j: int| 0 <= j < i ==> #[trigger] r@[j] as int == newest_first(vs, i as nat)[j],
            forall|j: int| 0 <= j < i ==> #[trigger] r@[j] < i,
        decreases ids@.len() - i,
    {
        let ghost s = r@.map_values(|x: usize| x as int);
        proof {
            lemma_newest_first_range(vs, i as nat);
        }
        assert(s =~= newest_first(vs, i as nat));
        let ci = crate::text::chars_of(ids[i].as_str());
        let mut p = r.len();
        loop
            invariant_except_break
                p <= r@.len(),
                r@.len() == i,
                i < ids@.len(),
                vs == crate::text::views(ids@),
                ci@ == vs[i as int],
                s == r@.map_values(|x: usize| x as int),
                forall|j: int| 0 <= j < i ==> #[trigger] r@[j] < i,
                forall|j: int| p <= j < s.len() ==> crate::growth::lex_lt(vs[#[trigger] s[j]], vs[i as int]),
            ensures
                p <= r@.len(),
                forall|j: int| p <= j < s.len() ==> crate::growth::lex_lt(vs[#[trigger] s[j]], vs[i as int]),
                p == 0 || !crate::growth::lex_lt(vs[s[p - 1]], vs[i as int]),
            decreases p,
        {
            if p == 0 {
                break;
            }
            let cp = crate::text::chars_of(ids[r[p - 1]].as_str());
            if !crate::growth::lex_less(cp.as_slice(), ci.as_slice()) {
                assert(s[p - 1] == r@[p - 1] as int);
                break;
            }
            assert(s[p - 1] == r@[p - 1] as int);
            p = p - 1;
        }
        proof {
            lemma_insert_newest(vs, s, i as int, p as int);
        }
        r.insert(p, i);
        proof {
            assert(r@.map_values(|x: usize| x as int) =~= s.insert(p as int, i as int));
            assert forall|j: int| 0 <= j < i + 1 implies #[trigger] r@[j] as int == newest_first(vs, (i + 1) as nat)[j] by {
                assert(r@.map_values(|x: usize| x as int)[j] == r@[j] as int);
            }
        }
        i = i + 1;
    }
    proof {
        lemma_history_order(vs, ids@.len() as nat);
        assert(r@.map_values(|x: usize| x as int) =~= newest_first(vs, ids@.len() as nat));
    }
    r
}

/// Position of the newest record whose id differs from `exclude` (the
/// current session's own record), in history order.
pub open spec fn previous_pick(ids: Seq<Seq<char>>, exclude: Option<Seq<char>>) -> Option<int> {
    let o = newest_first(ids, ids.len());
    if exists|j: int| 0 <= j < o.len() && !(exclude == Some(ids[o[j]])) {
        let j = choose|j: int|
            0 <= j < o.len() && !(exclude == Some(ids[o[j]])) && forall|q: int|
                0 <= q < j ==> exclude == Some(ids[#[trigger] o[q]]);
        Some(o[j])
    } else {
        None
    }
}

/// The record a new report compares with: the newest one that is not the
/// current session's own.
pub fn pick_previous(ids: &[String], exclude: Option<&str>) -> (r: Option<usize>)
    ensures
        match r {
            Some(k) => {
                let o = newest_first(crate::text::views(ids@), ids@.len() as nat);
                exists|j: int|
                    0 <= j < o.len() && o[j] == k && !(crate::report::opt_view(exclude) == Some(ids@[k as int]@))
                        && forall|q: int| 0 <= q < j ==> crate::report::opt_view(exclude) == Some(ids@[#[trigger] o[q]]@)
            },
            None => {
                let o = newest_first(crate::text::views(ids@), ids@.len() as nat);
                forall|j: int| 0 <= j < o.len() ==> crate::report::opt_view(exclude) == Some(ids@[#[trigger] o[j]]@)
            },
        },
{
    let order = order_newest_first(ids);
    let ghost o = newest_first(crate::text::views(ids@), ids@.len() as nat);
    proof {
        lemma_newest_first_range(crate::text::views(ids@), ids@.len() as nat);
    }
    let mut j: usize = 0;
    while j < order.len()
        invariant
            j <= order@.len(),
            order@.len() == ids@.len(),
            o == newest_first(crate::text::views(ids@), ids@.len() as nat),
            o.len() == ids@.len(),
            forall|q: int| 0 <= q < order@.len() ==> #[trigger] order@[q] as int == o[q],
            forall|q: int| 0 <= q < o.len() ==> 0 <= #[trigger] o[q] < ids@.len(),
            forall|q: int| 0 <= q < j ==> crate::report::opt_view(exclude) == Some(ids@[#[trigger] o[q]]@),
        decreases order@.len() - j,
    {
        let k = order[j];
        assert(o[j as int] == k as int);
        let same = match exclude {
            Some(x) => crate::text::str_eq(ids[k].as_str(), x),
            None => false,
        };
        if !same {
            assert(crate::text::views(ids@)[k as int] == ids@[k as int]@);
            return Some(k);
        }
        j = j + 1;
    }
    None
}

/// An audio file of the recordings folder is removed at startup when it is
/// a `.wav` (any letter case), no history record refers to it (paths
/// compared in lowercase) and it is at least `max_age_secs` old (its age
/// unknown: kept).
pub open spec fn orphan_spec(
    extension: Option<Seq<char>>,
    path_lower: Seq<char>,
    referenced: Seq<Seq<char>>,
    age_secs: Option<u64>,
    max_age_secs: u64,
) -> bool {
    &&& is_wav_ext(extension)
    &&& !referenced.contains(path_lower)
    &&& age_secs matches Some(a) && a >= max_age_secs
}

/// `wav` in any letter case.
pub open spec fn is_wav_ext(extension: Option<Seq<char>>) -> bool {
    extension matches Some(e) && e.len() == 3 && crate::text::ascii_lower(e[0]) == 'w'
        && crate::text::ascii_lower(e[1]) == 'a' && crate::text::ascii_lower(e[2]) == 'v'
}

fn wav_extension(extension: Option<&str>) -> (r: bool)
    ensures
        r == is_wav_ext(crate::report::opt_view(extension)),
{
    match extension {
        Some(e) => {
            let v = crate::text::chars_of(e);
            v.len() == 3 && crate::text::char_ascii_lower(v[0]) == 'w' && crate::text::char_ascii_lower(v[1]) == 'a'
                && crate::text::char_ascii_lower(v[2]) == 'v'
        },
        None => false,
    }
}

/// Whether a file of the recordings folder is an orphan to remove (see
/// [`orphan_spec`]); `referenced` holds the lowercased paths the history
/// records refer to.
pub fn is_orphan_audio(
    extension: Option<&str>,
    path: &str,
    referenced: &[String],
    age_secs: Option<u64>,
    max_age_secs: u64,
) -> (r: bool)
    ensures
        r == orphan_spec(
            crate::report::opt_view(extension),
            crate::rules::structure::unicode_lowercase(path@),
            crate::text::views(referenced@),
            age_secs,
            max_age_secs,
        ),
        r <==> (is_wav_ext(crate::report::opt_view(extension)) && (forall|k: int|
            0 <= k < referenced@.len() ==> (#[trigger] referenced@[k])@ != crate::rules::structure::unicode_lowercase(
                path@,
            )) && (age_secs matches Some(a) && a >= max_age_secs)),
{
    proof {
        lemma_referenced_anywhere(
            crate::report::opt_view(extension),
            crate::rules::structure::unicode_lowercase(path@),
            referenced@,
            age_secs,
            max_age_secs,
        );
    }
    let is_wav = wav_extension(extension);
    if !is_wav {
        return false;
    }
    let lower = crate::rules::structure::to_lowercase(path);
    let mut i: usize = 0;
    while i < referenced.len()
        invariant
            i <= referenced@.len(),
            lower@ == crate::rules::structure::unicode_lowercase(path@),
            is_wav_ext(crate::report::opt_view(extension)),
            forall|k: int| 0 <= k < i ==> (#[trigger] referenced@[k])@ != lower@,
        decreases referenced@.len() - i,
    {
        if crate::text::str_eq(referenced[i].as_str(), lower.as_str()) {
            assert(crate::text::views(referenced@)[i as int] == lower@);
            assert(crate::text::views(referenced@).contains(lower@));
            return false;
        }
        i = i + 1;
    }
    assert(!crate::text::views(referenced@).contains(lower@)) by {
        if crate::text::views(referenced@).contains(lower@) {
            let k = choose|k: int| 0 <= k < crate::text::views(referenced@).len() && crate::text::views(referenced@)[k] == lower@;
            assert(referenced@[k]@ == lower@);
        }
    }
    match age_secs {
        Some(a) => a >= max_age_secs,
        None => false,
    }
}

/// A recording whose lowercased path is among the referenced ones, at any
/// position, is never an orphan; one that no referenced path names is an
/// orphan exactly when it is a `.wav` at least `max_age_secs` old.
pub proof fn lemma_referenced_anywhere(
    extension: Option<Seq<char>>,
    path_lower: Seq<char>,
    referenced: Seq<String>,
    age_secs: Option<u64>,
    max_age_secs: u64,
)
    ensures
        orphan_spec(extension, path_lower, crate::text::views(referenced), age_secs, max_age_secs) <==> (is_wav_ext(
            extension,
        ) && (forall|k: int| 0 <= k < referenced.len() ==> (#[trigger] referenced[k])@ != path_lower) && (
        age_secs matches Some(a) && a >= max_age_secs)),
{
    let vs = crate::text::views(referenced);
    if vs.contains(path_lower) {
        let k = choose|k: int| 0 <= k < vs.len() && vs[k] == path_lower;
        assert(referenced[k]@ == path_lower);
    }
    if exists|k: int| 0 <= k < referenced.len() && (#[trigger] referenced[k])@ == path_lower {
        let k = choose|k: int| 0 <= k < referenced.len() && (#[trigger] referenced[k])@ == path_lower;
        assert(vs[k] == path_lower);
    }
}

proof fn lemma_referenced_spec_has(fs: Seq<Option<String>>, j: int)
    requires
        0 <= j < fs.len(),
        fs[j] is Some,
    ensures
        referenced_spec(fs).contains(crate::rules::structure::unicode_lowercase(fs[j]->0@)),
    decreases fs.len(),
{
    let w = crate::rules::structure::unicode_lowercase(fs[j]->0@);
    let prev = referenced_spec(fs.drop_last());
    if j == fs.len() - 1 {
        assert(fs.last() == fs[j]);
        assert(referenced_spec(fs)[prev.len() as int] == w);
    } else {
        assert(fs.drop_last()[j] == fs[j]);
        lemma_referenced_spec_has(fs.drop_last(), j);
        let k = choose|k: int| 0 <= k < prev.len() && prev[k] == w;
        assert(referenced_spec(fs)[k] == prev[k]);
    }
}

/// The recording of any history record, the first or a later one, is never
/// an orphan: its lowercased path is among `referenced_keys` of the records'
/// audio paths, whatever its age.
pub proof fn lemma_every_record_recording_kept(
    audio_files: Seq<Option<String>>,
    j: int,
    extension: Option<Seq<char>>,
    age_secs: Option<u64>,
    max_age_secs: u64,
)
    requires
        0 <= j < audio_files.len(),
        audio_files[j] is Some,
    ensures
        !orphan_spec(
            extension,
            crate::rules::structure::unicode_lowercase(audio_files[j]->0@),
            referenced_spec(audio_files),
            age_secs,
            max_age_secs,
        ),
{
    lemma_referenced_spec_has(audio_files, j);
}

/// The audio paths the history records refer to, lowercased (paths are
/// compared without letter case).
pub fn referenced_keys(audio_files: &[Option<String>]) -> (r: Vec<String>)
    ensures
        crate::text::views(r@) == referenced_spec(audio_files@),
{
    let mut r: Vec<String> = Vec::new();
    let mut i: usize = 0;
    assert(audio_files@.subrange(0, 0) =~= Seq::<Option<String>>::empty());
    while i < audio_files.len()
        invariant
            i <= audio_files@.len(),
            crate::text::views(r@) == referenced_spec(audio_files@.subrange(0, i as int)),
        decreases audio_files@.len() - i,
    {
        let ghost before = crate::text::views(r@);
        match &audio_files[i] {
            Some(p) => {
                let l = crate::rules::structure::to_lowercase(p.as_str());
                r.push(l);
                assert(crate::text::views(r@) =~= before.push(l@));
            },
            None => {},
        }
        proof {
            let sub = audio_files@.subrange(0, i + 1);
            assert(sub.drop_last() =~= audio_files@.subrange(0, i as int));
            assert(sub.last() == audio_files@[i as int]);
        }
        i = i + 1;
    }
    assert(audio_files@.subrange(0, audio_files@.len() as int) =~= audio_files@);
    r
}

/// The lowercased paths of the records that have a recording, in order.
pub open spec fn referenced_spec(fs: Seq<Option<String>>) -> Seq<Seq<char>>
    decreases fs.len(),
{
    if fs.len() == 0 {
        seq![]
    } else {
        referenced_spec(fs.drop_last()) + match fs.last() {
            Some(p) => seq![crate::rules::structure::unicode_lowercase(p@)],
            None => Seq::<Seq<char>>::empty(),
        }
    }
}

} // verus!

verus! {

/// `a` is not older than `b`: its id does not come before `b`'s.
pub open spec fn not_older(a: Seq<char>, b: Seq<char>) -> bool {
    !crate::growth::lex_lt(a, b)
}

/// An order of records `0..n`: each listed once, newest id first, records
/// with equal ids in listing order.
pub open spec fn history_ordered(ids: Seq<Seq<char>>, o: Seq<int>, n: int) -> bool {
    &&& o.len() == n
    &&& forall|i: int| 0 <= i < o.len() ==> 0 <= #[trigger] o[i] < n
    &&& forall|i: int, j: int| 0 <= i < j < o.len() ==> o[i] != o[j]
    &&& forall|i: int, j: int| 0 <= i < j < o.len() ==> not_older(ids[#[trigger] o[i]], ids[#[trigger] o[j]])
    &&& forall|i: int, j: int| 0 <= i < j < o.len() && ids[o[i]] == ids[o[j]] ==> #[trigger] o[i] < #[trigger] o[j]
}

proof fn lemma_insert_point(ids: Seq<Seq<char>>, s: Seq<int>, k: int) -> (p: int)
    ensures
        0 <= p <= s.len(),
        insert_newest(ids, s, k) == s.insert(p, k),
        forall|j: int| p <= j < s.len() ==> crate::growth::lex_lt(ids[#[trigger] s[j]], ids[k]),
        p == 0 || !crate::growth::lex_lt(ids[s[p - 1]], ids[k]),
    decreases s.len(),
{
    if s.len() == 0 {
        assert(s.insert(0, k) =~= seq![k]);
        0
    } else if crate::growth::lex_lt(ids[s.last()], ids[k]) {
        let p = lemma_insert_point(ids, s.drop_last(), k);
        assert(s.insert(p, k) =~= s.drop_last().insert(p, k).push(s.last()));
        assert forall|j: int| p <= j < s.len() implies crate::growth::lex_lt(ids[#[trigger] s[j]], ids[k]) by {
            if j < s.len() - 1 {
                assert(s[j] == s.drop_last()[j]);
            }
        }
        if p > 0 {
            assert(s[p - 1] == s.drop_last()[p - 1]);
        }
        p
    } else {
        assert(s.insert(s.len() as int, k) =~= s.push(k));
        s.len() as int
    }
}

proof fn lemma_not_older_trans(a: Seq<char>, b: Seq<char>, c: Seq<char>)
    requires
        not_older(a, b),
        not_older(b, c),
    ensures
        not_older(a, c),
{
    if crate::growth::lex_lt(a, c) {
        if a == b {
        } else {
            crate::growth::lemma_lex_total(a, b);
            // b < a < c, contradicting not_older(b, c)
            crate::growth::lemma_lex_trans(b, a, c);
        }
    }
}

proof fn lemma_insert_keeps_order(ids: Seq<Seq<char>>, s: Seq<int>, k: int)
    requires
        history_ordered(ids, s, k),
        0 <= k < ids.len(),
    ensures
        history_ordered(ids, insert_newest(ids, s, k), k + 1),
{
    let p = lemma_insert_point(ids, s, k);
    let t = s.insert(p, k);
    assert(t.len() == k + 1);
    assert forall|i: int| 0 <= i < t.len() implies 0 <= #[trigger] t[i] < k + 1 by {
        if i < p {
            assert(t[i] == s[i]);
        } else if i > p {
            assert(t[i] == s[i - 1]);
        }
    }
    assert forall|i: int, j: int| 0 <= i < j < t.len() implies t[i] != t[j] by {
        if i < p && j < p {
            assert(t[i] == s[i] && t[j] == s[j]);
        } else if i < p && j == p {
            assert(t[i] == s[i]);
        } else if i < p {
            assert(t[i] == s[i] && t[j] == s[j - 1]);
        } else if i == p {
            assert(t[j] == s[j - 1]);
        } else {
            assert(t[i] == s[i - 1] && t[j] == s[j - 1]);
        }
    }
    assert forall|i: int, j: int| 0 <= i < j < t.len() implies not_older(ids[#[trigger] t[i]], ids[#[trigger] t[j]]) by {
        if i < p && j < p {
            assert(t[i] == s[i] && t[j] == s[j]);
        } else if i < p && j == p {
            assert(t[i] == s[i]);
            // s[i] is not older than s[p - 1], which is not older than k
            if i < p - 1 {
                assert(not_older(ids[s[i]], ids[s[p - 1]]));
            } else {
                crate::growth::lemma_lex_irrefl(ids[s[i]]);
            }
            lemma_not_older_trans(ids[s[i]], ids[s[p - 1]], ids[k]);
        } else if i < p {
            assert(t[i] == s[i] && t[j] == s[j - 1]);
        } else if i == p {
            assert(t[j] == s[j - 1]);
            assert(crate::growth::lex_lt(ids[s[j - 1]], ids[k]));
            crate::growth::lemma_lex_asym(ids[s[j - 1]], ids[k]);
        } else {
            assert(t[i] == s[i - 1] && t[j] == s[j - 1]);
        }
    }
    assert forall|i: int, j: int| 0 <= i < j < t.len() && ids[t[i]] == ids[t[j]] implies #[trigger] t[i] < #[trigger] t[j] by {
        if i < p && j < p {
            assert(t[i] == s[i] && t[j] == s[j]);
        } else if i < p && j == p {
            assert(t[i] == s[i]);
        } else if i < p {
            assert(t[i] == s[i] && t[j] == s[j - 1]);
        } else if i == p {
            assert(t[j] == s[j - 1]);
            assert(crate::growth::lex_lt(ids[s[j - 1]], ids[k]));
            crate::growth::lemma_lex_irrefl(ids[k]);
        } else {
            assert(t[i] == s[i - 1] && t[j] == s[j - 1]);
        }
    }
}

/// The history order lists every record once, newest id first, and keeps
/// records with equal ids in their listing order.
pub proof fn lemma_history_order(ids: Seq<Seq<char>>, n: nat)
    requires
        n <= ids.len(),
    ensures
        history_ordered(ids, newest_first(ids, n), n as int),
    decreases n,
{
    if n > 0 {
        lemma_history_order(ids, (n - 1) as nat);
        lemma_insert_keeps_order(ids, newest_first(ids, (n - 1) as nat), n - 1);
    }
}

} // verus!
