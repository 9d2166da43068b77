//! Settings logic: backend presets, whitelists and defaults, and the parsers
//! for the free-text fields (custom fillers, hotwords, ASR corrections).
use vstd::prelude::*;
use crate::text::{
    chars_of, char_in, split_on, split_by, trim, trim_vec, chars_eq, string_of, lines, lines_of,
    split_once, split_once_chars, replace_all, replace_chars, str_eq,
};
use crate::rules::lexicon::{drop_empty, dedup};

verus! {

pub const STORE_FILE: &'static str = "settings.json";

pub const STORE_KEY: &'static str = "settings";

/// Default base URL and model name of a backend.
pub struct Preset {
    pub base_url: &'static str,
    pub model: &'static str,
}

pub const BACKENDS: [&'static str; 5] = ["deepseek", "openai", "groq", "ollama", "custom"];

/// Scenarios that settings may hold (the mock interview is chosen elsewhere).
pub const SCENARIOS: [&'static str; 4] = ["free", "interview", "vlog", "workreport"];

/// Accepted sentence-split sensitivities.
pub const VAD_SENSITIVITIES: [&'static str; 2] = ["standard", "high"];

} // verus!

verus! {

/// The preset of a backend as (base URL, model name); `custom` and unknown
/// backends have none.
pub open spec fn preset_spec(backend: Seq<char>) -> Option<(Seq<char>, Seq<char>)> {
    if backend == "deepseek"@ {
        Some(("https://api.deepseek.com/v1"@, "deepseek-chat"@))
    } else if backend == "openai"@ {
        Some(("https://api.openai.com/v1"@, "gpt-4o-mini"@))
    } else if backend == "groq"@ {
        Some(("https://api.groq.com/openai/v1"@, "llama-3.3-70b-versatile"@))
    } else if backend == "ollama"@ {
        Some(("http://localhost:11434/v1"@, "qwen2.5:7b"@))
    } else {
        None
    }
}

/// The preset of `backend`.
pub fn preset_for(backend: &str) -> (r: Option<Preset>)
    ensures
        match r {
            Some(p) => preset_spec(backend@) == Some((p.base_url@, p.model@)),
            None => preset_spec(backend@) is None,
        },
{
    if str_eq(backend, "deepseek") {
        Some(Preset { base_url: "https://api.deepseek.com/v1", model: "deepseek-chat" })
    } else if str_eq(backend, "openai") {
        Some(Preset { base_url: "https://api.openai.com/v1", model: "gpt-4o-mini" })
    } else if str_eq(backend, "groq") {
        Some(Preset { base_url: "https://api.groq.com/openai/v1", model: "llama-3.3-70b-versatile" })
    } else if str_eq(backend, "ollama") {
        Some(Preset { base_url: "http://localhost:11434/v1", model: "qwen2.5:7b" })
    } else {
        None
    }
}

pub fn default_checkin_interval_sec() -> (r: u32)
    ensures
        r == 45,
{
    45
}

pub fn default_record_audio() -> (r: bool)
    ensures
        r,
{
    true
}

pub fn default_precision_finals() -> (r: bool)
    ensures
        r,
{
    true
}

pub fn default_enhance_audio() -> (r: bool)
    ensures
        r,
{
    true
}

pub fn default_show_live_preview() -> (r: bool)
    ensures
        r,
{
    true
}

pub fn default_tone_check() -> (r: bool)
    ensures
        r,
{
    true
}

/// Whether `value` is one of `list`.
pub fn is_listed(value: &str, list: &[&str]) -> (r: bool)
    ensures
        r == exists|i: int| 0 <= i < list@.len() && (#[trigger] list@[i])@ == value@,
{
    let mut i: usize = 0;
    while i < list.len()
        invariant
            i <= list@.len(),
            forall|k: int| 0 <= k < i ==> (#[trigger] list@[k])@ != value@,
        decreases list@.len() - i,
    {
        if str_eq(list[i], value) {
            return true;
        }
        i = i + 1;
    }
    false
}

/// `value` when `list` holds it, else `fallback`.
pub fn normalize_choice(value: &str, list: &[&str], fallback: &str) -> (r: String)
    ensures
        r@ == (if exists|i: int| 0 <= i < list@.len() && (#[trigger] list@[i])@ == value@ {
            value@
        } else {
            fallback@
        }),
{
    if is_listed(value, list) {
        crate::text::lit(value)
    } else {
        crate::text::lit(fallback)
    }
}

/// The check-in interval kept in range: 0 or over 600 falls back to the
/// default, then the value is held to 15..=600 seconds.
pub open spec fn checkin_interval_spec(sec: int) -> int {
    let s = if sec == 0 || sec > 600 { 45 } else { sec };
    if s < 15 {
        15
    } else if s > 600 {
        600
    } else {
        s
    }
}

pub fn normalize_checkin_interval(sec: u32) -> (r: u32)
    ensures
        r == checkin_interval_spec(sec as int),
{
    let s = if sec == 0 || sec > 600 {
        default_checkin_interval_sec()
    } else {
        sec
    };
    if s < 15 {
        15
    } else if s > 600 {
        600
    } else {
        s
    }
}

/// The effective field: the trimmed user value, or the preset's when blank.
pub open spec fn endpoint_field(user: Seq<char>, preset: Option<Seq<char>>) -> Option<Seq<char>> {
    if trim(user).len() == 0 {
        preset
    } else {
        Some(trim(user))
    }
}

/// The effective (base URL, model) of a backend with the user's overrides.
pub open spec fn endpoint_spec(backend: Seq<char>, base_url: Seq<char>, model: Seq<char>) -> Option<
    (Seq<char>, Seq<char>),
> {
    let (pb, pm) = match preset_spec(backend) {
        Some((b, m)) => (Some(b), Some(m)),
        None => (None, None),
    };
    let b = endpoint_field(base_url, pb);
    let m = endpoint_field(model, pm);
    if b is Some && m is Some {
        Some((b->0, m->0))
    } else {
        None
    }
}

/// Effective (base URL, model): blank user fields fall back to the preset;
/// `None` when a blank field has no preset to fall back on.
pub fn resolve_endpoint(backend: &str, base_url: &str, model_name: &str) -> (r: Option<(String, String)>)
    ensures
        match r {
            Some((b, m)) => endpoint_spec(backend@, base_url@, model_name@) == Some((b@, m@)),
            None => endpoint_spec(backend@, base_url@, model_name@) is None,
        },
{
    let preset = preset_for(backend);
    let base = crate::text::trim_string(base_url);
    let base_out = if base.as_str().is_empty() {
        match &preset {
            Some(p) => crate::text::lit(p.base_url),
            None => {
                return None;
            },
        }
    } else {
        base
    };
    let model = crate::text::trim_string(model_name);
    let model_out = if model.as_str().is_empty() {
        match &preset {
            Some(p) => crate::text::lit(p.model),
            None => {
                return None;
            },
        }
    } else {
        model
    };
    Some((base_out, model_out))
}

/// Whether a remote call can be made: a local Ollama needs no key, every
/// other backend needs a non-blank one.
pub fn can_call_remote(backend: &str, api_key: &str) -> (r: bool)
    ensures
        r == (backend@ == "ollama"@ || trim(api_key@).len() > 0),
{
    if str_eq(backend, "ollama") {
        true
    } else {
        let k = crate::text::trim_string(api_key);
        !k.as_str().is_empty()
    }
}

} // verus!

verus! {

/// Separators of the custom filler list: ASCII and full-width commas and `、`.
pub open spec fn filler_seps() -> Seq<char> {
    seq![',', '，', '、']
}

/// Separators of the hotword list: those of the filler list, line breaks and
/// semicolons.
pub open spec fn hotword_seps() -> Seq<char> {
    seq![',', '，', '、', '\n', '\r', ';', '；']
}

/// The trimmed, non-empty, distinct pieces of `raw` between separators, in
/// order of first appearance.
pub open spec fn word_list(raw: Seq<char>, seps: Seq<char>) -> Seq<Seq<char>> {
    dedup(drop_empty(split_by(raw, seps).map_values(|p: Seq<char>| trim(p))))
}

fn seps_vec(hot: bool) -> (v: Vec<char>)
    ensures
        v@ == (if hot { hotword_seps() } else { filler_seps() }),
{
    let mut v: Vec<char> = Vec::new();
    v.push(',');
    v.push('，');
    v.push('、');
    if hot {
        v.push('\n');
        v.push('\r');
        v.push(';');
        v.push('；');
    }
    assert(v@ =~= (if hot { hotword_seps() } else { filler_seps() }));
    v
}

/// Whether `w` is one of `seen`.
pub fn seen_before(seen: &Vec<Vec<char>>, w: &[char]) -> (r: bool)
    ensures
        r == seen@.map_values(|p: Vec<char>| p@).contains(w@),
{
    let ghost d = seen@.map_values(|p: Vec<char>| p@);
    let mut j: usize = 0;
    while j < seen.len()
        invariant
            j <= seen@.len(),
            d == seen@.map_values(|p: Vec<char>| p@),
            forall|k: int| 0 <= k < j ==> d[k] != w@,
        decreases seen@.len() - j,
    {
        if chars_eq(seen[j].as_slice(), w) {
            assert(d[j as int] == w@);
            return true;
        }
        j = j + 1;
    }
    false
}

/// Trims every piece, drops the empty ones and keeps first occurrences.
pub fn distinct_words(pieces: &Vec<Vec<char>>) -> (out: Vec<String>)
    ensures
        out@.map_values(|s: String| s@) == dedup(
            drop_empty(pieces@.map_values(|p: Vec<char>| p@).map_values(|p: Seq<char>| trim(p))),
        ),
{
    let ghost all = pieces@.map_values(|p: Vec<char>| p@).map_values(|p: Seq<char>| trim(p));
    let mut out: Vec<String> = Vec::new();
    let mut seen: Vec<Vec<char>> = Vec::new();
    let mut i: usize = 0;
    assert(all.subrange(0, 0) =~= Seq::<Seq<char>>::empty());
    while i < pieces.len()
        invariant
            i <= pieces@.len(),
            all == pieces@.map_values(|p: Vec<char>| p@).map_values(|p: Seq<char>| trim(p)),
            out@.map_values(|s: String| s@) == seen@.map_values(|p: Vec<char>| p@),
            seen@.map_values(|p: Vec<char>| p@) == dedup(drop_empty(all.subrange(0, i as int))),
        decreases pieces@.len() - i,
    {
        let w = trim_vec(pieces[i].as_slice());
        let ghost prev = all.subrange(0, i as int);
        let ghost next = all.subrange(0, i + 1);
        let ghost d = seen@.map_values(|p: Vec<char>| p@);
        proof {
            assert(next.drop_last() =~= prev);
            assert(next.last() == w@);
        }
        if w.len() > 0 {
            let dup = seen_before(&seen, w.as_slice());
            proof {
                assert(drop_empty(next) == drop_empty(prev).push(w@));
                assert(drop_empty(next).drop_last() =~= drop_empty(prev));
            }
            if !dup {
                let ghost before_out = out@.map_values(|s: String| s@);
                let s = string_of(w.as_slice());
                out.push(s);
                seen.push(w);
                assert(out@.map_values(|s: String| s@) =~= before_out.push(s@));
                assert(seen@.map_values(|p: Vec<char>| p@) =~= d.push(w@));
            }
        } else {
            assert(drop_empty(next) == drop_empty(prev));
        }
        i = i + 1;
    }
    assert(all.subrange(0, pieces@.len() as int) =~= all);
    out
}

/// The custom filler words of a settings field.
pub fn parse_custom_fillers(raw: &str) -> (r: Vec<String>)
    ensures
        r@.map_values(|s: String| s@) == word_list(raw@, filler_seps()),
{
    let chars = chars_of(raw);
    let seps = seps_vec(false);
    let pieces = split_on(chars.as_slice(), seps.as_slice());
    assert(pieces@.map_values(|p: Vec<char>| p@).map_values(|p: Seq<char>| trim(p))
        =~= split_by(raw@, filler_seps()).map_values(|p: Seq<char>| trim(p)));
    distinct_words(&pieces)
}

/// The recognition hotwords of a settings field.
pub fn parse_hotwords(raw: &str) -> (r: Vec<String>)
    ensures
        r@.map_values(|s: String| s@) == word_list(raw@, hotword_seps()),
{
    let chars = chars_of(raw);
    let seps = seps_vec(true);
    let pieces = split_on(chars.as_slice(), seps.as_slice());
    assert(pieces@.map_values(|p: Vec<char>| p@).map_values(|p: Seq<char>| trim(p))
        =~= split_by(raw@, hotword_seps()).map_values(|p: Seq<char>| trim(p)));
    distinct_words(&pieces)
}

} // verus!

verus! {

/// One correction: a misrecognised spelling and its replacement.
#[derive(Debug, Clone, PartialEq, Eq)]
pub struct Correction {
    pub from: String,
    pub to: String,
}

pub open spec fn arrow_ascii() -> Seq<char> {
    seq!['-', '>']
}

pub open spec fn arrow_uni() -> Seq<char> {
    seq!['→']
}

pub open spec fn equals_sign() -> Seq<char> {
    seq!['=']
}

/// A rule line split at its first `->`, else its first `→`, else its first `=`.
pub open spec fn rule_split(line: Seq<char>) -> Option<(Seq<char>, Seq<char>)> {
    if split_once(line, arrow_ascii()) is Some {
        split_once(line, arrow_ascii())
    } else if split_once(line, arrow_uni()) is Some {
        split_once(line, arrow_uni())
    } else {
        split_once(line, equals_sign())
    }
}

/// The correction a line states: both sides trimmed and non-empty.
pub open spec fn correction_of(line: Seq<char>) -> Option<(Seq<char>, Seq<char>)> {
    match rule_split(trim(line)) {
        Some((a, b)) => if trim(a).len() > 0 && trim(b).len() > 0 {
            Some((trim(a), trim(b)))
        } else {
            None
        },
        None => None,
    }
}

/// The corrections of a list of lines; a later rule for a `from` already
/// seen is dropped.
pub open spec fn corrections_of(ls: Seq<Seq<char>>) -> Seq<(Seq<char>, Seq<char>)>
    decreases ls.len(),
{
    if ls.len() == 0 {
        seq![]
    } else {
        let d = corrections_of(ls.drop_last());
        match correction_of(ls.last()) {
            Some(c) => if exists|k: int| 0 <= k < d.len() && (#[trigger] d[k]).0 == c.0 {
                d
            } else {
                d.push(c)
            },
            None => d,
        }
    }
}

fn split_rule(line: &[char]) -> (r: Option<(Vec<char>, Vec<char>)>)
    ensures
        match r {
            Some((a, b)) => rule_split(line@) == Some((a@, b@)),
            None => rule_split(line@) is None,
        },
{
    let mut arrow: Vec<char> = Vec::new();
    arrow.push('-');
    arrow.push('>');
    assert(arrow@ =~= arrow_ascii());
    let mut uni: Vec<char> = Vec::new();
    uni.push('→');
    assert(uni@ =~= arrow_uni());
    let mut eq: Vec<char> = Vec::new();
    eq.push('=');
    assert(eq@ =~= equals_sign());
    match split_once_chars(line, arrow.as_slice()) {
        Some(p) => Some(p),
        None => match split_once_chars(line, uni.as_slice()) {
            Some(p) => Some(p),
            None => split_once_chars(line, eq.as_slice()),
        },
    }
}

fn correction_line(line: &[char]) -> (r: Option<(Vec<char>, Vec<char>)>)
    ensures
        match r {
            Some((a, b)) => correction_of(line@) == Some((a@, b@)),
            None => correction_of(line@) is None,
        },
{
    let t = trim_vec(line);
    match split_rule(t.as_slice()) {
        Some((a, b)) => {
            let from = trim_vec(a.as_slice());
            let to = trim_vec(b.as_slice());
            if from.len() > 0 && to.len() > 0 {
                Some((from, to))
            } else {
                None
            }
        },
        None => None,
    }
}

/// The corrections field parsed: one `wrong->right` rule per line (`→` and
/// `=` also separate); lines without a separator or with a blank side are
/// skipped, and for a repeated `from` the first rule is kept.
pub fn parse_correction_map(raw: &str) -> (r: Vec<Correction>)
    ensures
        r@.map_values(|c: Correction| (c.from@, c.to@)) == corrections_of(lines(raw@)),
{
    let chars = chars_of(raw);
    let ls = lines_of(chars.as_slice());
    let ghost lv = ls@.map_values(|l: Vec<char>| l@);
    let mut out: Vec<Correction> = Vec::new();
    let mut froms: Vec<Vec<char>> = Vec::new();
    let mut i: usize = 0;
    assert(lv.subrange(0, 0) =~= Seq::<Seq<char>>::empty());
    while i < ls.len()
        invariant
            i <= ls@.len(),
            lv == ls@.map_values(|l: Vec<char>| l@),
            froms@.len() == out@.len(),
            forall|k: int| 0 <= k < out@.len() ==> (#[trigger] froms@[k])@ == out@[k].from@,
            out@.map_values(|c: Correction| (c.from@, c.to@)) == corrections_of(lv.subrange(0, i as int)),
        decreases ls@.len() - i,
    {
        let ghost prev = lv.subrange(0, i as int);
        let ghost next = lv.subrange(0, i + 1);
        let ghost d = out@.map_values(|c: Correction| (c.from@, c.to@));
        proof {
            assert(next.drop_last() =~= prev);
            assert(next.last() == ls@[i as int]@);
        }
        match correction_line(ls[i].as_slice()) {
            Some((from, to)) => {
                let dup = seen_before(&froms, from.as_slice());
                proof {
                    let fv = froms@.map_values(|p: Vec<char>| p@);
                    if dup {
                        let k = choose|k: int| 0 <= k < fv.len() && fv[k] == from@;
                        assert(d[k].0 == from@);
                    } else {
                        assert forall|k: int| 0 <= k < d.len() implies (#[trigger] d[k]).0 != from@ by {
                            assert(fv[k] == froms@[k]@);
                        }
                    }
                }
                if !dup {
                    let c = Correction { from: string_of(from.as_slice()), to: string_of(to.as_slice()) };
                    out.push(c);
                    froms.push(from);
                    assert(out@.map_values(|c: Correction| (c.from@, c.to@)) =~= d.push((from@, to@)));
                }
            },
            None => {},
        }
        i = i + 1;
    }
    assert(lv.subrange(0, ls@.len() as int) =~= lv);
    out
}

} // verus!

verus! {

/// Length in UTF-8 bytes (`str::len`).
pub open spec fn byte_len(s: Seq<char>) -> int {
    vstd::utf8::encode_utf8(s).len() as int
}

/// Where an entry with key `k` goes in `order` (scanning from `j`): before
/// the first entry with a smaller key, so equal keys keep their order.
pub open spec fn insert_pos(order: Seq<int>, keys: Seq<int>, k: int, j: int) -> int
    decreases order.len() - j,
{
    if j < 0 || j >= order.len() {
        order.len() as int
    } else if keys[order[j]] < k {
        j
    } else {
        insert_pos(order, keys, k, j + 1)
    }
}

/// Indices `0..n` ordered by key, largest first; equal keys keep their order
/// (a stable sort).
pub open spec fn longest_first(keys: Seq<int>, n: int) -> Seq<int>
    decreases n,
{
    if n <= 0 {
        seq![]
    } else {
        let o = longest_first(keys, n - 1);
        o.insert(insert_pos(o, keys, keys[n - 1], 0), n - 1)
    }
}

/// `text` after each rule of `order` is applied in turn, as one
/// replace-all pass each.
pub open spec fn apply_in_order(text: Seq<char>, rules: Seq<(Seq<char>, Seq<char>)>, order: Seq<int>) -> Seq<char>
    decreases order.len(),
{
    if order.len() == 0 {
        text
    } else {
        let t = apply_in_order(text, rules, order.drop_last());
        replace_all(t, rules[order.last()].0, rules[order.last()].1)
    }
}

/// A final sentence after the corrections: rules with a longer `from` (in
/// bytes) first, ties in list order, one direct pass each; no rules or an
/// empty text leave the text as it is.
pub open spec fn corrected(text: Seq<char>, rules: Seq<(Seq<char>, Seq<char>)>) -> Seq<char> {
    if rules.len() == 0 || text.len() == 0 {
        text
    } else {
        apply_in_order(
            text,
            rules,
            longest_first(rules.map_values(|r: (Seq<char>, Seq<char>)| byte_len(r.0)), rules.len() as int),
        )
    }
}

proof fn lemma_insert_pos_range(order: Seq<int>, keys: Seq<int>, k: int, j: int)
    requires
        0 <= j <= order.len(),
    ensures
        j <= insert_pos(order, keys, k, j) <= order.len(),
    decreases order.len() - j,
{
    if j < order.len() && keys[order[j]] >= k {
        lemma_insert_pos_range(order, keys, k, j + 1);
    }
}

proof fn lemma_longest_first_range(keys: Seq<int>, n: int)
    requires
        n >= 0,
    ensures
        longest_first(keys, n).len() == n,
        forall|i: int| 0 <= i < n ==> 0 <= #[trigger] longest_first(keys, n)[i] < n,
    decreases n,
{
    if n > 0 {
        let o = longest_first(keys, n - 1);
        lemma_longest_first_range(keys, n - 1);
        lemma_insert_pos_range(o, keys, keys[n - 1], 0);
        let p = insert_pos(o, keys, keys[n - 1], 0);
        assert forall|i: int| 0 <= i < n implies 0 <= #[trigger] longest_first(keys, n)[i] < n by {
            if i < p {
                assert(longest_first(keys, n)[i] == o[i]);
            } else if i > p {
                assert(longest_first(keys, n)[i] == o[i - 1]);
            }
        }
    }
}

fn order_longest_first(keys: &Vec<usize>) -> (order: Vec<usize>)
    ensures
        order@.map_values(|x: usize| x as int) == longest_first(
            keys@.map_values(|k: usize| k as int),
            keys@.len() as int,
        ),
        forall|i: int| 0 <= i < order@.len() ==> (#[trigger] order@[i]) < keys@.len(),
{
    let ghost ks = keys@.map_values(|k: usize| k as int);
    let mut order: Vec<usize> = Vec::new();
    let mut n: usize = 0;
    while n < keys.len()
        invariant
            n <= keys@.len(),
            ks == keys@.map_values(|k: usize| k as int),
            order@.map_values(|x: usize| x as int) == longest_first(ks, n as int),
            forall|i: int| 0 <= i < order@.len() ==> (#[trigger] order@[i]) < n,
        decreases keys@.len() - n,
    {
        let k = keys[n];
        let ghost ov = order@.map_values(|x: usize| x as int);
        proof {
            lemma_longest_first_range(ks, n as int);
        }
        let mut j: usize = 0;
        while j < order.len() && keys[order[j]] >= k
            invariant
                j <= order@.len(),
                n < keys@.len(),
                ks == keys@.map_values(|k: usize| k as int),
                ov == order@.map_values(|x: usize| x as int),
                k == keys@[n as int],
                forall|i: int| 0 <= i < order@.len() ==> (#[trigger] order@[i]) < n,
                insert_pos(ov, ks, k as int, 0) == insert_pos(ov, ks, k as int, j as int),
            decreases order@.len() - j,
        {
            assert(ov[j as int] == order@[j as int] as int);
            j = j + 1;
        }
        proof {
            if j < order@.len() {
                assert(ov[j as int] == order@[j as int] as int);
            }
            assert(insert_pos(ov, ks, k as int, j as int) == j);
        }
        order.insert(j, n);
        assert(order@.map_values(|x: usize| x as int) =~= ov.insert(j as int, n as int));
        n = n + 1;
    }
    order
}

/// Applies the corrections to a final sentence: rules with a longer `from`
/// go first so a short rule cannot eat part of a longer one; each rule
/// replaces all its occurrences once, without recursion.
pub fn apply_corrections(text: &str, map: &[Correction]) -> (r: String)
    ensures
        r@ == corrected(text@, map@.map_values(|c: Correction| (c.from@, c.to@))),
{
    let ghost rules = map@.map_values(|c: Correction| (c.from@, c.to@));
    if map.len() == 0 || text.is_empty() {
        return crate::text::lit(text);
    }
    let mut keys: Vec<usize> = Vec::new();
    let mut i: usize = 0;
    while i < map.len()
        invariant
            i <= map@.len(),
            rules == map@.map_values(|c: Correction| (c.from@, c.to@)),
            keys@.len() == i,
            forall|k: int| 0 <= k < i ==> (#[trigger] keys@[k]) as int == byte_len(rules[k].0),
        decreases map@.len() - i,
    {
        let f = map[i].from.as_str();
        let len = f.as_bytes().len();
        assert(rules[i as int].0 == f@);
        assert(len as int == byte_len(f@));
        keys.push(len);
        i = i + 1;
    }
    assert(keys@.map_values(|k: usize| k as int) =~= rules.map_values(
        |r: (Seq<char>, Seq<char>)| byte_len(r.0),
    ));
    let order = order_longest_first(&keys);
    let ghost ov = order@.map_values(|x: usize| x as int);
    let mut out = chars_of(text);
    let mut k: usize = 0;
    assert(ov.subrange(0, 0) =~= Seq::<int>::empty());
    while k < order.len()
        invariant
            k <= order@.len(),
            rules == map@.map_values(|c: Correction| (c.from@, c.to@)),
            ov == order@.map_values(|x: usize| x as int),
            keys@.len() == map@.len(),
            forall|m: int| 0 <= m < order@.len() ==> (#[trigger] order@[m]) < keys@.len(),
            out@ == apply_in_order(text@, rules, ov.subrange(0, k as int)),
        decreases order@.len() - k,
    {
        let idx = order[k];
        let from = chars_of(map[idx].from.as_str());
        let to = chars_of(map[idx].to.as_str());
        out = replace_chars(out.as_slice(), from.as_slice(), to.as_slice());
        proof {
            let next = ov.subrange(0, k + 1);
            assert(next.drop_last() =~= ov.subrange(0, k as int));
            assert(next.last() == idx as int);
            assert(rules[idx as int] == (map@[idx as int].from@, map@[idx as int].to@));
        }
        k = k + 1;
    }
    assert(ov.subrange(0, order@.len() as int) =~= ov);
    string_of(out.as_slice())
}

} // verus!

verus! {

/// The hotwords file of the recogniser: one hotword per line; none when the
/// settings list no hotword.
pub fn hotwords_file_body(raw: &str) -> (r: Option<String>)
    ensures
        word_list(raw@, hotword_seps()).len() == 0 ==> r is None,
        word_list(raw@, hotword_seps()).len() > 0 ==> (r matches Some(b) && b@ == crate::text::join(
            word_list(raw@, hotword_seps()),
            seq!['\n'],
        )),
{
    let words = parse_hotwords(raw);
    if words.len() == 0 {
        return None;
    }
    let mut body = String::new();
    crate::text::push_join(&mut body, words.as_slice(), "\n");
    proof {
        reveal_strlit("\n");
        assert("\n"@ =~= seq!['\n']);
        assert(crate::text::views(words@) =~= words@.map_values(|s: String| s@));
    }
    Some(body)
}

} // verus!
