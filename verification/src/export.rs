//! Export naming: safe titles, Obsidian file names and the numbered
//! variants tried when a name is taken.
use vstd::prelude::*;
use crate::text::{chars_of, trim, trim_vec, string_of, lit, push_str, push_dec, dec, str_eq, strip_end, strip_end_vec};

verus! {

/// Folder of the Obsidian vault exports go to.
pub const OBSIDIAN_DIR: &'static str = "表达训练";

/// Longest title kept in a file name, in characters.
pub const MAX_TITLE_CHARS: usize = 50;

/// Result of a save: whether a file was written, and where.
#[derive(Debug)]
pub struct SaveOutcome {
    pub saved: bool,
    pub path: Option<String>,
}

/// Characters a file name cannot hold.
pub open spec fn illegal_name_char(c: char) -> bool {
    c == '/' || c == '\\' || c == ':' || c == '*' || c == '?' || c == '"' || c == '<' || c == '>' || c
        == '|'
}

pub open spec fn safe_char(c: char) -> char {
    if illegal_name_char(c) {
        '_'
    } else {
        c
    }
}

/// `s` without its leading run of `c`.
pub open spec fn strip_start(s: Seq<char>, c: char) -> Seq<char>
    decreases s.len(),
{
    if s.len() > 0 && s[0] == c {
        strip_start(s.drop_first(), c)
    } else {
        s
    }
}

/// A title made safe for a file name: trimmed, illegal characters turned
/// into `_`, `_` stripped from both ends, cut to 50 characters and trimmed.
pub open spec fn sanitized(title: Seq<char>) -> Seq<char> {
    let cleaned = trim(title).map_values(|c: char| safe_char(c));
    let stripped = strip_start(strip_end(cleaned, '_'), '_');
    let cut = if stripped.len() <= 50 {
        stripped
    } else {
        stripped.subrange(0, 50)
    };
    trim(cut)
}

proof fn lemma_strip_start_skip(s: Seq<char>, c: char, i: int)
    requires
        0 <= i <= s.len(),
        forall|k: int| 0 <= k < i ==> #[trigger] s[k] == c,
    ensures
        strip_start(s, c) == strip_start(s.subrange(i, s.len() as int), c),
    decreases i,
{
    if i > 0 {
        assert(s.drop_first() =~= s.subrange(1, s.len() as int));
        lemma_strip_start_skip(s.drop_first(), c, i - 1);
        assert(s.drop_first().subrange(i - 1, s.drop_first().len() as int) =~= s.subrange(i, s.len() as int));
    } else {
        assert(s.subrange(0, s.len() as int) =~= s);
    }
}

fn strip_start_vec(v: &[char], c: char) -> (r: Vec<char>)
    ensures
        r@ == strip_start(v@, c),
{
    let mut a: usize = 0;
    while a < v.len() && v[a] == c
        invariant
            a <= v@.len(),
            forall|k: int| 0 <= k < a ==> #[trigger] v@[k] == c,
        decreases v@.len() - a,
    {
        a = a + 1;
    }
    proof {
        lemma_strip_start_skip(v@, c, a as int);
        let u = v@.subrange(a as int, v@.len() as int);
        if a < v@.len() {
            assert(u[0] == v@[a as int]);
        }
        assert(strip_start(u, c) == u);
    }
    crate::text::slice_chars(v, a, v.len())
}

pub fn sanitize_title(title: &str) -> (r: String)
    ensures
        r@ == sanitized(title@),
{
    let v = chars_of(title);
    let t = trim_vec(v.as_slice());
    let mut cleaned: Vec<char> = Vec::new();
    let mut i: usize = 0;
    while i < t.len()
        invariant
            i <= t@.len(),
            cleaned@ == t@.subrange(0, i as int).map_values(|c: char| safe_char(c)),
        decreases t@.len() - i,
    {
        let c = t[i];
        let d = if c == '/' || c == '\\' || c == ':' || c == '*' || c == '?' || c == '"' || c == '<' || c
            == '>' || c == '|' {
            '_'
        } else {
            c
        };
        cleaned.push(d);
        i = i + 1;
        assert(cleaned@ =~= t@.subrange(0, i as int).map_values(|c: char| safe_char(c)));
    }
    assert(t@.subrange(0, t@.len() as int) =~= t@);
    let e = strip_end_vec(cleaned.as_slice(), '_');
    let s = strip_start_vec(e.as_slice(), '_');
    let cut = if s.len() <= MAX_TITLE_CHARS {
        s
    } else {
        crate::text::slice_chars(s.as_slice(), 0, MAX_TITLE_CHARS)
    };
    let out = trim_vec(cut.as_slice());
    string_of(out.as_slice())
}

/// File name of an export: `date-title.md`, or `date.md` when the safe title
/// is empty; a transcript gets `-逐字稿` before the extension.
pub open spec fn obsidian_name(kind: Seq<char>, title: Seq<char>, date: Seq<char>) -> Seq<char> {
    let safe = sanitized(title);
    let stem = if safe.len() == 0 {
        date
    } else {
        date + seq!['-'] + safe
    };
    if kind == "transcript"@ {
        stem + "-逐字稿.md"@
    } else {
        stem + ".md"@
    }
}

pub fn obsidian_file_name(kind: &str, title: &str, date: &str) -> (r: String)
    ensures
        r@ == obsidian_name(kind@, title@, date@),
{
    let safe = sanitize_title(title);
    let mut s = lit(date);
    if !safe.as_str().is_empty() {
        crate::text::push_char(&mut s, '-');
        push_str(&mut s, safe.as_str());
    }
    if str_eq(kind, "transcript") {
        push_str(&mut s, "-逐字稿.md");
    } else {
        push_str(&mut s, ".md");
    }
    s
}

/// Index of the last `.` in `s`, or -1.
pub open spec fn last_dot(s: Seq<char>) -> int
    decreases s.len(),
{
    if s.len() == 0 {
        -1
    } else if s.last() == '.' {
        s.len() - 1
    } else {
        last_dot(s.drop_last())
    }
}

/// Stem and extension of a plain file name, as `Path::file_stem` and
/// `Path::extension` split it: at the last `.`, unless that dot leads the
/// name (or the name is `..`), in which case there is no extension.
pub open spec fn stem_ext(name: Seq<char>) -> (Seq<char>, Option<Seq<char>>) {
    let i = last_dot(name);
    if name == seq!['.', '.'] || i <= 0 {
        (name, None)
    } else {
        (name.subrange(0, i), Some(name.subrange(i + 1, name.len() as int)))
    }
}

/// The `n`-th try for a taken name: `stem-n.ext`, or `stem-n` without an
/// extension.
pub open spec fn numbered_name_spec(name: Seq<char>, n: nat) -> Seq<char> {
    let (stem, ext) = stem_ext(name);
    if ext is None || ext->0.len() == 0 {
        stem + seq!['-'] + dec(n)
    } else {
        stem + seq!['-'] + dec(n) + seq!['.'] + ext->0
    }
}

proof fn lemma_last_dot(s: Seq<char>)
    ensures
        -1 <= last_dot(s) < s.len(),
        last_dot(s) >= 0 ==> s[last_dot(s)] == '.',
        forall|k: int| last_dot(s) < k < s.len() ==> s[k] != '.',
    decreases s.len(),
{
    if s.len() > 0 && s.last() != '.' {
        lemma_last_dot(s.drop_last());
        assert forall|k: int| last_dot(s) < k < s.len() implies s[k] != '.' by {
            if k < s.len() - 1 {
                assert(s[k] == s.drop_last()[k]);
            }
        }
    }
}

proof fn lemma_last_dot_at(s: Seq<char>, i: int)
    requires
        -1 <= i < s.len(),
        i >= 0 ==> s[i] == '.',
        forall|k: int| i < k < s.len() ==> s[k] != '.',
    ensures
        last_dot(s) == i,
    decreases s.len(),
{
    if s.len() > 0 && i < s.len() - 1 {
        assert forall|k: int| i < k < s.drop_last().len() implies s.drop_last()[k] != '.' by {
            assert(s.drop_last()[k] == s[k]);
        }
        lemma_last_dot_at(s.drop_last(), i);
    }
}

/// The name tried for the `n`-th collision of `file_name` in a folder.
pub fn numbered_name(file_name: &str, n: u64) -> (r: String)
    ensures
        r@ == numbered_name_spec(file_name@, n as nat),
{
    let v = chars_of(file_name);
    let mut i = v.len();
    while i > 0 && v[i - 1] != '.'
        invariant
            i <= v@.len(),
            forall|k: int| i <= k < v@.len() ==> v@[k] != '.',
        decreases i,
    {
        i = i - 1;
    }
    proof {
        if i > 0 {
            lemma_last_dot_at(v@, i - 1);
        } else {
            lemma_last_dot_at(v@, -1);
        }
    }
    let dots = v.len() == 2 && v[0] == '.' && v[1] == '.';
    proof {
        if v@ == seq!['.', '.'] {
            assert(v@.len() == 2 && v@[0] == '.' && v@[1] == '.');
        }
        if dots {
            assert(v@ =~= seq!['.', '.']);
        }
    }
    let mut out: Vec<char>;
    if dots || i <= 1 {
        out = crate::text::slice_chars(v.as_slice(), 0, v.len());
        assert(v@.subrange(0, v@.len() as int) =~= v@);
        out.push('-');
        let d = crate::text::u64_dec(n);
        crate::text::extend_chars(&mut out, d.as_slice());
    } else {
        out = crate::text::slice_chars(v.as_slice(), 0, i - 1);
        out.push('-');
        let d = crate::text::u64_dec(n);
        crate::text::extend_chars(&mut out, d.as_slice());
        if i < v.len() {
            out.push('.');
            let ext = crate::text::slice_chars(v.as_slice(), i, v.len());
            crate::text::extend_chars(&mut out, ext.as_slice());
        }
    }
    string_of(out.as_slice())
}

} // verus!

verus! {

/// Where an Obsidian export goes.
#[derive(Debug, Clone, PartialEq, Eq)]
pub enum ExportPlan {
    /// No vault configured: the save dialog, with this suggested name.
    Dialog { suggested_name: String },
    /// Into the vault's export folder (a taken name is numbered there).
    Vault { vault: String, file_name: String },
}

/// The export of a report or transcript: with a vault path (trimmed, not
/// blank) straight into its export folder, otherwise through the save
/// dialog; both use the export file name of the trimmed title.
pub fn export_plan(vault: &str, kind: &str, title: Option<&str>, date: &str) -> (r: ExportPlan)
    ensures
        ({
            let t = match title {
                Some(x) => trim(x@),
                None => Seq::<char>::empty(),
            };
            if trim(vault@).len() == 0 {
                r matches ExportPlan::Dialog { suggested_name } && suggested_name@ == obsidian_name(kind@, t, date@)
            } else {
                r matches ExportPlan::Vault { vault: v, file_name } && v@ == trim(vault@) && file_name@ == obsidian_name(
                    kind@,
                    t,
                    date@,
                )
            }
        }),
{
    let t = match title {
        Some(x) => crate::text::trim_string(x),
        None => String::new(),
    };
    let name = obsidian_file_name(kind, t.as_str(), date);
    match crate::report::trimmed_nonblank(vault) {
        Some(v) => ExportPlan::Vault { vault: v, file_name: name },
        None => ExportPlan::Dialog { suggested_name: name },
    }
}

} // verus!
