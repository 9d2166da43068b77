//! Model download logic: mirror URLs, progress pacing, HTTP resume
//! decisions, the download scope and the lists of model files.
use vstd::prelude::*;
use crate::text::{chars_of, lit, push_str, str_eq, trim, trim_vec, string_of};

verus! {

/// Directory of the streaming model.
pub const PARA_DIR_NAME: &'static str = "sherpa-onnx-streaming-paraformer-bilingual-zh-en";

/// Directory of the optional offline model.
pub const SENSE_DIR_NAME: &'static str = "sherpa-onnx-sense-voice-zh-en-ja-ko-yue-2024-07-17";

pub const VAD_FILE: &'static str = "silero_vad.onnx";

pub const PARA_ARCHIVE: &'static str = "sherpa-onnx-streaming-paraformer-bilingual-zh-en.tar.bz2";

pub const SENSE_ARCHIVE: &'static str = "sherpa-onnx-sense-voice-zh-en-ja-ko-yue-2024-07-17.tar.bz2";

pub const GH_RELEASE_BASE: &'static str = "https://github.com/k2-fsa/sherpa-onnx/releases/download/asr-models";

pub const GHFAST_PROXY_BASE: &'static str =
    "https://ghfast.top/https://github.com/k2-fsa/sherpa-onnx/releases/download/asr-models";

pub const HF_VAD_REPO: &'static str = "csukuangfj/vad";

pub const HF_PARA_REPO: &'static str = "csukuangfj/sherpa-onnx-streaming-paraformer-bilingual-zh-en";

pub const HF_SENSE_REPO: &'static str = "csukuangfj/sherpa-onnx-sense-voice-zh-en-ja-ko-yue-2024-07-17";

/// Smallest step between two progress events (512 KiB).
pub const PROGRESS_EMIT_STEP: u64 = 524288;

/// Release asset sources: the proxy first, then GitHub itself.
pub fn gh_asset_urls(relative: &str) -> (r: Vec<String>)
    ensures
        r@.len() == 2,
        r@[0]@ == GHFAST_PROXY_BASE@ + seq!['/'] + relative@,
        r@[1]@ == GH_RELEASE_BASE@ + seq!['/'] + relative@,
{
    let mut a = lit(GHFAST_PROXY_BASE);
    crate::text::push_char(&mut a, '/');
    push_str(&mut a, relative);
    let mut b = lit(GH_RELEASE_BASE);
    crate::text::push_char(&mut b, '/');
    push_str(&mut b, relative);
    let mut v: Vec<String> = Vec::new();
    v.push(a);
    v.push(b);
    v
}

/// A file of a Hugging Face repository under one host.
pub open spec fn hf_url(host: Seq<char>, repo: Seq<char>, file: Seq<char>) -> Seq<char> {
    host + seq!['/'] + repo + "/resolve/main/"@ + file
}

fn hf_url_exec(host: &str, repo: &str, file: &str) -> (r: String)
    ensures
        r@ == hf_url(host@, repo@, file@),
{
    let mut s = lit(host);
    crate::text::push_char(&mut s, '/');
    push_str(&mut s, repo);
    push_str(&mut s, "/resolve/main/");
    push_str(&mut s, file);
    s
}

/// Hugging Face file sources: the official site, then the mirror.
pub fn hf_file_urls(repo: &str, file: &str) -> (r: Vec<String>)
    ensures
        r@.len() == 2,
        r@[0]@ == hf_url("https://huggingface.co"@, repo@, file@),
        r@[1]@ == hf_url("https://hf-mirror.com"@, repo@, file@),
{
    let mut v: Vec<String> = Vec::new();
    v.push(hf_url_exec("https://huggingface.co", repo, file));
    v.push(hf_url_exec("https://hf-mirror.com", repo, file));
    v
}

/// Whether enough bytes arrived since the last progress event.
pub fn progress_due(received: u64, last_emitted: u64) -> (r: bool)
    requires
        last_emitted + PROGRESS_EMIT_STEP <= u64::MAX,
    ensures
        r == (received >= last_emitted + PROGRESS_EMIT_STEP),
{
    received >= last_emitted + PROGRESS_EMIT_STEP
}

/// Value of a run of decimal digits.
pub open spec fn digits_value(s: Seq<char>) -> nat
    decreases s.len(),
{
    if s.len() == 0 {
        0
    } else {
        digits_value(s.drop_last()) * 10 + ((s.last() as u32) - 48) as nat
    }
}

pub open spec fn all_digits(s: Seq<char>) -> bool {
    forall|i: int| 0 <= i < s.len() ==> '0' <= #[trigger] s[i] <= '9'
}

/// `u64::from_str`: an optional `+`, then one or more digits, in range.
pub open spec fn parse_u64_spec(s: Seq<char>) -> Option<u64> {
    let d = if s.len() > 0 && s[0] == '+' {
        s.drop_first()
    } else {
        s
    };
    if d.len() > 0 && all_digits(d) && digits_value(d) <= u64::MAX {
        Some(digits_value(d) as u64)
    } else {
        None
    }
}

proof fn lemma_digits_prefix(s: Seq<char>, j: int)
    requires
        0 <= j <= s.len(),
        all_digits(s),
    ensures
        digits_value(s.subrange(0, j)) <= digits_value(s),
    decreases s.len() - j,
{
    if j < s.len() {
        assert(all_digits(s.drop_last()));
        lemma_digits_prefix(s.drop_last(), j);
        assert(s.drop_last().subrange(0, j) =~= s.subrange(0, j));
    } else {
        assert(s.subrange(0, j) =~= s);
    }
}

/// Parses a decimal `u64` as `str::parse` does.
pub fn parse_u64(s: &[char]) -> (r: Option<u64>)
    ensures
        r == parse_u64_spec(s@),
{
    let start: usize = if s.len() > 0 && s[0] == '+' {
        1
    } else {
        0
    };
    let ghost d = if s@.len() > 0 && s@[0] == '+' {
        s@.drop_first()
    } else {
        s@
    };
    assert(d =~= s@.subrange(start as int, s@.len() as int));
    if start >= s.len() {
        return None;
    }
    let mut acc: u64 = 0;
    let mut i: usize = start;
    assert(d.subrange(0, 0) =~= Seq::<char>::empty());
    while i < s.len()
        invariant
            start <= i <= s@.len(),
            start < s@.len(),
            d == (if s@.len() > 0 && s@[0] == '+' {
                s@.drop_first()
            } else {
                s@
            }),
            d =~= s@.subrange(start as int, s@.len() as int),
            all_digits(d.subrange(0, i - start)),
            acc == digits_value(d.subrange(0, i - start)),
        decreases s@.len() - i,
    {
        let c = s[i];
        let ghost k = i - start;
        proof {
            assert(d.subrange(0, k + 1).drop_last() =~= d.subrange(0, k));
            assert(d.subrange(0, k + 1).last() == c);
        }
        if c < '0' || c > '9' {
            proof {
                assert(d[k] == c);
                assert(!all_digits(d));
            }
            return None;
        }
        let digit = (c as u32 - 48) as u64;
        if acc > (u64::MAX - digit) / 10 {
            proof {
                assert(all_digits(d.subrange(0, k + 1)));
                assert(digits_value(d.subrange(0, k + 1)) == acc * 10 + digit);
                assert(acc * 10 + digit > u64::MAX) by (nonlinear_arith)
                    requires
                        acc > (u64::MAX - digit) / 10,
                        digit <= 9,
                ;
                if all_digits(d) {
                    lemma_digits_prefix(d, k + 1);
                }
            }
            return None;
        }
        assert(acc * 10 + digit <= u64::MAX) by (nonlinear_arith)
            requires
                acc <= (u64::MAX - digit) / 10,
                digit <= 9,
        ;
        acc = acc * 10 + digit;
        i = i + 1;
        proof {
            assert forall|m: int| 0 <= m < i - start implies '0' <= #[trigger] d.subrange(0, i - start)[m]
                <= '9' by {
                if m < k {
                    assert(d.subrange(0, i - start)[m] == d.subrange(0, k)[m]);
                }
            }
        }
    }
    assert(d.subrange(0, s@.len() - start) =~= d);
    Some(acc)
}

/// Text after the last `/` (all of it when there is none).
pub open spec fn after_last_slash(s: Seq<char>) -> Seq<char>
    decreases s.len(),
{
    if s.len() == 0 {
        s
    } else if s.last() == '/' {
        seq![]
    } else {
        after_last_slash(s.drop_last()).push(s.last())
    }
}

/// Total length of a `Content-Range` value such as `bytes 100-999/2000`;
/// `*` or a value that is not a number gives `None`.
pub open spec fn content_range_total(value: Seq<char>) -> Option<u64> {
    let t = trim(after_last_slash(trim(value)));
    if t == seq!['*'] {
        None
    } else {
        parse_u64_spec(t)
    }
}

pub fn parse_content_range_total(value: &str) -> (r: Option<u64>)
    ensures
        r == content_range_total(value@),
{
    let v = chars_of(value);
    let t = trim_vec(v.as_slice());
    let mut b = t.len();
    assert(t@.subrange(0, t@.len() as int) =~= t@);
    assert(after_last_slash(t@) + t@.subrange(t@.len() as int, t@.len() as int) =~= after_last_slash(t@));
    while b > 0 && t[b - 1] != '/'
        invariant
            b <= t@.len(),
            after_last_slash(t@) == after_last_slash(t@.subrange(0, b as int)) + t@.subrange(
                b as int,
                t@.len() as int,
            ),
        decreases b,
    {
        proof {
            let p = t@.subrange(0, b as int);
            assert(p.drop_last() =~= t@.subrange(0, b - 1));
            assert(p.last() == t@[b - 1]);
            assert(t@.subrange(b - 1, t@.len() as int) =~= seq![t@[b - 1]] + t@.subrange(
                b as int,
                t@.len() as int,
            ));
            assert(after_last_slash(t@.subrange(0, b - 1)).push(t@[b - 1]) + t@.subrange(
                b as int,
                t@.len() as int,
            ) =~= after_last_slash(t@.subrange(0, b - 1)) + t@.subrange(b - 1, t@.len() as int));
        }
        b = b - 1;
    }
    proof {
        assert(t@.subrange(0, t@.len() as int) =~= t@);
        let p = t@.subrange(0, b as int);
        if b > 0 {
            assert(p.last() == t@[b - 1]);
        }
        assert(after_last_slash(p) =~= Seq::<char>::empty());
        assert(Seq::<char>::empty() + t@.subrange(b as int, t@.len() as int) =~= t@.subrange(
            b as int,
            t@.len() as int,
        ));
    }
    let tail = crate::text::slice_chars(t.as_slice(), b, t.len());
    let total = trim_vec(tail.as_slice());
    if total.len() == 1 && total[0] == '*' {
        assert(total@ =~= seq!['*']);
        return None;
    }
    proof {
        if total@ == seq!['*'] {
            assert(total@.len() == 1);
        }
    }
    parse_u64(total.as_slice())
}

/// How to continue a download after a ranged request.
#[derive(Debug, Clone, Copy, PartialEq, Eq, Structural)]
pub enum ResumeDecision {
    /// 206 with a consistent total: append from `offset`.
    Append { offset: u64 },
    /// No range support or an odd answer: download it all again.
    Restart,
}

pub fn resume_decision(part_len: u64, status: u16, range_total: Option<u64>) -> (r: ResumeDecision)
    ensures
        r == (if status == 206 && range_total is Some && part_len > 0 && range_total->0 >= part_len {
            ResumeDecision::Append { offset: part_len }
        } else {
            ResumeDecision::Restart
        }),
{
    match range_total {
        Some(total) => {
            if status == 206 && part_len > 0 && total >= part_len {
                ResumeDecision::Append { offset: part_len }
            } else {
                ResumeDecision::Restart
            }
        },
        None => ResumeDecision::Restart,
    }
}

/// Which models a download fetches.
#[derive(Debug, Clone, Copy, PartialEq, Eq, Structural)]
pub enum DownloadScope {
    /// The required models and the offline high-accuracy model.
    Full,
    /// The required models only.
    RequiredOnly,
}

impl DownloadScope {
    pub fn includes_sense_voice(self) -> (r: bool)
        ensures
            r == (self == DownloadScope::Full),
    {
        match self {
            DownloadScope::Full => true,
            DownloadScope::RequiredOnly => false,
        }
    }
}

pub open spec fn download_scope_spec(raw: Option<Seq<char>>) -> Result<DownloadScope, Seq<char>> {
    match raw {
        None => Ok(DownloadScope::Full),
        Some(s) => if s == "full"@ {
            Ok(DownloadScope::Full)
        } else if s == "requiredOnly"@ {
            Ok(DownloadScope::RequiredOnly)
        } else {
            Err("未知的下载范围「"@ + s + "」（仅支持 full / requiredOnly）"@)
        },
    }
}

/// The download scope asked for: none and `full` mean everything,
/// `requiredOnly` skips the offline model, anything else is refused.
pub fn parse_download_scope(raw: Option<&str>) -> (r: Result<DownloadScope, String>)
    ensures
        match r {
            Ok(s) => download_scope_spec(
                match raw {
                    Some(t) => Some(t@),
                    None => None,
                },
            ) == Ok::<DownloadScope, Seq<char>>(s),
            Err(e) => download_scope_spec(
                match raw {
                    Some(t) => Some(t@),
                    None => None,
                },
            ) == Err::<DownloadScope, Seq<char>>(e@),
        },
{
    match raw {
        None => Ok(DownloadScope::Full),
        Some(s) => {
            if str_eq(s, "full") {
                Ok(DownloadScope::Full)
            } else if str_eq(s, "requiredOnly") {
                Ok(DownloadScope::RequiredOnly)
            } else {
                let mut e = lit("未知的下载范围「");
                push_str(&mut e, s);
                push_str(&mut e, "」（仅支持 full / requiredOnly）");
                Err(e)
            }
        },
    }
}

/// `dir/file`.
pub open spec fn in_dir(dir: Seq<char>, file: Seq<char>) -> Seq<char> {
    dir + seq!['/'] + file
}

fn in_dir_exec(dir: &str, file: &str) -> (r: String)
    ensures
        r@ == in_dir(dir@, file@),
{
    let mut s = lit(dir);
    crate::text::push_char(&mut s, '/');
    push_str(&mut s, file);
    s
}

/// Files the app needs, relative to the models directory.
pub open spec fn required_files() -> Seq<Seq<char>> {
    seq![
        VAD_FILE@,
        in_dir(PARA_DIR_NAME@, "tokens.txt"@),
        in_dir(PARA_DIR_NAME@, "encoder.int8.onnx"@),
        in_dir(PARA_DIR_NAME@, "decoder.int8.onnx"@),
    ]
}

/// Files of the optional offline model.
pub open spec fn sense_voice_files() -> Seq<Seq<char>> {
    seq![in_dir(SENSE_DIR_NAME@, "tokens.txt"@), in_dir(SENSE_DIR_NAME@, "model.int8.onnx"@)]
}

pub fn required_model_files() -> (r: Vec<String>)
    ensures
        r@.map_values(|s: String| s@) == required_files(),
{
    let mut v: Vec<String> = Vec::new();
    v.push(lit(VAD_FILE));
    v.push(in_dir_exec(PARA_DIR_NAME, "tokens.txt"));
    v.push(in_dir_exec(PARA_DIR_NAME, "encoder.int8.onnx"));
    v.push(in_dir_exec(PARA_DIR_NAME, "decoder.int8.onnx"));
    assert(v@.map_values(|s: String| s@) =~= required_files());
    v
}

pub fn sense_voice_model_files() -> (r: Vec<String>)
    ensures
        r@.map_values(|s: String| s@) == sense_voice_files(),
{
    let mut v: Vec<String> = Vec::new();
    v.push(in_dir_exec(SENSE_DIR_NAME, "tokens.txt"));
    v.push(in_dir_exec(SENSE_DIR_NAME, "model.int8.onnx"));
    assert(v@.map_values(|s: String| s@) =~= sense_voice_files());
    v
}

/// The entries of `files` whose flag in `present` is false, in order.
pub open spec fn missing_spec(files: Seq<Seq<char>>, present: Seq<bool>) -> Seq<Seq<char>>
    decreases files.len(),
{
    if files.len() == 0 {
        seq![]
    } else {
        let m = missing_spec(files.drop_last(), present);
        if present[files.len() - 1] {
            m
        } else {
            m.push(files.last())
        }
    }
}

/// The files not present on disk (`present[i]` tells whether `files[i]` is).
pub fn missing_of(files: Vec<String>, present: &[bool]) -> (r: Vec<String>)
    requires
        present@.len() == files@.len(),
    ensures
        r@.map_values(|s: String| s@) == missing_spec(files@.map_values(|s: String| s@), present@),
{
    let ghost fv = files@.map_values(|s: String| s@);
    let mut out: Vec<String> = Vec::new();
    let mut rest = files;
    let mut taken: Vec<String> = Vec::new();
    let mut i: usize = 0;
    let ghost all = rest@;
    assert(fv.subrange(0, 0) =~= Seq::<Seq<char>>::empty());
    while i < present.len()
        invariant
            i <= present@.len(),
            present@.len() == all.len(),
            fv == all.map_values(|s: String| s@),
            out@.map_values(|s: String| s@) == missing_spec(fv.subrange(0, i as int), present@),
            rest@.len() == all.len(),
            forall|k: int| i <= k < all.len() ==> #[trigger] rest@[k] == all[k],
        decreases present@.len() - i,
    {
        let ghost prev = fv.subrange(0, i as int);
        let ghost next = fv.subrange(0, i + 1);
        let ghost d = out@.map_values(|s: String| s@);
        proof {
            assert(next.drop_last() =~= prev);
        }
        if !present[i] {
            let f = rest[i].clone();
            out.push(f);
            assert(out@.map_values(|s: String| s@) =~= d.push(all[i as int]@));
        }
        i = i + 1;
    }
    assert(fv.subrange(0, present@.len() as int) =~= fv);
    out
}

/// Whether a file left by an archive is a full-precision weight to delete:
/// an `.onnx` file whose name lacks `int8` (a name that cannot be read is kept).
pub fn is_fp32_weight(file_name: Option<&str>, extension: Option<&str>) -> (r: bool)
    ensures
        r == (extension is Some && extension->0@ == "onnx"@ && file_name is Some
            && !crate::text::contains_seq(file_name->0@, "int8"@)),
{
    let is_onnx = match extension {
        Some(e) => str_eq(e, "onnx"),
        None => false,
    };
    let is_int8 = match file_name {
        Some(n) => crate::text::str_contains(n, "int8"),
        None => true,
    };
    is_onnx && !is_int8
}


/// Model completeness as reported to the front end.
#[derive(Debug, Clone)]
pub struct ModelsStatus {
    pub models_dir: String,
    /// Missing required files (relative to the models directory).
    pub missing: Vec<String>,
    /// Missing files of the optional high-accuracy engine (older field name,
    /// same content as `recommended_missing`).
    pub optional_missing: Vec<String>,
    /// Missing files of the recommended high-accuracy engine.
    pub recommended_missing: Vec<String>,
}

/// The status of a models directory from its missing required and
/// high-accuracy engine files.
pub fn status_of(models_dir: String, missing: Vec<String>, sense_missing: Vec<String>) -> (r: ModelsStatus)
    ensures
        r.models_dir == models_dir,
        r.missing == missing,
        r.optional_missing@ == sense_missing@,
        r.recommended_missing == sense_missing,
{
    let optional = crate::text::clone_strings(sense_missing.as_slice());
    ModelsStatus { models_dir, missing, optional_missing: optional, recommended_missing: sense_missing }
}

} // verus!

verus! {

/// The `Range` header resuming after `part_len` bytes already on disk; none
/// for a fresh download.
pub fn range_header(part_len: u64) -> (r: Option<String>)
    ensures
        part_len == 0 ==> r is None,
        part_len > 0 ==> (r matches Some(h) && h@ == "bytes="@ + crate::text::dec(part_len as nat) + "-"@),
{
    if part_len == 0 {
        None
    } else {
        let mut h = lit("bytes=");
        crate::text::push_dec(&mut h, part_len);
        push_str(&mut h, "-");
        Some(h)
    }
}

/// A finished transfer is complete when its length is unknown (0) or every
/// byte arrived; otherwise the error keeps the partial file for a retry.
pub fn check_complete(received: u64, total: u64) -> (r: Result<(), String>)
    ensures
        (total == 0 || received == total) ==> r is Ok,
        (total > 0 && received != total) ==> (r matches Err(e) && e@ == "下载不完整（"@ + crate::text::dec(received as nat) + seq!['/']
            + crate::text::dec(total as nat) + " 字节），已保留断点，可重试续传"@),
{
    if total > 0 && received != total {
        let mut e = lit("下载不完整（");
        crate::text::push_dec(&mut e, received);
        crate::text::push_char(&mut e, '/');
        crate::text::push_dec(&mut e, total);
        push_str(&mut e, " 字节），已保留断点，可重试续传");
        Err(e)
    } else {
        Ok(())
    }
}

/// One failed source: `url → error`.
pub open spec fn attempt_text(url: Seq<char>, err: Seq<char>) -> Seq<char> {
    url + " → "@ + err
}

/// The error after every mirror failed: each source with its error, joined
/// by `；`.
pub fn mirrors_failed(attempts: &[(String, String)]) -> (r: String)
    ensures
        r@ == crate::text::join(attempts@.map_values(|a: (String, String)| attempt_text(a.0@, a.1@)), "；"@),
{
    let ghost f = |a: (String, String)| attempt_text(a.0@, a.1@);
    let mut parts: Vec<String> = Vec::new();
    let mut i: usize = 0;
    while i < attempts.len()
        invariant
            i <= attempts@.len(),
            f == (|a: (String, String)| attempt_text(a.0@, a.1@)),
            crate::text::views(parts@) == attempts@.subrange(0, i as int).map_values(f),
        decreases attempts@.len() - i,
    {
        let mut p = lit(attempts[i].0.as_str());
        push_str(&mut p, " → ");
        push_str(&mut p, attempts[i].1.as_str());
        let ghost before = parts@;
        parts.push(p);
        proof {
            assert(attempts@.subrange(0, i + 1) =~= attempts@.subrange(0, i as int).push(attempts@[i as int]));
            assert(crate::text::views(parts@) =~= crate::text::views(before).push(p@));
            assert(crate::text::views(parts@) =~= attempts@.subrange(0, i + 1).map_values(f));
        }
        i = i + 1;
    }
    assert(attempts@.subrange(0, attempts@.len() as int) =~= attempts@);
    let mut out = String::new();
    crate::text::push_join(&mut out, parts.as_slice(), "；");
    assert(out@ =~= crate::text::join(attempts@.map_values(f), "；"@));
    out
}

/// The error when both the release archive and the loose-file mirrors failed.
pub fn both_plans_failed(archive_err: &str, mirror_err: &str) -> (r: String)
    ensures
        r@ == "GitHub 归档与 HuggingFace 镜像均失败。\n归档: "@ + archive_err@ + "\n镜像: "@ + mirror_err@,
{
    let mut e = lit("GitHub 归档与 HuggingFace 镜像均失败。\n归档: ");
    push_str(&mut e, archive_err);
    push_str(&mut e, "\n镜像: ");
    push_str(&mut e, mirror_err);
    e
}

/// Sources of the voice-activity model: the release asset (proxy, then
/// GitHub), then the Hugging Face file (official site, then mirror).
pub fn vad_urls() -> (r: Vec<String>)
    ensures
        r@.len() == 4,
        r@[0]@ == GHFAST_PROXY_BASE@ + seq!['/'] + VAD_FILE@,
        r@[1]@ == GH_RELEASE_BASE@ + seq!['/'] + VAD_FILE@,
        r@[2]@ == hf_url("https://huggingface.co"@, HF_VAD_REPO@, VAD_FILE@),
        r@[3]@ == hf_url("https://hf-mirror.com"@, HF_VAD_REPO@, VAD_FILE@),
{
    let mut urls = gh_asset_urls(VAD_FILE);
    let mut hf = hf_file_urls(HF_VAD_REPO, VAD_FILE);
    urls.append(&mut hf);
    urls
}

/// What a download run still has to fetch.
#[derive(Debug, Clone, Copy, PartialEq, Eq, Structural)]
pub struct DownloadSteps {
    /// The voice-activity model file.
    pub vad: bool,
    /// The streaming model.
    pub paraformer: bool,
    /// The offline high-accuracy model.
    pub sense_voice: bool,
}

/// The steps of a download run: when a complete models directory was found
/// the required models are skipped; otherwise the voice-activity file when
/// absent and the streaming model when any of its files is missing; the
/// offline model when the scope includes it and a file of it is missing.
pub fn download_steps(
    complete_dir_found: bool,
    vad_present: bool,
    missing_required: &[String],
    scope: DownloadScope,
    sense_missing: usize,
) -> (r: DownloadSteps)
    ensures
        r.vad == (!complete_dir_found && !vad_present),
        r.paraformer == (!complete_dir_found && exists|k: int|
            0 <= k < missing_required@.len() && crate::text::starts_with(#[trigger] missing_required@[k]@, PARA_DIR_NAME@)),
        r.sense_voice == (scope == DownloadScope::Full && sense_missing > 0),
{
    let mut para = false;
    if !complete_dir_found {
        let p = chars_of(PARA_DIR_NAME);
        let mut i: usize = 0;
        while i < missing_required.len() && !para
            invariant
                i <= missing_required@.len(),
                p@ == PARA_DIR_NAME@,
                para ==> exists|k: int|
                    0 <= k < missing_required@.len() && crate::text::starts_with(#[trigger] missing_required@[k]@, PARA_DIR_NAME@),
                !para ==> forall|k: int| 0 <= k < i ==> !crate::text::starts_with(#[trigger] missing_required@[k]@, PARA_DIR_NAME@),
            decreases missing_required@.len() - i,
        {
            let m = chars_of(missing_required[i].as_str());
            if crate::text::starts_with_exec(m.as_slice(), p.as_slice()) {
                para = true;
            }
            i = i + 1;
        }
    }
    DownloadSteps { vad: !complete_dir_found && !vad_present, paraformer: para, sense_voice: scope.includes_sense_voice() && sense_missing > 0 }
}

/// The error when the required models are still incomplete after a download.
pub fn still_incomplete(missing: &[String]) -> (r: String)
    ensures
        r@ == "下载完成但模型仍不完整："@ + crate::text::join(crate::text::views(missing@), "，"@),
{
    let mut e = lit("下载完成但模型仍不完整：");
    crate::text::push_join(&mut e, missing, "，");
    e
}

} // verus!

verus! {

/// The file a download is written to until it is complete: `<dest>.part`.
pub fn part_path(dest: &str) -> (r: String)
    ensures
        r@ == dest@ + ".part"@,
{
    let mut s = lit(dest);
    push_str(&mut s, ".part");
    s
}

} // verus!
