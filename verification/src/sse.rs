//! Incremental parser for a server-sent-events byte stream (the streaming
//! reply of an OpenAI-compatible `/chat/completions` call).
use vstd::prelude::*;
use vstd::utf8::{decode_utf8, valid_utf8};
use crate::text::{chars_eq, chars_of, trim, trim_vec, string_of};

verus! {

/// `String::from_utf8_lossy` as a function of the bytes.
pub uninterp spec fn utf8_lossy(bytes: Seq<u8>) -> Seq<char>;

/// `String::from_utf8_lossy`: the text the bytes decode to, with every
/// ill-formed sequence replaced by U+FFFD. Only the valid-UTF-8 case is stated
/// beyond the name.
#[verifier::external_body]
fn lossy_string(bytes: &[u8]) -> (r: String)
    ensures
        r@ == utf8_lossy(bytes@),
        valid_utf8(bytes@) ==> r@ == decode_utf8(bytes@),
{
    String::from_utf8_lossy(bytes).into_owned()
}

/// Index of the first `\n` in `s`, or `s.len()` when there is none.
pub open spec fn nl_pos(s: Seq<u8>) -> int
    decreases s.len(),
{
    if s.len() == 0 {
        0
    } else if s[0] == 10u8 {
        0
    } else {
        1 + nl_pos(s.drop_first())
    }
}

/// The bytes `data:` that open a payload line.
pub open spec fn data_prefix() -> Seq<u8> {
    seq![100u8, 97u8, 116u8, 97u8, 58u8]
}

/// A line without its `\n`, and without one trailing `\r`.
pub open spec fn strip_cr(line: Seq<u8>) -> Seq<u8> {
    if line.len() > 0 && line.last() == 13u8 {
        line.drop_last()
    } else {
        line
    }
}

/// What one complete line contributes: the trimmed text after `data:`, unless
/// it is empty or the `[DONE]` sentinel; other lines contribute nothing.
pub open spec fn line_payload(line: Seq<u8>) -> Seq<Seq<char>> {
    let l = strip_cr(line);
    if l.len() >= 5 && l.subrange(0, 5) == data_prefix() {
        let d = trim(utf8_lossy(l.subrange(5, l.len() as int)));
        if d.len() > 0 && d != "[DONE]"@ {
            seq![d]
        } else {
            seq![]
        }
    } else {
        seq![]
    }
}

/// Payloads of all complete (newline-terminated) lines of `s`, in order.
pub open spec fn events(s: Seq<u8>) -> Seq<Seq<char>>
    decreases s.len(),
{
    if nl_pos(s) >= s.len() || nl_pos(s) < 0 {
        seq![]
    } else {
        line_payload(s.subrange(0, nl_pos(s))) + events(s.subrange(nl_pos(s) + 1, s.len() as int))
    }
}

/// The unfinished tail of `s` after its last newline.
pub open spec fn pending(s: Seq<u8>) -> Seq<u8>
    decreases s.len(),
{
    if nl_pos(s) >= s.len() || nl_pos(s) < 0 {
        s
    } else {
        pending(s.subrange(nl_pos(s) + 1, s.len() as int))
    }
}

proof fn lemma_nl_pos(s: Seq<u8>)
    ensures
        0 <= nl_pos(s) <= s.len(),
        nl_pos(s) < s.len() ==> s[nl_pos(s)] == 10u8,
        forall|k: int| 0 <= k < nl_pos(s) ==> s[k] != 10u8,
    decreases s.len(),
{
    if s.len() > 0 && s[0] != 10u8 {
        lemma_nl_pos(s.drop_first());
        assert forall|k: int| 0 <= k < nl_pos(s) implies s[k] != 10u8 by {
            if k > 0 {
                assert(s[k] == s.drop_first()[k - 1]);
            }
        }
    }
}

proof fn lemma_nl_pos_char(s: Seq<u8>, p: int)
    requires
        0 <= p <= s.len(),
        p < s.len() ==> s[p] == 10u8,
        forall|k: int| 0 <= k < p ==> s[k] != 10u8,
    ensures
        nl_pos(s) == p,
    decreases s.len(),
{
    if s.len() > 0 && s[0] != 10u8 {
        assert forall|k: int| 0 <= k < p - 1 implies s.drop_first()[k] != 10u8 by {
            assert(s.drop_first()[k] == s[k + 1]);
        }
        if p - 1 < s.drop_first().len() {
            assert(s.drop_first()[p - 1] == s[p]);
        }
        lemma_nl_pos_char(s.drop_first(), p - 1);
    }
}

proof fn lemma_nl_pos_concat(s: Seq<u8>, t: Seq<u8>)
    ensures
        nl_pos(s) < s.len() ==> nl_pos(s + t) == nl_pos(s),
        nl_pos(s) >= s.len() ==> nl_pos(s + t) == s.len() + nl_pos(t),
{
    lemma_nl_pos(s);
    lemma_nl_pos(t);
    let u = s + t;
    if nl_pos(s) < s.len() {
        assert forall|k: int| 0 <= k < nl_pos(s) implies u[k] != 10u8 by {
            assert(u[k] == s[k]);
        }
        lemma_nl_pos_char(u, nl_pos(s));
    } else {
        let p = s.len() + nl_pos(t);
        assert forall|k: int| 0 <= k < p implies u[k] != 10u8 by {
            if k < s.len() {
                assert(u[k] == s[k]);
            } else {
                assert(u[k] == t[k - s.len()]);
            }
        }
        if p < u.len() {
            assert(u[p] == t[nl_pos(t)]);
        }
        lemma_nl_pos_char(u, p);
    }
}

/// Splitting the input anywhere changes nothing: the payloads of `s + t` are
/// those of `s` followed by those of the tail `s` leaves pending joined to
/// `t`, and the final pending tail agrees too.
pub proof fn lemma_events_split(s: Seq<u8>, t: Seq<u8>)
    ensures
        events(s + t) == events(s) + events(pending(s) + t),
        pending(s + t) == pending(pending(s) + t),
    decreases s.len(),
{
    lemma_nl_pos(s);
    lemma_nl_pos_concat(s, t);
    let p = nl_pos(s);
    if p < s.len() {
        let s2 = s.subrange(p + 1, s.len() as int);
        assert((s + t).subrange(0, p) =~= s.subrange(0, p));
        assert((s + t).subrange(p + 1, (s + t).len() as int) =~= s2 + t);
        lemma_events_split(s2, t);
        assert(events(s + t) == line_payload(s.subrange(0, p)) + events(s2 + t));
        assert(events(s) == line_payload(s.subrange(0, p)) + events(s2));
        assert(events(s + t) =~= events(s) + events(pending(s) + t));
    } else {
        assert(pending(s) == s);
        assert(events(s) == Seq::<Seq<char>>::empty());
        assert(events(s) + events(s + t) =~= events(s + t));
    }
}

/// Where a stream is cut into chunks does not matter: from any pending
/// bytes, feeding `a` and then `b` yields the payloads, and leaves the pending
/// tail, that feeding `a` and `b` joined in one chunk does.
pub proof fn lemma_chunking_irrelevant(pend: Seq<u8>, a: Seq<u8>, b: Seq<u8>)
    ensures
        events(pend + a) + events(pending(pend + a) + b) == events(pend + (a + b)),
        pending(pending(pend + a) + b) == pending(pend + (a + b)),
{
    lemma_events_split(pend + a, b);
    assert(pend + a + b =~= pend + (a + b));
}

/// Buffers stream bytes across reads, so that lines (and UTF-8 characters)
/// split between reads come out whole.
pub struct SseParser {
    buf: Vec<u8>,
}

impl SseParser {
    /// The bytes received but not yet ended by a newline.
    pub closed spec fn pending_bytes(&self) -> Seq<u8> {
        self.buf@
    }

    pub fn new() -> (p: Self)
        ensures
            p.pending_bytes() == Seq::<u8>::empty(),
    {
        SseParser { buf: Vec::new() }
    }

    /// Feeds one chunk; returns the `data:` payloads of every line the chunk
    /// completes (blank payloads, `[DONE]` and other lines skipped).
    pub fn push(&mut self, chunk: &[u8]) -> (out: Vec<String>)
        ensures
            out@.map_values(|s: String| s@) == events(old(self).pending_bytes() + chunk@),
            final(self).pending_bytes() == pending(old(self).pending_bytes() + chunk@),
    {
        let mut all: Vec<u8> = Vec::new();
        all.append(&mut self.buf);
        let mut k: usize = 0;
        while k < chunk.len()
            invariant
                k <= chunk@.len(),
                all@ == old(self).buf@ + chunk@.subrange(0, k as int),
            decreases chunk@.len() - k,
        {
            all.push(chunk[k]);
            k = k + 1;
            assert(all@ =~= old(self).buf@ + chunk@.subrange(0, k as int));
        }
        assert(chunk@.subrange(0, chunk@.len() as int) =~= chunk@);
        let ghost whole = all@;
        let mut out: Vec<String> = Vec::new();
        assert(whole.subrange(0, whole.len() as int) =~= whole);
        assert(out@.map_values(|s: String| s@) + events(whole) =~= events(whole));
        let mut start: usize = 0;
        let mut i: usize = 0;
        while i < all.len()
            invariant
                all@ == whole,
                start <= i <= all@.len(),
                forall|m: int| start <= m < i ==> all@[m] != 10u8,
                events(whole) == out@.map_values(|s: String| s@) + events(whole.subrange(start as int, whole.len() as int)),
                pending(whole) == pending(whole.subrange(start as int, whole.len() as int)),
            decreases all@.len() - i,
        {
            if all[i] == 10u8 {
                let ghost tail = whole.subrange(start as int, whole.len() as int);
                proof {
                    assert forall|m: int| 0 <= m < i - start implies tail[m] != 10u8 by {
                        assert(tail[m] == whole[start + m]);
                    }
                    assert(tail[i - start] == 10u8);
                    lemma_nl_pos_char(tail, i - start);
                    assert(tail.subrange(0, i - start) =~= whole.subrange(start as int, i as int));
                    assert(tail.subrange(i - start + 1, tail.len() as int) =~= whole.subrange(i + 1, whole.len() as int));
                }
                let payload = line_payload_exec(all.as_slice(), start, i);
                let ghost before = out@;
                match payload {
                    Some(p) => {
                        out.push(p);
                    },
                    None => {},
                }
                proof {
                    assert(out@.map_values(|s: String| s@) =~= before.map_values(|s: String| s@) + line_payload(whole.subrange(start as int, i as int)));
                }
                start = i + 1;
            }
            i = i + 1;
        }
        proof {
            let tail = whole.subrange(start as int, whole.len() as int);
            assert forall|m: int| 0 <= m < tail.len() implies tail[m] != 10u8 by {
                assert(tail[m] == whole[start + m]);
            }
            lemma_nl_pos_char(tail, tail.len() as int);
            assert(out@.map_values(|s: String| s@) + Seq::<Seq<char>>::empty() =~= out@.map_values(|s: String| s@));
        }
        let mut rest: Vec<u8> = Vec::new();
        let mut j = start;
        while j < all.len()
            invariant
                all@ == whole,
                start <= j <= all@.len(),
                rest@ == whole.subrange(start as int, j as int),
            decreases all@.len() - j,
        {
            rest.push(all[j]);
            j = j + 1;
            assert(rest@ =~= whole.subrange(start as int, j as int));
        }
        self.buf = rest;
        out
    }
}

fn line_payload_exec(all: &[u8], start: usize, end: usize) -> (r: Option<String>)
    requires
        start <= end <= all@.len(),
    ensures
        match r {
            Some(s) => line_payload(all@.subrange(start as int, end as int)) == seq![s@],
            None => line_payload(all@.subrange(start as int, end as int)) == Seq::<Seq<char>>::empty(),
        },
{
    let ghost line = all@.subrange(start as int, end as int);
    let mut e = end;
    if e > start && all[e - 1] == 13u8 {
        e = e - 1;
    }
    assert(strip_cr(line) =~= all@.subrange(start as int, e as int));
    if e - start < 5 {
        return None;
    }
    let is_data = all[start] == 100u8 && all[start + 1] == 97u8 && all[start + 2] == 116u8 && all[
        start + 3] == 97u8 && all[start + 4] == 58u8;
    let ghost l = all@.subrange(start as int, e as int);
    proof {
        if is_data {
            assert(l.subrange(0, 5) =~= data_prefix());
        } else {
            if l.subrange(0, 5) == data_prefix() {
                assert(l.subrange(0, 5)[0] == l[0] && l.subrange(0, 5)[1] == l[1] && l.subrange(0, 5)[2] == l[2] && l.subrange(0, 5)[3] == l[3] && l.subrange(0, 5)[4] == l[4]);
            }
        }
    }
    if !is_data {
        return None;
    }
    let mut body: Vec<u8> = Vec::new();
    let mut k = start + 5;
    while k < e
        invariant
            start + 5 <= k <= e,
            e <= all@.len(),
            body@ == all@.subrange(start + 5, k as int),
        decreases e - k,
    {
        body.push(all[k]);
        k = k + 1;
        assert(body@ =~= all@.subrange(start + 5, k as int));
    }
    assert(l.subrange(5, l.len() as int) =~= body@);
    let text = lossy_string(body.as_slice());
    let cs = chars_of(text.as_str());
    let d = trim_vec(cs.as_slice());
    let done = chars_of("[DONE]");
    if d.len() > 0 && !chars_eq(d.as_slice(), done.as_slice()) {
        Some(string_of(d.as_slice()))
    } else {
        None
    }
}

} // verus!

verus! {

/// What `serde_json` reads as `choices[0].delta.content` from the JSON text
/// of one event: the content string, or `None` when the text is not JSON or
/// has no string there.
pub uninterp spec fn json_chat_delta(data: Seq<char>) -> Option<Seq<char>>;

/// `serde_json::from_str::<serde_json::Value>` followed by `Value::get` for
/// `choices`, `0`, `delta` and `content`, then `Value::as_str`. Claimed: the
/// result is the named reading of `data`.
#[verifier::external_body]
fn parse_chat_delta(data: &str) -> (r: Option<String>)
    ensures
        match r {
            Some(s) => json_chat_delta(data@) == Some(s@),
            None => json_chat_delta(data@) is None,
        },
{
    let v: serde_json::Value = serde_json::from_str(data).ok()?;
    v.get("choices")?.get(0)?.get("delta")?.get("content")?.as_str().map(str::to_string)
}

/// The content delta of a streamed chat chunk (the text of one `data:`
/// payload), if it carries one.
pub fn extract_delta(data: &str) -> (r: Option<String>)
    ensures
        match r {
            Some(s) => json_chat_delta(data@) == Some(s@),
            None => json_chat_delta(data@) is None,
        },
{
    parse_chat_delta(data)
}

} // verus!
