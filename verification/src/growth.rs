//! Lexicon growth: candidate words counted from transcripts (Chinese
//! character bigrams), accumulated across sessions, ranked and capped.
use vstd::prelude::*;
use crate::rules::Sentence;
use crate::rules::lexicon::{LexiconV2, UserLexicon, EmotionGroup, keys_of};
use crate::text::{chars_of, str_eq, string_of, chars_eq, lit};

verus! {

pub const CANDIDATES_FILE: &'static str = "lexicon-candidates.json";

pub const USER_LEXICON_FILE: &'static str = "user-lexicon.json";

/// Accumulated count a candidate needs before it is shown.
pub const CANDIDATE_MIN_COUNT: u32 = 3;

/// Most candidates kept in the candidates file.
pub const CANDIDATES_CAP: usize = 200;

/// Candidate words named at the end of the local report.
pub const REPORT_HINT_WORDS: usize = 5;

/// Most alternatives kept for one added word.
pub const MAX_ALTERNATIVES: usize = 6;

/// Longest word that can be added, in characters.
pub const MAX_WORD_CHARS: usize = 12;

/// Grammar and function words whose bigrams are frequent but are neither
/// fillers nor vague words; they never become candidates.
pub const CANDIDATE_STOPWORDS: [&'static str; 98] = [
    "我们", "你们", "他们", "自己", "别人", "大家", "这个", "那个",
    "这些", "那些", "这样", "那样", "什么", "怎么", "如何", "为什么",
    "然后", "但是", "所以", "因为", "如果", "虽然", "而且", "以及",
    "或者", "还是", "就是", "也是", "都是", "还有", "甚至", "不过",
    "其实", "同时", "当然", "的话", "直接", "简单", "重要", "主要",
    "基本", "所有", "全部", "最后", "首先", "其次", "再次", "后来",
    "现在", "目前", "已经", "之后", "之前", "以前", "以后", "觉得",
    "感觉", "认为", "知道", "希望", "喜欢", "愿意", "可以", "应该",
    "可能", "必须", "需要", "能够", "出来", "起来", "进行", "通过",
    "对于", "关于", "根据", "随着", "作为", "成为", "变得", "显得",
    "东西", "事情", "问题", "方面", "地方", "情况", "部分", "过程",
    "方法", "方式", "时候", "时间", "一个", "一下", "一些", "一点",
    "很多", "不少",
];

/// Whether `w` is one of the stopwords.
pub open spec fn is_stopword(w: Seq<char>) -> bool {
    exists|i: int| 0 <= i < 98 && (#[trigger] CANDIDATE_STOPWORDS@[i])@ == w
}

pub fn is_candidate_stopword(word: &str) -> (r: bool)
    ensures
        r == is_stopword(word@),
{
    let mut i: usize = 0;
    while i < 98
        invariant
            i <= 98,
            forall|k: int| 0 <= k < i ==> (#[trigger] CANDIDATE_STOPWORDS@[k])@ != word@,
        decreases 98 - i,
    {
        if str_eq(CANDIDATE_STOPWORDS[i], word) {
            return true;
        }
        i = i + 1;
    }
    false
}

} // verus!

verus! {

/// Lexicographic order of character sequences by code point: the order of
/// `String`s, since UTF-8 keeps code point order.
pub open spec fn lex_lt(a: Seq<char>, b: Seq<char>) -> bool
    decreases a.len(),
{
    if a.len() == 0 {
        b.len() > 0
    } else if b.len() == 0 {
        false
    } else if a[0] != b[0] {
        a[0] < b[0]
    } else {
        lex_lt(a.drop_first(), b.drop_first())
    }
}

pub(crate) proof fn lemma_lex_irrefl(a: Seq<char>)
    ensures
        !lex_lt(a, a),
    decreases a.len(),
{
    if a.len() > 0 {
        lemma_lex_irrefl(a.drop_first());
    }
}

pub(crate) proof fn lemma_lex_total(a: Seq<char>, b: Seq<char>)
    requires
        a != b,
    ensures
        lex_lt(a, b) || lex_lt(b, a),
    decreases a.len(),
{
    if a.len() == 0 {
        assert(b.len() > 0) by {
            if b.len() == 0 {
                assert(a =~= b);
            }
        }
    } else if b.len() == 0 {
    } else if a[0] != b[0] {
        if a[0] < b[0] {
            assert(lex_lt(a, b));
        } else {
            assert(b[0] < a[0]);
            assert(lex_lt(b, a));
        }
    } else {
        if a.drop_first() == b.drop_first() {
            assert(a =~= seq![a[0]] + a.drop_first());
            assert(b =~= seq![b[0]] + b.drop_first());
            assert(a == b);
        }
        lemma_lex_total(a.drop_first(), b.drop_first());
    }
}

pub(crate) proof fn lemma_lex_trans(a: Seq<char>, b: Seq<char>, c: Seq<char>)
    requires
        lex_lt(a, b),
        lex_lt(b, c),
    ensures
        lex_lt(a, c),
    decreases a.len(),
{
    if a.len() > 0 && b.len() > 0 && c.len() > 0 && a[0] == b[0] && b[0] == c[0] {
        lemma_lex_trans(a.drop_first(), b.drop_first(), c.drop_first());
    }
}

pub(crate) proof fn lemma_lex_asym(a: Seq<char>, b: Seq<char>)
    requires
        lex_lt(a, b),
    ensures
        !lex_lt(b, a),
{
    if lex_lt(b, a) {
        lemma_lex_trans(a, b, a);
        lemma_lex_irrefl(a);
    }
}

proof fn lemma_lex_suffix(a: Seq<char>, b: Seq<char>, i: int)
    requires
        0 <= i <= a.len(),
        i <= b.len(),
        forall|k: int| 0 <= k < i ==> a[k] == b[k],
    ensures
        lex_lt(a, b) == lex_lt(a.subrange(i, a.len() as int), b.subrange(i, b.len() as int)),
    decreases i,
{
    if i > 0 {
        lemma_lex_suffix(a.drop_first(), b.drop_first(), i - 1);
        assert(a.drop_first().subrange(i - 1, a.drop_first().len() as int) =~= a.subrange(i, a.len() as int));
        assert(b.drop_first().subrange(i - 1, b.drop_first().len() as int) =~= b.subrange(i, b.len() as int));
    } else {
        assert(a.subrange(0, a.len() as int) =~= a);
        assert(b.subrange(0, b.len() as int) =~= b);
    }
}

/// Whether `a` comes before `b` in `String` order.
pub fn lex_less(a: &[char], b: &[char]) -> (r: bool)
    ensures
        r == lex_lt(a@, b@),
{
    let mut i: usize = 0;
    while i < a.len() && i < b.len() && a[i] == b[i]
        invariant
            i <= a@.len(),
            i <= b@.len(),
            forall|k: int| 0 <= k < i ==> a@[k] == b@[k],
        decreases a@.len() - i,
    {
        i = i + 1;
    }
    proof {
        lemma_lex_suffix(a@, b@, i as int);
    }
    let ghost sa = a@.subrange(i as int, a@.len() as int);
    let ghost sb = b@.subrange(i as int, b@.len() as int);
    if i == a.len() {
        return i < b.len();
    }
    if i == b.len() {
        return false;
    }
    assert(sa[0] == a@[i as int] && sb[0] == b@[i as int]);
    a[i] < b[i]
}

/// Chinese characters (unified ideographs and extension A).
pub open spec fn is_hanzi(c: char) -> bool {
    ('\u{4E00}' <= c && c <= '\u{9FFF}') || ('\u{3400}' <= c && c <= '\u{4DBF}')
}

fn char_is_hanzi(c: char) -> (r: bool)
    ensures
        r == is_hanzi(c),
{
    ('\u{4E00}' <= c && c <= '\u{9FFF}') || ('\u{3400}' <= c && c <= '\u{4DBF}')
}

/// The adjacent pairs of Chinese characters of a text, in order.
pub open spec fn bigrams(t: Seq<char>) -> Seq<Seq<char>>
    decreases t.len(),
{
    if t.len() < 2 {
        seq![]
    } else {
        let b = bigrams(t.drop_last());
        if is_hanzi(t[t.len() - 2]) && is_hanzi(t.last()) {
            b.push(seq![t[t.len() - 2], t.last()])
        } else {
            b
        }
    }
}

/// The bigrams of all texts, text after text.
pub open spec fn all_bigrams(ts: Seq<Seq<char>>) -> Seq<Seq<char>>
    decreases ts.len(),
{
    if ts.len() == 0 {
        seq![]
    } else {
        all_bigrams(ts.drop_last()) + bigrams(ts.last())
    }
}

/// How many times `w` occurs in `s`.
pub open spec fn occurrences(s: Seq<Seq<char>>, w: Seq<char>) -> nat
    decreases s.len(),
{
    if s.len() == 0 {
        0
    } else {
        occurrences(s.drop_last(), w) + if s.last() == w {
            1nat
        } else {
            0nat
        }
    }
}

/// Every word occurs at most `u32::MAX` times in `occ`.
pub open spec fn counts_fit(occ: Seq<Seq<char>>) -> bool {
    forall|w: Seq<char>| #[trigger] occurrences(occ, w) <= u32::MAX
}

/// `p` is a prefix of `q`.
pub open spec fn is_prefix_of(p: Seq<Seq<char>>, q: Seq<Seq<char>>) -> bool {
    p.len() <= q.len() && q.subrange(0, p.len() as int) == p
}

proof fn lemma_occ_prefix(p: Seq<Seq<char>>, q: Seq<Seq<char>>, w: Seq<char>)
    requires
        is_prefix_of(p, q),
    ensures
        occurrences(p, w) <= occurrences(q, w),
    decreases q.len(),
{
    if q.len() > p.len() {
        assert(q.drop_last().subrange(0, p.len() as int) =~= q.subrange(0, p.len() as int));
        lemma_occ_prefix(p, q.drop_last(), w);
    } else {
        assert(p =~= q.subrange(0, q.len() as int));
        assert(q.subrange(0, q.len() as int) =~= q);
    }
}

proof fn lemma_prefix_trans(a: Seq<Seq<char>>, b: Seq<Seq<char>>, c: Seq<Seq<char>>)
    requires
        is_prefix_of(a, b),
        is_prefix_of(b, c),
    ensures
        is_prefix_of(a, c),
{
    assert(c.subrange(0, a.len() as int) =~= c.subrange(0, b.len() as int).subrange(0, a.len() as int));
}

proof fn lemma_prefix_concat(a: Seq<Seq<char>>, p: Seq<Seq<char>>, q: Seq<Seq<char>>)
    requires
        is_prefix_of(p, q),
    ensures
        is_prefix_of(a + p, a + q),
{
    assert((a + q).subrange(0, (a + p).len() as int) =~= a + p);
}

proof fn lemma_bigrams_is_prefix(t: Seq<char>, k: int)
    requires
        0 <= k <= t.len(),
    ensures
        is_prefix_of(bigrams(t.subrange(0, k)), bigrams(t)),
    decreases t.len() - k,
{
    if k < t.len() {
        lemma_bigrams_is_prefix(t.drop_last(), k);
        assert(t.drop_last().subrange(0, k) =~= t.subrange(0, k));
        assert(bigrams(t).subrange(0, bigrams(t.drop_last()).len() as int) =~= bigrams(t.drop_last()));
        lemma_prefix_trans(bigrams(t.subrange(0, k)), bigrams(t.drop_last()), bigrams(t));
    } else {
        assert(t.subrange(0, k) =~= t);
        assert(bigrams(t).subrange(0, bigrams(t).len() as int) =~= bigrams(t));
    }
}

proof fn lemma_all_bigrams_is_prefix(ts: Seq<Seq<char>>, k: int)
    requires
        0 <= k <= ts.len(),
    ensures
        is_prefix_of(all_bigrams(ts.subrange(0, k)), all_bigrams(ts)),
    decreases ts.len() - k,
{
    if k < ts.len() {
        lemma_all_bigrams_is_prefix(ts.drop_last(), k);
        assert(ts.drop_last().subrange(0, k) =~= ts.subrange(0, k));
        let a = all_bigrams(ts.drop_last());
        assert((a + bigrams(ts.last())).subrange(0, a.len() as int) =~= a);
        lemma_prefix_trans(all_bigrams(ts.subrange(0, k)), a, all_bigrams(ts));
    } else {
        assert(ts.subrange(0, k) =~= ts);
        assert(all_bigrams(ts).subrange(0, all_bigrams(ts).len() as int) =~= all_bigrams(ts));
    }
}

/// `tbl` lists, in increasing `String` order, every word of `occ` that
/// `keep` accepts, each once with its number of occurrences.
pub open spec fn tallies(tbl: Seq<(Seq<char>, nat)>, occ: Seq<Seq<char>>, keep: spec_fn(Seq<char>) -> bool) -> bool {
    &&& forall|i: int, j: int| 0 <= i < j < tbl.len() ==> lex_lt(tbl[i].0, tbl[j].0)
    &&& forall|i: int|
        0 <= i < tbl.len() ==> keep(#[trigger] tbl[i].0) && tbl[i].1 == occurrences(occ, tbl[i].0) && tbl[i].1 > 0
    &&& forall|w: Seq<char>|
        keep(w) && #[trigger] occurrences(occ, w) > 0 ==> exists|i: int| 0 <= i < tbl.len() && tbl[i].0 == w
}

pub open spec fn any_word() -> spec_fn(Seq<char>) -> bool {
    |w: Seq<char>| true
}

pub open spec fn tbl_view(t: Seq<(Vec<char>, u32)>) -> Seq<(Seq<char>, nat)> {
    t.map_values(|e: (Vec<char>, u32)| (e.0@, e.1 as nat))
}

/// Counts one more occurrence of `w`.
fn tally(tbl: &mut Vec<(Vec<char>, u32)>, w: Vec<char>, Ghost(occ): Ghost<Seq<Seq<char>>>)
    requires
        tallies(tbl_view(old(tbl)@), occ, any_word()),
        occurrences(occ.push(w@), w@) <= u32::MAX,
    ensures
        tallies(tbl_view(final(tbl)@), occ.push(w@), any_word()),
{
    let ghost t0 = tbl_view(tbl@);
    let ghost occ2 = occ.push(w@);
    proof {
        assert forall|x: Seq<char>| #[trigger] occurrences(occ2, x) == occurrences(occ, x) + if x == w@ {
            1nat
        } else {
            0nat
        } by {
            assert(occ2.drop_last() =~= occ);
        }
    }
    let mut j: usize = 0;
    while j < tbl.len() && lex_less(tbl[j].0.as_slice(), w.as_slice())
        invariant
            j <= tbl@.len(),
            t0 == tbl_view(tbl@),
            forall|k: int| 0 <= k < j ==> lex_lt(#[trigger] t0[k].0, w@),
        decreases tbl@.len() - j,
    {
        assert(t0[j as int].0 == tbl@[j as int].0@);
        j = j + 1;
    }
    if j < tbl.len() && chars_eq(tbl[j].0.as_slice(), w.as_slice()) {
        assert(t0[j as int].0 == w@);
        let c = tbl[j].1;
        proof {
            assert(c == occurrences(occ, w@));
        }
        tbl[j].1 = c + 1;
        proof {
            let t1 = tbl_view(tbl@);
            assert(t1 =~= t0.update(j as int, (w@, (c + 1) as nat)));
            assert forall|i: int| 0 <= i < t1.len() implies any_word()(#[trigger] t1[i].0) && t1[i].1
                == occurrences(occ2, t1[i].0) && t1[i].1 > 0 by {
                if i != j {
                    assert(t1[i] == t0[i]);
                    if t0[i].0 == w@ {
                        assert(lex_lt(t0[i].0, t0[j as int].0) || lex_lt(t0[j as int].0, t0[i].0));
                        lemma_lex_irrefl(w@);
                    }
                }
            }
            assert forall|x: Seq<char>| any_word()(x) && #[trigger] occurrences(occ2, x) > 0 implies exists|i: int|
                0 <= i < t1.len() && t1[i].0 == x by {
                if x == w@ {
                    assert(t1[j as int].0 == x);
                } else {
                    assert(occurrences(occ, x) > 0);
                    let i = choose|i: int| 0 <= i < t0.len() && t0[i].0 == x;
                    assert(t1[i].0 == x);
                }
            }
        }
    } else {
        proof {
            lemma_lex_irrefl(w@);
            assert forall|k: int| 0 <= k < t0.len() implies t0[k].0 != w@ by {
                if k < j {
                    assert(lex_lt(t0[k].0, w@));
                } else {
                    assert(t0[j as int].0 == tbl@[j as int].0@);
                    assert(!lex_lt(t0[j as int].0, w@));
                    assert(t0[j as int].0 != w@);
                    lemma_lex_total(t0[j as int].0, w@);
                    if k > j {
                        lemma_lex_trans(w@, t0[j as int].0, t0[k].0);
                        lemma_lex_asym(w@, t0[k].0);
                    }
                }
            }
            if occurrences(occ, w@) > 0 {
                let i = choose|i: int| 0 <= i < t0.len() && t0[i].0 == w@;
                assert(false);
            }
        }
        let ghost wv = w@;
        tbl.insert(j, (w, 1));
        proof {
            let t1 = tbl_view(tbl@);
            assert(t1 =~= t0.insert(j as int, (wv, 1nat)));
            assert forall|a: int, b: int| 0 <= a < b < t1.len() implies lex_lt(t1[a].0, t1[b].0) by {
                if b == j {
                    assert(lex_lt(t0[a].0, wv));
                } else if a == j {
                    assert(t1[b] == t0[b - 1]);
                    assert(t0[j as int].0 != wv);
                    lemma_lex_total(t0[j as int].0, wv);
                    if b - 1 > j {
                        lemma_lex_trans(wv, t0[j as int].0, t0[b - 1].0);
                    }
                } else if a < j && b > j {
                    assert(t1[b] == t0[b - 1]);
                    assert(lex_lt(t0[a].0, t0[b - 1].0));
                } else if a > j {
                    assert(t1[a] == t0[a - 1] && t1[b] == t0[b - 1]);
                }
            }
            assert forall|i: int| 0 <= i < t1.len() implies any_word()(#[trigger] t1[i].0) && t1[i].1
                == occurrences(occ2, t1[i].0) && t1[i].1 > 0 by {
                if i < j {
                    assert(t1[i] == t0[i]);
                } else if i > j {
                    assert(t1[i] == t0[i - 1]);
                }
            }
            assert forall|x: Seq<char>| any_word()(x) && #[trigger] occurrences(occ2, x) > 0 implies exists|i: int|
                0 <= i < t1.len() && t1[i].0 == x by {
                if x == wv {
                    assert(t1[j as int].0 == x);
                } else {
                    assert(occurrences(occ, x) > 0);
                    let i = choose|i: int| 0 <= i < t0.len() && t0[i].0 == x;
                    if i < j {
                        assert(t1[i].0 == x);
                    } else {
                        assert(t1[i + 1].0 == x);
                    }
                }
            }
        }
    }
}

} // verus!

verus! {

pub open spec fn strs_view(ts: Seq<&str>) -> Seq<Seq<char>> {
    ts.map_values(|t: &str| t@)
}

pub open spec fn out_view(r: Seq<(String, u32)>) -> Seq<(Seq<char>, nat)> {
    r.map_values(|e: (String, u32)| (e.0@, e.1 as nat))
}

fn table_to_strings(tbl: Vec<(Vec<char>, u32)>) -> (r: Vec<(String, u32)>)
    ensures
        out_view(r@) == tbl_view(tbl@),
{
    let mut out: Vec<(String, u32)> = Vec::new();
    let mut i: usize = 0;
    while i < tbl.len()
        invariant
            i <= tbl@.len(),
            out_view(out@) == tbl_view(tbl@).subrange(0, i as int),
        decreases tbl@.len() - i,
    {
        let s = string_of(tbl[i].0.as_slice());
        let c = tbl[i].1;
        let ghost before = out@;
        out.push((s, c));
        proof {
            assert(out_view(out@) =~= out_view(before).push((s@, c as nat)));
            assert(tbl_view(tbl@)[i as int] == (tbl@[i as int].0@, tbl@[i as int].1 as nat));
            assert(tbl_view(tbl@).subrange(0, i + 1) =~= tbl_view(tbl@).subrange(0, i as int).push(
                tbl_view(tbl@)[i as int],
            ));
        }
        i = i + 1;
    }
    assert(tbl_view(tbl@).subrange(0, tbl@.len() as int) =~= tbl_view(tbl@));
    out
}

/// Counts the Chinese bigrams of `texts` into a sorted table.
fn bigram_table(Ghost(texts): Ghost<Seq<Seq<char>>>, chars: &Vec<Vec<char>>) -> (tbl: Vec<(Vec<char>, u32)>)
    requires
        chars@.map_values(|v: Vec<char>| v@) == texts,
        counts_fit(all_bigrams(texts)),
    ensures
        tallies(tbl_view(tbl@), all_bigrams(texts), any_word()),
{
    let mut tbl: Vec<(Vec<char>, u32)> = Vec::new();
    let mut i: usize = 0;
    assert(texts.subrange(0, 0) =~= Seq::<Seq<char>>::empty());
    while i < chars.len()
        invariant
            i <= chars@.len(),
            chars@.map_values(|v: Vec<char>| v@) == texts,
            counts_fit(all_bigrams(texts)),
            tallies(tbl_view(tbl@), all_bigrams(texts.subrange(0, i as int)), any_word()),
        decreases chars@.len() - i,
    {
        let t = &chars[i];
        let ghost before = all_bigrams(texts.subrange(0, i as int));
        proof {
            assert(texts.subrange(0, i + 1).drop_last() =~= texts.subrange(0, i as int));
            assert(texts[i as int] == t@);
            lemma_all_bigrams_is_prefix(texts, i + 1);
        }
        if t.len() < 2 {
            assert(bigrams(t@) =~= Seq::<Seq<char>>::empty());
            assert(before + bigrams(t@) =~= before);
        } else {
            let mut k: usize = 1;
            assert(bigrams(t@.subrange(0, 1)) =~= Seq::<Seq<char>>::empty());
            assert(before + bigrams(t@.subrange(0, 1)) =~= before);
            while k < t.len()
                invariant
                    1 <= k <= t@.len(),
                    counts_fit(all_bigrams(texts)),
                    before + bigrams(t@) == all_bigrams(texts.subrange(0, i + 1)),
                    is_prefix_of(all_bigrams(texts.subrange(0, i + 1)), all_bigrams(texts)),
                    tallies(tbl_view(tbl@), before + bigrams(t@.subrange(0, k as int)), any_word()),
                decreases t@.len() - k,
            {
                let ghost pre = t@.subrange(0, k as int);
                let ghost nxt = t@.subrange(0, k + 1);
                proof {
                    assert(nxt.drop_last() =~= pre);
                    lemma_bigrams_is_prefix(t@, k + 1);
                    lemma_prefix_concat(before, bigrams(nxt), bigrams(t@));
                    lemma_prefix_trans(before + bigrams(nxt), before + bigrams(t@), all_bigrams(texts));
                }
                if char_is_hanzi(t[k - 1]) && char_is_hanzi(t[k]) {
                    let mut w: Vec<char> = Vec::new();
                    w.push(t[k - 1]);
                    w.push(t[k]);
                    proof {
                        assert(w@ =~= seq![nxt[nxt.len() - 2], nxt.last()]);
                        assert(bigrams(nxt) == bigrams(pre).push(w@));
                        assert((before + bigrams(pre)).push(w@) =~= before + bigrams(nxt));
                        lemma_occ_prefix(before + bigrams(nxt), all_bigrams(texts), w@);
                    }
                    tally(&mut tbl, w, Ghost(before + bigrams(pre)));
                    assert(before + bigrams(nxt) =~= (before + bigrams(pre)).push(w@));
                } else {
                    assert(bigrams(nxt) == bigrams(pre));
                }
                k = k + 1;
            }
            assert(t@.subrange(0, k as int) =~= t@);
        }
        i = i + 1;
    }
    assert(texts.subrange(0, chars@.len() as int) =~= texts);
    tbl
}

/// Frequencies of adjacent Chinese character pairs over `texts`, in
/// increasing `String` order: the usual stand-in for words without a
/// segmenter.
pub fn count_chinese_bigrams(texts: &[&str]) -> (r: Vec<(String, u32)>)
    requires
        counts_fit(all_bigrams(strs_view(texts@))),
    ensures
        tallies(out_view(r@), all_bigrams(strs_view(texts@)), any_word()),
{
    let mut chars: Vec<Vec<char>> = Vec::new();
    let mut i: usize = 0;
    while i < texts.len()
        invariant
            i <= texts@.len(),
            chars@.map_values(|v: Vec<char>| v@) == strs_view(texts@).subrange(0, i as int),
        decreases texts@.len() - i,
    {
        let v = chars_of(texts[i]);
        let ghost before = chars@;
        chars.push(v);
        proof {
            assert(chars@.map_values(|v: Vec<char>| v@) =~= before.map_values(|v: Vec<char>| v@).push(
                texts@[i as int]@,
            ));
            assert(strs_view(texts@).subrange(0, i + 1) =~= strs_view(texts@).subrange(0, i as int).push(
                texts@[i as int]@,
            ));
        }
        i = i + 1;
    }
    assert(strs_view(texts@).subrange(0, texts@.len() as int) =~= strs_view(texts@));
    let tbl = bigram_table(Ghost(strs_view(texts@)), &chars);
    table_to_strings(tbl)
}

} // verus!

verus! {

/// A word that may become a candidate: not already known, not a stopword.
pub open spec fn keep_candidate(known: Seq<Seq<char>>) -> spec_fn(Seq<char>) -> bool {
    |w: Seq<char>| !known.contains(w) && !is_stopword(w)
}

pub open spec fn strings_view(ks: Seq<String>) -> Seq<Seq<char>> {
    ks.map_values(|k: String| k@)
}

/// Whether `w` is one of `known`.
fn is_known(known: &[String], w: &[char]) -> (r: bool)
    ensures
        r == strings_view(known@).contains(w@),
{
    let ghost kv = strings_view(known@);
    let mut i: usize = 0;
    while i < known.len()
        invariant
            i <= known@.len(),
            kv == strings_view(known@),
            forall|k: int| 0 <= k < i ==> kv[k] != w@,
        decreases known@.len() - i,
    {
        let kc = chars_of(known[i].as_str());
        if chars_eq(kc.as_slice(), w) {
            assert(kv[i as int] == w@);
            return true;
        }
        i = i + 1;
    }
    false
}

/// Whether a word is dropped from the candidates.
fn dropped(known: &[String], w: &[char]) -> (r: bool)
    ensures
        r == !keep_candidate(strings_view(known@))(w@),
{
    if is_known(known, w) {
        return true;
    }
    let s = string_of(w);
    is_candidate_stopword(s.as_str())
}

/// The entries of a full table that `keep` accepts, order kept.
fn filter_table(
    tbl: Vec<(Vec<char>, u32)>,
    known: &[String],
    Ghost(occ): Ghost<Seq<Seq<char>>>,
) -> (r: Vec<(Vec<char>, u32)>)
    requires
        tallies(tbl_view(tbl@), occ, any_word()),
    ensures
        tallies(tbl_view(r@), occ, keep_candidate(strings_view(known@))),
{
    let ghost keep = keep_candidate(strings_view(known@));
    let ghost t0 = tbl_view(tbl@);
    let mut out: Vec<(Vec<char>, u32)> = Vec::new();
    let ghost mut idx: Seq<int> = seq![];
    let mut k: usize = 0;
    while k < tbl.len()
        invariant
            k <= tbl@.len(),
            t0 == tbl_view(tbl@),
            tallies(t0, occ, any_word()),
            keep == keep_candidate(strings_view(known@)),
            idx.len() == out@.len(),
            forall|a: int| 0 <= a < idx.len() ==> 0 <= #[trigger] idx[a] < k,
            forall|a: int, b: int| 0 <= a < b < idx.len() ==> idx[a] < idx[b],
            forall|a: int| 0 <= a < idx.len() ==> #[trigger] tbl_view(out@)[a] == t0[idx[a]] && keep(t0[idx[a]].0),
            forall|m: int| 0 <= m < k && keep(#[trigger] t0[m].0) ==> exists|a: int| 0 <= a < idx.len() && idx[a] == m,
        decreases tbl@.len() - k,
    {
        let d = dropped(known, tbl[k].0.as_slice());
        assert(t0[k as int].0 == tbl@[k as int].0@);
        if !d {
            let e = (tbl[k].0.clone(), tbl[k].1);
            let ghost before = out@;
            out.push(e);
            let ghost old_idx = idx;
            proof {
                assert(e.0@ == tbl@[k as int].0@);
                idx = idx.push(k as int);
                assert forall|a: int| 0 <= a < idx.len() implies #[trigger] tbl_view(out@)[a] == t0[idx[a]]
                    && keep(t0[idx[a]].0) by {
                    if a < before.len() {
                        assert(tbl_view(out@)[a] == tbl_view(before)[a]);
                    }
                }
                assert forall|m: int| 0 <= m < k + 1 && keep(#[trigger] t0[m].0) implies exists|a: int|
                    0 <= a < idx.len() && idx[a] == m by {
                    if m == k {
                        assert(idx[idx.len() - 1] == m);
                    } else {
                        let a = choose|a: int| 0 <= a < old_idx.len() && old_idx[a] == m;
                        assert(idx[a] == m);
                    }
                }
            }
        }
        k = k + 1;
    }
    proof {
        let r = tbl_view(out@);
        assert forall|a: int, b: int| 0 <= a < b < r.len() implies lex_lt(r[a].0, r[b].0) by {
            assert(r[a] == t0[idx[a]] && r[b] == t0[idx[b]]);
        }
        assert forall|a: int| 0 <= a < r.len() implies keep(#[trigger] r[a].0) && r[a].1 == occurrences(occ, r[a].0)
            && r[a].1 > 0 by {
            assert(r[a] == t0[idx[a]]);
        }
        assert forall|w: Seq<char>| keep(w) && #[trigger] occurrences(occ, w) > 0 implies exists|a: int|
            0 <= a < r.len() && r[a].0 == w by {
            assert(any_word()(w));
            let m = choose|m: int| 0 <= m < t0.len() && t0[m].0 == w;
            let a = choose|a: int| 0 <= a < idx.len() && idx[a] == m;
            assert(r[a] == t0[m]);
        }
    }
    out
}

/// This session's candidate counts: bigram frequencies of the sentences
/// without known words and stopwords.
pub fn extract_candidate_counts(sentences: &[Sentence], known: &[String]) -> (r: Vec<(String, u32)>)
    requires
        counts_fit(all_bigrams(crate::report::texts_of(sentences@))),
    ensures
        tallies(out_view(r@), all_bigrams(crate::report::texts_of(sentences@)), keep_candidate(strings_view(known@))),
{
    let ghost texts = crate::report::texts_of(sentences@);
    let mut chars: Vec<Vec<char>> = Vec::new();
    let mut i: usize = 0;
    while i < sentences.len()
        invariant
            i <= sentences@.len(),
            texts == crate::report::texts_of(sentences@),
            chars@.map_values(|v: Vec<char>| v@) == texts.subrange(0, i as int),
        decreases sentences@.len() - i,
    {
        let v = chars_of(sentences[i].text.as_str());
        let ghost before = chars@;
        chars.push(v);
        proof {
            assert(chars@.map_values(|v: Vec<char>| v@) =~= before.map_values(|v: Vec<char>| v@).push(
                sentences@[i as int].text@,
            ));
            assert(texts.subrange(0, i + 1) =~= texts.subrange(0, i as int).push(texts[i as int]));
        }
        i = i + 1;
    }
    assert(texts.subrange(0, sentences@.len() as int) =~= texts);
    let tbl = bigram_table(Ghost(texts), &chars);
    let kept = filter_table(tbl, known, Ghost(all_bigrams(texts)));
    table_to_strings(kept)
}

} // verus!

verus! {

/// A candidate word with its count accumulated across sessions.
#[derive(Debug, Clone, PartialEq)]
pub struct CandidateEntry {
    pub word: String,
    pub count: u32,
}

/// The candidates file: the candidates and the last session counted (a
/// report saved again for the same session is not counted twice).
#[derive(Debug, Clone, PartialEq)]
pub struct CandidateFile {
    pub last_session_id: Option<String>,
    pub candidates: Vec<CandidateEntry>,
}

impl Default for CandidateFile {
    fn default() -> (r: Self)
        ensures
            r.last_session_id is None,
            r.candidates@.len() == 0,
    {
        CandidateFile { last_session_id: None, candidates: Vec::new() }
    }
}

pub open spec fn entries_view(ex: Seq<CandidateEntry>) -> Seq<(Seq<char>, nat)> {
    ex.map_values(|e: CandidateEntry| (e.word@, e.count as nat))
}

/// The count of the last entry for `w`, if there is one (later entries
/// overwrite earlier ones).
pub open spec fn last_count(ex: Seq<(Seq<char>, nat)>, w: Seq<char>) -> Option<nat>
    decreases ex.len(),
{
    if ex.len() == 0 {
        None
    } else if ex.last().0 == w {
        Some(ex.last().1)
    } else {
        last_count(ex.drop_last(), w)
    }
}

/// The counts of all entries for `w` added up.
pub open spec fn delta_sum(d: Seq<(Seq<char>, nat)>, w: Seq<char>) -> nat
    decreases d.len(),
{
    if d.len() == 0 {
        0
    } else {
        delta_sum(d.drop_last(), w) + if d.last().0 == w {
            d.last().1
        } else {
            0
        }
    }
}

pub open spec fn in_list(d: Seq<(Seq<char>, nat)>, w: Seq<char>) -> bool {
    exists|i: int| 0 <= i < d.len() && (#[trigger] d[i]).0 == w
}

/// `w` is a candidate after merging: kept, and in the old list or the new
/// counts.
pub open spec fn is_member(
    ex: Seq<(Seq<char>, nat)>,
    d: Seq<(Seq<char>, nat)>,
    keep: spec_fn(Seq<char>) -> bool,
    w: Seq<char>,
) -> bool {
    keep(w) && (last_count(ex, w) is Some || in_list(d, w))
}

/// Accumulated count of `w`: its old count plus this session's.
pub open spec fn total(ex: Seq<(Seq<char>, nat)>, d: Seq<(Seq<char>, nat)>, w: Seq<char>) -> nat {
    (match last_count(ex, w) {
        Some(c) => c,
        None => 0,
    }) + delta_sum(d, w)
}

/// Candidate order: higher count first, then `String` order of the word.
pub open spec fn ranks_before(a: (Seq<char>, nat), b: (Seq<char>, nat)) -> bool {
    a.1 > b.1 || (a.1 == b.1 && lex_lt(a.0, b.0))
}

/// `t` holds every member once with its accumulated count.
pub open spec fn pool(
    t: Seq<(Seq<char>, nat)>,
    ex: Seq<(Seq<char>, nat)>,
    d: Seq<(Seq<char>, nat)>,
    keep: spec_fn(Seq<char>) -> bool,
) -> bool {
    &&& forall|a: int, b: int| 0 <= a < b < t.len() ==> t[a].0 != t[b].0
    &&& forall|a: int|
        0 <= a < t.len() ==> is_member(ex, d, keep, (#[trigger] t[a]).0) && t[a].1 == total(ex, d, t[a].0)
    &&& forall|w: Seq<char>| #[trigger] is_member(ex, d, keep, w) ==> exists|a: int| 0 <= a < t.len() && t[a].0 == w
}

fn find_key(t: &Vec<(Vec<char>, u32)>, w: &[char]) -> (r: Option<usize>)
    ensures
        match r {
            Some(a) => a < t@.len() && tbl_view(t@)[a as int].0 == w@,
            None => forall|a: int| 0 <= a < t@.len() ==> (#[trigger] tbl_view(t@)[a]).0 != w@,
        },
{
    let mut a: usize = 0;
    while a < t.len()
        invariant
            a <= t@.len(),
            forall|b: int| 0 <= b < a ==> (#[trigger] tbl_view(t@)[b]).0 != w@,
        decreases t@.len() - a,
    {
        if chars_eq(t[a].0.as_slice(), w) {
            return Some(a);
        }
        a = a + 1;
    }
    None
}

} // verus!

verus! {

/// The kept old entries, one per word, with the last count given for it.
fn pool_existing(existing: &[CandidateEntry], known: &[String]) -> (t: Vec<(Vec<char>, u32)>)
    ensures
        pool(tbl_view(t@), entries_view(existing@), seq![], keep_candidate(strings_view(known@))),
{
    let ghost keep = keep_candidate(strings_view(known@));
    let ghost exv = entries_view(existing@);
    let ghost nil: Seq<(Seq<char>, nat)> = seq![];
    let mut t: Vec<(Vec<char>, u32)> = Vec::new();
    let mut i: usize = 0;
    assert(exv.subrange(0, 0) =~= Seq::<(Seq<char>, nat)>::empty());
    while i < existing.len()
        invariant
            i <= existing@.len(),
            keep == keep_candidate(strings_view(known@)),
            exv == entries_view(existing@),
            nil == Seq::<(Seq<char>, nat)>::empty(),
            pool(tbl_view(t@), exv.subrange(0, i as int), nil, keep),
        decreases existing@.len() - i,
    {
        let ghost p = exv.subrange(0, i as int);
        let ghost p2 = exv.subrange(0, i + 1);
        let ghost t0 = tbl_view(t@);
        let w = chars_of(existing[i].word.as_str());
        let c = existing[i].count;
        proof {
            assert(p2.drop_last() =~= p);
            assert(p2.last() == (w@, c as nat));
            assert forall|x: Seq<char>| x != w@ implies last_count(p2, x) == last_count(p, x) by {}
            assert(last_count(p2, w@) == Some(c as nat));
            assert forall|x: Seq<char>| #[trigger] delta_sum(nil, x) == 0 by {}
        }
        if dropped(known, w.as_slice()) {
            proof {
                assert forall|a: int| 0 <= a < t0.len() implies is_member(p2, nil, keep, (#[trigger] t0[a]).0)
                    && t0[a].1 == total(p2, nil, t0[a].0) by {
                    assert(is_member(p, nil, keep, t0[a].0));
                }
                assert forall|x: Seq<char>| #[trigger] is_member(p2, nil, keep, x) implies exists|a: int|
                    0 <= a < t0.len() && t0[a].0 == x by {
                    assert(is_member(p, nil, keep, x));
                }
            }
        } else {
            match find_key(&t, w.as_slice()) {
                Some(a) => {
                    t[a].1 = c;
                    proof {
                        let t1 = tbl_view(t@);
                        assert(t1 =~= t0.update(a as int, (w@, c as nat)));
                        assert forall|b: int| 0 <= b < t1.len() implies is_member(p2, nil, keep, (#[trigger] t1[b]).0)
                            && t1[b].1 == total(p2, nil, t1[b].0) by {
                            if b != a {
                                assert(t1[b] == t0[b]);
                                assert(is_member(p, nil, keep, t0[b].0));
                            }
                        }
                        assert forall|x: Seq<char>| #[trigger] is_member(p2, nil, keep, x) implies exists|b: int|
                            0 <= b < t1.len() && t1[b].0 == x by {
                            if x == w@ {
                                assert(t1[a as int].0 == x);
                            } else {
                                assert(is_member(p, nil, keep, x));
                                let b = choose|b: int| 0 <= b < t0.len() && t0[b].0 == x;
                                assert(t1[b].0 == x);
                            }
                        }
                    }
                },
                None => {
                    let ghost wv = w@;
                    t.push((w, c));
                    proof {
                        let t1 = tbl_view(t@);
                        assert(t1 =~= t0.push((wv, c as nat)));
                        assert forall|b: int| 0 <= b < t1.len() implies is_member(p2, nil, keep, (#[trigger] t1[b]).0)
                            && t1[b].1 == total(p2, nil, t1[b].0) by {
                            if b < t0.len() {
                                assert(t1[b] == t0[b]);
                                assert(is_member(p, nil, keep, t0[b].0));
                            }
                        }
                        assert forall|x: Seq<char>| #[trigger] is_member(p2, nil, keep, x) implies exists|b: int|
                            0 <= b < t1.len() && t1[b].0 == x by {
                            if x == wv {
                                assert(t1[t0.len() as int].0 == x);
                            } else {
                                assert(is_member(p, nil, keep, x));
                                let b = choose|b: int| 0 <= b < t0.len() && t0[b].0 == x;
                                assert(t1[b].0 == x);
                            }
                        }
                    }
                },
            }
        }
        i = i + 1;
    }
    assert(exv.subrange(0, existing@.len() as int) =~= exv);
    t
}

} // verus!

verus! {

proof fn lemma_delta_absent(d: Seq<(Seq<char>, nat)>, w: Seq<char>)
    requires
        !in_list(d, w),
    ensures
        delta_sum(d, w) == 0,
    decreases d.len(),
{
    if d.len() > 0 {
        assert(!in_list(d.drop_last(), w)) by {
            if in_list(d.drop_last(), w) {
                let i = choose|i: int| 0 <= i < d.drop_last().len() && (#[trigger] d.drop_last()[i]).0 == w;
                assert(d[i].0 == w);
            }
        }
        assert(d.last() == d[d.len() - 1]);
        lemma_delta_absent(d.drop_last(), w);
    }
}

proof fn lemma_delta_prefix(d: Seq<(Seq<char>, nat)>, j: int, w: Seq<char>)
    requires
        0 <= j <= d.len(),
    ensures
        delta_sum(d.subrange(0, j), w) <= delta_sum(d, w),
    decreases d.len() - j,
{
    if j < d.len() {
        lemma_delta_prefix(d.drop_last(), j, w);
        assert(d.drop_last().subrange(0, j) =~= d.subrange(0, j));
    } else {
        assert(d.subrange(0, j) =~= d);
    }
}

pub open spec fn pairs_view(d: Seq<(String, u32)>) -> Seq<(Seq<char>, nat)> {
    d.map_values(|e: (String, u32)| (e.0@, e.1 as nat))
}

/// Adds this session's counts to the pooled old entries.
fn pool_delta(
    t: &mut Vec<(Vec<char>, u32)>,
    Ghost(exv): Ghost<Seq<(Seq<char>, nat)>>,
    delta: &[(String, u32)],
    known: &[String],
)
    requires
        pool(tbl_view(old(t)@), exv, seq![], keep_candidate(strings_view(known@))),
        forall|w: Seq<char>|
            #[trigger] is_member(exv, pairs_view(delta@), keep_candidate(strings_view(known@)), w) ==> total(
                exv,
                pairs_view(delta@),
                w,
            ) <= u32::MAX,
    ensures
        pool(tbl_view(final(t)@), exv, pairs_view(delta@), keep_candidate(strings_view(known@))),
{
    let ghost keep = keep_candidate(strings_view(known@));
    let ghost dv = pairs_view(delta@);
    let mut j: usize = 0;
    assert(dv.subrange(0, 0) =~= Seq::<(Seq<char>, nat)>::empty());
    while j < delta.len()
        invariant
            j <= delta@.len(),
            keep == keep_candidate(strings_view(known@)),
            dv == pairs_view(delta@),
            forall|w: Seq<char>| #[trigger] is_member(exv, dv, keep, w) ==> total(exv, dv, w) <= u32::MAX,
            pool(tbl_view(t@), exv, dv.subrange(0, j as int), keep),
        decreases delta@.len() - j,
    {
        let ghost q = dv.subrange(0, j as int);
        let ghost q2 = dv.subrange(0, j + 1);
        let ghost t0 = tbl_view(t@);
        let w = chars_of(delta[j].0.as_str());
        let c = delta[j].1;
        proof {
            assert(q2.drop_last() =~= q);
            assert(q2.last() == (w@, c as nat));
            assert(dv[j as int] == (w@, c as nat));
            assert forall|x: Seq<char>| #[trigger] in_list(q2, x) == (in_list(q, x) || x == w@) by {
                if in_list(q2, x) && x != w@ {
                    let i = choose|i: int| 0 <= i < q2.len() && (#[trigger] q2[i]).0 == x;
                    assert(q[i] == q2[i]);
                }
                if in_list(q, x) {
                    let i = choose|i: int| 0 <= i < q.len() && (#[trigger] q[i]).0 == x;
                    assert(q2[i] == q[i]);
                }
                if x == w@ {
                    assert(q2[j as int].0 == x);
                }
            }
            assert forall|x: Seq<char>| #[trigger] delta_sum(q2, x) == delta_sum(q, x) + if x == w@ {
                c as nat
            } else {
                0nat
            } by {}
        }
        if dropped(known, w.as_slice()) {
            proof {
                assert forall|a: int| 0 <= a < t0.len() implies is_member(exv, q2, keep, (#[trigger] t0[a]).0)
                    && t0[a].1 == total(exv, q2, t0[a].0) by {
                    assert(is_member(exv, q, keep, t0[a].0));
                }
                assert forall|x: Seq<char>| #[trigger] is_member(exv, q2, keep, x) implies exists|a: int|
                    0 <= a < t0.len() && t0[a].0 == x by {
                    assert(is_member(exv, q, keep, x));
                }
            }
        } else {
            proof {
                assert(in_list(dv, w@)) by {
                    assert(dv[j as int].0 == w@);
                }
                assert(is_member(exv, dv, keep, w@));
                lemma_delta_prefix(dv, j + 1, w@);
                assert(total(exv, q2, w@) <= u32::MAX);
            }
            match find_key(t, w.as_slice()) {
                Some(a) => {
                    let old_c = t[a].1;
                    proof {
                        assert(is_member(exv, q, keep, t0[a as int].0));
                        assert(old_c == total(exv, q, w@));
                    }
                    t[a].1 = old_c + c;
                    proof {
                        let t1 = tbl_view(t@);
                        assert(t1 =~= t0.update(a as int, (w@, (old_c + c) as nat)));
                        assert forall|b: int| 0 <= b < t1.len() implies is_member(exv, q2, keep, (#[trigger] t1[b]).0)
                            && t1[b].1 == total(exv, q2, t1[b].0) by {
                            if b != a {
                                assert(t1[b] == t0[b]);
                                assert(is_member(exv, q, keep, t0[b].0));
                            }
                        }
                        assert forall|x: Seq<char>| #[trigger] is_member(exv, q2, keep, x) implies exists|b: int|
                            0 <= b < t1.len() && t1[b].0 == x by {
                            if x == w@ {
                                assert(t1[a as int].0 == x);
                            } else {
                                assert(is_member(exv, q, keep, x));
                                let b = choose|b: int| 0 <= b < t0.len() && t0[b].0 == x;
                                assert(t1[b].0 == x);
                            }
                        }
                    }
                },
                None => {
                    proof {
                        if is_member(exv, q, keep, w@) {
                            let b = choose|b: int| 0 <= b < t0.len() && t0[b].0 == w@;
                            assert(false);
                        }
                        lemma_delta_absent(q, w@);
                    }
                    let ghost wv = w@;
                    t.push((w, c));
                    proof {
                        let t1 = tbl_view(t@);
                        assert(t1 =~= t0.push((wv, c as nat)));
                        assert forall|a: int, b: int| 0 <= a < b < t1.len() implies t1[a].0 != t1[b].0 by {
                            if b == t0.len() {
                                assert(t1[a] == t0[a]);
                            }
                        }
                        assert forall|b: int| 0 <= b < t1.len() implies is_member(exv, q2, keep, (#[trigger] t1[b]).0)
                            && t1[b].1 == total(exv, q2, t1[b].0) by {
                            if b < t0.len() {
                                assert(t1[b] == t0[b]);
                                assert(is_member(exv, q, keep, t0[b].0));
                            }
                        }
                        assert forall|x: Seq<char>| #[trigger] is_member(exv, q2, keep, x) implies exists|b: int|
                            0 <= b < t1.len() && t1[b].0 == x by {
                            if x == wv {
                                assert(t1[t0.len() as int].0 == x);
                            } else {
                                assert(is_member(exv, q, keep, x));
                                let b = choose|b: int| 0 <= b < t0.len() && t0[b].0 == x;
                                assert(t1[b].0 == x);
                            }
                        }
                    }
                },
            }
        }
        j = j + 1;
    }
    assert(dv.subrange(0, delta@.len() as int) =~= dv);
}

} // verus!

verus! {


proof fn lemma_rank_total(x: (Seq<char>, nat), y: (Seq<char>, nat))
    requires
        x.0 != y.0,
    ensures
        ranks_before(x, y) || ranks_before(y, x),
{
    lemma_lex_total(x.0, y.0);
}

proof fn lemma_rank_trans(x: (Seq<char>, nat), y: (Seq<char>, nat), z: (Seq<char>, nat))
    requires
        ranks_before(x, y),
        ranks_before(y, z),
    ensures
        ranks_before(x, z),
{
    if x.1 == y.1 && y.1 == z.1 {
        lemma_lex_trans(x.0, y.0, z.0);
    }
}

fn ranks_before_exec(a: &(Vec<char>, u32), b: &(Vec<char>, u32)) -> (r: bool)
    ensures
        r == ranks_before((a.0@, a.1 as nat), (b.0@, b.1 as nat)),
{
    a.1 > b.1 || (a.1 == b.1 && lex_less(a.0.as_slice(), b.0.as_slice()))
}

/// Strictly in candidate order.
pub open spec fn rank_sorted(s: Seq<(Seq<char>, nat)>) -> bool {
    forall|a: int, b: int| 0 <= a < b < s.len() ==> ranks_before(s[a], s[b])
}

/// `x` is an entry of `t`.
pub open spec fn in_seq(t: Seq<(Seq<char>, nat)>, x: (Seq<char>, nat)) -> bool {
    exists|b: int| 0 <= b < t.len() && t[b] == x
}

/// Every entry of `s` is an entry of `t`.
pub open spec fn covers(s: Seq<(Seq<char>, nat)>, t: Seq<(Seq<char>, nat)>) -> bool {
    forall|a: int| 0 <= a < s.len() ==> #[trigger] in_seq(t, s[a])
}

proof fn lemma_insert_step(
    s0: Seq<(Seq<char>, nat)>,
    tk: Seq<(Seq<char>, nat)>,
    xv: (Seq<char>, nat),
    j: int,
)
    requires
        0 <= j <= s0.len(),
        rank_sorted(s0),
        covers(s0, tk),
        covers(tk, s0),
        forall|a: int| 0 <= a < j ==> ranks_before(#[trigger] s0[a], xv),
        j < s0.len() ==> ranks_before(xv, s0[j]),
    ensures
        rank_sorted(s0.insert(j, xv)),
        covers(s0.insert(j, xv), tk.push(xv)),
        covers(tk.push(xv), s0.insert(j, xv)),
{
    let s1 = s0.insert(j, xv);
    let t1 = tk.push(xv);
    assert forall|a: int, b: int| 0 <= a < b < s1.len() implies ranks_before(s1[a], s1[b]) by {
        if b == j {
            assert(s1[a] == s0[a]);
        } else if a == j {
            assert(s1[b] == s0[b - 1]);
            if b - 1 > j {
                lemma_rank_trans(xv, s0[j], s0[b - 1]);
            }
        } else if b < j {
            assert(s1[a] == s0[a]);
            assert(s1[b] == s0[b]);
        } else if a < j {
            assert(s1[a] == s0[a]);
            assert(s1[b] == s0[b - 1]);
        } else {
            assert(s1[a] == s0[a - 1]);
            assert(s1[b] == s0[b - 1]);
        }
    }
    assert forall|a: int| 0 <= a < s1.len() implies #[trigger] in_seq(t1, s1[a]) by {
        if a < j {
            assert(s1[a] == s0[a]);
            assert(in_seq(tk, s0[a]));
            let b = choose|b: int| 0 <= b < tk.len() && tk[b] == s0[a];
            assert(t1[b] == tk[b]);
        } else if a > j {
            assert(s1[a] == s0[a - 1]);
            assert(in_seq(tk, s0[a - 1]));
            let b = choose|b: int| 0 <= b < tk.len() && tk[b] == s0[a - 1];
            assert(t1[b] == tk[b]);
        } else {
            assert(t1[tk.len() as int] == xv);
        }
    }
    assert forall|b: int| 0 <= b < t1.len() implies #[trigger] in_seq(s1, t1[b]) by {
        if b == tk.len() {
            assert(s1[j] == t1[b]);
        } else {
            assert(t1[b] == tk[b]);
            assert(in_seq(s0, tk[b]));
            let a = choose|a: int| 0 <= a < s0.len() && s0[a] == tk[b];
            if a < j {
                assert(s1[a] == t1[b]);
            } else {
                assert(s1[a + 1] == t1[b]);
            }
        }
    }
    assert(covers(s1, t1));
    assert(covers(t1, s1));
}

/// The entries of `t` (distinct words) in candidate order.
fn rank_sort(t: &Vec<(Vec<char>, u32)>) -> (s: Vec<(Vec<char>, u32)>)
    requires
        forall|a: int, b: int| 0 <= a < b < t@.len() ==> tbl_view(t@)[a].0 != tbl_view(t@)[b].0,
    ensures
        rank_sorted(tbl_view(s@)),
        covers(tbl_view(s@), tbl_view(t@)),
        covers(tbl_view(t@), tbl_view(s@)),
{
    let ghost tv = tbl_view(t@);
    let mut s: Vec<(Vec<char>, u32)> = Vec::new();
    let mut k: usize = 0;
    assert(tbl_view(s@) =~= Seq::<(Seq<char>, nat)>::empty());
    assert(tv.subrange(0, 0) =~= Seq::<(Seq<char>, nat)>::empty());
    while k < t.len()
        invariant
            k <= t@.len(),
            tv == tbl_view(t@),
            forall|a: int, b: int| 0 <= a < b < t@.len() ==> tv[a].0 != tv[b].0,
            rank_sorted(tbl_view(s@)),
            covers(tbl_view(s@), tv.subrange(0, k as int)),
            covers(tv.subrange(0, k as int), tbl_view(s@)),
        decreases t@.len() - k,
    {
        let ghost s0 = tbl_view(s@);
        let ghost tk = tv.subrange(0, k as int);
        let x = (t[k].0.clone(), t[k].1);
        let ghost xv = (x.0@, x.1 as nat);
        assert(xv == tv[k as int]);
        let mut j: usize = 0;
        while j < s.len() && ranks_before_exec(&s[j], &x)
            invariant
                j <= s@.len(),
                s0 == tbl_view(s@),
                xv == (x.0@, x.1 as nat),
                forall|a: int| 0 <= a < j ==> ranks_before(#[trigger] s0[a], xv),
            decreases s@.len() - j,
        {
            assert(s0[j as int] == (s@[j as int].0@, s@[j as int].1 as nat));
            j = j + 1;
        }
        proof {
            if j < s@.len() {
                assert(s0[j as int] == (s@[j as int].0@, s@[j as int].1 as nat));
                assert(in_seq(tk, s0[j as int]));
                let b = choose|b: int| 0 <= b < tk.len() && tk[b] == s0[j as int];
                assert(tk[b] == tv[b]);
                assert(tv[b].0 != tv[k as int].0);
                lemma_rank_total(s0[j as int], xv);
            }
            lemma_insert_step(s0, tk, xv, j as int);
            assert(tv.subrange(0, k + 1) =~= tk.push(xv));
        }
        s.insert(j, x);
        assert(tbl_view(s@) =~= s0.insert(j as int, xv));
        k = k + 1;
    }
    assert(tv.subrange(0, t@.len() as int) =~= tv);
    s
}

} // verus!

verus! {

/// Merges the old candidates with this session's counts: known words and
/// stopwords are dropped, counts of the same word add up (for a word listed
/// twice in the old file the last entry counts), the list is ordered by
/// count (high first) then by word, and the first 200 are kept.
pub fn aggregate_candidates(existing: &[CandidateEntry], delta: &[(String, u32)], known: &[String]) -> (r: Vec<
    CandidateEntry,
>)
    requires
        forall|w: Seq<char>|
            #[trigger] is_member(
                entries_view(existing@),
                pairs_view(delta@),
                keep_candidate(strings_view(known@)),
                w,
            ) ==> total(entries_view(existing@), pairs_view(delta@), w) <= u32::MAX,
    ensures
        r@.len() <= CANDIDATES_CAP,
        rank_sorted(entries_view(r@)),
        forall|a: int|
            0 <= a < r@.len() ==> is_member(
                entries_view(existing@),
                pairs_view(delta@),
                keep_candidate(strings_view(known@)),
                (#[trigger] entries_view(r@)[a]).0,
            ) && entries_view(r@)[a].1 == total(entries_view(existing@), pairs_view(delta@), entries_view(r@)[a].0),
        forall|w: Seq<char>|
            #[trigger] is_member(entries_view(existing@), pairs_view(delta@), keep_candidate(strings_view(known@)), w)
                && !in_list(entries_view(r@), w) ==> r@.len() == CANDIDATES_CAP && forall|a: int|
                0 <= a < r@.len() ==> ranks_before(
                    #[trigger] entries_view(r@)[a],
                    (w, total(entries_view(existing@), pairs_view(delta@), w)),
                ),
{
    let ghost keep = keep_candidate(strings_view(known@));
    let ghost exv = entries_view(existing@);
    let ghost dv = pairs_view(delta@);
    let mut t = pool_existing(existing, known);
    pool_delta(&mut t, Ghost(exv), delta, known);
    let s = rank_sort(&t);
    let ghost tv = tbl_view(t@);
    let ghost sv = tbl_view(s@);
    let m = if s.len() < CANDIDATES_CAP {
        s.len()
    } else {
        CANDIDATES_CAP
    };
    let mut out: Vec<CandidateEntry> = Vec::new();
    let mut a: usize = 0;
    while a < m
        invariant
            a <= m,
            m <= s@.len(),
            sv == tbl_view(s@),
            entries_view(out@) == sv.subrange(0, a as int),
        decreases m - a,
    {
        let e = CandidateEntry { word: string_of(s[a].0.as_slice()), count: s[a].1 };
        let ghost before = out@;
        out.push(e);
        proof {
            assert(entries_view(out@) =~= entries_view(before).push((e.word@, e.count as nat)));
            assert(sv[a as int] == (s@[a as int].0@, s@[a as int].1 as nat));
            assert(sv.subrange(0, a + 1) =~= sv.subrange(0, a as int).push(sv[a as int]));
        }
        a = a + 1;
    }
    proof {
        let rv = entries_view(out@);
        assert(rv == sv.subrange(0, m as int));
        assert forall|x: int, y: int| 0 <= x < y < rv.len() implies ranks_before(rv[x], rv[y]) by {
            assert(rv[x] == sv[x] && rv[y] == sv[y]);
        }
        assert forall|x: int| 0 <= x < rv.len() implies is_member(exv, dv, keep, (#[trigger] rv[x]).0) && rv[x].1
            == total(exv, dv, rv[x].0) by {
            assert(rv[x] == sv[x]);
            assert(in_seq(tv, sv[x]));
            let b = choose|b: int| 0 <= b < tv.len() && tv[b] == sv[x];
            assert(is_member(exv, dv, keep, tv[b].0));
        }
        assert forall|w: Seq<char>| #[trigger] is_member(exv, dv, keep, w) && !in_list(rv, w) implies out@.len()
            == CANDIDATES_CAP && forall|x: int| 0 <= x < out@.len() ==> ranks_before(
            #[trigger] rv[x],
            (w, total(exv, dv, w)),
        ) by {
            let b = choose|b: int| 0 <= b < tv.len() && tv[b].0 == w;
            assert(is_member(exv, dv, keep, tv[b].0));
            assert(in_seq(sv, tv[b]));
            let p = choose|p: int| 0 <= p < sv.len() && sv[p] == tv[b];
            if p < m {
                assert(rv[p].0 == w);
                assert(in_list(rv, w));
            }
            assert forall|x: int| 0 <= x < out@.len() implies ranks_before(#[trigger] rv[x], (w, total(exv, dv, w))) by {
                assert(rv[x] == sv[x]);
                assert(sv[p] == (w, total(exv, dv, w)));
            }
        }
    }
    out
}

/// Candidates shown to the user: count at least 3, in file order.
pub open spec fn visible_spec(c: Seq<(Seq<char>, nat)>) -> Seq<(Seq<char>, nat)>
    decreases c.len(),
{
    if c.len() == 0 {
        seq![]
    } else if c.last().1 >= 3 {
        visible_spec(c.drop_last()).push(c.last())
    } else {
        visible_spec(c.drop_last())
    }
}

pub fn visible_candidates(file: &CandidateFile) -> (r: Vec<CandidateEntry>)
    ensures
        entries_view(r@) == visible_spec(entries_view(file.candidates@)),
{
    let ghost cv = entries_view(file.candidates@);
    let mut out: Vec<CandidateEntry> = Vec::new();
    let mut i: usize = 0;
    assert(cv.subrange(0, 0) =~= Seq::<(Seq<char>, nat)>::empty());
    while i < file.candidates.len()
        invariant
            i <= file.candidates@.len(),
            cv == entries_view(file.candidates@),
            entries_view(out@) == visible_spec(cv.subrange(0, i as int)),
        decreases file.candidates@.len() - i,
    {
        let c = &file.candidates[i];
        proof {
            assert(cv.subrange(0, i + 1).drop_last() =~= cv.subrange(0, i as int));
            assert(cv.subrange(0, i + 1).last() == (c.word@, c.count as nat));
        }
        if c.count >= CANDIDATE_MIN_COUNT {
            let ghost before = out@;
            out.push(CandidateEntry { word: c.word.clone(), count: c.count });
            assert(entries_view(out@) =~= entries_view(before).push((c.word@, c.count as nat)));
        }
        i = i + 1;
    }
    assert(cv.subrange(0, file.candidates@.len() as int) =~= cv);
    out
}

} // verus!

verus! {

/// A word the user adds: trimmed, not empty, at most 12 characters.
pub open spec fn new_word_spec(word: Seq<char>) -> Result<Seq<char>, Seq<char>> {
    let w = crate::text::trim(word);
    if w.len() == 0 {
        Err("词条不能为空"@)
    } else if w.len() > 12 {
        Err("词条过长（最多 12 字）"@)
    } else {
        Ok(w)
    }
}

pub fn normalize_new_word(word: &str) -> (r: Result<String, String>)
    ensures
        match r {
            Ok(w) => new_word_spec(word@) == Ok::<Seq<char>, Seq<char>>(w@),
            Err(e) => new_word_spec(word@) == Err::<Seq<char>, Seq<char>>(e@),
        },
{
    let w = crate::text::trim_string(word);
    let n = chars_of(w.as_str()).len();
    if n == 0 {
        Err(crate::text::lit("词条不能为空"))
    } else if n > MAX_WORD_CHARS {
        Err(crate::text::lit("词条过长（最多 12 字）"))
    } else {
        Ok(w)
    }
}

/// The word a dismissal names: trimmed and not empty.
pub fn normalize_dismissed_word(word: &str) -> (r: Result<String, String>)
    ensures
        match r {
            Ok(w) => w@ == crate::text::trim(word@) && w@.len() > 0,
            Err(e) => crate::text::trim(word@).len() == 0 && e@ == "词条不能为空"@,
        },
{
    let w = crate::text::trim_string(word);
    if w.as_str().is_empty() {
        Err(crate::text::lit("词条不能为空"))
    } else {
        Ok(w)
    }
}

/// Alternatives of an added word: trimmed, empty ones dropped, each once,
/// at most six.
pub open spec fn clean_alternatives_spec(alts: Seq<Seq<char>>) -> Seq<Seq<char>> {
    let d = crate::rules::lexicon::dedup(
        crate::rules::lexicon::drop_empty(alts.map_values(|a: Seq<char>| crate::text::trim(a))),
    );
    if d.len() <= 6 {
        d
    } else {
        d.subrange(0, 6)
    }
}

pub fn clean_alternatives(alternatives: &[String]) -> (r: Vec<String>)
    ensures
        strings_view(r@) == clean_alternatives_spec(strings_view(alternatives@)),
{
    let mut pieces: Vec<Vec<char>> = Vec::new();
    let mut i: usize = 0;
    while i < alternatives.len()
        invariant
            i <= alternatives@.len(),
            pieces@.map_values(|p: Vec<char>| p@) == strings_view(alternatives@).subrange(0, i as int),
        decreases alternatives@.len() - i,
    {
        let v = chars_of(alternatives[i].as_str());
        let ghost before = pieces@;
        pieces.push(v);
        proof {
            assert(pieces@.map_values(|p: Vec<char>| p@) =~= before.map_values(|p: Vec<char>| p@).push(
                alternatives@[i as int]@,
            ));
            assert(strings_view(alternatives@).subrange(0, i + 1) =~= strings_view(alternatives@).subrange(
                0,
                i as int,
            ).push(alternatives@[i as int]@));
        }
        i = i + 1;
    }
    assert(strings_view(alternatives@).subrange(0, alternatives@.len() as int) =~= strings_view(alternatives@));
    let mut words = crate::settings::distinct_words(&pieces);
    if words.len() > MAX_ALTERNATIVES {
        words.truncate(MAX_ALTERNATIVES);
    }
    proof {
        let d = strings_view(words@);
        assert(d =~= clean_alternatives_spec(strings_view(alternatives@)));
    }
    words
}

/// The candidates without `word`, order kept.
pub open spec fn without_spec(c: Seq<(Seq<char>, nat)>, w: Seq<char>) -> Seq<(Seq<char>, nat)>
    decreases c.len(),
{
    if c.len() == 0 {
        seq![]
    } else if c.last().0 == w {
        without_spec(c.drop_last(), w)
    } else {
        without_spec(c.drop_last(), w).push(c.last())
    }
}

pub fn without_word(candidates: &[CandidateEntry], word: &str) -> (r: Vec<CandidateEntry>)
    ensures
        entries_view(r@) == without_spec(entries_view(candidates@), word@),
{
    let ghost cv = entries_view(candidates@);
    let wv = chars_of(word);
    let mut out: Vec<CandidateEntry> = Vec::new();
    let mut i: usize = 0;
    assert(cv.subrange(0, 0) =~= Seq::<(Seq<char>, nat)>::empty());
    while i < candidates.len()
        invariant
            i <= candidates@.len(),
            cv == entries_view(candidates@),
            wv@ == word@,
            entries_view(out@) == without_spec(cv.subrange(0, i as int), word@),
        decreases candidates@.len() - i,
    {
        let c = &candidates[i];
        proof {
            assert(cv.subrange(0, i + 1).drop_last() =~= cv.subrange(0, i as int));
            assert(cv.subrange(0, i + 1).last() == (c.word@, c.count as nat));
        }
        let cw = chars_of(c.word.as_str());
        if !chars_eq(cw.as_slice(), wv.as_slice()) {
            let ghost before = out@;
            out.push(CandidateEntry { word: c.word.clone(), count: c.count });
            assert(entries_view(out@) =~= entries_view(before).push((c.word@, c.count as nat)));
        }
        i = i + 1;
    }
    assert(cv.subrange(0, candidates@.len() as int) =~= cv);
    out
}

/// Whether this session's transcript was already counted.
pub fn already_counted(file: &CandidateFile, session_id: &str) -> (r: bool)
    ensures
        r == (file.last_session_id matches Some(s) && s@ == session_id@),
{
    match &file.last_session_id {
        Some(s) => str_eq(s.as_str(), session_id),
        None => false,
    }
}


/// The file was last counted for session `id`.
pub open spec fn counted_for(f: CandidateFile, id: Seq<char>) -> bool {
    f.last_session_id matches Some(s) && s@ == id
}

/// `r` is the merge of old candidates `ex` with a session's counts `d`, as
/// `aggregate_candidates` makes it.
pub open spec fn aggregated(
    ex: Seq<(Seq<char>, nat)>,
    d: Seq<(Seq<char>, nat)>,
    keep: spec_fn(Seq<char>) -> bool,
    r: Seq<(Seq<char>, nat)>,
) -> bool {
    &&& r.len() <= CANDIDATES_CAP
    &&& rank_sorted(r)
    &&& forall|a: int| 0 <= a < r.len() ==> is_member(ex, d, keep, (#[trigger] r[a]).0) && r[a].1 == total(ex, d, r[a].0)
    &&& forall|w: Seq<char>| #[trigger] is_member(ex, d, keep, w) && !in_list(r, w) ==> r.len() == CANDIDATES_CAP
        && forall|a: int| 0 <= a < r.len() ==> ranks_before(#[trigger] r[a], (w, total(ex, d, w)))
}

/// What counting session `id` with counts `delta` does to the candidates
/// file `f`, giving `r`.
pub open spec fn session_counted(
    f: CandidateFile,
    id: Seq<char>,
    delta: Seq<(String, u32)>,
    known: Seq<String>,
    r: CandidateFile,
) -> bool {
    &&& counted_for(r, id)
    &&& counted_for(f, id) ==> r == f
    &&& !counted_for(f, id) ==> aggregated(
        entries_view(f.candidates@),
        pairs_view(delta),
        keep_candidate(strings_view(known)),
        entries_view(r.candidates@),
    )
}

/// Counts a session's candidate counts into the file, once per session: a
/// file already counted for `session_id` comes back as it is; otherwise the
/// candidates are merged with `delta` and the file remembers the session.
pub fn count_session(file: CandidateFile, session_id: &str, delta: &[(String, u32)], known: &[String]) -> (r:
    CandidateFile)
    requires
        !counted_for(file, session_id@) ==> forall|w: Seq<char>|
            #[trigger] is_member(
                entries_view(file.candidates@),
                pairs_view(delta@),
                keep_candidate(strings_view(known@)),
                w,
            ) ==> total(entries_view(file.candidates@), pairs_view(delta@), w) <= u32::MAX,
    ensures
        session_counted(file, session_id@, delta@, known@, r),
{
    if already_counted(&file, session_id) {
        return file;
    }
    let candidates = aggregate_candidates(file.candidates.as_slice(), delta, known);
    CandidateFile { last_session_id: Some(lit(session_id)), candidates }
}

proof fn lemma_last_count_some(ex: Seq<(Seq<char>, nat)>, w: Seq<char>)
    ensures
        last_count(ex, w) is Some <==> in_list(ex, w),
    decreases ex.len(),
{
    if ex.len() > 0 {
        lemma_last_count_some(ex.drop_last(), w);
        if in_list(ex, w) && ex.last().0 != w {
            let i = choose|i: int| 0 <= i < ex.len() && (#[trigger] ex[i]).0 == w;
            assert(ex.drop_last()[i].0 == w);
        }
        if in_list(ex.drop_last(), w) {
            let i = choose|i: int| 0 <= i < ex.drop_last().len() && (#[trigger] ex.drop_last()[i]).0 == w;
            assert(ex[i].0 == w);
        }
        if ex.last().0 == w {
            assert(ex[ex.len() - 1].0 == w);
        }
    }
}

/// The old count of `w` in the candidates file, if it is listed (the last
/// entry counts).
fn old_count(existing: &[CandidateEntry], w: &str) -> (r: Option<u32>)
    ensures
        match r {
            Some(c) => last_count(entries_view(existing@), w@) == Some(c as nat),
            None => last_count(entries_view(existing@), w@) is None,
        },
{
    let ghost ex = entries_view(existing@);
    let mut r: Option<u32> = None;
    let mut i: usize = 0;
    assert(ex.subrange(0, 0) =~= Seq::<(Seq<char>, nat)>::empty());
    while i < existing.len()
        invariant
            i <= existing@.len(),
            ex == entries_view(existing@),
            match r {
                Some(c) => last_count(ex.subrange(0, i as int), w@) == Some(c as nat),
                None => last_count(ex.subrange(0, i as int), w@) is None,
            },
        decreases existing@.len() - i,
    {
        proof {
            assert(ex.subrange(0, i + 1).drop_last() =~= ex.subrange(0, i as int));
            assert(ex.subrange(0, i + 1).last() == ex[i as int]);
        }
        if str_eq(existing[i].word.as_str(), w) {
            r = Some(existing[i].count);
        }
        i = i + 1;
    }
    assert(ex.subrange(0, existing@.len() as int) =~= ex);
    r
}

/// This session's count of `w`, or `None` once it passes `u32::MAX`.
fn new_count(delta: &[(String, u32)], w: &str) -> (r: Option<u64>)
    ensures
        match r {
            Some(c) => c == delta_sum(pairs_view(delta@), w@) && c <= u32::MAX,
            None => delta_sum(pairs_view(delta@), w@) > u32::MAX,
        },
{
    let ghost d = pairs_view(delta@);
    let mut sum: u64 = 0;
    let mut j: usize = 0;
    assert(d.subrange(0, 0) =~= Seq::<(Seq<char>, nat)>::empty());
    while j < delta.len()
        invariant
            j <= delta@.len(),
            d == pairs_view(delta@),
            sum == delta_sum(d.subrange(0, j as int), w@),
            sum <= u32::MAX,
        decreases delta@.len() - j,
    {
        proof {
            assert(d.subrange(0, j + 1).drop_last() =~= d.subrange(0, j as int));
            assert(d.subrange(0, j + 1).last() == d[j as int]);
        }
        if str_eq(delta[j].0.as_str(), w) {
            sum = sum + delta[j].1 as u64;
        }
        if sum > 4294967295u64 {
            proof {
                lemma_delta_prefix(d, j + 1, w@);
            }
            return None;
        }
        j = j + 1;
    }
    assert(d.subrange(0, delta@.len() as int) =~= d);
    Some(sum)
}

/// Whether the accumulated count of `w` fits in `u32`.
fn total_fits(existing: &[CandidateEntry], delta: &[(String, u32)], w: &str) -> (r: bool)
    ensures
        r == (total(entries_view(existing@), pairs_view(delta@), w@) <= u32::MAX),
{
    let old = match old_count(existing, w) {
        Some(c) => c as u64,
        None => 0,
    };
    match new_count(delta, w) {
        Some(n) => old + n <= 4294967295u64,
        None => false,
    }
}

/// Whether every word of the merge has an accumulated count that fits in
/// `u32`: what `aggregate_candidates` requires.
pub fn totals_fit(existing: &[CandidateEntry], delta: &[(String, u32)], known: &[String]) -> (r: bool)
    ensures
        r == (forall|w: Seq<char>|
            #[trigger] is_member(
                entries_view(existing@),
                pairs_view(delta@),
                keep_candidate(strings_view(known@)),
                w,
            ) ==> total(entries_view(existing@), pairs_view(delta@), w) <= u32::MAX),
{
    let ghost ex = entries_view(existing@);
    let ghost d = pairs_view(delta@);
    let ghost keep = keep_candidate(strings_view(known@));
    let mut i: usize = 0;
    while i < existing.len()
        invariant
            i <= existing@.len(),
            ex == entries_view(existing@),
            d == pairs_view(delta@),
            keep == keep_candidate(strings_view(known@)),
            forall|k: int| 0 <= k < i && keep((#[trigger] ex[k]).0) ==> total(ex, d, ex[k].0) <= u32::MAX,
        decreases existing@.len() - i,
    {
        let w = chars_of(existing[i].word.as_str());
        assert(ex[i as int].0 == w@);
        if !dropped(known, w.as_slice()) && !total_fits(existing, delta, existing[i].word.as_str()) {
            proof {
                lemma_last_count_some(ex, w@);
                assert(is_member(ex, d, keep, w@));
            }
            return false;
        }
        i = i + 1;
    }
    let mut j: usize = 0;
    while j < delta.len()
        invariant
            j <= delta@.len(),
            ex == entries_view(existing@),
            d == pairs_view(delta@),
            keep == keep_candidate(strings_view(known@)),
            forall|k: int| 0 <= k < ex.len() && keep((#[trigger] ex[k]).0) ==> total(ex, d, ex[k].0) <= u32::MAX,
            forall|k: int| 0 <= k < j && keep((#[trigger] d[k]).0) ==> total(ex, d, d[k].0) <= u32::MAX,
        decreases delta@.len() - j,
    {
        let w = chars_of(delta[j].0.as_str());
        assert(d[j as int].0 == w@);
        if !dropped(known, w.as_slice()) && !total_fits(existing, delta, delta[j].0.as_str()) {
            proof {
                assert(in_list(d, w@));
                assert(is_member(ex, d, keep, w@));
            }
            return false;
        }
        j = j + 1;
    }
    proof {
        assert forall|w: Seq<char>| #[trigger] is_member(ex, d, keep, w) implies total(ex, d, w) <= u32::MAX by {
            lemma_last_count_some(ex, w);
            if in_list(ex, w) {
                let k = choose|k: int| 0 <= k < ex.len() && (#[trigger] ex[k]).0 == w;
                assert(keep(ex[k].0));
            } else {
                let k = choose|k: int| 0 <= k < d.len() && (#[trigger] d[k]).0 == w;
                assert(keep(d[k].0));
            }
        }
    }
    true
}

/// The message when a word's accumulated count would pass `u32::MAX`.
pub open spec fn count_overflow_msg() -> Seq<char> {
    "候选词计数溢出"@
}

/// `count_session` with its bound tested: a file already counted for the
/// session comes back as it is; otherwise, when some word's accumulated
/// count would not fit in `u32`, an error and nothing counted.
pub fn try_count_session(file: CandidateFile, session_id: &str, delta: &[(String, u32)], known: &[String]) -> (r:
    Result<CandidateFile, String>)
    ensures
        counted_for(file, session_id@) ==> r == Ok::<CandidateFile, String>(file),
        !counted_for(file, session_id@) ==> ((forall|w: Seq<char>|
            #[trigger] is_member(
                entries_view(file.candidates@),
                pairs_view(delta@),
                keep_candidate(strings_view(known@)),
                w,
            ) ==> total(entries_view(file.candidates@), pairs_view(delta@), w) <= u32::MAX) <==> r is Ok),
        r matches Ok(f) ==> session_counted(file, session_id@, delta@, known@, f),
        r matches Err(e) ==> e@ == count_overflow_msg(),
{
    if already_counted(&file, session_id) {
        return Ok(file);
    }
    if !totals_fit(file.candidates.as_slice(), delta, known) {
        return Err(lit("候选词计数溢出"));
    }
    Ok(count_session(file, session_id, delta, known))
}

/// Recording the same session a second time changes nothing, whatever
/// counts and known words the second recording brings.
pub proof fn lemma_second_recording_changes_nothing(
    f0: CandidateFile,
    id: Seq<char>,
    d1: Seq<(String, u32)>,
    k1: Seq<String>,
    f1: CandidateFile,
    d2: Seq<(String, u32)>,
    k2: Seq<String>,
    f2: CandidateFile,
)
    requires
        session_counted(f0, id, d1, k1, f1),
        session_counted(f1, id, d2, k2, f2),
    ensures
        f2 == f1,
{
}

/// The words of every emotion category, category after category.
pub open spec fn emotion_words_of(gs: Seq<(String, EmotionGroup)>) -> Seq<String>
    decreases gs.len(),
{
    if gs.len() == 0 {
        seq![]
    } else {
        emotion_words_of(gs.drop_last()) + gs.last().1.words@.map_values(|w: (String, u8)| w.0)
    }
}

/// Every word the lexicons already hold: fillers, hedges, vague words,
/// emotion words, time words (the `description` key included) and the
/// user's vague words and fillers.
pub open spec fn known_words_spec(lex: LexiconV2, user: UserLexicon) -> Seq<String> {
    lex.fillers.high@ + lex.fillers.medium@ + lex.hedges@ + keys_of(lex.vague_to_precise@) + emotion_words_of(
        lex.emotion_words@,
    ) + keys_of(lex.time_vague@) + keys_of(user.vague_to_precise@) + user.fillers@
}

fn append_keys<V>(out: &mut Vec<String>, es: &[(String, V)])
    ensures
        final(out)@ == old(out)@ + keys_of(es@),
{
    let mut i: usize = 0;
    while i < es.len()
        invariant
            i <= es@.len(),
            out@ == old(out)@ + keys_of(es@).subrange(0, i as int),
        decreases es@.len() - i,
    {
        out.push(es[i].0.clone());
        assert(out@ =~= old(out)@ + keys_of(es@).subrange(0, i + 1));
        i = i + 1;
    }
    assert(keys_of(es@).subrange(0, es@.len() as int) =~= keys_of(es@));
}

fn append_all(out: &mut Vec<String>, ws: &[String])
    ensures
        final(out)@ == old(out)@ + ws@,
{
    let mut i: usize = 0;
    while i < ws.len()
        invariant
            i <= ws@.len(),
            out@ == old(out)@ + ws@.subrange(0, i as int),
        decreases ws@.len() - i,
    {
        out.push(ws[i].clone());
        assert(out@ =~= old(out)@ + ws@.subrange(0, i + 1));
        i = i + 1;
    }
    assert(ws@.subrange(0, ws@.len() as int) =~= ws@);
}

/// The words a candidate must not be: everything the lexicons hold.
pub fn known_words(lex: &LexiconV2, user: &UserLexicon) -> (r: Vec<String>)
    ensures
        r@ == known_words_spec(*lex, *user),
{
    let mut out: Vec<String> = Vec::new();
    append_all(&mut out, lex.fillers.high.as_slice());
    append_all(&mut out, lex.fillers.medium.as_slice());
    append_all(&mut out, lex.hedges.as_slice());
    append_keys(&mut out, lex.vague_to_precise.as_slice());
    let gs = &lex.emotion_words;
    let ghost base = out@;
    let mut i: usize = 0;
    assert(gs@.subrange(0, 0) =~= Seq::<(String, EmotionGroup)>::empty());
    assert(base + emotion_words_of(gs@.subrange(0, 0)) =~= base);
    while i < gs.len()
        invariant
            i <= gs@.len(),
            out@ == base + emotion_words_of(gs@.subrange(0, i as int)),
        decreases gs@.len() - i,
    {
        assert(gs@.subrange(0, i + 1).drop_last() =~= gs@.subrange(0, i as int));
        assert(gs@.subrange(0, i + 1).last() == gs@[i as int]);
        append_keys(&mut out, gs[i].1.words.as_slice());
        assert(keys_of(gs@[i as int].1.words@) =~= gs@[i as int].1.words@.map_values(|w: (String, u8)| w.0));
        i = i + 1;
    }
    assert(gs@.subrange(0, gs@.len() as int) =~= gs@);
    append_keys(&mut out, lex.time_vague.as_slice());
    append_keys(&mut out, user.vague_to_precise.as_slice());
    append_all(&mut out, user.fillers.as_slice());
    out
}

} // verus!

verus! {

/// The words the report hints at: the first `n` visible candidates.
pub fn top_candidate_words(file: &CandidateFile, n: usize) -> (r: Vec<String>)
    ensures
        crate::text::views(r@) == crate::report::first_n(visible_spec(entries_view(file.candidates@)), n as nat).map_values(
            |e: (Seq<char>, nat)| e.0,
        ),
{
    let vis = visible_candidates(file);
    let ghost vv = visible_spec(entries_view(file.candidates@));
    let m = if vis.len() > n { n } else { vis.len() };
    let mut out: Vec<String> = Vec::new();
    let mut i: usize = 0;
    while i < m
        invariant
            i <= m <= vis@.len(),
            entries_view(vis@) == vv,
            crate::text::views(out@) == vv.subrange(0, i as int).map_values(|e: (Seq<char>, nat)| e.0),
        decreases m - i,
    {
        let ghost before = out@;
        out.push(vis[i].word.clone());
        proof {
            assert(entries_view(vis@)[i as int] == (vis@[i as int].word@, vis@[i as int].count as nat));
            assert(crate::text::views(out@) =~= crate::text::views(before).push(vis@[i as int].word@));
            assert(vv.subrange(0, i + 1) =~= vv.subrange(0, i as int).push(vv[i as int]));
            assert(crate::text::views(out@) =~= vv.subrange(0, i + 1).map_values(|e: (Seq<char>, nat)| e.0));
        }
        i = i + 1;
    }
    assert(crate::report::first_n(vv, n as nat) =~= vv.subrange(0, m as int));
    out
}

} // verus!
