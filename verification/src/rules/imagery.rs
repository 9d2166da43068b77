//! Imagery: a metaphor marker earns praise once per session; an abstract
//! word (很累, 很忙…) earns a concrete way to say it, once per word and
//! session.
use vstd::prelude::*;
use crate::rules::{FeedbackEvent, FeedbackKind, Payload, Sentence, SessionContext};
use crate::rules::lexicon::{
    WordMatcher, LexiconV2, hit_words, dedup, built_from, built_over, lookup, list_entries, keys_of, list_for,
    list_keys, clone_list_entries, owned_all,
};
use crate::rules::precision::{fresh, alternatives_of};
use crate::rules::structure::marker_views;
use crate::text::{views, push_str, str_eq, lit};

verus! {

/// Metaphor and imagery markers.
pub const IMAGERY_MARKERS: [&'static str; 5] = ["就像", "好比", "相当于", "仿佛", "如同"];

/// The first suggestion, empty when there is none.
pub open spec fn first_or_empty(ss: Seq<Seq<char>>) -> Seq<char> {
    if ss.len() > 0 {
        ss[0]
    } else {
        seq![]
    }
}

/// `e` praises the marker `m` in sentence `id`.
pub open spec fn marker_event(e: FeedbackEvent, id: u64, m: Seq<char>) -> bool {
    &&& e.kind == FeedbackKind::Imagery
    &&& e.sentence_id == Some(id)
    &&& e.message@ == "用了「"@ + m + "」打比方，画面感好，继续保持"@
    &&& e.payload matches Payload::ImageryMarker { marker } && marker@ == m
}

/// `e` suggests a concrete way to say the abstract word `w` in sentence `id`.
pub open spec fn abstract_event(e: FeedbackEvent, id: u64, w: Seq<char>, es: Seq<(Seq<char>, Seq<Seq<char>>)>) -> bool {
    &&& e.kind == FeedbackKind::Imagery
    &&& e.sentence_id == Some(id)
    &&& e.message@ == "「"@ + w + "」偏抽象，可以说得更有画面感，比如「"@ + first_or_empty(alternatives_of(es, w))
        + "」"@
    &&& e.payload matches Payload::ImageryAbstract { word, suggestions } && word@ == w && views(suggestions@)
        == alternatives_of(es, w)
}

pub struct ImageryRule {
    marker_matcher: WordMatcher,
    abstract_matcher: WordMatcher,
    suggestions: Vec<(String, Vec<String>)>,
    marker_hinted: bool,
    abstract_hinted: Vec<String>,
}

impl ImageryRule {
    pub closed spec fn markers(&self) -> WordMatcher {
        self.marker_matcher
    }

    pub closed spec fn abstracts(&self) -> WordMatcher {
        self.abstract_matcher
    }

    pub closed spec fn entries(&self) -> Seq<(Seq<char>, Seq<Seq<char>>)> {
        list_entries(self.suggestions@)
    }

    /// Whether the marker praise was given this session.
    pub closed spec fn marker_hinted(&self) -> bool {
        self.marker_hinted
    }

    /// Abstract words already hinted this session.
    pub closed spec fn hinted(&self) -> Seq<Seq<char>> {
        views(self.abstract_hinted@)
    }

    pub closed spec fn wf(&self) -> bool {
        self.marker_matcher.wf() && self.abstract_matcher.wf()
    }

    /// A rule over the given abstract word → concrete suggestions map,
    /// nothing hinted yet.
    pub fn new(pairs: &[(String, Vec<String>)]) -> (r: Self)
        ensures
            r.wf(),
            built_over(r.markers(), marker_views(IMAGERY_MARKERS@)),
            built_from(r.abstracts(), keys_of(pairs@)),
            r.entries() == list_entries(pairs@),
            !r.marker_hinted(),
            r.hinted().len() == 0,
    {
        let markers = owned_all(&IMAGERY_MARKERS);
        let m = WordMatcher::new(markers);
        let words = list_keys(pairs);
        ImageryRule {
            marker_matcher: m,
            abstract_matcher: WordMatcher::new(words),
            suggestions: clone_list_entries(pairs),
            marker_hinted: false,
            abstract_hinted: Vec::new(),
        }
    }

    /// A rule over the lexicon's imagery pairs.
    pub fn from_lexicon(lex: &LexiconV2) -> (r: Self)
        ensures
            r.wf(),
            built_over(r.markers(), marker_views(IMAGERY_MARKERS@)),
            built_from(r.abstracts(), keys_of(lex.imagery_pairs@)),
            r.entries() == list_entries(lex.imagery_pairs@),
            !r.marker_hinted(),
            r.hinted().len() == 0,
    {
        ImageryRule::new(lex.imagery_pairs.as_slice())
    }

    /// Praise for the sentence's first metaphor marker unless given before,
    /// then one suggestion for each distinct abstract word not hinted before.
    pub fn on_sentence(&mut self, sentence: &Sentence, ctx: &SessionContext) -> (r: Vec<FeedbackEvent>)
        requires
            old(self).wf(),
        ensures
            imagery_step(*old(self), *sentence, *final(self), r@),
    {
        let text = sentence.text.as_str();
        let mut events: Vec<FeedbackEvent> = Vec::new();
        if !self.marker_hinted {
            let ms = self.marker_matcher.find_distinct(text);
            if ms.len() > 0 {
                self.marker_hinted = true;
                let marker = ms[0];
                let mut message = String::new();
                push_str(&mut message, "用了「");
                push_str(&mut message, marker);
                push_str(&mut message, "」打比方，画面感好，继续保持");
                events.push(FeedbackEvent {
                    kind: FeedbackKind::Imagery,
                    sentence_id: Some(sentence.id),
                    message,
                    payload: Payload::ImageryMarker { marker: lit(marker) },
                });
            }
        }
        let ghost n = events@.len();
        let ghost mk = dedup(hit_words(self.marker_matcher.entries(), self.marker_matcher.modes(), text@));
        assert(self.marker_hinted == (old(self).marker_hinted || mk.len() > 0));
        assert((n == 1) == (!old(self).marker_hinted && mk.len() > 0));
        assert(n == 1 ==> marker_event(events@[0], sentence.id, mk[0]));
        let words = self.abstract_matcher.find_distinct(text);
        let ghost ws = words@.map_values(|s: &str| s@);
        let ghost s0 = views(self.abstract_hinted@);
        let ghost e0 = events@;
        let mut i: usize = 0;
        assert(ws.subrange(0, 0) =~= Seq::<Seq<char>>::empty());
        assert(s0 + Seq::<Seq<char>>::empty() =~= s0);
        while i < words.len()
            invariant
                i <= words@.len(),
                self.marker_matcher == old(self).marker_matcher,
                self.abstract_matcher == old(self).abstract_matcher,
                self.suggestions == old(self).suggestions,
                ws == words@.map_values(|s: &str| s@),
                s0 == views(old(self).abstract_hinted@),
                e0 == events@.subrange(0, n as int),
                n == e0.len(),
                mk == dedup(hit_words(old(self).marker_matcher.entries(), old(self).marker_matcher.modes(), text@)),
                self.marker_hinted == (old(self).marker_hinted || mk.len() > 0),
                (n == 1) == (!old(self).marker_hinted && mk.len() > 0),
                n <= 1,
                n == 1 ==> marker_event(e0[0], sentence.id, mk[0]),
                views(self.abstract_hinted@) == s0 + fresh(ws.subrange(0, i as int), s0),
                events@.len() == n + fresh(ws.subrange(0, i as int), s0).len(),
                forall|k: int| n <= k < events@.len() ==> abstract_event(#[trigger] events@[k], sentence.id, fresh(ws.subrange(0, i as int), s0)[k - n], list_entries(self.suggestions@)),
            decreases words@.len() - i,
        {
            let w = words[i];
            let ghost f = fresh(ws.subrange(0, i as int), s0);
            proof {
                assert(ws.subrange(0, i + 1).drop_last() =~= ws.subrange(0, i as int));
                assert(ws.subrange(0, i + 1).last() == w@);
            }
            let mut seen = false;
            let mut j: usize = 0;
            while j < self.abstract_hinted.len()
                invariant
                    j <= self.abstract_hinted@.len(),
                    seen == (exists|k: int| 0 <= k < j && (#[trigger] self.abstract_hinted@[k])@ == w@),
                decreases self.abstract_hinted@.len() - j,
            {
                if str_eq(self.abstract_hinted[j].as_str(), w) {
                    seen = true;
                }
                j = j + 1;
            }
            proof {
                let d = views(self.abstract_hinted@);
                if seen {
                    let k = choose|k: int| 0 <= k < self.abstract_hinted@.len() && (#[trigger] self.abstract_hinted@[k])@ == w@;
                    assert(d[k] == w@);
                    assert(d.contains(w@));
                } else {
                    assert forall|k: int| 0 <= k < d.len() implies d[k] != w@ by {
                        assert(d[k] == self.abstract_hinted@[k]@);
                    }
                    assert(!d.contains(w@));
                }
            }
            if !seen {
                let ghost before = self.abstract_hinted@;
                self.abstract_hinted.push(lit(w));
                assert(views(self.abstract_hinted@) =~= views(before).push(w@));
                let suggestions = list_for(self.suggestions.as_slice(), w);
                let mut message = String::new();
                push_str(&mut message, "「");
                push_str(&mut message, w);
                push_str(&mut message, "」偏抽象，可以说得更有画面感，比如「");
                if suggestions.len() > 0 {
                    push_str(&mut message, suggestions[0].as_str());
                }
                push_str(&mut message, "」");
                proof {
                    let fs = views(suggestions@);
                    if fs.len() > 0 {
                        assert(fs[0] == suggestions@[0]@);
                    } else {
                        assert(message@ =~= "「"@ + w@ + "」偏抽象，可以说得更有画面感，比如「"@ + first_or_empty(fs) + "」"@);
                    }
                }
                let ev = FeedbackEvent {
                    kind: FeedbackKind::Imagery,
                    sentence_id: Some(sentence.id),
                    message,
                    payload: Payload::ImageryAbstract { word: lit(w), suggestions },
                };
                let ghost eb = events@;
                events.push(ev);
                proof {
                    let f2 = fresh(ws.subrange(0, i + 1), s0);
                    assert(f2 == f.push(w@));
                    assert(views(self.abstract_hinted@) =~= s0 + f2);
                    assert(e0 =~= events@.subrange(0, n as int));
                    assert forall|k: int| n <= k < events@.len() implies abstract_event(#[trigger] events@[k], sentence.id, f2[k - n], list_entries(self.suggestions@)) by {
                        if k < events@.len() - 1 {
                            assert(events@[k] == eb[k]);
                        }
                    }
                }
            } else {
                proof {
                    let f2 = fresh(ws.subrange(0, i + 1), s0);
                    assert(f2 == f);
                }
            }
            i = i + 1;
        }
        assert(ws.subrange(0, words@.len() as int) =~= ws);
        assert(n == 1 ==> events@[0] == e0[0]);
        events
    }
}


/// What the imagery rule does on sentence `s`, from state `a` to state `b`,
/// producing `r`.
pub open spec fn imagery_step(a: ImageryRule, s: Sentence, b: ImageryRule, r: Seq<FeedbackEvent>) -> bool {
    &&& b.wf()
    &&& b.markers() == a.markers()
    &&& b.abstracts() == a.abstracts()
    &&& b.entries() == a.entries()
    &&& ({
        let t = s.text@;
        let mk = dedup(hit_words(a.markers().entries(), a.markers().modes(), t));
        let praise = !a.marker_hinted() && mk.len() > 0;
        let n: int = if praise { 1 } else { 0 };
        let s0 = a.hinted();
        let f = fresh(dedup(hit_words(a.abstracts().entries(), a.abstracts().modes(), t)), s0);
        &&& b.marker_hinted() == (a.marker_hinted() || mk.len() > 0)
        &&& b.hinted() == s0 + f
        &&& r.len() == n + f.len()
        &&& praise ==> marker_event(r[0], s.id, mk[0])
        &&& forall|i: int| n <= i < r.len() ==> abstract_event(#[trigger] r[i], s.id, f[i - n], a.entries())
    })
}

} // verus!
