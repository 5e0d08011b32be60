//! The highlighter of one buffer: on every change of the text it places the
//! runs anew, gives each run the tag of its style, and replaces the spans of
//! the pass before.

use vstd::prelude::*;
use crate::highlight::{place_runs, text_runs, token_rows, Style, StyleRun, Token};
use crate::tags::{with_style, TagCache};

verus! {

/// A tag laid over a stretch of the text.
#[derive(Clone, Copy, Debug, PartialEq, Eq, Structural)]
pub struct TagSpan {
    pub tag: usize,
    pub start: usize,
    pub len: usize,
}

/// The styles of runs, run by run.
pub open spec fn styles_of(runs: Seq<StyleRun>) -> Seq<Style> {
    runs.map_values(|r: StyleRun| r.spec_style())
}

/// The cache once each of `styles` has a tag, the tags made in the order
/// in which the styles first come.
pub open spec fn with_styles(cache: Seq<Style>, styles: Seq<Style>) -> Seq<Style>
    decreases styles.len(),
{
    if styles.len() == 0 {
        cache
    } else {
        with_style(with_styles(cache, styles.drop_last()), styles.last())
    }
}

/// The span that lays the tag of a run's style over the run.
pub open spec fn span_of(cache: Seq<Style>, run: StyleRun) -> TagSpan {
    TagSpan { tag: cache.index_of(run.spec_style()) as usize, start: run.start, len: run.len }
}

/// The spans of runs, run by run.
pub open spec fn spans_of(cache: Seq<Style>, runs: Seq<StyleRun>) -> Seq<TagSpan> {
    runs.map_values(|r: StyleRun| span_of(cache, r))
}

/// A highlighter as plain values: the styles that have a tag, and the spans
/// that lie over the buffer.
pub struct HighlighterView {
    pub cache: Seq<Style>,
    pub applied: Seq<TagSpan>,
}

impl HighlighterView {
    /// The highlighter after a pass over `text`: every style of the runs
    /// has a tag, and the spans are those of the runs and no others.
    pub open spec fn after(self, text: Seq<char>, rows: Seq<Seq<Token>>) -> HighlighterView {
        let runs = text_runs(text, rows);
        let cache = with_styles(self.cache, styles_of(runs));
        HighlighterView { cache: cache, applied: spans_of(cache, runs) }
    }
}

/// Making a tag leaves the tags made before where they are.
pub proof fn lemma_with_style_keeps(cache: Seq<Style>, style: Style, other: Style)
    requires
        cache.no_duplicates(),
        cache.contains(other),
    ensures
        with_style(cache, style).no_duplicates(),
        with_style(cache, style).contains(other),
        with_style(cache, style).contains(style),
        with_style(cache, style).index_of(other) == cache.index_of(other),
{
    let next = with_style(cache, style);
    lemma_with_style(cache, style);
    let i = cache.index_of(other);
    assert(next[i] == other);
}

/// A cache with one more style tagged has no style twice, holds the style,
/// and starts with the cache as it was.
pub proof fn lemma_with_style(cache: Seq<Style>, style: Style)
    requires
        cache.no_duplicates(),
    ensures
        with_style(cache, style).no_duplicates(),
        with_style(cache, style).contains(style),
        cache.is_prefix_of(with_style(cache, style)),
{
    let next = with_style(cache, style);
    if cache.contains(style) {
    } else {
        assert(next[cache.len() as int] == style);
        assert forall|i: int, j: int|
            0 <= i < next.len() && 0 <= j < next.len() && i != j implies next[i] != next[j] by {
            if i < cache.len() {
                assert(cache[i] == next[i]);
                assert(cache.contains(next[i]));
            }
            if j < cache.len() {
                assert(cache[j] == next[j]);
                assert(cache.contains(next[j]));
            }
        }
    }
}

/// The highlighter of one buffer.
pub struct Highlighter {
    cache: TagCache,
    applied: Vec<TagSpan>,
}

impl View for Highlighter {
    type V = HighlighterView;

    closed spec fn view(&self) -> HighlighterView {
        HighlighterView { cache: self.cache@, applied: self.applied@ }
    }
}

impl Highlighter {
    pub closed spec fn wf(&self) -> bool {
        self.cache.wf()
    }

    /// A highlighter that has made no tag and laid no span.
    pub fn new() -> (h: Highlighter)
        ensures
            h.wf(),
            h@.cache == Seq::<Style>::empty(),
            h@.applied == Seq::<TagSpan>::empty(),
    {
        Highlighter { cache: TagCache::new(), applied: Vec::new() }
    }

    /// The tags made so far.
    pub fn tags(&self) -> (cache: &TagCache)
        requires
            self.wf(),
        ensures
            cache.wf(),
            cache@ == self@.cache,
    {
        &self.cache
    }

    /// The spans that lie over the buffer since the last pass.
    pub fn applied(&self) -> (spans: &Vec<TagSpan>)
        ensures
            spans@ == self@.applied,
    {
        &self.applied
    }

    /// Highlights `text` anew from its start. `tokens[i]` holds the tokens
    /// that the tokenizer gave for line `i`. Returns the runs; the spans of
    /// the pass before are dropped and those of the runs take their place.
    pub fn on_text_changed(&mut self, text: &str, tokens: &Vec<Vec<Token>>) -> (runs: Vec<StyleRun>)
        requires
            old(self).wf(),
        ensures
            final(self).wf(),
            runs@ == text_runs(text@, token_rows(tokens@)),
            final(self)@ == old(self)@.after(text@, token_rows(tokens@)),
    {
        let runs = place_runs(text, tokens);
        let ghost styles = styles_of(runs@);
        let mut spans: Vec<TagSpan> = Vec::new();
        let mut k: usize = 0;
        proof {
            self.cache.lemma_distinct();
            assert(styles.take(0) =~= Seq::<Style>::empty());
        }
        while k < runs.len()
            invariant
                k <= runs.len(),
                styles == styles_of(runs@),
                self.cache.wf(),
                self.cache@.no_duplicates(),
                self.cache@ == with_styles(old(self).cache@, styles.take(k as int)),
                spans@.len() == k,
                forall|j: int| 0 <= j < k ==> self.cache@.contains(#[trigger] styles[j]),
                forall|j: int|
                    0 <= j < k ==> (#[trigger] spans@[j]) == span_of(self.cache@, runs@[j]),
            decreases runs.len() - k,
        {
            let run = runs[k];
            let ghost before = self.cache@;
            let handle = self.cache.resolve(run.style());
            proof {
                assert(styles.take(k + 1).drop_last() == styles.take(k as int));
                assert(styles.take(k + 1).last() == run.spec_style());
                lemma_with_style(before, run.spec_style());
                assert forall|j: int| 0 <= j < k implies self.cache@.contains(#[trigger] styles[j])
                    && span_of(self.cache@, runs@[j]) == span_of(before, runs@[j]) by {
                    lemma_with_style_keeps(before, run.spec_style(), styles[j]);
                }
            }
            let ghost laid = spans@;
            spans.push(TagSpan { tag: handle, start: run.start, len: run.len });
            proof {
                assert forall|j: int| 0 <= j <= k implies (#[trigger] spans@[j]) == span_of(
                    self.cache@,
                    runs@[j],
                ) by {
                    if j < k {
                        assert(spans@[j] == laid[j]);
                        assert(self.cache@.contains(styles[j]));
                        assert(span_of(self.cache@, runs@[j]) == span_of(before, runs@[j]));
                    } else {
                        assert(styles[j] == run.spec_style());
                    }
                }
            }
            k = k + 1;
        }
        proof {
            assert(styles.take(k as int) == styles);
            assert(spans@ =~= spans_of(self.cache@, runs@));
        }
        self.applied = spans;
        runs
    }
}

/// The highlighters of the open buffers. A buffer, named by the identity of
/// its session, has at most one highlighter, from the time it is bound to
/// the time it is released.
pub struct Pipelines {
    sessions: Vec<u64>,
    highlighters: Vec<Highlighter>,
}

impl View for Pipelines {
    type V = Map<u64, HighlighterView>;

    closed spec fn view(&self) -> Map<u64, HighlighterView> {
        Map::new(
            |session: u64| self.sessions@.contains(session),
            |session: u64| self.highlighters@[self.sessions@.index_of(session)]@,
        )
    }
}

impl Pipelines {
    pub closed spec fn wf(&self) -> bool {
        &&& self.sessions.len() == self.highlighters.len()
        &&& self.sessions@.no_duplicates()
        &&& forall|i: int|
            0 <= i < self.highlighters.len() ==> (#[trigger] self.highlighters[i]).wf()
    }

    /// No buffer is bound.
    pub fn new() -> (p: Pipelines)
        ensures
            p.wf(),
            p@ == Map::<u64, HighlighterView>::empty(),
    {
        let p = Pipelines { sessions: Vec::new(), highlighters: Vec::new() };
        assert(p@ =~= Map::<u64, HighlighterView>::empty());
        p
    }

    fn find(&self, session: u64) -> (r: Option<usize>)
        requires
            self.wf(),
        ensures
            match r {
                Some(i) => i < self.sessions.len() && self.sessions@[i as int] == session
                    && self.sessions@.index_of(session) == i && self@.contains_key(session),
                None => !self@.contains_key(session),
            },
    {
        let mut i: usize = 0;
        while i < self.sessions.len()
            invariant
                i <= self.sessions.len(),
                self.wf(),
                forall|k: int| 0 <= k < i ==> self.sessions@[k] != session,
            decreases self.sessions.len() - i,
        {
            if self.sessions[i] == session {
                assert(self.sessions@[i as int] == session);
                return Some(i);
            }
            i = i + 1;
        }
        None
    }

    /// Whether the buffer of `session` has a highlighter.
    pub fn is_bound(&self, session: u64) -> (r: bool)
        requires
            self.wf(),
        ensures
            r == self@.contains_key(session),
    {
        self.find(session).is_some()
    }

    /// Binds a fresh highlighter to the buffer of `session`, unless it has
    /// one: then that one stays. Returns whether a highlighter was bound.
    pub fn bind(&mut self, session: u64) -> (r: bool)
        requires
            old(self).wf(),
        ensures
            final(self).wf(),
            r == !old(self)@.contains_key(session),
            r ==> final(self)@ == old(self)@.insert(
                session,
                (HighlighterView { cache: Seq::empty(), applied: Seq::empty() }),
            ),
            !r ==> final(self)@ == old(self)@,
    {
        match self.find(session) {
            Some(_) => false,
            None => {
                let n: usize = self.sessions.len();
                let fresh = Highlighter::new();
                self.sessions.push(session);
                self.highlighters.push(fresh);
                proof {
                    let target = old(self)@.insert(
                        session,
                        HighlighterView { cache: Seq::empty(), applied: Seq::empty() },
                    );
                    assert(self.sessions@[n as int] == session);
                    assert(self.sessions@.no_duplicates()) by {
                        assert forall|i: int, j: int|
                            0 <= i < self.sessions@.len() && 0 <= j < self.sessions@.len() && i
                                != j implies self.sessions@[i] != self.sessions@[j] by {
                            if i < n {
                                assert(old(self).sessions@[i] == self.sessions@[i]);
                                assert(old(self).sessions@.contains(self.sessions@[i]));
                            }
                            if j < n {
                                assert(old(self).sessions@[j] == self.sessions@[j]);
                                assert(old(self).sessions@.contains(self.sessions@[j]));
                            }
                        }
                    }
                    assert forall|s: u64| self@.contains_key(s) == target.contains_key(s) by {
                        if old(self).sessions@.contains(s) {
                            let k = old(self).sessions@.index_of(s);
                            assert(self.sessions@[k] == s);
                        }
                        if self.sessions@.contains(s) && s != session {
                            let k = self.sessions@.index_of(s);
                            assert(old(self).sessions@[k] == s);
                        }
                    }
                    assert forall|s: u64| self@.contains_key(s) implies self@[s] == target[s] by {
                        let k = self.sessions@.index_of(s);
                        if s != session {
                            assert(old(self).sessions@[k] == s);
                            assert(old(self).sessions@.index_of(s) == k);
                        }
                    }
                    assert(self@ =~= target);
                }
                true
            },
        }
    }

    /// Highlights the text of the buffer of `session` anew, with the
    /// highlighter bound to it. `None` where the buffer has none.
    pub fn on_text_changed(&mut self, session: u64, text: &str, tokens: &Vec<Vec<Token>>) -> (r:
        Option<Vec<StyleRun>>)
        requires
            old(self).wf(),
        ensures
            final(self).wf(),
            match r {
                Some(runs) => {
                    &&& old(self)@.contains_key(session)
                    &&& runs@ == text_runs(text@, token_rows(tokens@))
                    &&& final(self)@ == old(self)@.insert(
                        session,
                        old(self)@[session].after(text@, token_rows(tokens@)),
                    )
                },
                None => !old(self)@.contains_key(session) && final(self)@ == old(self)@,
            },
    {
        match self.find(session) {
            Some(i) => {
                let runs = self.highlighters[i].on_text_changed(text, tokens);
                proof {
                    let target = old(self)@.insert(
                        session,
                        old(self)@[session].after(text@, token_rows(tokens@)),
                    );
                    assert forall|s: u64| self@.contains_key(s) implies self@[s] == target[s] by {
                        let k = self.sessions@.index_of(s);
                        if k != i {
                            assert(self.highlighters@[k] == old(self).highlighters@[k]);
                        }
                    }
                    assert(self@ =~= target);
                }
                Some(runs)
            },
            None => None,
        }
    }

    /// The spans that lie over the buffer of `session`.
    pub fn applied(&self, session: u64) -> (r: Option<&Vec<TagSpan>>)
        requires
            self.wf(),
        ensures
            r is Some == self@.contains_key(session),
            r is Some ==> r->0@ == self@[session].applied,
    {
        match self.find(session) {
            Some(i) => Some(self.highlighters[i].applied()),
            None => None,
        }
    }

    /// Releases the highlighter of a buffer whose session was closed.
    /// Returns whether there was one.
    pub fn release(&mut self, session: u64) -> (r: bool)
        requires
            old(self).wf(),
        ensures
            final(self).wf(),
            r == old(self)@.contains_key(session),
            final(self)@ == old(self)@.remove(session),
    {
        match self.find(session) {
            Some(i) => {
                self.sessions.remove(i);
                self.highlighters.remove(i);
                proof {
                    let target = old(self)@.remove(session);
                    let was = old(self).sessions@;
                    let now = self.sessions@;
                    assert forall|a: int, b: int|
                        0 <= a < now.len() && 0 <= b < now.len() && a != b implies now[a]
                        != now[b] by {
                        let sa = if a < i { a } else { a + 1 };
                        let sb = if b < i { b } else { b + 1 };
                        assert(now[a] == was[sa] && now[b] == was[sb]);
                    }
                    assert forall|s: u64| self@.contains_key(s) == target.contains_key(s) by {
                        if now.contains(s) {
                            let k = now.index_of(s);
                            let sk = if k < i { k } else { k + 1 };
                            assert(was[sk] == s);
                        }
                        if was.contains(s) && s != session {
                            let k = was.index_of(s);
                            let nk = if k < i { k } else { k - 1 };
                            assert(now[nk] == s);
                        }
                    }
                    assert forall|s: u64| self@.contains_key(s) implies self@[s] == target[s] by {
                        let k = now.index_of(s);
                        let sk = if k < i { k } else { k + 1 };
                        assert(was[sk] == s);
                        assert(was.index_of(s) == sk);
                        assert(self.highlighters@[k] == old(self).highlighters@[sk]);
                    }
                    assert(self@ =~= target);
                }
                true
            },
            None => {
                assert(self@ =~= old(self)@.remove(session));
                false
            },
        }
    }
}

} // verus!
