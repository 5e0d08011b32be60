//! The tag cache: one reusable tag per style, handed out by number.

use vstd::prelude::*;
use std::collections::HashMap;
use crate::highlight::Style;

verus! {

broadcast use vstd::std_specs::hash::group_hash_axioms;

/// The canonical signature of a style: its colour in the low 32 bits, then
/// one bit each for bold and italic.
pub open spec fn signature_of(style: Style) -> u64 {
    (style.color + (if style.bold {
        0x1_0000_0000int
    } else {
        0
    }) + (if style.italic {
        0x2_0000_0000int
    } else {
        0
    })) as u64
}

/// Styles with one signature are one style.
pub proof fn lemma_signature_injective(a: Style, b: Style)
    requires
        signature_of(a) == signature_of(b),
    ensures
        a == b,
{
}

pub fn signature(style: Style) -> (r: u64)
    ensures
        r == signature_of(style),
{
    let mut r: u64 = style.color as u64;
    if style.bold {
        r = r + 0x1_0000_0000;
    }
    if style.italic {
        r = r + 0x2_0000_0000;
    }
    r
}

/// The tags made so far, in the order in which they were made. A tag's
/// handle is its index.
pub struct TagCache {
    styles: Vec<Style>,
    index: HashMap<u64, usize>,
}

impl View for TagCache {
    type V = Seq<Style>;

    closed spec fn view(&self) -> Seq<Style> {
        self.styles@
    }
}

/// The handle of `style` in a cache, if it has one.
pub open spec fn handle_of(cache: Seq<Style>, style: Style) -> Option<int> {
    if cache.contains(style) {
        Some(cache.index_of(style))
    } else {
        None
    }
}

/// The cache once `style` has a tag: unchanged where it had one, longer by
/// that style where it had none.
pub open spec fn with_style(cache: Seq<Style>, style: Style) -> Seq<Style> {
    if cache.contains(style) {
        cache
    } else {
        cache.push(style)
    }
}

impl TagCache {
    /// The invariant: the index finds every style by its signature, and
    /// holds nothing else.
    pub closed spec fn wf(&self) -> bool {
        &&& forall|h: int|
            0 <= h < self.styles.len() ==> self.index@.contains_key(
                signature_of(#[trigger] self.styles[h]),
            ) && self.index@[signature_of(self.styles[h])] == h
        &&& forall|k: u64| #[trigger]
            self.index@.contains_key(k) ==> self.index@[k] < self.styles.len() && signature_of(
                self.styles[self.index@[k] as int],
            ) == k
    }

    /// No style has two tags.
    pub proof fn lemma_distinct(&self)
        requires
            self.wf(),
        ensures
            self@.no_duplicates(),
    {
        assert forall|i: int, j: int|
            0 <= i < self@.len() && 0 <= j < self@.len() && i != j implies self@[i]
            != self@[j] by {
            if self.styles[i] == self.styles[j] {
                assert(self.index@[signature_of(self.styles[i])] == i);
                assert(self.index@[signature_of(self.styles[j])] == j);
            }
        }
    }

    pub fn new() -> (cache: TagCache)
        ensures
            cache.wf(),
            cache@ == Seq::<Style>::empty(),
    {
        TagCache { styles: Vec::new(), index: HashMap::new() }
    }

    /// The number of tags made so far.
    pub fn len(&self) -> (n: usize)
        ensures
            n == self@.len(),
    {
        self.styles.len()
    }

    /// The style of the tag with this handle.
    pub fn style_of(&self, handle: usize) -> (r: Option<Style>)
        ensures
            handle < self@.len() ==> r == Some(self@[handle as int]),
            handle >= self@.len() ==> r is None,
    {
        if handle < self.styles.len() {
            Some(self.styles[handle])
        } else {
            None
        }
    }

    /// The handle of the tag for `style`, if one was made.
    pub fn lookup(&self, style: Style) -> (r: Option<usize>)
        requires
            self.wf(),
        ensures
            match r {
                Some(h) => handle_of(self@, style) == Some(h as int),
                None => handle_of(self@, style) is None,
            },
    {
        let key: u64 = signature(style);
        match self.index.get(&key) {
            Some(h) => {
                proof {
                    lemma_signature_injective(self.styles[*h as int], style);
                    self.lemma_distinct();
                    assert(self@[*h as int] == style);
                }
                Some(*h)
            },
            None => {
                proof {
                    if self@.contains(style) {
                        let i = choose|i: int| 0 <= i < self@.len() && self@[i] == style;
                        assert(self.index@.contains_key(signature_of(self.styles[i])));
                    }
                }
                None
            },
        }
    }

    /// The handle of the tag for `style`, made now if there was none. Tags
    /// made earlier keep their handles.
    pub fn resolve(&mut self, style: Style) -> (handle: usize)
        requires
            old(self).wf(),
        ensures
            final(self).wf(),
            final(self)@ == with_style(old(self)@, style),
            handle_of(final(self)@, style) == Some(handle as int),
    {
        match self.lookup(style) {
            Some(h) => h,
            None => {
                let h: usize = self.styles.len();
                let key: u64 = signature(style);
                self.styles.push(style);
                self.index.insert(key, h);
                proof {
                    assert(self@[h as int] == style);
                    assert forall|k: u64| #[trigger]
                        self.index@.contains_key(k) implies self.index@[k] < self.styles.len()
                        && signature_of(self.styles[self.index@[k] as int]) == k by {
                        if k != key {
                            assert(old(self).index@.contains_key(k));
                        }
                    }
                    assert forall|g: int|
                        0 <= g < self.styles.len() implies self.index@.contains_key(
                        signature_of(#[trigger] self.styles[g]),
                    ) && self.index@[signature_of(self.styles[g])] == g by {
                        if g < h {
                            assert(self.styles[g] == old(self).styles[g]);
                            if signature_of(self.styles[g]) == key {
                                lemma_signature_injective(self.styles[g], style);
                                assert(old(self)@.contains(style));
                            }
                        }
                    }
                    self.lemma_distinct();
                }
                h
            },
        }
    }
}

} // verus!
