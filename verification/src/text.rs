//! Path and file-name text: the part of a name that follows its last
//! separator.

use vstd::prelude::*;
use vstd::string::*;

verus! {

/// The index just past the last occurrence of `sep` in `s`, or 0 where `s`
/// holds no `sep`.
pub open spec fn suffix_start(s: Seq<char>, sep: char) -> int
    decreases s.len(),
{
    if s.len() == 0 {
        0
    } else if s.last() == sep {
        s.len() as int
    } else {
        suffix_start(s.drop_last(), sep)
    }
}

/// What follows the last `sep` in `s`; all of `s` where it holds no `sep`.
pub open spec fn after_last(s: Seq<char>, sep: char) -> Seq<char> {
    s.subrange(suffix_start(s, sep), s.len() as int)
}

/// `suffix_start` lies within `s`, sits right behind a separator unless it
/// is 0, and no separator follows it.
pub proof fn lemma_suffix_start(s: Seq<char>, sep: char)
    ensures
        0 <= suffix_start(s, sep) <= s.len(),
        suffix_start(s, sep) > 0 ==> s[suffix_start(s, sep) - 1] == sep,
        forall|i: int| suffix_start(s, sep) <= i < s.len() ==> s[i] != sep,
        suffix_start(s, sep) == 0 <==> !s.contains(sep),
    decreases s.len(),
{
    if s.len() == 0 {
    } else if s.last() == sep {
        assert(s[s.len() - 1] == sep);
    } else {
        let t = s.drop_last();
        lemma_suffix_start(t, sep);
        assert forall|i: int| suffix_start(s, sep) <= i < s.len() implies s[i] != sep by {
            if i < t.len() {
                assert(t[i] == s[i]);
            }
        }
        if suffix_start(t, sep) > 0 {
            assert(t[suffix_start(t, sep) - 1] == s[suffix_start(t, sep) - 1]);
        }
        if s.contains(sep) {
            let k = choose|k: int| 0 <= k < s.len() && s[k] == sep;
            assert(t[k] == sep);
        }
    }
}

/// A position that sits right behind a separator (or is 0) and that no
/// separator follows is the `suffix_start`.
pub proof fn lemma_suffix_start_unique(s: Seq<char>, sep: char, k: int)
    requires
        0 <= k <= s.len(),
        k > 0 ==> s[k - 1] == sep,
        forall|i: int| k <= i < s.len() ==> s[i] != sep,
    ensures
        suffix_start(s, sep) == k,
{
    lemma_suffix_start(s, sep);
    let m = suffix_start(s, sep);
    if m < k {
        assert(s[k - 1] == sep);
    } else if m > k {
        assert(s[m - 1] == sep);
    }
}

/// The characters of `s`, in order.
pub fn chars_of(s: &str) -> (v: Vec<char>)
    ensures
        v@ == s@,
{
    let mut v: Vec<char> = Vec::new();
    for c in it: s.chars()
        invariant
            v@ == it.seq().take(it.index() as int),
            it.seq() == s@,
    {
        v.push(c);
    }
    v
}

/// What follows the last `sep` in `s`, as an owned string.
pub fn text_after_last(s: &str, sep: char) -> (r: String)
    ensures
        r@ == after_last(s@, sep),
{
    let n: usize = s.unicode_len();
    let mut start: usize = 0;
    let mut i: usize = 0;
    for c in it: s.chars()
        invariant
            it.seq() == s@,
            n == s@.len(),
            i == it.index(),
            start <= i <= n,
            start == suffix_start(s@.take(i as int), sep),
    {
        proof {
            let next = s@.take(i + 1);
            assert(next.drop_last() == s@.take(i as int));
            assert(next.last() == c);
        }
        i = i + 1;
        if c == sep {
            start = i;
        }
    }
    assert(s@.take(n as int) == s@);
    String::from_str(s.substring_char(start, n))
}

/// Whether `s` holds `c`.
pub fn has_char(s: &str, c: char) -> (r: bool)
    ensures
        r == s@.contains(c),
{
    let mut found: bool = false;
    for d in it: s.chars()
        invariant
            it.seq() == s@,
            found == s@.take(it.index() as int).contains(c),
    {
        proof {
            let i = it.index() as int;
            let prev = s@.take(i);
            let next = s@.take(i + 1);
            assert(next == prev.push(d));
            if prev.contains(c) {
                let k = choose|k: int| 0 <= k < prev.len() && prev[k] == c;
                assert(next[k] == c);
            }
            if d == c {
                assert(next[i] == c);
            }
        }
        if d == c {
            found = true;
        }
    }
    assert(s@.take(s@.len() as int) == s@);
    found
}

} // verus!
