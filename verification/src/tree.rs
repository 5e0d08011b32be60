//! The file tree: the order in which the entries of a folder are listed,
//! and what an entry shows and does.
//!
//! Folders come before files. Within each, entries go by name, compared
//! byte by byte in UTF-8.

use vstd::prelude::*;
use vstd::string::*;
use vstd::utf8::encode_utf8;

verus! {

/// One entry of a folder.
pub struct TreeEntry {
    pub name: String,
    pub path: String,
    pub is_dir: bool,
}

/// Whether `a` comes at or before `b` in byte-wise lexicographic order.
pub open spec fn bytes_le(a: Seq<u8>, b: Seq<u8>) -> bool
    decreases a.len(),
{
    if a.len() == 0 {
        true
    } else if b.len() == 0 {
        false
    } else if a[0] != b[0] {
        a[0] < b[0]
    } else {
        bytes_le(a.skip(1), b.skip(1))
    }
}

/// The bytes by which an entry's name is ordered.
pub open spec fn name_key(e: TreeEntry) -> Seq<u8> {
    encode_utf8(e.name@)
}

/// Whether `a` is listed at or before `b`.
pub open spec fn entry_le(a: TreeEntry, b: TreeEntry) -> bool {
    if a.is_dir != b.is_dir {
        a.is_dir
    } else {
        bytes_le(name_key(a), name_key(b))
    }
}

/// Whether the order does not tell `a` and `b` apart.
pub open spec fn same_rank(a: TreeEntry, b: TreeEntry) -> bool {
    a.is_dir == b.is_dir && name_key(a) == name_key(b)
}

/// Whether the entries are in listing order.
pub open spec fn is_listed(s: Seq<TreeEntry>) -> bool {
    forall|i: int, j: int| 0 <= i < j < s.len() ==> entry_le(#[trigger] s[i], #[trigger] s[j])
}

/// The entries of `s` that the order does not tell apart from `x`, in the
/// order in which `s` holds them.
pub open spec fn rank_mates(s: Seq<TreeEntry>, x: TreeEntry) -> Seq<TreeEntry> {
    s.filter(|y: TreeEntry| same_rank(y, x))
}

pub proof fn lemma_bytes_le_total(a: Seq<u8>, b: Seq<u8>)
    ensures
        bytes_le(a, b) || bytes_le(b, a),
    decreases a.len(),
{
    if a.len() > 0 && b.len() > 0 && a[0] == b[0] {
        lemma_bytes_le_total(a.skip(1), b.skip(1));
    }
}

pub proof fn lemma_bytes_le_transitive(a: Seq<u8>, b: Seq<u8>, c: Seq<u8>)
    requires
        bytes_le(a, b),
        bytes_le(b, c),
    ensures
        bytes_le(a, c),
    decreases a.len(),
{
    if a.len() > 0 && a[0] == b[0] && b[0] == c[0] {
        lemma_bytes_le_transitive(a.skip(1), b.skip(1), c.skip(1));
    }
}

pub proof fn lemma_bytes_le_antisymmetric(a: Seq<u8>, b: Seq<u8>)
    requires
        bytes_le(a, b),
        bytes_le(b, a),
    ensures
        a == b,
    decreases a.len(),
{
    if a.len() > 0 {
        lemma_bytes_le_antisymmetric(a.skip(1), b.skip(1));
        assert forall|i: int| 0 <= i < a.len() implies a[i] == b[i] by {
            if i > 0 {
                assert(a.skip(1)[i - 1] == b.skip(1)[i - 1]);
            }
        }
        assert(a.len() == b.len()) by {
            assert(a.skip(1).len() == b.skip(1).len());
        }
    }
    assert(a =~= b);
}

pub proof fn lemma_bytes_le_reflexive(a: Seq<u8>)
    ensures
        bytes_le(a, a),
    decreases a.len(),
{
    if a.len() > 0 {
        lemma_bytes_le_reflexive(a.skip(1));
    }
}

/// The listing order is a total preorder, and it fails to tell two entries
/// apart exactly where they are both folders or both files and have one
/// name.
pub proof fn lemma_entry_order(a: TreeEntry, b: TreeEntry, c: TreeEntry)
    ensures
        entry_le(a, a),
        entry_le(a, b) || entry_le(b, a),
        entry_le(a, b) && entry_le(b, c) ==> entry_le(a, c),
        entry_le(a, b) && entry_le(b, a) <==> same_rank(a, b),
{
    lemma_bytes_le_reflexive(name_key(a));
    lemma_bytes_le_total(name_key(a), name_key(b));
    if entry_le(a, b) && entry_le(b, c) && a.is_dir == b.is_dir && b.is_dir == c.is_dir {
        lemma_bytes_le_transitive(name_key(a), name_key(b), name_key(c));
    }
    if entry_le(a, b) && entry_le(b, a) {
        lemma_bytes_le_antisymmetric(name_key(a), name_key(b));
    }
}

fn bytes_precede(a: &[u8], b: &[u8]) -> (r: bool)
    ensures
        r == bytes_le(a@, b@),
{
    let mut i: usize = 0;
    proof {
        assert(a@.skip(0) =~= a@);
        assert(b@.skip(0) =~= b@);
    }
    while i < a.len() && i < b.len()
        invariant
            i <= a.len(),
            i <= b.len(),
            bytes_le(a@, b@) == bytes_le(a@.skip(i as int), b@.skip(i as int)),
        decreases a.len() - i,
    {
        proof {
            assert(a@.skip(i as int)[0] == a@[i as int]);
            assert(b@.skip(i as int)[0] == b@[i as int]);
            assert(a@.skip(i as int).skip(1) == a@.skip(i + 1));
            assert(b@.skip(i as int).skip(1) == b@.skip(i + 1));
        }
        if a[i] != b[i] {
            return a[i] < b[i];
        }
        i = i + 1;
    }
    i == a.len()
}

/// Whether `a` is listed at or before `b`.
pub fn entry_precedes(a: &TreeEntry, b: &TreeEntry) -> (r: bool)
    ensures
        r == entry_le(*a, *b),
{
    if a.is_dir != b.is_dir {
        a.is_dir
    } else {
        bytes_precede(a.name.as_str().as_bytes(), b.name.as_str().as_bytes())
    }
}

proof fn lemma_no_mates(s: Seq<TreeEntry>, x: TreeEntry)
    requires
        forall|i: int| 0 <= i < s.len() ==> !same_rank(#[trigger] s[i], x),
    ensures
        rank_mates(s, x) == Seq::<TreeEntry>::empty(),
    decreases s.len(),
{
    reveal(Seq::filter);
    if s.len() > 0 {
        let rest = s.drop_last();
        assert forall|i: int| 0 <= i < rest.len() implies !same_rank(#[trigger] rest[i], x) by {
            assert(rest[i] == s[i]);
        }
        lemma_no_mates(rest, x);
        assert(!same_rank(s[s.len() - 1], x));
    }
}

proof fn lemma_mates_insert(s: Seq<TreeEntry>, at: int, e: TreeEntry, x: TreeEntry)
    requires
        0 <= at <= s.len(),
    ensures
        rank_mates(s.insert(at, e), x) == rank_mates(s.take(at), x) + (if same_rank(e, x) {
            seq![e]
        } else {
            Seq::empty()
        }) + rank_mates(s.skip(at), x),
        rank_mates(s, x) == rank_mates(s.take(at), x) + rank_mates(s.skip(at), x),
{
    let mates = |y: TreeEntry| same_rank(y, x);
    let tail = seq![e] + s.skip(at);
    assert(s.insert(at, e) =~= s.take(at) + tail);
    assert(s =~= s.take(at) + s.skip(at));
    Seq::filter_distributes_over_add(s.take(at), tail, mates);
    Seq::filter_distributes_over_add(s.take(at), s.skip(at), mates);
    s.skip(at).lemma_filter_prepend(e, mates);
    assert(rank_mates(s.take(at), x) + ((if same_rank(e, x) {
        seq![e]
    } else {
        Seq::empty()
    }) + rank_mates(s.skip(at), x)) =~= rank_mates(s.take(at), x) + (if same_rank(e, x) {
        seq![e]
    } else {
        Seq::empty()
    }) + rank_mates(s.skip(at), x));
}

/// Puts the entries of a folder in listing order: folders first, then by
/// name. Entries that the order does not tell apart keep the order in which
/// they came.
pub fn sort_entries(entries: Vec<TreeEntry>) -> (listed: Vec<TreeEntry>)
    ensures
        is_listed(listed@),
        listed@.to_multiset() == entries@.to_multiset(),
        forall|x: TreeEntry| #[trigger] rank_mates(listed@, x) == rank_mates(entries@, x),
{
    let ghost all = entries@;
    let mut rest = entries;
    let mut listed: Vec<TreeEntry> = Vec::new();
    proof {
        assert(all.skip(all.len() as int) =~= Seq::<TreeEntry>::empty());
        assert(all.take(all.len() as int) =~= all);
    }
    while rest.len() > 0
        invariant
            rest@ == all.take(rest.len() as int),
            rest.len() <= all.len(),
            is_listed(listed@),
            listed@.to_multiset() == all.skip(rest.len() as int).to_multiset(),
            forall|x: TreeEntry| #[trigger]
                rank_mates(listed@, x) == rank_mates(all.skip(rest.len() as int), x),
        decreases rest.len(),
    {
        let ghost n = rest.len() as int;
        let e = rest.pop().unwrap();
        let mut at: usize = 0;
        while at < listed.len() && !entry_precedes(&e, &listed[at])
            invariant
                at <= listed.len(),
                forall|j: int| 0 <= j < at ==> !entry_le(e, #[trigger] listed@[j]),
            decreases listed.len() - at,
        {
            at = at + 1;
        }
        let ghost before = listed@;
        listed.insert(at, e);
        proof {
            let after = listed@;
            assert(e == all[n - 1]);
            assert(rest@ =~= all.take(n - 1));
            assert(all.skip(n - 1) =~= seq![e] + all.skip(n));
            assert forall|i: int, j: int| 0 <= i < j < after.len() implies entry_le(
                #[trigger] after[i],
                #[trigger] after[j],
            ) by {
                if j < at {
                    assert(after[i] == before[i] && after[j] == before[j]);
                } else if j == at {
                    assert(after[i] == before[i]);
                    lemma_entry_order(e, before[i], e);
                } else if i < at {
                    assert(after[i] == before[i] && after[j] == before[j - 1]);
                } else if i == at {
                    assert(after[j] == before[j - 1]);
                    assert(entry_le(e, before[at as int]));
                    if j - 1 > at {
                        lemma_entry_order(e, before[at as int], before[j - 1]);
                    }
                } else {
                    assert(after[i] == before[i - 1] && after[j] == before[j - 1]);
                }
            }
            vstd::seq_lib::to_multiset_insert(before, at as int, e);
            vstd::seq_lib::to_multiset_insert(all.skip(n), 0, e);
            assert(all.skip(n).insert(0, e) =~= all.skip(n - 1));
            assert forall|x: TreeEntry| #[trigger]
                rank_mates(after, x) == rank_mates(all.skip(n - 1), x) by {
                lemma_mates_insert(before, at as int, e, x);
                all.skip(n).lemma_filter_prepend(e, |y: TreeEntry| same_rank(y, x));
                assert(rank_mates(before, x) == rank_mates(all.skip(n), x));
                if same_rank(e, x) {
                    assert forall|j: int| 0 <= j < before.take(at as int).len() implies !same_rank(
                        #[trigger] before.take(at as int)[j],
                        x,
                    ) by {
                        let y = before.take(at as int)[j];
                        assert(y == before[j]);
                        assert(!entry_le(e, before[j]));
                        lemma_entry_order(e, y, x);
                        lemma_entry_order(x, y, e);
                        lemma_entry_order(y, x, e);
                        lemma_entry_order(e, x, y);
                    }
                    lemma_no_mates(before.take(at as int), x);
                }
            }
        }
    }
    proof {
        assert(all.skip(0) =~= all);
    }
    listed
}

/// The icon of an entry in the tree.
pub fn entry_icon_name(is_dir: bool) -> (name: &'static str)
    ensures
        is_dir ==> name@ == "folder-symbolic"@,
        !is_dir ==> name@ == "text-x-generic-symbolic"@,
{
    if is_dir {
        "folder-symbolic"
    } else {
        "text-x-generic-symbolic"
    }
}

/// The file to open when an entry is activated: the entry's path where it
/// is a file. Activating a folder opens nothing.
pub fn entry_activated(entry: &TreeEntry) -> (path: Option<String>)
    ensures
        path is Some <==> !entry.is_dir,
        path is Some ==> path->0@ == entry.path@,
{
    if entry.is_dir {
        None
    } else {
        Some(entry.path.clone())
    }
}

} // verus!
