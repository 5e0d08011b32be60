//! The session registry: the open tabs in tab order, each with its text, its
//! file and a stable identity, and the one tab that is active.

use vstd::prelude::*;
use vstd::string::*;
use crate::loader::{display_name, display_name_of, IconRef};

verus! {

/// What a session is, as plain values.
pub struct SessionView {
    /// The identity that the session keeps for its lifetime.
    pub id: nat,
    /// The tab's current ordinal slot.
    pub position: nat,
    pub file_path: Option<Seq<char>>,
    pub buffer: Seq<char>,
    pub title: Seq<char>,
    /// The local path of the session's icon; `None` for the fallback icon.
    pub icon: Option<Seq<char>>,
}

impl SessionView {
    /// The same session, one slot to the left.
    pub open spec fn moved_down(self) -> SessionView {
        SessionView { position: (self.position - 1) as nat, ..self }
    }
}

/// The title of a tab: the file's name, or a placeholder for a tab without
/// a file.
pub open spec fn title_of(file_path: Option<Seq<char>>) -> Seq<char> {
    match file_path {
        Some(path) => display_name_of(path),
        None => "Untitled"@,
    }
}

/// The text of an optional string.
pub open spec fn text_of(s: Option<String>) -> Option<Seq<char>> {
    match s {
        Some(t) => Some(t@),
        None => None,
    }
}

/// One open tab.
pub struct Session {
    id: u64,
    position: usize,
    file_path: Option<String>,
    buffer: String,
    display_title: String,
    icon: IconRef,
}

impl View for Session {
    type V = SessionView;

    closed spec fn view(&self) -> SessionView {
        SessionView {
            id: self.id as nat,
            position: self.position as nat,
            file_path: text_of(self.file_path),
            buffer: self.buffer@,
            title: self.display_title@,
            icon: self.icon.spec_path(),
        }
    }
}

impl Session {
    pub fn id(&self) -> (r: u64)
        ensures
            r == self@.id,
    {
        self.id
    }

    pub fn position(&self) -> (r: usize)
        ensures
            r == self@.position,
    {
        self.position
    }

    pub fn file_path(&self) -> (r: Option<&String>)
        ensures
            r is Some == self@.file_path is Some,
            r is Some ==> r->0@ == self@.file_path->0,
    {
        self.file_path.as_ref()
    }

    pub fn buffer(&self) -> (r: &String)
        ensures
            r@ == self@.buffer,
    {
        &self.buffer
    }

    pub fn display_title(&self) -> (r: &String)
        ensures
            r@ == self@.title,
    {
        &self.display_title
    }

    pub fn icon(&self) -> (r: &IconRef)
        ensures
            r.spec_path() == self@.icon,
    {
        &self.icon
    }
}

/// The registry as plain values: the sessions in tab order, the active slot,
/// and how many identities have been issued so far.
pub struct RegistryView {
    pub sessions: Seq<SessionView>,
    pub active: Option<nat>,
    pub issued: nat,
}

/// The active slot after the session at `closed` has left a registry of
/// `len` sessions. The active session stays active under its new number.
/// Where it is the one that left, the session that takes its slot becomes
/// active, or the one before it where the last slot was closed.
pub open spec fn active_after_close(active: Option<nat>, closed: nat, len: nat) -> Option<nat> {
    match active {
        None => None,
        Some(a) => if len <= 1 {
            None
        } else if a > closed || (a == closed && closed + 1 == len) {
            Some((a - 1) as nat)
        } else {
            Some(a)
        },
    }
}

/// Where the session that sits in slot `i` after a move from `from` to `to`
/// sat before it.
pub open spec fn slot_before(i: int, from: nat, to: nat) -> int {
    if i == to {
        from as int
    } else if from <= i < to {
        i + 1
    } else if to < i <= from {
        i - 1
    } else {
        i
    }
}

/// Where the session that sat in slot `i` sits after a move from `from` to
/// `to`.
pub open spec fn slot_after(i: int, from: nat, to: nat) -> int {
    if i == from {
        to as int
    } else if from < i <= to {
        i - 1
    } else if to <= i < from {
        i + 1
    } else {
        i
    }
}

impl RegistryView {
    pub open spec fn empty() -> RegistryView {
        RegistryView { sessions: Seq::empty(), active: None, issued: 0 }
    }

    /// The invariant of a registry: every session sits in the slot that its
    /// position names, no two sessions share an identity and all identities
    /// are below the count issued, titles follow from file paths, and a
    /// session is active exactly when there is one.
    pub open spec fn wf(self) -> bool {
        &&& forall|i: int|
            0 <= i < self.sessions.len() ==> (#[trigger] self.sessions[i]).position == i
        &&& forall|i: int|
            0 <= i < self.sessions.len() ==> (#[trigger] self.sessions[i]).id < self.issued
        &&& forall|i: int, j: int|
            0 <= i < j < self.sessions.len() ==> (#[trigger] self.sessions[i]).id != (
            #[trigger] self.sessions[j]).id
        &&& forall|i: int|
            0 <= i < self.sessions.len() ==> (#[trigger] self.sessions[i]).title == title_of(
                self.sessions[i].file_path,
            )
        &&& match self.active {
            Some(a) => a < self.sessions.len(),
            None => self.sessions.len() == 0,
        }
    }

    /// The positions that live sessions hold.
    pub open spec fn positions(self) -> Set<nat> {
        Set::new(
            |p: nat|
                exists|i: int|
                    0 <= i < self.sessions.len() && (#[trigger] self.sessions[i]).position == p,
        )
    }

    /// The slot of the session with identity `id`, if it is live.
    pub open spec fn slot_of(self, id: nat) -> Option<int> {
        if exists|i: int| 0 <= i < self.sessions.len() && (#[trigger] self.sessions[i]).id == id {
            Some(
                choose|i: int|
                    0 <= i < self.sessions.len() && (#[trigger] self.sessions[i]).id == id,
            )
        } else {
            None
        }
    }

    /// A new session at the end, active, with a fresh identity and the
    /// fallback icon.
    pub open spec fn create(
        self,
        content: Seq<char>,
        file_path: Option<Seq<char>>,
    ) -> RegistryView {
        RegistryView {
            sessions: self.sessions.push(
                SessionView {
                    id: self.issued,
                    position: self.sessions.len(),
                    file_path: file_path,
                    buffer: content,
                    title: title_of(file_path),
                    icon: None,
                },
            ),
            active: Some(self.sessions.len()),
            issued: self.issued + 1,
        }
    }

    /// The registry without the session at `position`: the sessions before
    /// it stay as they are, those behind it move down by one. A position
    /// out of range changes nothing.
    pub open spec fn close(self, position: nat) -> RegistryView {
        if position < self.sessions.len() {
            RegistryView {
                sessions: Seq::new(
                    (self.sessions.len() - 1) as nat,
                    |i: int|
                        if i < position {
                            self.sessions[i]
                        } else {
                            self.sessions[i + 1].moved_down()
                        },
                ),
                active: active_after_close(self.active, position, self.sessions.len()),
                issued: self.issued,
            }
        } else {
            self
        }
    }

    /// The registry with the session at `from` moved to the slot `to`. The
    /// sessions between the two slots move by one to make room, and every
    /// session is numbered by the slot it comes to sit in. The active
    /// session stays active. A slot out of range changes nothing.
    pub open spec fn reorder(self, from: nat, to: nat) -> RegistryView {
        if from < self.sessions.len() && to < self.sessions.len() {
            RegistryView {
                sessions: Seq::new(
                    self.sessions.len(),
                    |i: int|
                        SessionView {
                            position: i as nat,
                            ..self.sessions[slot_before(i, from, to)]
                        },
                ),
                active: match self.active {
                    Some(a) => Some(slot_after(a as int, from, to) as nat),
                    None => None,
                },
                issued: self.issued,
            }
        } else {
            self
        }
    }

    /// The registry with the session at `position` active. A position out
    /// of range changes nothing.
    pub open spec fn activate(self, position: nat) -> RegistryView {
        if position < self.sessions.len() {
            RegistryView { active: Some(position), ..self }
        } else {
            self
        }
    }

    /// The registry with `text` as the buffer of the session at `position`.
    pub open spec fn with_buffer(self, position: nat, text: Seq<char>) -> RegistryView {
        if position < self.sessions.len() {
            RegistryView {
                sessions: self.sessions.update(
                    position as int,
                    SessionView { buffer: text, ..self.sessions[position as int] },
                ),
                ..self
            }
        } else {
            self
        }
    }

    /// The registry with `icon` as the icon of the session at `position`.
    pub open spec fn with_icon(self, position: nat, icon: Option<Seq<char>>) -> RegistryView {
        if position < self.sessions.len() {
            RegistryView {
                sessions: self.sessions.update(
                    position as int,
                    SessionView { icon: icon, ..self.sessions[position as int] },
                ),
                ..self
            }
        } else {
            self
        }
    }
}

/// Why a registry operation did nothing.
#[derive(Clone, Copy, Debug, PartialEq, Eq, Structural)]
pub enum RegistryError {
    /// A lookup named a position that no session holds.
    NotFound,
    /// A change named a position that no session holds.
    IndexOutOfRange,
}

/// The open sessions, in tab order.
pub struct Registry {
    sessions: Vec<Session>,
    active: Option<usize>,
    issued: u64,
}

impl View for Registry {
    type V = RegistryView;

    closed spec fn view(&self) -> RegistryView {
        RegistryView {
            sessions: self.sessions@.map_values(|s: Session| s@),
            active: match self.active {
                Some(a) => Some(a as nat),
                None => None,
            },
            issued: self.issued as nat,
        }
    }
}

impl Registry {
    /// Whether the registry's invariant holds.
    pub open spec fn wf(&self) -> bool {
        self@.wf()
    }

    /// An empty registry.
    pub fn new() -> (r: Registry)
        ensures
            r.wf(),
            r@ == RegistryView::empty(),
    {
        let r = Registry { sessions: Vec::new(), active: None, issued: 0 };
        assert(r@.sessions =~= Seq::empty());
        r
    }

    /// The number of open sessions.
    pub fn len(&self) -> (n: usize)
        ensures
            n == self@.sessions.len(),
    {
        self.sessions.len()
    }

    /// The identity that the next session will get.
    pub fn issued(&self) -> (n: u64)
        ensures
            n == self@.issued,
    {
        self.issued
    }

    /// Whether an identity is left for one more session.
    pub fn has_room(&self) -> (r: bool)
        ensures
            r == (self@.issued < u64::MAX),
    {
        self.issued < u64::MAX
    }

    /// The active slot, or `None` where no session is open.
    pub fn active_position(&self) -> (r: Option<usize>)
        ensures
            match r {
                Some(a) => self@.active == Some(a as nat),
                None => self@.active is None,
            },
    {
        self.active
    }

    /// Opens a session at the end of the tab order and makes it active.
    /// With a file path the tab is titled by the file's name; without one it
    /// is untitled. Returns the new session's position.
    pub fn create(&mut self, initial_content: String, file_path: Option<String>) -> (position:
        usize)
        requires
            old(self).wf(),
            old(self)@.issued < u64::MAX,
        ensures
            final(self).wf(),
            position == old(self)@.sessions.len(),
            final(self)@ == old(self)@.create(initial_content@, text_of(file_path)),
    {
        let position: usize = self.sessions.len();
        let title = match &file_path {
            Some(path) => display_name(path.as_str()),
            None => String::from_str("Untitled"),
        };
        let session = Session {
            id: self.issued,
            position: position,
            file_path: file_path,
            buffer: initial_content,
            display_title: title,
            icon: IconRef::Fallback,
        };
        self.sessions.push(session);
        self.active = Some(position);
        self.issued = self.issued + 1;
        proof {
            let before = old(self)@;
            let after = before.create(initial_content@, text_of(file_path));
            assert(self@.sessions =~= after.sessions);
            lemma_create_wf(before, initial_content@, text_of(file_path));
        }
        position
    }

    /// Closes the session at `position` and hands it back. The sessions
    /// behind it move down by one; those before it are untouched.
    pub fn close(&mut self, position: usize) -> (r: Result<Session, RegistryError>)
        requires
            old(self).wf(),
        ensures
            final(self).wf(),
            final(self)@ == old(self)@.close(position as nat),
            position < old(self)@.sessions.len() ==> r is Ok && r->Ok_0@ == old(self)@.sessions[
                position as int
            ],
            position >= old(self)@.sessions.len() ==> r is Err && r->Err_0
                == RegistryError::IndexOutOfRange,
    {
        let n: usize = self.sessions.len();
        if position >= n {
            return Err(RegistryError::IndexOutOfRange);
        }
        let removed = self.sessions.remove(position);
        let ghost shifted = self.sessions@;
        let mut i: usize = position;
        while i < n - 1
            invariant
                position <= i <= n - 1,
                n == old(self).sessions.len(),
                self.sessions.len() == n - 1,
                shifted == old(self).sessions@.remove(position as int),
                old(self).wf(),
                self.active == old(self).active,
                self.issued == old(self).issued,
                forall|k: int| 0 <= k < position ==> self.sessions[k] == shifted[k],
                forall|k: int|
                    position <= k < i ==> (#[trigger] self.sessions[k])@
                        == shifted[k]@.moved_down(),
                forall|k: int| i <= k < n - 1 ==> self.sessions[k] == shifted[k],
            decreases n - 1 - i,
        {
            let p: usize = self.sessions[i].position;
            proof {
                assert(shifted[i as int] == old(self).sessions@[i + 1]);
                assert(old(self)@.sessions[i + 1].position == i + 1);
            }
            self.sessions[i].position = p - 1;
            i = i + 1;
        }
        self.active = match self.active {
            None => None,
            Some(a) => if n <= 1 {
                None
            } else if a > position || (a == position && position + 1 == n) {
                Some(a - 1)
            } else {
                Some(a)
            },
        };
        proof {
            let before = old(self)@;
            let after = before.close(position as nat);
            assert forall|k: int| 0 <= k < n - 1 implies self@.sessions[k] == after.sessions[k] by {
                if k < position {
                    assert(self.sessions[k] == shifted[k]);
                    assert(shifted[k] == old(self).sessions@[k]);
                } else {
                    assert(self.sessions[k]@ == shifted[k]@.moved_down());
                    assert(shifted[k] == old(self).sessions@[k + 1]);
                }
            }
            assert(self@.sessions =~= after.sessions);
            lemma_close_wf(before, position as nat);
        }
        Ok(removed)
    }

    /// Moves the session at `from` to the slot `to`, as a tab dragged along
    /// the tab bar. The sessions between the two slots move by one.
    pub fn reorder(&mut self, from: usize, to: usize) -> (r: Result<(), RegistryError>)
        requires
            old(self).wf(),
        ensures
            final(self).wf(),
            final(self)@ == old(self)@.reorder(from as nat, to as nat),
            from < old(self)@.sessions.len() && to < old(self)@.sessions.len() ==> r is Ok,
            from >= old(self)@.sessions.len() || to >= old(self)@.sessions.len() ==> r is Err
                && r->Err_0 == RegistryError::IndexOutOfRange,
    {
        let n: usize = self.sessions.len();
        if from >= n || to >= n {
            return Err(RegistryError::IndexOutOfRange);
        }
        let session = self.sessions.remove(from);
        self.sessions.insert(to, session);
        let ghost moved = self.sessions@;
        let mut i: usize = 0;
        while i < n
            invariant
                i <= n,
                from < n,
                to < n,
                n == old(self).sessions.len(),
                self.sessions.len() == n,
                moved == old(self).sessions@.remove(from as int).insert(
                    to as int,
                    old(self).sessions@[from as int],
                ),
                self.active == old(self).active,
                self.issued == old(self).issued,
                forall|k: int|
                    0 <= k < i ==> (#[trigger] self.sessions[k])@ == (SessionView {
                        position: k as nat,
                        ..moved[k]@
                    }),
                forall|k: int| i <= k < n ==> self.sessions[k] == moved[k],
            decreases n - i,
        {
            self.sessions[i].position = i;
            i = i + 1;
        }
        self.active = match self.active {
            None => None,
            Some(a) => if a == from {
                Some(to)
            } else if from < a && a <= to {
                Some(a - 1)
            } else if to <= a && a < from {
                Some(a + 1)
            } else {
                Some(a)
            },
        };
        proof {
            let before = old(self)@;
            let after = before.reorder(from as nat, to as nat);
            assert forall|k: int| 0 <= k < n implies self@.sessions[k] == after.sessions[k] by {
                assert(moved[k] == old(self).sessions@[slot_before(k, from as nat, to as nat)]);
            }
            assert(self@.sessions =~= after.sessions);
            lemma_reorder_wf(before, from as nat, to as nat);
        }
        Ok(())
    }

    /// Makes the session at `position` the active one.
    pub fn activate(&mut self, position: usize) -> (r: Result<(), RegistryError>)
        requires
            old(self).wf(),
        ensures
            final(self).wf(),
            final(self)@ == old(self)@.activate(position as nat),
            position < old(self)@.sessions.len() ==> r is Ok,
            position >= old(self)@.sessions.len() ==> r is Err && r->Err_0
                == RegistryError::IndexOutOfRange,
    {
        if position >= self.sessions.len() {
            return Err(RegistryError::IndexOutOfRange);
        }
        self.active = Some(position);
        Ok(())
    }

    /// The session at `position`.
    pub fn session_at(&self, position: usize) -> (r: Result<&Session, RegistryError>)
        ensures
            position < self@.sessions.len() ==> r is Ok && r->Ok_0@ == self@.sessions[
                position as int
            ],
            position >= self@.sessions.len() ==> r is Err && r->Err_0 == RegistryError::NotFound,
    {
        if position >= self.sessions.len() {
            return Err(RegistryError::NotFound);
        }
        Ok(&self.sessions[position])
    }

    /// The text of the session at `position`.
    pub fn buffer_at(&self, position: usize) -> (r: Result<&String, RegistryError>)
        ensures
            position < self@.sessions.len() ==> r is Ok && r->Ok_0@ == self@.sessions[
                position as int
            ].buffer,
            position >= self@.sessions.len() ==> r is Err && r->Err_0 == RegistryError::NotFound,
    {
        if position >= self.sessions.len() {
            return Err(RegistryError::NotFound);
        }
        Ok(&self.sessions[position].buffer)
    }

    /// The file of the session at `position`; `Ok(None)` for a session
    /// without a file.
    pub fn file_path_at(&self, position: usize) -> (r: Result<Option<&String>, RegistryError>)
        ensures
            position < self@.sessions.len() ==> r is Ok && (r->Ok_0 is Some
                == self@.sessions[position as int].file_path is Some) && (r->Ok_0 is Some
                ==> r->Ok_0->0@ == self@.sessions[position as int].file_path->0),
            position >= self@.sessions.len() ==> r is Err && r->Err_0 == RegistryError::NotFound,
    {
        if position >= self.sessions.len() {
            return Err(RegistryError::NotFound);
        }
        Ok(self.sessions[position].file_path.as_ref())
    }

    /// Replaces the text of the session at `position`.
    pub fn set_buffer_at(&mut self, position: usize, text: String) -> (r: Result<(), RegistryError>)
        requires
            old(self).wf(),
        ensures
            final(self).wf(),
            final(self)@ == old(self)@.with_buffer(position as nat, text@),
            position < old(self)@.sessions.len() ==> r is Ok,
            position >= old(self)@.sessions.len() ==> r is Err && r->Err_0
                == RegistryError::IndexOutOfRange,
    {
        if position >= self.sessions.len() {
            return Err(RegistryError::IndexOutOfRange);
        }
        self.sessions[position].buffer = text;
        proof {
            let after = old(self)@.with_buffer(position as nat, text@);
            assert(self@.sessions =~= after.sessions);
        }
        Ok(())
    }

    /// Where the session with identity `id` sits now; `None` once it has
    /// been closed.
    pub fn position_of(&self, id: u64) -> (r: Option<usize>)
        requires
            self.wf(),
        ensures
            match r {
                Some(p) => self@.slot_of(id as nat) == Some(p as int),
                None => self@.slot_of(id as nat) is None,
            },
    {
        let n: usize = self.sessions.len();
        let mut i: usize = 0;
        while i < n
            invariant
                i <= n,
                n == self.sessions.len(),
                self.wf(),
                forall|k: int| 0 <= k < i ==> (#[trigger] self@.sessions[k]).id != id,
            decreases n - i,
        {
            if self.sessions[i].id == id {
                proof {
                    assert(self@.sessions[i as int].id == id);
                    lemma_slot_of(self@, id as nat, i as int);
                }
                return Some(i);
            }
            i = i + 1;
        }
        None
    }

    /// Gives the session with identity `id` its icon, if the session is
    /// still open. Returns whether it was.
    pub fn set_icon(&mut self, id: u64, icon: IconRef) -> (r: bool)
        requires
            old(self).wf(),
        ensures
            final(self).wf(),
            match old(self)@.slot_of(id as nat) {
                Some(p) => r && final(self)@ == old(self)@.with_icon(p as nat, icon.spec_path()),
                None => !r && final(self)@ == old(self)@,
            },
    {
        match self.position_of(id) {
            Some(p) => {
                self.sessions[p].icon = icon;
                proof {
                    let after = old(self)@.with_icon(p as nat, icon.spec_path());
                    assert(self@.sessions =~= after.sessions);
                }
                true
            },
            None => false,
        }
    }
}

/// In a registry that keeps its invariant, the slot of an identity is the
/// one slot whose session carries it.
pub proof fn lemma_slot_of(r: RegistryView, id: nat, slot: int)
    requires
        r.wf(),
        0 <= slot < r.sessions.len(),
        r.sessions[slot].id == id,
    ensures
        r.slot_of(id) == Some(slot),
{
    let c = choose|i: int| 0 <= i < r.sessions.len() && (#[trigger] r.sessions[i]).id == id;
    if c < slot {
        assert(r.sessions[c].id != r.sessions[slot].id);
    } else if slot < c {
        assert(r.sessions[slot].id != r.sessions[c].id);
    }
}

/// `create` keeps the invariant.
pub proof fn lemma_create_wf(r: RegistryView, content: Seq<char>, file_path: Option<Seq<char>>)
    requires
        r.wf(),
    ensures
        r.create(content, file_path).wf(),
{
}

/// `reorder` keeps the invariant.
pub proof fn lemma_reorder_wf(r: RegistryView, from: nat, to: nat)
    requires
        r.wf(),
    ensures
        r.reorder(from, to).wf(),
{
    if from < r.sessions.len() && to < r.sessions.len() {
        let after = r.reorder(from, to);
        assert forall|i: int, j: int| 0 <= i < j < after.sessions.len() implies (
        #[trigger] after.sessions[i]).id != (#[trigger] after.sessions[j]).id by {
            let si = slot_before(i, from, to);
            let sj = slot_before(j, from, to);
            if si < sj {
                assert(r.sessions[si].id != r.sessions[sj].id);
            } else {
                assert(r.sessions[sj].id != r.sessions[si].id);
            }
        }
        assert forall|i: int| 0 <= i < after.sessions.len() implies (
        #[trigger] after.sessions[i]).title == title_of(after.sessions[i].file_path) by {
            let si = slot_before(i, from, to);
            assert(r.sessions[si].title == title_of(r.sessions[si].file_path));
        }
        assert forall|i: int| 0 <= i < after.sessions.len() implies (
        #[trigger] after.sessions[i]).id < after.issued by {
            let si = slot_before(i, from, to);
            assert(r.sessions[si].id < r.issued);
        }
    }
}

/// `close` keeps the invariant.
pub proof fn lemma_close_wf(r: RegistryView, position: nat)
    requires
        r.wf(),
    ensures
        r.close(position).wf(),
{
    if position < r.sessions.len() {
        let after = r.close(position);
        assert forall|i: int, j: int| 0 <= i < j < after.sessions.len() implies (
        #[trigger] after.sessions[i]).id != (#[trigger] after.sessions[j]).id by {
            let si = if i < position { i } else { i + 1 };
            let sj = if j < position { j } else { j + 1 };
            assert(r.sessions[si].id != r.sessions[sj].id);
        }
    }
}

} // verus!
