//! The registry of open buffers: identifier assignment, reference
//! resolution, focus tracking, and routing of edits to the focused buffer.

use crate::buffer::{inserted, saved, Buffer, BufferView};
use crate::text::{normalized, wf_content};
use vstd::prelude::*;

verus! {

/// A reference to a buffer: by its numeric identifier or by its file path.
#[derive(Debug)]
pub enum Identifier {
    Id(u16),
    Path(String),
}

/// Why a registry operation could not proceed.
#[derive(Debug, PartialEq, Eq)]
pub enum EditorError {
    /// The file could not be read when opening a buffer.
    ReadFailure,
    /// A save could not write the backing file.
    WriteFailure,
    /// No buffer matches the given reference.
    NotFound,
    /// An operation needed a focused buffer while none is focused.
    NoFocus,
}

/// The mathematical value of a registry.
pub ghost struct ProgramView {
    pub buffers: Seq<BufferView>,
    pub focused: Option<u16>,
}

/// The registry of open buffers and the current focus.
#[derive(Debug)]
pub struct Program {
    buffers: Vec<Buffer>,
    pub current_buffer_id: Option<u16>,
}

impl View for Program {
    type V = ProgramView;

    closed spec fn view(&self) -> ProgramView {
        ProgramView {
            buffers: Seq::new(self.buffers@.len() as nat, |i: int| self.buffers@[i]@),
            focused: self.current_buffer_id,
        }
    }
}

/// Some buffer carries this identifier.
pub open spec fn id_used(bufs: Seq<BufferView>, id: u16) -> bool {
    exists|k: int| 0 <= k < bufs.len() && bufs[k].id == id
}

/// Some buffer was opened from this path.
pub open spec fn path_open(bufs: Seq<BufferView>, path: Seq<char>) -> bool {
    exists|k: int| 0 <= k < bufs.len() && bufs[k].filepath == path
}

/// The index of the first buffer with this identifier, or `-1`.
pub open spec fn find_id(bufs: Seq<BufferView>, id: u16) -> int
    decreases bufs.len(),
{
    if bufs.len() == 0 {
        -1
    } else if bufs[0].id == id {
        0
    } else {
        let r = find_id(bufs.drop_first(), id);
        if r == -1 {
            -1
        } else {
            r + 1
        }
    }
}

/// The index of the first buffer with this path, or `-1`.
pub open spec fn find_path(bufs: Seq<BufferView>, path: Seq<char>) -> int
    decreases bufs.len(),
{
    if bufs.len() == 0 {
        -1
    } else if bufs[0].filepath == path {
        0
    } else {
        let r = find_path(bufs.drop_first(), path);
        if r == -1 {
            -1
        } else {
            r + 1
        }
    }
}

/// The index of the first buffer a reference resolves to, or `-1`.
pub open spec fn find_ident(bufs: Seq<BufferView>, ident: Identifier) -> int {
    match ident {
        Identifier::Id(id) => find_id(bufs, id),
        Identifier::Path(p) => find_path(bufs, p@),
    }
}

/// No two buffers carry the same identifier.
pub open spec fn distinct_ids(bufs: Seq<BufferView>) -> bool {
    forall|j: int, k: int| 0 <= j < k < bufs.len() ==> bufs[j].id != bufs[k].id
}

/// No two buffers were opened from the same path.
pub open spec fn distinct_paths(bufs: Seq<BufferView>) -> bool {
    forall|j: int, k: int| 0 <= j < k < bufs.len() ==> bufs[j].filepath != bufs[k].filepath
}

/// The smallest identifier not in use, scanning upward from `lo`; `0` when
/// every identifier from `lo` up is in use.
pub open spec fn fresh_id_from(bufs: Seq<BufferView>, lo: u16) -> u16
    decreases u16::MAX - lo,
{
    if !id_used(bufs, lo) {
        lo
    } else if lo == u16::MAX {
        0
    } else {
        fresh_id_from(bufs, (lo + 1) as u16)
    }
}

/// The identifier the registry assigns next: the smallest unused one,
/// wrapping to `0` only when every identifier is in use.
pub open spec fn fresh_id(bufs: Seq<BufferView>) -> u16 {
    fresh_id_from(bufs, 0)
}

/// The buffer that opening `path` over file data `data` adds.
pub open spec fn opened_buffer(id: u16, path: Seq<char>, data: Seq<char>) -> BufferView {
    BufferView { id, filepath: path, content: normalized(data), modified: false }
}

/// The registry after opening `path`, and whether the open succeeds: an
/// already-open path is only focused; otherwise read file data makes a new
/// focused buffer with a fresh identifier, and unreadable data (`None`)
/// changes nothing.
pub open spec fn opened(p: ProgramView, path: Seq<char>, data: Option<Seq<char>>) -> (
    ProgramView,
    bool,
) {
    if path_open(p.buffers, path) {
        (
            ProgramView {
                buffers: p.buffers,
                focused: Some(p.buffers[find_path(p.buffers, path)].id),
            },
            true,
        )
    } else if data is Some {
        (
            ProgramView {
                buffers: p.buffers.push(
                    opened_buffer(fresh_id(p.buffers), path, data.unwrap()),
                ),
                focused: Some(fresh_id(p.buffers)),
            },
            true,
        )
    } else {
        (p, false)
    }
}

/// The view of an optional piece of file data.
pub open spec fn data_view(d: Option<String>) -> Option<Seq<char>> {
    match d {
        Some(s) => Some(s@),
        None => None,
    }
}

/// `find_id` finds the first buffer with the identifier: it returns `-1`
/// exactly when none carries it, and otherwise a valid index before which
/// none carries it.
pub proof fn lemma_find_id(bufs: Seq<BufferView>, id: u16)
    ensures
        find_id(bufs, id) == -1 <==> !id_used(bufs, id),
        find_id(bufs, id) != -1 ==> 0 <= find_id(bufs, id) < bufs.len() && bufs[find_id(
            bufs,
            id,
        )].id == id && (forall|k: int| 0 <= k < find_id(bufs, id) ==> bufs[k].id != id),
    decreases bufs.len(),
{
    if bufs.len() == 0 {
    } else if bufs[0].id == id {
    } else {
        let rest = bufs.drop_first();
        lemma_find_id(rest, id);
        if id_used(bufs, id) {
            let k = choose|k: int| 0 <= k < bufs.len() && bufs[k].id == id;
            assert(rest[k - 1].id == id);
            assert(id_used(rest, id));
        }
        if id_used(rest, id) {
            let k = choose|k: int| 0 <= k < rest.len() && rest[k].id == id;
            assert(bufs[k + 1].id == id);
        }
        let f = find_id(bufs, id);
        if f != -1 {
            let fr = find_id(rest, id);
            assert(rest[fr] == bufs[fr + 1]);
            assert forall|k: int| 0 <= k < f implies bufs[k].id != id by {
                if k > 0 {
                    assert(rest[k - 1] == bufs[k]);
                    assert(rest[k - 1].id != id);
                }
            }
        }
    }
}

/// `find_path` finds the first buffer with the path, as `lemma_find_id` does
/// for identifiers.
pub proof fn lemma_find_path(bufs: Seq<BufferView>, path: Seq<char>)
    ensures
        find_path(bufs, path) == -1 <==> !path_open(bufs, path),
        find_path(bufs, path) != -1 ==> 0 <= find_path(bufs, path) < bufs.len() && bufs[find_path(
            bufs,
            path,
        )].filepath == path && (forall|k: int|
            0 <= k < find_path(bufs, path) ==> bufs[k].filepath != path),
    decreases bufs.len(),
{
    if bufs.len() == 0 {
    } else if bufs[0].filepath == path {
    } else {
        let rest = bufs.drop_first();
        lemma_find_path(rest, path);
        if path_open(bufs, path) {
            let k = choose|k: int| 0 <= k < bufs.len() && bufs[k].filepath == path;
            assert(rest[k - 1].filepath == path);
            assert(path_open(rest, path));
        }
        if path_open(rest, path) {
            let k = choose|k: int| 0 <= k < rest.len() && rest[k].filepath == path;
            assert(bufs[k + 1].filepath == path);
        }
        let f = find_path(bufs, path);
        if f != -1 {
            let fr = find_path(rest, path);
            assert(rest[fr] == bufs[fr + 1]);
            assert forall|k: int| 0 <= k < f implies bufs[k].filepath != path by {
                if k > 0 {
                    assert(rest[k - 1] == bufs[k]);
                    assert(rest[k - 1].filepath != path);
                }
            }
        }
    }
}

/// While some identifier from `lo` up is unused, scanning from `lo` returns
/// an unused identifier, and everything from `lo` up to the result is in use.
proof fn lemma_fresh_id_from(bufs: Seq<BufferView>, lo: u16)
    ensures
        !id_used(bufs, fresh_id_from(bufs, lo)) || (forall|j: u16|
            lo <= j ==> #[trigger] id_used(bufs, j)),
        forall|j: u16| lo <= j < fresh_id_from(bufs, lo) ==> #[trigger] id_used(bufs, j),
    decreases u16::MAX - lo,
{
    if !id_used(bufs, lo) {
    } else if lo == u16::MAX {
    } else {
        lemma_fresh_id_from(bufs, (lo + 1) as u16);
    }
}

/// With fewer buffers than the identifier space holds, some identifier is
/// unused.
proof fn lemma_exists_unused_id(bufs: Seq<BufferView>)
    requires
        distinct_ids(bufs),
        bufs.len() < 65536,
    ensures
        exists|j: u16| !id_used(bufs, j),
{
    broadcast use vstd::seq_lib::seq_to_set_is_finite;

    if forall|j: u16| #[trigger] id_used(bufs, j) {
        let ids = Seq::new(bufs.len(), |i: int| bufs[i].id as int);
        assert(ids.no_duplicates());
        ids.unique_seq_to_set();
        let range = vstd::set_lib::set_int_range(0, 65536);
        vstd::set_lib::lemma_int_range(0, 65536);
        assert forall|x: int| range.contains(x) implies ids.to_set().contains(x) by {
            assert(id_used(bufs, x as u16));
            let k = choose|k: int| 0 <= k < bufs.len() && bufs[k].id == x as u16;
            assert(ids[k] == x);
        }
        vstd::set_lib::lemma_len_subset(range, ids.to_set());
        assert(false);
    }
}

/// Identifier-assignment law: while the identifier space is not exhausted,
/// the fresh identifier of a registry with distinct identifiers is unused,
/// and every smaller identifier is in use. Only a registry holding one buffer
/// for every identifier is left out: its fresh identifier wraps to `0`, a
/// silent collision the design accepts at true exhaustion.
pub proof fn lemma_fresh_id(bufs: Seq<BufferView>)
    requires
        distinct_ids(bufs),
        bufs.len() < 65536,
    ensures
        !id_used(bufs, fresh_id(bufs)),
        forall|j: u16| j < fresh_id(bufs) ==> #[trigger] id_used(bufs, j),
{
    lemma_exists_unused_id(bufs);
    lemma_fresh_id_from(bufs, 0);
}

/// Dedup law: a successful open leaves a buffer with the opened path present
/// and focused, so a second open of the same path focuses the same
/// identifier and adds nothing, whatever its file data.
pub proof fn lemma_open_dedup(
    p: ProgramView,
    path: Seq<char>,
    d1: Option<Seq<char>>,
    d2: Option<Seq<char>>,
)
    requires
        distinct_paths(p.buffers),
        opened(p, path, d1).1,
    ensures
        ({
            let q = opened(p, path, d1).0;
            let again = opened(q, path, d2);
            &&& again.1
            &&& again.0.buffers == q.buffers
            &&& again.0.focused == q.focused
        }),
{
    let q = opened(p, path, d1).0;
    lemma_find_path(p.buffers, path);
    if path_open(p.buffers, path) {
        assert(path_open(q.buffers, path));
        lemma_find_path(q.buffers, path);
    } else {
        let n = p.buffers.len() as int;
        assert(q.buffers[n].filepath == path);
        assert(path_open(q.buffers, path));
        lemma_find_path(q.buffers, path);
        let f = find_path(q.buffers, path);
        assert(forall|k: int| 0 <= k < n ==> q.buffers[k] == p.buffers[k]);
        if f < n {
            assert(p.buffers[f].filepath == path);
            assert(path_open(p.buffers, path));
        }
        assert(f == n);
    }
}

impl Program {
    /// Well-formed: identifiers and paths are distinct, every buffer's
    /// content keeps the trailing-newline invariant, and the focus, when
    /// set, names an existing buffer.
    pub open spec fn wf(self) -> bool {
        &&& distinct_ids(self@.buffers)
        &&& distinct_paths(self@.buffers)
        &&& (forall|k: int|
            0 <= k < self@.buffers.len() ==> wf_content(#[trigger] self@.buffers[k].content))
        &&& (self@.focused is Some ==> id_used(self@.buffers, self@.focused.unwrap()))
    }

    /// An empty registry with nothing focused.
    pub fn new() -> (r: Program)
        ensures
            r@.buffers.len() == 0,
            r@.focused is None,
            r.wf(),
    {
        let r = Program { buffers: Vec::new(), current_buffer_id: None };
        proof {
            assert(r@.buffers =~= Seq::<BufferView>::empty());
        }
        r
    }

    /// The index of the buffer with this identifier, if any.
    fn find_index_by_id(&self, id: u16) -> (r: Option<usize>)
        ensures
            r is None ==> find_id(self@.buffers, id) == -1,
            r is Some ==> find_id(self@.buffers, id) == r.unwrap() && r.unwrap()
                < self@.buffers.len(),
    {
        let n = self.buffers.len();
        let mut j: usize = 0;
        while j < n
            invariant
                j <= n,
                n == self.buffers@.len(),
                forall|k: int| 0 <= k < j ==> self@.buffers[k].id != id,
            decreases n - j,
        {
            if self.buffers[j].id == id {
                proof {
                    assert(self@.buffers[j as int].id == id);
                    lemma_find_id(self@.buffers, id);
                }
                return Some(j);
            }
            j += 1;
        }
        proof {
            lemma_find_id(self@.buffers, id);
        }
        None
    }

    /// The index of the buffer opened from this path, if any.
    fn find_index_by_path(&self, path: &String) -> (r: Option<usize>)
        ensures
            r is None ==> find_path(self@.buffers, path@) == -1,
            r is Some ==> find_path(self@.buffers, path@) == r.unwrap() && r.unwrap()
                < self@.buffers.len(),
    {
        let n = self.buffers.len();
        let mut j: usize = 0;
        while j < n
            invariant
                j <= n,
                n == self.buffers@.len(),
                forall|k: int| 0 <= k < j ==> self@.buffers[k].filepath != path@,
            decreases n - j,
        {
            if self.buffers[j].filepath.eq(path) {
                proof {
                    assert(self@.buffers[j as int].filepath == path@);
                    lemma_find_path(self@.buffers, path@);
                }
                return Some(j);
            }
            j += 1;
        }
        proof {
            lemma_find_path(self@.buffers, path@);
        }
        None
    }

    /// The identifier the registry will assign next: the smallest one not in
    /// use, wrapping to `0` only if every identifier is in use.
    fn create_id(&self) -> (r: u16)
        ensures
            r == fresh_id(self@.buffers),
    {
        let mut id: u16 = 0;
        while id < u16::MAX
            invariant
                fresh_id(self@.buffers) == fresh_id_from(self@.buffers, id),
            decreases u16::MAX - id,
        {
            if !self.id_in_use(id) {
                return id;
            }
            id = id + 1;
        }
        if !self.id_in_use(u16::MAX) {
            return u16::MAX;
        }
        0
    }

    /// Whether some buffer carries this identifier.
    fn id_in_use(&self, id: u16) -> (r: bool)
        ensures
            r == id_used(self@.buffers, id),
    {
        let n = self.buffers.len();
        let mut j: usize = 0;
        while j < n
            invariant
                j <= n,
                n == self.buffers@.len(),
                forall|k: int| 0 <= k < j ==> self@.buffers[k].id != id,
            decreases n - j,
        {
            if self.buffers[j].id == id {
                proof {
                    assert(self@.buffers[j as int].id == id);
                }
                return true;
            }
            j += 1;
        }
        false
    }

    /// Opens `filepath` over the file data the caller read: an already-open
    /// path is focused as it is; otherwise `Some` data becomes a new focused
    /// buffer under a fresh identifier, and `None` (an unreadable file)
    /// leaves the registry unchanged and fails.
    pub fn open(&mut self, filepath: String, data: Option<String>) -> (r: Result<
        (),
        EditorError,
    >)
        requires
            old(self).wf(),
        ensures
            ({
                let (q, ok) = opened(old(self)@, filepath@, data_view(data));
                final(self)@ == q && (r is Ok) == ok
            }),
            r is Err ==> r == Err::<(), EditorError>(EditorError::ReadFailure),
            old(self)@.buffers.len() < 65536 ==> final(self).wf(),
            (path_open(old(self)@.buffers, filepath@) || data is None) ==> final(self).wf(),
    {
        let found = self.find_index_by_path(&filepath);
        match found {
            Some(j) => {
                self.current_buffer_id = Some(self.buffers[j].id);
                proof {
                    lemma_find_path(old(self)@.buffers, filepath@);
                    assert(self@.buffers =~= old(self)@.buffers);
                }
                Ok(())
            },
            None => {
                proof {
                    lemma_find_path(old(self)@.buffers, filepath@);
                }
                match data {
                    None => Err(EditorError::ReadFailure),
                    Some(d) => {
                        let id = self.create_id();
                        let buffer = Buffer::new(id, filepath, d);
                        self.buffers.push(buffer);
                        self.current_buffer_id = Some(id);
                        proof {
                            let ob = old(self)@.buffers;
                            let f = fresh_id(ob);
                            let nb = self@.buffers;
                            assert(nb =~= ob.push(opened_buffer(f, filepath@, d@)));
                            assert(forall|k: int| 0 <= k < ob.len() ==> nb[k] == ob[k]);
                            if ob.len() < 65536 {
                                lemma_fresh_id(ob);
                                assert forall|a: int, b: int|
                                    0 <= a < b < nb.len() implies nb[a].id != nb[b].id by {
                                    if b == ob.len() && nb[a].id == f {
                                        assert(id_used(ob, f));
                                    }
                                }
                                assert forall|a: int, b: int|
                                    0 <= a < b < nb.len() implies nb[a].filepath
                                    != nb[b].filepath by {
                                    if b == ob.len() && nb[a].filepath == filepath@ {
                                        assert(path_open(ob, filepath@));
                                    }
                                }
                                assert forall|k: int|
                                    0 <= k < nb.len() implies wf_content(
                                    #[trigger] nb[k].content,
                                ) by {
                                    if k < ob.len() {
                                        assert(wf_content(ob[k].content));
                                    } else {
                                        assert(nb[k].content == normalized(d@));
                                    }
                                }
                                assert(nb[ob.len() as int].id == f);
                                assert(id_used(nb, f));
                                assert(self.wf());
                            }
                        }
                        Ok(())
                    },
                }
            },
        }
    }

    /// Removes the buffer the reference resolves to, if any, and always
    /// clears the focus: closing any buffer leaves the registry unfocused.
    pub fn close(&mut self, identifier: &Identifier)
        requires
            old(self).wf(),
        ensures
            final(self)@.focused is None,
            find_ident(old(self)@.buffers, *identifier) == -1 ==> final(self)@.buffers == old(
                self,
            )@.buffers,
            find_ident(old(self)@.buffers, *identifier) >= 0 ==> final(self)@.buffers == old(
                self,
            )@.buffers.remove(find_ident(old(self)@.buffers, *identifier)),
            final(self).wf(),
    {
        let found = match identifier {
            Identifier::Id(id) => self.find_index_by_id(*id),
            Identifier::Path(p) => self.find_index_by_path(p),
        };
        match found {
            Some(j) => {
                let _ = self.buffers.remove(j);
                proof {
                    let jj = j as int;
                    let ob = old(self)@.buffers;
                    let nb = self@.buffers;
                    assert(nb =~= ob.remove(jj));
                    assert forall|k: int| 0 <= k < nb.len() implies nb[k] == ob[if k < jj {
                        k
                    } else {
                        k + 1
                    }] by {}
                    assert(distinct_ids(nb));
                    assert(distinct_paths(nb));
                    assert forall|k: int|
                        0 <= k < nb.len() implies wf_content(#[trigger] nb[k].content) by {
                        assert(wf_content(ob[if k < jj {
                            k
                        } else {
                            k + 1
                        }].content));
                    }
                }
            },
            None => {
                proof {
                    assert(self@.buffers =~= old(self)@.buffers);
                }
            },
        }
        self.current_buffer_id = None;
    }

    /// The buffer the reference resolves to, if any.
    pub fn get_buffer(&self, identifier: &Identifier) -> (r: Option<&Buffer>)
        ensures
            find_ident(self@.buffers, *identifier) == -1 ==> r is None,
            find_ident(self@.buffers, *identifier) >= 0 ==> r is Some && r.unwrap()@
                == self@.buffers[find_ident(self@.buffers, *identifier)],
    {
        let found = match identifier {
            Identifier::Id(id) => self.find_index_by_id(*id),
            Identifier::Path(p) => self.find_index_by_path(p),
        };
        match found {
            Some(j) => Some(&self.buffers[j]),
            None => None,
        }
    }

    /// Focuses the buffer the reference resolves to; an unresolved reference
    /// leaves the focus as it was and reports the failure.
    pub fn focus(&mut self, identifier: &Identifier) -> (r: Result<(), EditorError>)
        requires
            old(self).wf(),
        ensures
            final(self)@.buffers == old(self)@.buffers,
            find_ident(old(self)@.buffers, *identifier) == -1 ==> r == Err::<(), EditorError>(
                EditorError::NotFound,
            ) && final(self)@.focused == old(self)@.focused,
            find_ident(old(self)@.buffers, *identifier) >= 0 ==> r is Ok && final(self)@.focused
                == Some(old(self)@.buffers[find_ident(old(self)@.buffers, *identifier)].id),
            final(self).wf(),
    {
        let found = match identifier {
            Identifier::Id(id) => self.find_index_by_id(*id),
            Identifier::Path(p) => self.find_index_by_path(p),
        };
        match found {
            Some(j) => {
                self.current_buffer_id = Some(self.buffers[j].id);
                proof {
                    assert(self@.buffers =~= old(self)@.buffers);
                    assert(id_used(self@.buffers, self@.buffers[j as int].id));
                }
                Ok(())
            },
            None => Err(EditorError::NotFound),
        }
    }

    /// Inserts `text` at `line_idx` into the focused buffer, with the line
    /// semantics of `Buffer::insert`; reports when nothing is focused.
    pub fn insert(&mut self, text: &str, line_idx: isize) -> (r: Result<(), EditorError>)
        requires
            old(self).wf(),
            line_idx >= -1,
        ensures
            old(self)@.focused is None ==> final(self)@ == old(self)@ && r == Err::<(
            ), EditorError>(EditorError::NoFocus),
            old(self)@.focused is Some ==> ({
                let j = find_id(old(self)@.buffers, old(self)@.focused.unwrap());
                &&& r is Ok
                &&& final(self)@.focused == old(self)@.focused
                &&& final(self)@.buffers == old(self)@.buffers.update(
                    j,
                    inserted(old(self)@.buffers[j], text@, line_idx as int),
                )
            }),
            final(self).wf(),
    {
        let id = match self.current_buffer_id {
            None => {
                return Err(EditorError::NoFocus);
            },
            Some(id) => id,
        };
        let found = self.find_index_by_id(id);
        match found {
            Some(j) => {
                proof {
                    assert(wf_content(self@.buffers[j as int].content));
                    assert(self.buffers@[j as int]@ == self@.buffers[j as int]);
                }
                self.buffers[j].insert(text, line_idx);
                proof {
                    let jj = j as int;
                    let ob = old(self)@.buffers;
                    let nb = self@.buffers;
                    assert(nb =~= ob.update(jj, inserted(ob[jj], text@, line_idx as int)));
                    assert forall|k: int|
                        0 <= k < nb.len() implies nb[k].id == ob[k].id && nb[k].filepath
                        == ob[k].filepath by {
                        if k != jj {
                            assert(nb[k] == ob[k]);
                        }
                    }
                    assert forall|k: int|
                        0 <= k < nb.len() implies wf_content(#[trigger] nb[k].content) by {
                        if k != jj {
                            assert(nb[k] == ob[k]);
                            assert(wf_content(ob[k].content));
                        }
                    }
                    let k0 = choose|k: int| 0 <= k < ob.len() && ob[k].id == id;
                    assert(nb[k0].id == id);
                    assert(self.wf());
                }
                Ok(())
            },
            None => {
                proof {
                    lemma_find_id(old(self)@.buffers, id);
                    assert(false);
                }
                Err(EditorError::NotFound)
            },
        }
    }

    /// Marks the buffer with this identifier as saved, after its content was
    /// successfully written to its backing file; anything else is unchanged.
    pub fn mark_saved(&mut self, id: u16)
        requires
            old(self).wf(),
        ensures
            find_id(old(self)@.buffers, id) == -1 ==> final(self)@ == old(self)@,
            find_id(old(self)@.buffers, id) >= 0 ==> final(self)@.buffers == old(
                self,
            )@.buffers.update(
                find_id(old(self)@.buffers, id),
                saved(old(self)@.buffers[find_id(old(self)@.buffers, id)]),
            ) && final(self)@.focused == old(self)@.focused,
            final(self).wf(),
    {
        let found = self.find_index_by_id(id);
        match found {
            Some(j) => {
                self.buffers[j].mark_saved();
                proof {
                    let jj = j as int;
                    let ob = old(self)@.buffers;
                    let nb = self@.buffers;
                    assert(nb =~= ob.update(jj, saved(ob[jj])));
                    assert forall|k: int|
                        0 <= k < nb.len() implies nb[k].id == ob[k].id && nb[k].filepath
                        == ob[k].filepath && wf_content(nb[k].content) by {
                        if k != jj {
                            assert(nb[k] == ob[k]);
                        }
                        assert(wf_content(ob[k].content));
                    }
                    if old(self)@.focused is Some {
                        let fid = old(self)@.focused.unwrap();
                        let k0 = choose|k: int| 0 <= k < ob.len() && ob[k].id == fid;
                        assert(nb[k0].id == fid);
                    }
                    assert(self.wf());
                }
            },
            None => {
                proof {
                    assert(self@.buffers =~= old(self)@.buffers);
                }
            },
        }
    }

    /// The buffer currently focused; reports when nothing is focused.
    pub fn focused_buffer(&self) -> (r: Result<&Buffer, EditorError>)
        requires
            self.wf(),
        ensures
            self@.focused is None ==> r == Err::<&Buffer, EditorError>(EditorError::NoFocus),
            self@.focused is Some ==> r is Ok && r.unwrap()@ == self@.buffers[find_id(
                self@.buffers,
                self@.focused.unwrap(),
            )],
    {
        let id = match self.current_buffer_id {
            None => {
                return Err(EditorError::NoFocus);
            },
            Some(id) => id,
        };
        let found = self.find_index_by_id(id);
        match found {
            Some(j) => Ok(&self.buffers[j]),
            None => {
                proof {
                    lemma_find_id(self@.buffers, id);
                    assert(false);
                }
                Err(EditorError::NotFound)
            },
        }
    }

    /// All open buffers, in registry order, for display.
    pub fn list_buffers(&self) -> (r: &Vec<Buffer>)
        ensures
            r@.len() == self@.buffers.len(),
            forall|k: int| 0 <= k < r@.len() ==> #[trigger] r@[k]@ == self@.buffers[k],
    {
        &self.buffers
    }
}

} // verus!
