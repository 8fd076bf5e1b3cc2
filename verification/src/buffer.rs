//! One file's text held in memory, with line-addressed insertion and the
//! dirty flag that drives saving.

use crate::text::{
    inserted_lines, join_lines, join_lines_exec, lines_of, normalized, split_lines, wf_content,
};
use vstd::prelude::*;

verus! {

/// The mathematical value of a buffer.
pub ghost struct BufferView {
    pub id: u16,
    pub filepath: Seq<char>,
    pub content: Seq<char>,
    pub modified: bool,
}

/// A buffer after a successful save: the same buffer, no longer dirty.
pub open spec fn saved(b: BufferView) -> BufferView {
    BufferView { modified: false, ..b }
}

/// A buffer after inserting `text` at `line_idx`: the content joined back
/// from the new lines, and the buffer marked dirty.
pub open spec fn inserted(b: BufferView, text: Seq<char>, line_idx: int) -> BufferView {
    BufferView {
        content: join_lines(inserted_lines(lines_of(b.content), text, line_idx)),
        modified: true,
        ..b
    }
}

/// One in-memory text buffer, backed by the file at `filepath`.
#[derive(Debug)]
pub struct Buffer {
    /// Identifier assigned by the registry, stable for the buffer's lifetime.
    pub id: u16,
    /// The path the buffer was opened from; immutable after creation.
    pub filepath: String,
    /// The full text; empty or terminated by a single newline.
    pub data: String,
    /// True iff `data` changed since creation or the last successful save.
    pub modified: bool,
}

impl View for Buffer {
    type V = BufferView;

    open spec fn view(&self) -> BufferView {
        BufferView {
            id: self.id,
            filepath: self.filepath@,
            content: self.data@,
            modified: self.modified,
        }
    }
}

impl Buffer {
    /// Well-formed: the content is empty or ends with a newline.
    pub open spec fn wf(self) -> bool {
        wf_content(self@.content)
    }

    /// The lines of the buffer, as the contracts speak of them.
    pub open spec fn lines(self) -> Seq<Seq<char>> {
        lines_of(self@.content)
    }

    /// A buffer freshly loaded from file data: clean, its content the data
    /// normalised to end in a newline when non-empty.
    pub fn new(id: u16, filepath: String, data: String) -> (r: Buffer)
        ensures
            r@ == (BufferView {
                id,
                filepath: filepath@,
                content: normalized(data@),
                modified: false,
            }),
            r.wf(),
    {
        let mut d = data;
        let ghost orig = d@;
        let len = d.as_str().unicode_len();
        if len > 0 && d.as_str().get_char(len - 1) != '\n' {
            d.append("\n");
            proof {
                reveal_strlit("\n");
                assert(d@ =~= orig.push('\n'));
            }
        }
        Buffer { id, filepath, data: d, modified: false }
    }

    /// Inserts `text` as a line at `line_idx`: `-1` prepends it, an index of
    /// an existing line replaces that line, and an index at or past the line
    /// count pads with blank lines so that `text` ends up at `line_idx`.
    /// Marks the buffer dirty and keeps the trailing-newline invariant.
    pub fn insert(&mut self, text: &str, line_idx: isize)
        requires
            old(self).wf(),
            line_idx >= -1,
        ensures
            final(self)@ == inserted(old(self)@, text@, line_idx as int),
            final(self).wf(),
    {
        let ghost before = lines_of(self.data@);
        let mut lines = split_lines(self.data.as_str());
        if line_idx == -1 {
            lines.insert(0, String::from_str(text));
            proof {
                assert(lines.deep_view() =~= seq![text@] + before);
            }
        } else {
            let idx = line_idx as usize;
            if idx < lines.len() {
                lines.set(idx, String::from_str(text));
                proof {
                    assert(lines.deep_view() =~= before.update(idx as int, text@));
                }
            } else {
                let diff = idx - lines.len();
                let mut k: usize = 0;
                while k < diff
                    invariant
                        k <= diff,
                        lines.deep_view() =~= before + Seq::new(
                            k as nat,
                            |j: int| Seq::<char>::empty(),
                        ),
                    decreases diff - k,
                {
                    let ghost pre = lines.deep_view();
                    lines.push(String::new());
                    proof {
                        assert(lines.deep_view() =~= pre.push(Seq::<char>::empty()));
                        assert(pre.push(Seq::<char>::empty()) =~= before + Seq::new(
                            (k + 1) as nat,
                            |j: int| Seq::<char>::empty(),
                        ));
                    }
                    k += 1;
                }
                lines.push(String::from_str(text));
                proof {
                    assert(lines.deep_view() =~= before + Seq::new(
                        diff as nat,
                        |j: int| Seq::<char>::empty(),
                    ) + seq![text@]);
                }
            }
        }
        self.data = join_lines_exec(&lines);
        self.modified = true;
        proof {
            crate::text::lemma_insert_keeps_wf(old(self)@.content, text@, line_idx as int);
        }
    }

    /// True when the content has changed since the last successful save:
    /// saving must write the file exactly when this holds.
    pub fn needs_save(&self) -> (r: bool)
        ensures
            r == self@.modified,
    {
        self.modified
    }

    /// Records that the current content was written to the backing file:
    /// clears the dirty flag and changes nothing else.
    pub fn mark_saved(&mut self)
        ensures
            final(self)@ == saved(old(self)@),
    {
        self.modified = false;
    }

    /// The lines of the buffer in order, for display; position `k` in the
    /// result is the line with index `k`. Does not mutate the buffer.
    pub fn render(&self) -> (r: Vec<String>)
        requires
            self.wf(),
        ensures
            r.deep_view() == self.lines(),
    {
        split_lines(self.data.as_str())
    }
}

/// Idempotent save: a buffer that has just been saved is clean, so an
/// immediately following save finds nothing to write, and saving again
/// changes nothing at all.
pub proof fn lemma_save_idempotent(b: BufferView)
    ensures
        !saved(b).modified,
        saved(saved(b)) == saved(b),
{
}

} // verus!
