//! The line model of buffer content.
//!
//! Content is a single sequence of characters; its lines are derived by
//! splitting on `'\n'` and never stored separately. Well-formed content is
//! empty or ends with a newline, so it is exactly the join of its lines.

use vstd::prelude::*;

verus! {

/// A line is a piece of text with no newline in it.
pub open spec fn is_line(l: Seq<char>) -> bool {
    !l.contains('\n')
}

/// Well-formed buffer content: empty, or terminated by a newline.
pub open spec fn wf_content(s: Seq<char>) -> bool {
    s.len() == 0 || s[s.len() - 1] == '\n'
}

/// The index of the first newline in `s`, or `s.len()` if there is none.
pub open spec fn first_nl(s: Seq<char>) -> nat
    decreases s.len(),
{
    if s.len() == 0 {
        0
    } else if s[0] == '\n' {
        0
    } else {
        1 + first_nl(s.subrange(1, s.len() as int))
    }
}

/// The lines of `s`: the pieces between newlines, in order. A final piece
/// with no terminating newline still counts as a line, so this matches
/// splitting well-formed and truncated content alike.
pub open spec fn lines_of(s: Seq<char>) -> Seq<Seq<char>>
    decreases s.len(),
{
    if s.len() == 0 {
        Seq::empty()
    } else {
        let i = first_nl(s) as int;
        if i < s.len() {
            seq![s.subrange(0, i)] + lines_of(s.subrange(i + 1, s.len() as int))
        } else {
            seq![s]
        }
    }
}

/// The content that a sequence of lines denotes: each line followed by one
/// newline.
pub open spec fn join_lines(ls: Seq<Seq<char>>) -> Seq<char>
    decreases ls.len(),
{
    if ls.len() == 0 {
        Seq::empty()
    } else {
        ls[0] + seq!['\n'] + join_lines(ls.drop_first())
    }
}

/// Every element of `ls` is a newline-free line.
pub open spec fn all_lines(ls: Seq<Seq<char>>) -> bool {
    forall|k: int| 0 <= k < ls.len() ==> is_line(#[trigger] ls[k])
}

/// The lines after inserting `text` at `line_idx` into the lines `ls`:
/// `-1` prepends, an index inside `ls` replaces that line, and an index at
/// or past the end pads with blank lines and appends `text` at position
/// `line_idx`.
pub open spec fn inserted_lines(ls: Seq<Seq<char>>, text: Seq<char>, line_idx: int) -> Seq<
    Seq<char>,
> {
    if line_idx == -1 {
        seq![text] + ls
    } else if line_idx < ls.len() {
        ls.update(line_idx, text)
    } else {
        ls + Seq::new((line_idx - ls.len()) as nat, |k: int| Seq::<char>::empty()) + seq![text]
    }
}

/// File data normalised to well-formed content: a final newline is added
/// when the data is non-empty and lacks one.
pub open spec fn normalized(data: Seq<char>) -> Seq<char> {
    if data.len() == 0 || data[data.len() - 1] == '\n' {
        data
    } else {
        data.push('\n')
    }
}

/// `first_nl` points at the first newline: nothing before it is a newline,
/// and it is a newline unless it is the length of `s`.
proof fn lemma_first_nl(s: Seq<char>)
    ensures
        first_nl(s) <= s.len(),
        forall|k: int| 0 <= k < first_nl(s) ==> s[k] != '\n',
        first_nl(s) < s.len() ==> s[first_nl(s) as int] == '\n',
    decreases s.len(),
{
    if s.len() == 0 {
    } else if s[0] == '\n' {
    } else {
        let t = s.subrange(1, s.len() as int);
        lemma_first_nl(t);
        assert forall|k: int| 0 <= k < first_nl(s) implies s[k] != '\n' by {
            if k > 0 {
                assert(s[k] == t[k - 1]);
            }
        }
    }
}

/// A sequence is a line exactly when its first newline is at its end.
proof fn lemma_is_line_first_nl(l: Seq<char>)
    ensures
        is_line(l) <==> first_nl(l) == l.len(),
{
    lemma_first_nl(l);
    if first_nl(l) < l.len() {
        assert(l.contains('\n'));
    }
    if is_line(l) && first_nl(l) < l.len() {
        assert(false);
    }
    if first_nl(l) == l.len() && l.contains('\n') {
        let k = choose|k: int| 0 <= k < l.len() && l[k] == '\n';
        assert(l[k] != '\n');
    }
}

/// The first newline of a concatenation: the one of `a` where `a` has one,
/// else it lies in `b`, shifted past `a`.
proof fn lemma_first_nl_concat(a: Seq<char>, b: Seq<char>)
    ensures
        first_nl(a + b) == if first_nl(a) < a.len() {
            first_nl(a) as int
        } else {
            a.len() + first_nl(b) as int
        },
    decreases a.len(),
{
    lemma_first_nl(a);
    if a.len() == 0 {
        assert(a + b =~= b);
    } else if a[0] == '\n' {
        assert((a + b)[0] == '\n');
    } else {
        assert((a + b)[0] == a[0]);
        let t = a.subrange(1, a.len() as int);
        lemma_first_nl_concat(t, b);
        assert((a + b).subrange(1, (a + b).len() as int) =~= t + b);
    }
}

/// Prepending one line: the lines of `l + '\n' + t` are `l`, then the lines
/// of `t`.
proof fn lemma_lines_of_cons(l: Seq<char>, t: Seq<char>)
    requires
        is_line(l),
    ensures
        lines_of(l + seq!['\n'] + t) == seq![l] + lines_of(t),
{
    let s = l + seq!['\n'] + t;
    lemma_is_line_first_nl(l);
    lemma_first_nl_concat(l + seq!['\n'], t);
    lemma_first_nl_concat(l, seq!['\n']);
    assert(first_nl(seq!['\n']) == 0);
    assert(first_nl(s) == l.len());
    assert(first_nl(s) < s.len());
    assert(s.subrange(0, l.len() as int) =~= l);
    assert(s.subrange(l.len() as int + 1, s.len() as int) =~= t);
}

/// Appending one line to well-formed content appends it to the lines.
proof fn lemma_lines_of_snoc(p: Seq<char>, l: Seq<char>)
    requires
        wf_content(p),
        is_line(l),
    ensures
        lines_of(p + l + seq!['\n']) == lines_of(p).push(l),
    decreases p.len(),
{
    if p.len() == 0 {
        assert(p + l + seq!['\n'] =~= l + seq!['\n'] + Seq::<char>::empty());
        lemma_lines_of_cons(l, Seq::<char>::empty());
        assert(seq![l] + lines_of(Seq::<char>::empty()) =~= lines_of(p).push(l));
    } else {
        lemma_first_nl(p);
        assert(p[p.len() - 1] == '\n');
        assert(first_nl(p) < p.len()) by {
            if first_nl(p) == p.len() {
                assert(p[p.len() - 1] != '\n');
            }
        }
        let i = first_nl(p) as int;
        let h = p.subrange(0, i);
        let t = p.subrange(i + 1, p.len() as int);
        assert(is_line(h)) by {
            if h.contains('\n') {
                let k = choose|k: int| 0 <= k < h.len() && h[k] == '\n';
                assert(p[k] == '\n');
            }
        }
        assert(wf_content(t)) by {
            if t.len() > 0 {
                assert(t[t.len() - 1] == p[p.len() - 1]);
            }
        }
        lemma_lines_of_snoc(t, l);
        assert(p + l + seq!['\n'] =~= h + seq!['\n'] + (t + l + seq!['\n']));
        lemma_lines_of_cons(h, t + l + seq!['\n']);
        assert(p =~= h + seq!['\n'] + t);
        lemma_lines_of_cons(h, t);
        assert(seq![h] + lines_of(t).push(l) =~= (seq![h] + lines_of(t)).push(l));
    }
}

/// Joining the lines of well-formed content gives the content back.
pub proof fn lemma_join_of_lines(s: Seq<char>)
    requires
        wf_content(s),
    ensures
        join_lines(lines_of(s)) == s,
    decreases s.len(),
{
    if s.len() == 0 {
    } else {
        lemma_first_nl(s);
        assert(first_nl(s) < s.len()) by {
            if first_nl(s) == s.len() {
                assert(s[s.len() - 1] != '\n');
            }
        }
        let i = first_nl(s) as int;
        let h = s.subrange(0, i);
        let t = s.subrange(i + 1, s.len() as int);
        assert(wf_content(t)) by {
            if t.len() > 0 {
                assert(t[t.len() - 1] == s[s.len() - 1]);
            }
        }
        lemma_join_of_lines(t);
        let ls = seq![h] + lines_of(t);
        assert(lines_of(s) == ls);
        assert(ls.drop_first() =~= lines_of(t));
        assert(join_lines(ls) == h + seq!['\n'] + t);
        assert(h + seq!['\n'] + t =~= s);
    }
}

/// The lines of joined lines are those lines themselves.
pub proof fn lemma_lines_of_join(ls: Seq<Seq<char>>)
    requires
        all_lines(ls),
    ensures
        lines_of(join_lines(ls)) == ls,
    decreases ls.len(),
{
    if ls.len() == 0 {
    } else {
        assert(is_line(ls[0]));
        lemma_lines_of_cons(ls[0], join_lines(ls.drop_first()));
        assert(all_lines(ls.drop_first())) by {
            assert(forall|k: int|
                0 <= k < ls.drop_first().len() ==> ls.drop_first()[k] == ls[k + 1]);
        }
        lemma_lines_of_join(ls.drop_first());
        assert(seq![ls[0]] + ls.drop_first() =~= ls);
    }
}

/// Joined lines are well-formed content.
pub proof fn lemma_join_lines_wf(ls: Seq<Seq<char>>)
    ensures
        wf_content(join_lines(ls)),
    decreases ls.len(),
{
    if ls.len() == 0 {
    } else {
        lemma_join_lines_wf(ls.drop_first());
        let s = join_lines(ls);
        let rest = join_lines(ls.drop_first());
        if rest.len() == 0 {
            assert(s[s.len() - 1] == '\n');
        } else {
            assert(s[s.len() - 1] == rest[rest.len() - 1]);
        }
    }
}

/// Every piece that `lines_of` produces is a newline-free line.
pub proof fn lemma_lines_of_all_lines(s: Seq<char>)
    ensures
        all_lines(lines_of(s)),
    decreases s.len(),
{
    if s.len() == 0 {
    } else {
        lemma_first_nl(s);
        let i = first_nl(s) as int;
        if i < s.len() {
            let h = s.subrange(0, i);
            let t = s.subrange(i + 1, s.len() as int);
            assert(is_line(h)) by {
                if h.contains('\n') {
                    let k = choose|k: int| 0 <= k < h.len() && h[k] == '\n';
                    assert(s[k] == '\n');
                }
            }
            lemma_lines_of_all_lines(t);
            let ls = seq![h] + lines_of(t);
            assert forall|k: int| 0 <= k < ls.len() implies is_line(#[trigger] ls[k]) by {
                if k > 0 {
                    assert(ls[k] == lines_of(t)[k - 1]);
                }
            }
        } else {
            lemma_is_line_first_nl(s);
        }
    }
}

/// Joining one more line on the right appends that line and a newline.
proof fn lemma_join_lines_push(ls: Seq<Seq<char>>, l: Seq<char>)
    ensures
        join_lines(ls.push(l)) == join_lines(ls) + l + seq!['\n'],
    decreases ls.len(),
{
    if ls.len() == 0 {
        let s = ls.push(l);
        assert(s[0] == l);
        assert(s.drop_first() =~= Seq::<Seq<char>>::empty());
        assert(join_lines(s) == l + seq!['\n'] + join_lines(s.drop_first()));
        assert(join_lines(s) =~= join_lines(ls) + l + seq!['\n']);
    } else {
        assert(ls.push(l)[0] == ls[0]);
        assert(ls.push(l).drop_first() =~= ls.drop_first().push(l));
        lemma_join_lines_push(ls.drop_first(), l);
        assert(ls[0] + seq!['\n'] + (join_lines(ls.drop_first()) + l + seq!['\n']) =~= join_lines(
            ls,
        ) + l + seq!['\n']);
    }
}

/// Splits well-formed content into its lines.
pub fn split_lines(s: &str) -> (r: Vec<String>)
    requires
        wf_content(s@),
    ensures
        r.deep_view() == lines_of(s@),
{
    let len = s.unicode_len();
    let mut r: Vec<String> = Vec::new();
    let mut start: usize = 0;
    let mut j: usize = 0;
    while j < len
        invariant
            start <= j <= len,
            len == s@.len(),
            wf_content(s@),
            wf_content(s@.subrange(0, start as int)),
            r.deep_view() == lines_of(s@.subrange(0, start as int)),
            is_line(s@.subrange(start as int, j as int)),
        decreases len - j,
    {
        let c = s.get_char(j);
        if c == '\n' {
            let line = s.substring_char(start, j);
            let ghost prefix = s@.subrange(0, start as int);
            let ghost old_r = r.deep_view();
            r.push(String::from_str(line));
            proof {
                lemma_lines_of_snoc(prefix, line@);
                assert(s@.subrange(0, j as int + 1) =~= prefix + line@ + seq!['\n']);
                assert(r.deep_view() =~= old_r.push(line@));
                assert(is_line(s@.subrange(j as int + 1, j as int + 1)));
            }
            start = j + 1;
        } else {
            proof {
                assert(s@.subrange(start as int, j as int + 1) =~= s@.subrange(
                    start as int,
                    j as int,
                ).push(s@[j as int]));
                assert(is_line(s@.subrange(start as int, j as int + 1))) by {
                    let e = s@.subrange(start as int, j as int + 1);
                    if e.contains('\n') {
                        let k = choose|k: int| 0 <= k < e.len() && e[k] == '\n';
                        if k < e.len() - 1 {
                            assert(s@.subrange(start as int, j as int)[k] == '\n');
                        }
                    }
                }
            }
        }
        j += 1;
    }
    proof {
        if start < len {
            assert(s@.subrange(start as int, len as int)[len - 1 - start] == '\n');
        }
        assert(s@.subrange(0, len as int) =~= s@);
    }
    r
}

/// Joins lines back into content, one newline after each line.
pub fn join_lines_exec(lines: &Vec<String>) -> (r: String)
    ensures
        r@ == join_lines(lines.deep_view()),
{
    let mut r = String::new();
    let mut i: usize = 0;
    while i < lines.len()
        invariant
            i <= lines@.len(),
            r@ == join_lines(lines.deep_view().subrange(0, i as int)),
        decreases lines@.len() - i,
    {
        r.append(lines[i].as_str());
        r.append("\n");
        proof {
            reveal_strlit("\n");
            assert("\n"@ =~= seq!['\n']);
            lemma_join_lines_push(
                lines.deep_view().subrange(0, i as int),
                lines.deep_view()[i as int],
            );
            assert(lines.deep_view().subrange(0, i as int + 1) =~= lines.deep_view().subrange(
                0,
                i as int,
            ).push(lines.deep_view()[i as int]));
        }
        i += 1;
    }
    proof {
        assert(lines.deep_view().subrange(0, lines.deep_view().len() as int) =~= lines.deep_view());
    }
    r
}

/// Inserting any text at any admitted index leaves the content well formed:
/// it stays empty or ends with a single newline. Chained inserts therefore
/// keep the invariant at every step.
pub proof fn lemma_insert_keeps_wf(content: Seq<char>, text: Seq<char>, line_idx: int)
    ensures
        wf_content(join_lines(inserted_lines(lines_of(content), text, line_idx))),
{
    lemma_join_lines_wf(inserted_lines(lines_of(content), text, line_idx));
}

/// The lines after an insert are all newline-free whenever the inserted text
/// is.
proof fn lemma_inserted_all_lines(content: Seq<char>, text: Seq<char>, line_idx: int)
    requires
        is_line(text),
        line_idx >= -1,
    ensures
        all_lines(inserted_lines(lines_of(content), text, line_idx)),
{
    lemma_lines_of_all_lines(content);
    let ls = lines_of(content);
    let new = inserted_lines(ls, text, line_idx);
    assert forall|k: int| 0 <= k < new.len() implies is_line(#[trigger] new[k]) by {
        if line_idx == -1 {
            if k == 0 {
                assert(new[k] == text);
            } else {
                assert(new[k] == ls[k - 1]);
            }
        } else if line_idx < ls.len() {
            if k == line_idx {
                assert(new[k] == text);
            } else {
                assert(new[k] == ls[k]);
            }
        } else {
            if k < ls.len() {
                assert(new[k] == ls[k]);
            } else if k < line_idx {
                assert(new[k] == Seq::<char>::empty());
                assert(!Seq::<char>::empty().contains('\n'));
            } else {
                assert(new[k] == text);
            }
        }
    }
}

/// Replace law: inserting a line at an index inside the buffer rewrites
/// exactly that line; every other line is unchanged, and the line count is
/// kept.
pub proof fn lemma_insert_replaces(content: Seq<char>, text: Seq<char>, i: int)
    requires
        wf_content(content),
        is_line(text),
        0 <= i < lines_of(content).len(),
    ensures
        ({
            let after = lines_of(join_lines(inserted_lines(lines_of(content), text, i)));
            &&& after.len() == lines_of(content).len()
            &&& after[i] == text
            &&& forall|k: int|
                0 <= k < after.len() && k != i ==> #[trigger] after[k] == lines_of(content)[k]
        }),
{
    lemma_inserted_all_lines(content, text, i);
    lemma_lines_of_join(inserted_lines(lines_of(content), text, i));
}

/// Pad law: inserting a line at or past the current line count appends
/// exactly `i - line_count` blank lines, then the text, so that the text
/// stands at position `i` and the new line count is `i + 1`.
pub proof fn lemma_insert_pads(content: Seq<char>, text: Seq<char>, i: int)
    requires
        wf_content(content),
        is_line(text),
        i >= lines_of(content).len(),
    ensures
        ({
            let before = lines_of(content);
            let after = lines_of(join_lines(inserted_lines(before, text, i)));
            &&& after.len() == i + 1
            &&& after[i] == text
            &&& forall|k: int| 0 <= k < before.len() ==> #[trigger] after[k] == before[k]
            &&& forall|k: int|
                before.len() <= k < i ==> #[trigger] after[k] == Seq::<char>::empty()
        }),
{
    lemma_inserted_all_lines(content, text, i);
    lemma_lines_of_join(inserted_lines(lines_of(content), text, i));
}

/// Prepend law: inserting a line at index `-1` makes the text line zero and
/// shifts every prior line down by one, whatever the buffer held before.
pub proof fn lemma_insert_prepends(content: Seq<char>, text: Seq<char>)
    requires
        wf_content(content),
        is_line(text),
    ensures
        ({
            let before = lines_of(content);
            let after = lines_of(join_lines(inserted_lines(before, text, -1)));
            &&& after.len() == before.len() + 1
            &&& after[0] == text
            &&& forall|k: int| 0 <= k < before.len() ==> #[trigger] after[k + 1] == before[k]
        }),
{
    lemma_inserted_all_lines(content, text, -1);
    lemma_lines_of_join(inserted_lines(lines_of(content), text, -1));
}

} // verus!
