//! Document state: an ordered sequence of UTF-8 rows plus cursor, selection
//! anchor and font size, together with its mathematical model and
//! well-formedness invariant.

use vstd::prelude::*;
use vstd::string::StrSliceExecFns;
use vstd::utf8::*;

use crate::pos::BufferPosition;
use crate::text::{copy_bytes, sub_bytes, lemma_boundary_char};

verus! {

broadcast use vstd::seq_lib::group_seq_lib_default, vstd::seq::group_seq_axioms;

/// The mathematical model of a document state.
pub ghost struct StateModel {
    pub lines: Seq<Seq<u8>>,
    pub cursor: (int, int),
    pub anchor: Option<(int, int)>,
    pub font_size: int,
}

/// The byte sequences held by a sequence of rows.
pub open spec fn views_of(v: Seq<Vec<u8>>) -> Seq<Seq<u8>> {
    Seq::new(v.len(), |i: int| v[i]@)
}

/// A position is well formed when its row exists and its column is a
/// character boundary of that row.
pub open spec fn pos_wf(lines: Seq<Seq<u8>>, p: (int, int)) -> bool {
    &&& 0 <= p.0 < lines.len()
    &&& 0 <= p.1 <= lines[p.0].len()
    &&& is_char_boundary(lines[p.0], p.1)
}

/// Row well-formedness: at least one row, every row valid UTF-8.
pub open spec fn lines_wf(lines: Seq<Seq<u8>>) -> bool {
    &&& lines.len() >= 1
    &&& forall|i: int| 0 <= i < lines.len() ==> valid_utf8(#[trigger] lines[i])
}

/// Document well-formedness: at least one row, every row valid UTF-8, and
/// cursor and anchor on character boundaries within bounds.
pub open spec fn state_wf(m: StateModel) -> bool {
    &&& lines_wf(m.lines)
    &&& pos_wf(m.lines, m.cursor)
    &&& match m.anchor {
        Some(a) => pos_wf(m.lines, a),
        None => true,
    }
}

/// The newline byte that separates rows in serialised form.
pub const NEWLINE: u8 = 10;

/// Index of the first newline byte at or after `from`, or the length of the
/// sequence when there is none.
pub open spec fn find_nl(b: Seq<u8>, from: int) -> int
    decreases b.len() - from,
    when 0 <= from <= b.len()
{
    if from >= b.len() {
        b.len() as int
    } else if b[from] == NEWLINE {
        from
    } else {
        find_nl(b, from + 1)
    }
}

pub proof fn lemma_find_nl(b: Seq<u8>, from: int)
    requires
        0 <= from <= b.len(),
    ensures
        from <= find_nl(b, from) <= b.len(),
        find_nl(b, from) < b.len() ==> b[find_nl(b, from)] == NEWLINE,
        forall|k: int| from <= k < find_nl(b, from) ==> b[k] != NEWLINE,
    decreases b.len() - from,
{
    if from < b.len() && b[from] != NEWLINE {
        lemma_find_nl(b, from + 1);
    }
}

/// `find_nl` returns the first newline position.
pub proof fn lemma_find_nl_at(b: Seq<u8>, p: int)
    requires
        0 <= p < b.len(),
        b[p] == NEWLINE,
        forall|k: int| 0 <= k < p ==> b[k] != NEWLINE,
    ensures
        find_nl(b, 0) == p,
{
    lemma_find_nl(b, 0);
    let f = find_nl(b, 0);
    if f < p {
        assert(b[f] == NEWLINE);
    }
    if f > p {
        assert(b[p] != NEWLINE);
    }
}

/// The rows obtained by splitting a byte sequence at newline bytes; empty
/// input yields a single empty row.
pub open spec fn split_text(b: Seq<u8>) -> Seq<Seq<u8>>
    decreases b.len(),
        via split_text_decreases
{
    let i = find_nl(b, 0);
    if i == b.len() {
        seq![b]
    } else {
        seq![b.subrange(0, i)] + split_text(b.subrange(i + 1, b.len() as int))
    }
}

#[via_fn]
proof fn split_text_decreases(b: Seq<u8>) {
    lemma_find_nl(b, 0);
}

/// The serialised form of a document: rows joined with single newline bytes.
pub open spec fn join_text(lines: Seq<Seq<u8>>) -> Seq<u8>
    decreases lines.len(),
{
    if lines.len() == 0 {
        Seq::empty()
    } else if lines.len() == 1 {
        lines[0]
    } else {
        lines[0] + seq![NEWLINE] + join_text(lines.drop_first())
    }
}

/// A lone newline byte is valid UTF-8.
pub proof fn lemma_nl_valid()
    ensures
        valid_utf8(seq![NEWLINE]),
{
    let s = seq![NEWLINE];
    assert(valid_first_scalar(s));
    assert(pop_first_scalar(s) =~= Seq::<u8>::empty());
    assert(valid_utf8(pop_first_scalar(s)));
}

/// Joining valid rows gives valid UTF-8.
pub proof fn lemma_join_valid(lines: Seq<Seq<u8>>)
    requires
        forall|i: int| 0 <= i < lines.len() ==> valid_utf8(#[trigger] lines[i]),
    ensures
        valid_utf8(join_text(lines)),
    decreases lines.len(),
{
    if lines.len() == 0 {
    } else if lines.len() == 1 {
        assert(valid_utf8(lines[0]));
    } else {
        lemma_nl_valid();
        lemma_join_valid(lines.drop_first());
        valid_utf8_concat(lines[0], seq![NEWLINE]);
        valid_utf8_concat(lines[0] + seq![NEWLINE], join_text(lines.drop_first()));
        assert(join_text(lines) =~= (lines[0] + seq![NEWLINE]) + join_text(lines.drop_first()));
    }
}

/// Reading serialised text back and serialising again reproduces the text:
/// the round trip `join . split` is the identity on byte sequences.
pub proof fn lemma_join_split(b: Seq<u8>)
    ensures
        join_text(split_text(b)) == b,
    decreases b.len(),
{
    lemma_find_nl(b, 0);
    let i = find_nl(b, 0);
    if i == b.len() {
        assert(join_text(seq![b]) == b);
    } else {
        let rest = b.subrange(i + 1, b.len() as int);
        lemma_join_split(rest);
        let parts = seq![b.subrange(0, i)] + split_text(rest);
        assert(split_text(rest).len() >= 1) by {
            lemma_split_nonempty(rest);
        }
        assert(parts.len() >= 2);
        assert(parts[0] == b.subrange(0, i));
        assert(parts.drop_first() =~= split_text(rest));
        assert(join_text(parts) == parts[0] + seq![NEWLINE] + join_text(split_text(rest)));
        assert(b.subrange(0, i) + seq![NEWLINE] + rest =~= b);
    }
}

/// Splitting always yields at least one row.
pub proof fn lemma_split_nonempty(b: Seq<u8>)
    ensures
        split_text(b).len() >= 1,
{
    lemma_find_nl(b, 0);
}

/// The rows produced by splitting carry no newline byte, and splitting
/// preserves UTF-8 validity of the whole.
pub proof fn lemma_split_rows(b: Seq<u8>)
    requires
        valid_utf8(b),
    ensures
        forall|i: int|
            0 <= i < split_text(b).len() ==> valid_utf8(#[trigger] split_text(b)[i]),
        forall|i: int, k: int|
            0 <= i < split_text(b).len() && 0 <= k < split_text(b)[i].len() ==> #[trigger] split_text(
                b,
            )[i][k] != NEWLINE,
    decreases b.len(),
{
    lemma_find_nl(b, 0);
    let i = find_nl(b, 0);
    if i == b.len() {
        assert(split_text(b) == seq![b]);
    } else {
        lemma_boundary_char(b, i);
        valid_utf8_split(b, i);
        let tail = b.subrange(i, b.len() as int);
        assert(is_char_boundary(tail, 1)) by {
            assert(valid_first_scalar(tail));
            assert(length_of_first_scalar(tail) == 1);
            let popped = pop_first_scalar(tail);
            assert(popped =~= tail.subrange(1, tail.len() as int));
            assert(valid_utf8(popped));
            if 1 < tail.len() {
                assert(popped.len() > 0);
                assert(valid_first_scalar(popped));
                assert(!is_continuation_byte(popped[0]));
                assert(tail[1] == popped[0]);
            }
            lemma_boundary_char(tail, 1);
        }
        valid_utf8_split(tail, 1);
        let rest = b.subrange(i + 1, b.len() as int);
        assert(rest =~= tail.subrange(1, tail.len() as int));
        lemma_split_rows(rest);
        let head = b.subrange(0, i);
        assert(valid_utf8(head));
        assert forall|j: int| 0 <= j < split_text(b).len() implies valid_utf8(
            #[trigger] split_text(b)[j],
        ) by {
            if j == 0 {
                assert(split_text(b)[0] == head);
            } else {
                assert(split_text(b)[j] == split_text(rest)[j - 1]);
            }
        }
        assert forall|j: int, k: int|
            0 <= j < split_text(b).len() && 0 <= k < split_text(b)[j].len() implies #[trigger] split_text(
            b,
        )[j][k] != NEWLINE by {
            if j == 0 {
                assert(split_text(b)[0] == head);
                assert(head[k] == b[k]);
            } else {
                assert(split_text(b)[j] == split_text(rest)[j - 1]);
            }
        }
    }
}

/// Splitting the serialisation of newline-free rows restores exactly those
/// rows: the round trip `split . join` is the identity on documents.
pub proof fn lemma_split_join(lines: Seq<Seq<u8>>)
    requires
        lines.len() >= 1,
        forall|i: int, k: int|
            0 <= i < lines.len() && 0 <= k < lines[i].len() ==> #[trigger] lines[i][k] != NEWLINE,
    ensures
        split_text(join_text(lines)) == lines,
    decreases lines.len(),
{
    let b = join_text(lines);
    if lines.len() == 1 {
        lemma_find_nl(b, 0);
        if find_nl(b, 0) < b.len() {
            assert(b[find_nl(b, 0)] == NEWLINE);
            assert(lines[0][find_nl(b, 0)] != NEWLINE);
        }
        assert(split_text(b) =~= lines);
    } else {
        let head = lines[0];
        let rest = lines.drop_first();
        let l = head.len() as int;
        assert(b == head + seq![NEWLINE] + join_text(rest));
        assert(b[l] == NEWLINE);
        assert forall|k: int| 0 <= k < l implies b[k] != NEWLINE by {
            assert(b[k] == head[k]);
            assert(lines[0][k] != NEWLINE);
        }
        lemma_find_nl_at(b, l);
        assert(b.subrange(0, l) =~= head);
        assert(b.subrange(l + 1, b.len() as int) =~= join_text(rest));
        assert forall|i: int, k: int|
            0 <= i < rest.len() && 0 <= k < rest[i].len() implies #[trigger] rest[i][k]
            != NEWLINE by {
            assert(rest[i] == lines[i + 1]);
        }
        lemma_split_join(rest);
        assert(split_text(b) =~= seq![head] + split_text(join_text(rest)));
        assert(seq![head] + rest =~= lines);
    }
}

/// The default font size, in points.
pub const DEFAULT_FONT_SIZE: u32 = 14;

/// Mutable document state: rows of UTF-8 text, the cursor, an optional
/// selection anchor, and the font size in whole points.
pub struct EditorState {
    /// Lines of text in the buffer, each a row of UTF-8 bytes.
    pub lines: Vec<Vec<u8>>,
    /// Cursor position (row, column in bytes).
    pub cursor: BufferPosition,
    /// Selection anchor for text selection.
    pub selection_anchor: Option<BufferPosition>,
    /// Font size in points (may be ignored by a terminal front end).
    pub font_size: u32,
}

impl View for EditorState {
    type V = StateModel;

    open spec fn view(&self) -> StateModel {
        StateModel {
            lines: views_of(self.lines@),
            cursor: (self.cursor.row as int, self.cursor.column as int),
            anchor: match self.selection_anchor {
                Some(a) => Some((a.row as int, a.column as int)),
                None => None,
            },
            font_size: self.font_size as int,
        }
    }
}

impl EditorState {
    /// A fresh document: one empty row, cursor at the origin, no selection.
    pub fn new() -> (r: Self)
        ensures
            r@.lines =~= seq![Seq::<u8>::empty()],
            r@.cursor == (0int, 0int),
            r@.anchor is None,
            r@.font_size == DEFAULT_FONT_SIZE as int,
            state_wf(r@),
    {
        let mut lines: Vec<Vec<u8>> = Vec::new();
        lines.push(Vec::new());
        let r = Self {
            lines,
            cursor: BufferPosition::zero(),
            selection_anchor: None,
            font_size: DEFAULT_FONT_SIZE,
        };
        proof {
            assert(r@.lines =~= seq![Seq::<u8>::empty()]);
            assert(valid_utf8(Seq::<u8>::empty()));
        }
        r
    }

    /// A deep copy, taken by the undo manager so that history frames are
    /// never aliased with live state.
    pub fn clone_for_undo(&self) -> (r: Self)
        ensures
            r@ == self@,
    {
        let mut lines: Vec<Vec<u8>> = Vec::new();
        let mut i: usize = 0;
        while i < self.lines.len()
            invariant
                i <= self.lines.len(),
                lines@.len() == i,
                views_of(lines@) =~= views_of(self.lines@).subrange(0, i as int),
            decreases self.lines.len() - i,
        {
            let ghost prev = lines@;
            let row = copy_bytes(&self.lines[i]);
            proof {
                lemma_views_push(prev, self.lines@, row, i as int);
            }
            lines.push(row);
            i += 1;
        }
        let r = Self {
            lines,
            cursor: self.cursor,
            selection_anchor: self.selection_anchor,
            font_size: self.font_size,
        };
        proof {
            assert(views_of(r.lines@) =~= views_of(self.lines@));
        }
        r
    }

    /// The document serialised as a single string: rows joined with `\n`.
    pub fn to_string(&self) -> (r: String)
        requires
            state_wf(self@),
        ensures
            encode_utf8(r@) == join_text(self@.lines),
    {
        let joined = join_lines(&self.lines);
        proof {
            lemma_join_valid(self@.lines);
        }
        crate::trusted::bytes_to_string(joined)
    }

    /// A document read from a string: split on `\n`, cursor at the origin,
    /// no selection, default font size. Empty input maps to a single empty
    /// row.
    pub fn from_string(content: String) -> (r: Self)
        ensures
            r@.lines == split_text(encode_utf8(content@)),
            r@.cursor == (0int, 0int),
            r@.anchor is None,
            r@.font_size == DEFAULT_FONT_SIZE as int,
            state_wf(r@),
    {
        let bytes = content.as_str().as_bytes_vec();
        proof {
            encode_utf8_valid_utf8(content@);
        }
        let lines = split_lines(&bytes);
        let r = Self {
            lines,
            cursor: BufferPosition::zero(),
            selection_anchor: None,
            font_size: DEFAULT_FONT_SIZE,
        };
        proof {
            lemma_split_rows(encode_utf8(content@));
            lemma_split_nonempty(encode_utf8(content@));
        }
        r
    }

    /// Number of rows; at least one for any well-formed state.
    pub fn line_count(&self) -> (n: usize)
        ensures
            n == self@.lines.len(),
    {
        self.lines.len()
    }

    /// The bytes of row `row`, if it exists.
    pub fn line(&self, row: usize) -> (r: Option<&Vec<u8>>)
        ensures
            row < self@.lines.len() ==> (r matches Some(l) && l@ == self@.lines[row as int]),
            row >= self@.lines.len() ==> r is None,
    {
        if row < self.lines.len() {
            Some(&self.lines[row])
        } else {
            None
        }
    }

    /// Byte length of row `row`, or zero if it does not exist.
    pub fn line_len(&self, row: usize) -> (n: usize)
        ensures
            row < self@.lines.len() ==> n == self@.lines[row as int].len(),
            row >= self@.lines.len() ==> n == 0,
    {
        if row < self.lines.len() {
            self.lines[row].len()
        } else {
            0
        }
    }
}


    pub proof fn lemma_views_of_update(v: Seq<Vec<u8>>, i: int, x: Vec<u8>)
        requires
            0 <= i < v.len(),
        ensures
            views_of(v.update(i, x)) =~= views_of(v).update(i, x@),
    {
        assert forall|k: int| 0 <= k < v.len() implies views_of(v.update(i, x))[k] == views_of(
            v,
        ).update(i, x@)[k] by {
            if k != i {
                assert(v.update(i, x)[k] == v[k]);
            } else {
                assert(v.update(i, x)[k] == x);
            }
        }
    }

    pub proof fn lemma_views_of_remove(v: Seq<Vec<u8>>, i: int)
        requires
            0 <= i < v.len(),
        ensures
            views_of(v.remove(i)) =~= views_of(v).remove(i),
    {
        assert forall|k: int| 0 <= k < v.len() - 1 implies views_of(v.remove(i))[k] == views_of(
            v,
        ).remove(i)[k] by {
            if k < i {
                assert(v.remove(i)[k] == v[k]);
            } else {
                assert(v.remove(i)[k] == v[k + 1]);
            }
        }
    }

    pub proof fn lemma_views_of_insert(v: Seq<Vec<u8>>, i: int, x: Vec<u8>)
        requires
            0 <= i <= v.len(),
        ensures
            views_of(v.insert(i, x)) =~= views_of(v).insert(i, x@),
    {
        assert forall|k: int| 0 <= k < v.len() + 1 implies views_of(v.insert(i, x))[k]
            == views_of(v).insert(i, x@)[k] by {
            if k < i {
                assert(v.insert(i, x)[k] == v[k]);
            } else if k == i {
                assert(v.insert(i, x)[k] == x);
            } else {
                assert(v.insert(i, x)[k] == v[k - 1]);
            }
        }
    }

    pub proof fn lemma_views_of_push(v: Seq<Vec<u8>>, x: Vec<u8>)
        ensures
            views_of(v.push(x)) =~= views_of(v).push(x@),
    {
        assert forall|k: int| 0 <= k < v.len() + 1 implies views_of(v.push(x))[k] == views_of(
            v,
        ).push(x@)[k] by {
            if k < v.len() {
                assert(v.push(x)[k] == v[k]);
            } else {
                assert(v.push(x)[k] == x);
            }
        }
    }

    /// Serialise rows by joining them with newline bytes.
    pub fn join_lines(lines: &Vec<Vec<u8>>) -> (r: Vec<u8>)
        ensures
            r@ == join_text(views_of(lines@)),
    {
        let ghost all = views_of(lines@);
        let mut r: Vec<u8> = Vec::new();
        let mut i: usize = 0;
        proof {
            assert(all.subrange(0, all.len() as int) =~= all);
            assert(r@ + join_text(all) =~= join_text(all));
        }
        while i < lines.len()
            invariant
                i <= lines.len(),
                all == views_of(lines@),
                r@ + join_text(all.subrange(i as int, all.len() as int)) =~= join_text(all),
            decreases lines.len() - i,
        {
            let ghost r0 = r@;
            let ghost suffix = all.subrange(i as int, all.len() as int);
            let row = &lines[i];
            let mut j: usize = 0;
            while j < row.len()
                invariant
                    j <= row.len(),
                    r@ =~= r0 + row@.subrange(0, j as int),
                decreases row.len() - j,
            {
                r.push(row[j]);
                j += 1;
            }
            proof {
                assert(r@ =~= r0 + all[i as int]);
            }
            if i + 1 < lines.len() {
                r.push(NEWLINE);
                proof {
                    assert(suffix.len() > 1);
                    assert(suffix.drop_first() =~= all.subrange(i + 1, all.len() as int));
                    assert(join_text(suffix) == suffix[0] + seq![NEWLINE] + join_text(
                        suffix.drop_first(),
                    ));
                    assert(r@ + join_text(all.subrange(i + 1, all.len() as int)) =~= join_text(
                        all,
                    ));
                }
            } else {
                proof {
                    assert(suffix.len() == 1);
                    assert(join_text(suffix) == suffix[0]);
                    assert(all.subrange(i + 1, all.len() as int).len() == 0);
                    assert(join_text(all.subrange(i + 1, all.len() as int)) == Seq::<u8>::empty());
                    assert(r@ + join_text(all.subrange(i + 1, all.len() as int)) =~= join_text(
                        all,
                    ));
                }
            }
            i += 1;
        }
        proof {
            assert(all.subrange(i as int, all.len() as int).len() == 0);
            assert(join_text(all.subrange(i as int, all.len() as int)) == Seq::<u8>::empty());
            assert(r@ =~= join_text(all));
        }
        r
    }

    /// Split serialised text into rows at newline bytes.
    pub fn split_lines(b: &Vec<u8>) -> (rows: Vec<Vec<u8>>)
        ensures
            views_of(rows@) == split_text(b@),
            rows@.len() >= 1,
    {
        let mut rows: Vec<Vec<u8>> = Vec::new();
        let mut start: usize = 0;
        let mut i: usize = 0;
        proof {
            assert(b@.subrange(0, b@.len() as int) =~= b@);
            assert(views_of(rows@) =~= Seq::<Seq<u8>>::empty());
            assert(views_of(rows@) + split_text(b@) =~= split_text(b@));
        }
        while i < b.len()
            invariant
                start <= i <= b.len(),
                forall|k: int| start <= k < i ==> b@[k] != NEWLINE,
                split_text(b@) =~= views_of(rows@) + split_text(
                    b@.subrange(start as int, b@.len() as int),
                ),
            decreases b.len() - i,
        {
            if b[i] == NEWLINE {
                let piece = sub_bytes(b, start, i);
                proof {
                    lemma_split_unfold_at(b@, start as int, i as int);
                    lemma_views_of_push(rows@, piece);
                    assert(views_of(rows@.push(piece)) + split_text(
                        b@.subrange(i + 1, b@.len() as int),
                    ) =~= views_of(rows@) + split_text(b@.subrange(start as int, b@.len() as int)));
                }
                rows.push(piece);
                start = i + 1;
            }
            i += 1;
        }
        let piece = sub_bytes(b, start, b.len());
        proof {
            lemma_split_last(b@, start as int);
            lemma_views_of_push(rows@, piece);
            assert(views_of(rows@.push(piece)) =~= views_of(rows@) + split_text(
                b@.subrange(start as int, b@.len() as int),
            ));
        }
        rows.push(piece);
        proof {
            assert(views_of(rows@) =~= split_text(b@));
        }
        rows
    }

    /// Unfolding `split_text` of a suffix whose first newline is at `i`.
    proof fn lemma_split_unfold_at(b: Seq<u8>, start: int, i: int)
        requires
            0 <= start <= i < b.len(),
            b[i] == NEWLINE,
            forall|k: int| start <= k < i ==> b[k] != NEWLINE,
        ensures
            split_text(b.subrange(start, b.len() as int)) == seq![b.subrange(start, i)]
                + split_text(b.subrange(i + 1, b.len() as int)),
    {
        let s = b.subrange(start, b.len() as int);
        assert forall|k: int| 0 <= k < i - start implies s[k] != NEWLINE by {
            assert(s[k] == b[start + k]);
        }
        assert(s[i - start] == NEWLINE);
        lemma_find_nl_at(s, i - start);
        assert(s.subrange(0, i - start) =~= b.subrange(start, i));
        assert(s.subrange(i - start + 1, s.len() as int) =~= b.subrange(i + 1, b.len() as int));
        assert(seq![s.subrange(0, i - start)] =~= seq![b.subrange(start, i)]);
    }

    /// Unfolding `split_text` of a newline-free suffix.
    proof fn lemma_split_last(b: Seq<u8>, start: int)
        requires
            0 <= start <= b.len(),
            forall|k: int| start <= k < b.len() ==> b[k] != NEWLINE,
        ensures
            split_text(b.subrange(start, b.len() as int)) == seq![b.subrange(start, b.len() as int)],
    {
        let s = b.subrange(start, b.len() as int);
        lemma_find_nl(s, 0);
        if find_nl(s, 0) < s.len() {
            assert(s[find_nl(s, 0)] == NEWLINE);
            assert(b[start + find_nl(s, 0)] == NEWLINE);
        }
    }

    proof fn lemma_views_push(prev: Seq<Vec<u8>>, all: Seq<Vec<u8>>, v: Vec<u8>, i: int)
        requires
            0 <= i < all.len(),
            prev.len() == i,
            views_of(prev) =~= views_of(all).subrange(0, i),
            v@ == all[i]@,
        ensures
            views_of(prev.push(v)) =~= views_of(all).subrange(0, i + 1),
    {
        assert forall|k: int| 0 <= k < i + 1 implies views_of(prev.push(v))[k] == views_of(
            all,
        ).subrange(0, i + 1)[k] by {
            if k < i {
                assert(prev.push(v)[k] == prev[k]);
                assert(views_of(prev)[k] == views_of(all).subrange(0, i)[k]);
            } else {
                assert(prev.push(v)[k] == v);
            }
        }
    }

} // verus!
