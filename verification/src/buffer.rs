//! The wrapped text buffer: rows of UTF-8 text with a per-row memoized wrap
//! layout, and the bidirectional mapping between logical (row, byte-column)
//! and wrapped (visual-row, column) coordinates.

use vstd::prelude::*;
use vstd::utf8::*;

use crate::pos::{BufferPosition, VisualPosition};
use crate::state::{join_text, lemma_join_valid, lemma_split_nonempty, lemma_split_rows,
    split_lines, split_text, views_of};

use crate::wrap::{compute_visual_lines, seg_chain, seg_ranges_kinds, spec_wrap, VisualLine,
    WrapType};
use crate::edit::doc_size;

verus! {

broadcast use vstd::seq_lib::group_seq_lib_default, vstd::seq::group_seq_axioms;

/// A memoized shape-and-wrap result for one row, valid only for the stored
/// font size and wrap width.
pub struct CachedLineLayout {
    /// Measured horizontal advance from the row start to each byte offset.
    pub advances: Vec<u64>,
    /// The font size the measurements were taken at.
    pub font_size: u32,
    /// The wrap width the segments were computed for.
    pub wrap_width: u64,
    /// The wrapped segments of the row.
    pub visual_lines: Vec<VisualLine>,
}

/// The mathematical model of a buffer: rows and their optional layouts.
pub ghost struct BufferModel {
    pub lines: Seq<Seq<u8>>,
    pub layouts: Seq<Option<CachedLineLayout>>,
}

/// A cached layout is consistent with its row: its segments partition the
/// row's bytes on character boundaries, and the advance table has one entry
/// per byte offset.
pub open spec fn layout_ok(cl: CachedLineLayout, line: Seq<u8>) -> bool {
    &&& segs_ok(seg_ranges_kinds(cl.visual_lines@), line)
    &&& cl.advances@.len() == line.len() + 1
}

/// Valid segment lists: an empty row has the single empty segment, any other
/// row is exactly covered by a chain of non-empty segments.
pub open spec fn segs_ok(segs: Seq<(int, int, WrapType)>, line: Seq<u8>) -> bool {
    if line.len() == 0 {
        segs == seq![(0int, 0int, WrapType::SoftWrap)]
    } else {
        segs.len() >= 1 && seg_chain(segs, 0, line.len() as int, line)
    }
}

/// Either no layout is cached, or the cached one is consistent with the row.
pub open spec fn layout_ok_opt(l: Option<CachedLineLayout>, line: Seq<u8>) -> bool {
    match l {
        Some(cl) => layout_ok(cl, line),
        None => true,
    }
}

/// Buffer well-formedness.
pub open spec fn buffer_wf(m: BufferModel) -> bool {
    &&& m.lines.len() >= 1
    &&& m.layouts.len() == m.lines.len()
    &&& forall|i: int| 0 <= i < m.lines.len() ==> valid_utf8(#[trigger] m.lines[i])
    &&& doc_size(m.lines) + m.lines.len() <= usize::MAX
    &&& forall|i: int| 0 <= i < m.layouts.len() ==> layout_ok_opt(#[trigger] m.layouts[i], m.lines[i])
}

/// The segments of row `r`, an uncached row counting as one placeholder
/// segment covering the whole row.
pub open spec fn row_segs(m: BufferModel, r: int) -> Seq<(int, int, WrapType)> {
    match m.layouts[r] {
        Some(cl) => seg_ranges_kinds(cl.visual_lines@),
        None => seq![(0int, m.lines[r].len() as int, WrapType::SoftWrap)],
    }
}

/// Number of visual rows contributed by row `r`.
pub open spec fn row_seg_count(m: BufferModel, r: int) -> int {
    row_segs(m, r).len() as int
}

/// Number of visual rows contributed by the rows before `r`.
pub open spec fn vrows_before(m: BufferModel, r: int) -> int
    decreases r,
{
    if r <= 0 {
        0
    } else {
        vrows_before(m, r - 1) + row_seg_count(m, r - 1)
    }
}

/// Total visual rows of the whole document.
pub open spec fn total_vrows(m: BufferModel) -> int {
    vrows_before(m, m.lines.len() as int)
}

/// Index of the segment owning byte column `col`: the first segment whose
/// end lies beyond it, or the last segment for the row-final column.
pub open spec fn seg_index(segs: Seq<(int, int, WrapType)>, col: int) -> int
    decreases segs.len(),
{
    if segs.len() <= 1 {
        0
    } else if col < segs[0].1 {
        0
    } else {
        1 + seg_index(segs.drop_first(), col)
    }
}

/// Logical-to-visual translation.
pub open spec fn spec_b2v(m: BufferModel, pos: (int, int)) -> (int, int) {
    let segs = row_segs(m, pos.0);
    let k = seg_index(segs, pos.1);
    (vrows_before(m, pos.0) + k, pos.1 - segs[k].0)
}

/// Logical-to-visual translation of an arbitrary position: the row clamps
/// into the document and the column to the row end first.
pub open spec fn b2v_clamp(m: BufferModel, pos: (int, int)) -> (int, int) {
    let r = if pos.0 < m.lines.len() {
        pos.0
    } else {
        m.lines.len() - 1
    };
    let c = if pos.1 <= m.lines[r].len() {
        pos.1
    } else {
        m.lines[r].len() as int
    };
    spec_b2v(m, (r, c))
}

/// Visual-to-logical translation: walk rows, consuming each row's segment
/// count, and clamp the column into the owning segment.
pub open spec fn v2b_from(m: BufferModel, r: int, vrow: int, vcol: int) -> (int, int)
    decreases m.lines.len() - r,
    when 0 <= r <= m.lines.len()
{
    if r >= m.lines.len() {
        (m.lines.len() - 1, m.lines[m.lines.len() - 1].len() as int)
    } else {
        let segs = row_segs(m, r);
        if vrow < segs.len() {
            let seg = segs[vrow];
            let slen = seg.1 - seg.0;
            (
                r,
                seg.0 + if vcol <= slen {
                    vcol
                } else {
                    slen
                },
            )
        } else {
            v2b_from(m, r + 1, vrow - segs.len(), vcol)
        }
    }
}

pub open spec fn spec_v2b(m: BufferModel, v: (int, int)) -> (int, int) {
    v2b_from(m, 0, v.0, v.1)
}

/// Properties of the segment index for a column within the row.
pub proof fn lemma_seg_index(segs: Seq<(int, int, WrapType)>, from: int, to: int, line: Seq<u8>, col: int)
    requires
        segs.len() >= 1,
        seg_chain(segs, from, to, line),
        from <= col <= to,
    ensures
        0 <= seg_index(segs, col) < segs.len(),
        segs[seg_index(segs, col)].0 <= col,
        col <= segs[seg_index(segs, col)].1,
        col < to ==> col < segs[seg_index(segs, col)].1,
    decreases segs.len(),
{
    if segs.len() == 1 {
        assert(seg_chain(segs.drop_first(), segs[0].1, to, line));
        assert(segs.drop_first().len() == 0);
        assert(segs[0].1 == to);
    } else if col < segs[0].1 {
    } else {
        let rest = segs.drop_first();
        lemma_seg_index(rest, segs[0].1, to, line, col);
        assert(segs[1 + seg_index(rest, col)] == rest[seg_index(rest, col)]);
    }
}

/// Row segment counts are bounded by the row's byte length plus one.
pub proof fn lemma_row_seg_count_bound(m: BufferModel, r: int)
    requires
        buffer_wf(m),
        0 <= r < m.lines.len(),
    ensures
        1 <= row_seg_count(m, r) <= m.lines[r].len() + 1,
{
    match m.layouts[r] {
        None => {},
        Some(cl) => {
            let segs = seg_ranges_kinds(cl.visual_lines@);
            if m.lines[r].len() == 0 {
                assert(segs == seq![(0int, 0int, WrapType::SoftWrap)]);
                assert(segs.len() == 1);
            } else {
                lemma_chain_len(segs, 0, m.lines[r].len() as int, m.lines[r]);
            }
        },
    }
}

/// A chain of non-empty segments has at most `to - from` members.
pub proof fn lemma_chain_len(segs: Seq<(int, int, WrapType)>, from: int, to: int, line: Seq<u8>)
    requires
        seg_chain(segs, from, to, line),
    ensures
        segs.len() <= to - from,
        from <= to,
    decreases segs.len(),
{
    if segs.len() > 0 {
        lemma_chain_len(segs.drop_first(), segs[0].1, to, line);
    }
}

/// Visual row counts stay within machine bounds: the total is at most the
/// document size plus the row count.
pub proof fn lemma_vrows_bound(m: BufferModel, r: int)
    requires
        buffer_wf(m),
        0 <= r <= m.lines.len(),
    ensures
        r <= vrows_before(m, r) <= doc_size(m.lines.subrange(0, r)) + r,
    decreases r,
{
    if r > 0 {
        lemma_vrows_bound(m, r - 1);
        lemma_row_seg_count_bound(m, r - 1);
        assert(m.lines.subrange(0, r).drop_last() =~= m.lines.subrange(0, r - 1));
        lemma_doc_size_snoc(m.lines.subrange(0, r));
    }
}

/// Document size of a non-empty row sequence decomposes at its last row.
pub proof fn lemma_doc_size_snoc(lines: Seq<Seq<u8>>)
    requires
        lines.len() > 0,
    ensures
        doc_size(lines) == doc_size(lines.drop_last()) + lines.last().len(),
{
    assert(lines =~= lines.drop_last() + seq![lines.last()]);
    crate::edit::lemma_doc_size_concat(lines.drop_last(), seq![lines.last()]);
    crate::edit::lemma_doc_size_singleton(lines.last());
}

/// Prefix document sizes are bounded by the whole.
pub proof fn lemma_doc_size_prefix(lines: Seq<Seq<u8>>, r: int)
    requires
        0 <= r <= lines.len(),
    ensures
        0 <= doc_size(lines.subrange(0, r)) <= doc_size(lines),
{
    crate::edit::lemma_doc_size_nonneg(lines.subrange(0, r));
    assert(lines =~= lines.subrange(0, r) + lines.subrange(r, lines.len() as int));
    crate::edit::lemma_doc_size_concat(lines.subrange(0, r), lines.subrange(r, lines.len() as int));
    crate::edit::lemma_doc_size_nonneg(lines.subrange(r, lines.len() as int));
}

/// A text buffer: rows of UTF-8 text plus one optional cached layout per
/// row.
pub struct TextBuffer {
    lines: Vec<Vec<u8>>,
    line_layouts: Vec<Option<CachedLineLayout>>,
}

impl View for TextBuffer {
    type V = BufferModel;

    closed spec fn view(&self) -> BufferModel {
        BufferModel { lines: views_of(self.lines@), layouts: self.line_layouts@ }
    }
}

impl TextBuffer {
    /// An empty buffer: one empty row, nothing cached.
    pub fn new() -> (r: Self)
        ensures
            r@.lines =~= seq![Seq::<u8>::empty()],
            r@.layouts =~= seq![Option::<CachedLineLayout>::None],
            buffer_wf(r@),
    {
        let mut lines: Vec<Vec<u8>> = Vec::new();
        lines.push(Vec::new());
        let mut line_layouts: Vec<Option<CachedLineLayout>> = Vec::new();
        line_layouts.push(None);
        let r = Self { lines, line_layouts };
        proof {
            assert(r@.lines =~= seq![Seq::<u8>::empty()]);
            assert(valid_utf8(Seq::<u8>::empty()));
            assert(doc_size(r@.lines) == 0) by {
                crate::edit::lemma_doc_size_singleton(Seq::<u8>::empty());
            }
        }
        r
    }

    /// A buffer read from a string, split on `\n`; empty input maps to one
    /// empty row. Nothing is cached yet.
    pub fn from_string(content: String) -> (r: Self)
        requires
            encode_utf8(content@).len() < usize::MAX,
        ensures
            r@.lines == split_text(encode_utf8(content@)),
            forall|i: int| 0 <= i < r@.layouts.len() ==> r@.layouts[i] is None,
            buffer_wf(r@),
    {
        let bytes = content.as_str().as_bytes_vec();
        proof {
            encode_utf8_valid_utf8(content@);
        }
        let lines = split_lines(&bytes);
        let mut line_layouts: Vec<Option<CachedLineLayout>> = Vec::new();
        let mut i: usize = 0;
        let n = lines.len();
        while i < n
            invariant
                line_layouts@.len() == i,
                i <= n,
                forall|k: int| 0 <= k < i ==> line_layouts@[k] is None,
            decreases n - i,
        {
            line_layouts.push(None);
            i += 1;
        }
        let r = Self { lines, line_layouts };
        proof {
            lemma_split_rows(bytes@);
            lemma_split_nonempty(bytes@);
            lemma_split_sizes(bytes@);
        }
        r
    }

    /// The buffer serialised as a single string: rows joined with `\n`.
    pub fn to_string(&self) -> (r: String)
        requires
            buffer_wf(self@),
        ensures
            encode_utf8(r@) == join_text(self@.lines),
    {
        let joined = crate::state::join_lines(&self.lines);
        proof {
            lemma_join_valid(self@.lines);
        }
        crate::trusted::bytes_to_string(joined)
    }

    /// Number of rows.
    pub fn line_count(&self) -> (n: usize)
        ensures
            n == self@.lines.len(),
    {
        self.lines.len()
    }

    /// The bytes of row `row`, if it exists.
    pub fn line(&self, row: usize) -> (r: Option<&Vec<u8>>)
        ensures
            row < self@.lines.len() ==> (r matches Some(l) && l@ == self@.lines[row as int]),
            row >= self@.lines.len() ==> r is None,
    {
        if row < self.lines.len() {
            Some(&self.lines[row])
        } else {
            None
        }
    }

    /// Byte length of row `row`, or zero if it does not exist.
    pub fn line_len(&self, row: usize) -> (n: usize)
        ensures
            row < self@.lines.len() ==> n == self@.lines[row as int].len(),
            row >= self@.lines.len() ==> n == 0,
    {
        if row < self.lines.len() {
            self.lines[row].len()
        } else {
            0
        }
    }

    /// Drop the cached layout of one row.
    fn invalidate_layout(&mut self, row: usize)
        ensures
            final(self)@.lines == old(self)@.lines,
            final(self)@.layouts.len() == old(self)@.layouts.len(),
            row < old(self)@.layouts.len() ==> final(self)@.layouts =~= old(self)@.layouts.update(
                row as int,
                None,
            ),
            row >= old(self)@.layouts.len() ==> final(self)@.layouts == old(self)@.layouts,
    {
        if row < self.line_layouts.len() {
            self.line_layouts[row] = None;
        }
    }

    /// Drop every cached layout, as on a global font or width change.
    pub fn invalidate_all_layouts(&mut self)
        requires
            buffer_wf(old(self)@),
        ensures
            final(self)@.lines == old(self)@.lines,
            final(self)@.layouts.len() == old(self)@.layouts.len(),
            forall|i: int| 0 <= i < final(self)@.layouts.len() ==> final(self)@.layouts[i] is None,
            buffer_wf(final(self)@),
    {
        let n = self.line_layouts.len();
        let mut i: usize = 0;
        while i < n
            invariant
                n == self.line_layouts@.len(),
                i <= n,
                views_of(self.lines@) == old(self)@.lines,
                forall|k: int| 0 <= k < i ==> self.line_layouts@[k] is None,
            decreases n - i,
        {
            self.line_layouts[i] = None;
            i += 1;
        }
    }

    /// Ensure row `row` has a layout cached for exactly this font size and
    /// wrap width, reshaping from the supplied advance measurements when the
    /// cache is empty or was taken at other parameters. A cached entry whose
    /// stored parameters equal the arguments is reused untouched: `shaped`
    /// says exactly when a reshape happened.
    pub fn get_or_shape_line(
        &mut self,
        row: usize,
        font_size: u32,
        wrap_width: u64,
        advances: &Vec<u64>,
    ) -> (shaped: bool)
        requires
            buffer_wf(old(self)@),
            row < old(self)@.lines.len() ==> advances@.len() == old(self)@.lines[row as int].len()
                + 1,
        ensures
            buffer_wf(final(self)@),
            row >= old(self)@.lines.len() ==> final(self)@ == old(self)@ && !shaped,
            final(self)@.lines == old(self)@.lines,
            final(self)@.layouts.len() == old(self)@.layouts.len(),
            forall|i: int|
                0 <= i < final(self)@.layouts.len() && i != row ==> final(self)@.layouts[i] == old(
                    self,
                )@.layouts[i],
            row < old(self)@.lines.len() ==> (final(self)@.layouts[row as int] matches Some(cl)
                && cl.font_size == font_size && cl.wrap_width == wrap_width),
            shaped == (row < old(self)@.lines.len() && !(old(self)@.layouts[row as int] matches
            Some(cl) && cl.font_size == font_size && cl.wrap_width == wrap_width)),
            shaped ==> (final(self)@.layouts[row as int] matches Some(cl) && cl.advances@
                == advances@ && seg_ranges_kinds(cl.visual_lines@) == spec_wrap(
                old(self)@.lines[row as int],
                advances@,
                wrap_width,
            )),
            !shaped ==> final(self)@.layouts[row as int] == old(self)@.layouts[row as int],
    {
        if row >= self.lines.len() {
            return false;
        }
        let needs = match &self.line_layouts[row] {
            Some(cached) => cached.font_size != font_size || cached.wrap_width != wrap_width,
            None => true,
        };
        if !needs {
            return false;
        }
        let ghost line = old(self)@.lines[row as int];
        proof {
            assert(line == self.lines@[row as int]@);
        }
        let segs = compute_visual_lines(&self.lines[row], advances, wrap_width);
        let adv_copy = copy_u64s(advances);
        let cl = CachedLineLayout {
            advances: adv_copy,
            font_size,
            wrap_width,
            visual_lines: segs,
        };
        self.line_layouts[row] = Some(cl);
        proof {
            crate::wrap::lemma_wrap_partition(line, advances@, wrap_width);
            assert(segs_ok(spec_wrap(line, advances@, wrap_width), line)) by {
                if line.len() == 0 {
                    assert(spec_wrap(line, advances@, wrap_width) == seq![
                        (0int, 0int, WrapType::SoftWrap),
                    ]);
                } else {
                    crate::wrap::lemma_wrap_from_chain(line, advances@, wrap_width, 0, 0, None);
                }
            }
        }
        true
    }

    /// The cached wrapped segments of a row, if any.
    pub fn get_visual_lines(&self, row: usize) -> (r: Option<&Vec<VisualLine>>)
        ensures
            match r {
                Some(v) => row < self@.layouts.len() && (self@.layouts[row as int] matches Some(cl)
                    && v == cl.visual_lines),
                None => row >= self@.layouts.len() || self@.layouts[row as int] is None,
            },
    {
        if row < self.line_layouts.len() {
            match &self.line_layouts[row] {
                Some(cl) => Some(&cl.visual_lines),
                None => None,
            }
        } else {
            None
        }
    }
}

/// Copy an advance table.
fn copy_u64s(v: &Vec<u64>) -> (r: Vec<u64>)
    ensures
        r@ == v@,
{
    let mut r: Vec<u64> = Vec::new();
    let mut i: usize = 0;
    while i < v.len()
        invariant
            i <= v.len(),
            r@ =~= v@.subrange(0, i as int),
        decreases v.len() - i,
    {
        r.push(v[i]);
        i += 1;
    }
    proof {
        assert(r@ =~= v@);
    }
    r
}

/// Splitting text yields rows whose total size, counted with separators, is
/// one more than the input length.
pub proof fn lemma_split_sizes(b: Seq<u8>)
    ensures
        doc_size(split_text(b)) + split_text(b).len() == b.len() + 1,
    decreases b.len(),
{
    crate::state::lemma_find_nl(b, 0);
    let i = crate::state::find_nl(b, 0);
    if i == b.len() {
        crate::edit::lemma_doc_size_singleton(b);
    } else {
        let rest = b.subrange(i + 1, b.len() as int);
        lemma_split_sizes(rest);
        let parts = seq![b.subrange(0, i)] + split_text(rest);
        assert(parts.drop_first() =~= split_text(rest));
        crate::edit::lemma_doc_size_concat(seq![b.subrange(0, i)], split_text(rest));
        crate::edit::lemma_doc_size_singleton(b.subrange(0, i));
    }
}


impl TextBuffer {
    /// Segment count of one row, the placeholder counting as one.
    fn row_count_exec(&self, r: usize) -> (n: usize)
        requires
            buffer_wf(self@),
            r < self@.lines.len(),
        ensures
            n == row_seg_count(self@, r as int),
            1 <= n,
    {
        proof {
            lemma_row_seg_count_bound(self@, r as int);
        }
        match &self.line_layouts[r] {
            Some(cl) => cl.visual_lines.len(),
            None => 1,
        }
    }

    /// Total number of visual rows across the whole document, placeholder
    /// rows included.
    pub fn visual_line_count(&self) -> (n: usize)
        requires
            buffer_wf(self@),
        ensures
            n == total_vrows(self@),
    {
        let mut n: usize = 0;
        let mut r: usize = 0;
        let nrows = self.lines.len();
        while r < nrows
            invariant
                buffer_wf(self@),
                nrows == self@.lines.len(),
                r <= nrows,
                n == vrows_before(self@, r as int),
            decreases nrows - r,
        {
            proof {
                lemma_vrows_bound(self@, r as int + 1);
                lemma_doc_size_prefix(self@.lines, r as int + 1);
            }
            let c = self.row_count_exec(r);
            n = n + c;
            r += 1;
        }
        n
    }

    /// Translate a logical position to its wrapped visual position; the
    /// position clamps into the document first.
    pub fn buffer_to_visual(&self, pos: BufferPosition) -> (v: VisualPosition)
        requires
            buffer_wf(self@),
        ensures
            (v.visual_row as int, v.column as int) == b2v_clamp(
                self@,
                (pos.row as int, pos.column as int),
            ),
            pos.row < self@.lines.len() && pos.column <= self@.lines[pos.row as int].len() ==> (
            v.visual_row as int,
            v.column as int,
            ) == spec_b2v(self@, (pos.row as int, pos.column as int)),
    {
        let nrows = self.lines.len();
        let rr = if pos.row < nrows {
            pos.row
        } else {
            nrows - 1
        };
        let len = self.lines[rr].len();
        proof {
            assert(self@.lines[rr as int] == self.lines@[rr as int]@);
        }
        let cc = if pos.column <= len {
            pos.column
        } else {
            len
        };
        self.b2v_at(BufferPosition::new(rr, cc))
    }

    /// The translation itself, for an in-bounds position.
    fn b2v_at(&self, pos: BufferPosition) -> (v: VisualPosition)
        requires
            buffer_wf(self@),
            pos.row < self@.lines.len(),
            pos.column <= self@.lines[pos.row as int].len(),
        ensures
            (v.visual_row as int, v.column as int) == spec_b2v(
                self@,
                (pos.row as int, pos.column as int),
            ),
    {
        let mut base: usize = 0;
        let mut r: usize = 0;
        while r < pos.row
            invariant
                buffer_wf(self@),
                pos.row < self@.lines.len(),
                r <= pos.row,
                base == vrows_before(self@, r as int),
            decreases pos.row - r,
        {
            proof {
                lemma_vrows_bound(self@, r as int + 1);
                lemma_doc_size_prefix(self@.lines, r as int + 1);
            }
            let c = self.row_count_exec(r);
            base = base + c;
            r += 1;
        }
        let ghost m = self@;
        let ghost segsg = row_segs(m, pos.row as int);
        let ghost line = m.lines[pos.row as int];
        match &self.line_layouts[pos.row] {
            None => {
                proof {
                    assert(segsg =~= seq![(0int, line.len() as int, WrapType::SoftWrap)]);
                    assert(seg_index(segsg, pos.column as int) == 0);
                }
                VisualPosition::new(base, pos.column)
            },
            Some(cl) => {
                let segs = &cl.visual_lines;
                let mut k: usize = 0;
                proof {
                    assert(segsg == seg_ranges_kinds(cl.visual_lines@));
                    assert(segsg.len() >= 1);
                    assert(seg_index(segsg, pos.column as int) == k as int + seg_index(
                        segsg.subrange(k as int, segsg.len() as int),
                        pos.column as int,
                    )) by {
                        assert(segsg.subrange(0, segsg.len() as int) =~= segsg);
                    }
                }
                while k < segs.len() - 1 && pos.column >= segs[k].end
                    invariant
                        buffer_wf(self@),
                        m == self@,
                        pos.row < self@.lines.len(),
                        segsg == seg_ranges_kinds(cl.visual_lines@),
                        segsg == row_segs(m, pos.row as int),
                        self@.layouts[pos.row as int] matches Some(c) && c.visual_lines@
                            == cl.visual_lines@,
                        segs == cl.visual_lines,
                        segs@.len() == segsg.len(),
                        k < segsg.len(),
                        seg_index(segsg, pos.column as int) == k as int + seg_index(
                            segsg.subrange(k as int, segsg.len() as int),
                            pos.column as int,
                        ),
                    decreases segsg.len() - k,
                {
                    proof {
                        let tail = segsg.subrange(k as int, segsg.len() as int);
                        assert(tail.len() > 1);
                        assert(tail[0].1 == segs@[k as int].end as int);
                        assert(tail.drop_first() =~= segsg.subrange(
                            k as int + 1,
                            segsg.len() as int,
                        ));
                    }
                    k += 1;
                }
                proof {
                    let tail = segsg.subrange(k as int, segsg.len() as int);
                    assert(tail[0] == segsg[k as int]);
                    if k + 1 == segs.len() {
                        assert(tail.len() == 1);
                        assert(seg_index(tail, pos.column as int) == 0);
                    } else {
                        assert(pos.column < segs@[k as int].end);
                        assert(seg_index(tail, pos.column as int) == 0);
                    }
                    assert(seg_index(segsg, pos.column as int) == k as int);
                    lemma_b2v_col_in_seg(m, pos.row as int, pos.column as int);
                    assert(segsg[k as int] == (
                        segs@[k as int].start as int,
                        segs@[k as int].end as int,
                        segs@[k as int].wrap_type,
                    ));
                    assert(segs@[k as int].start <= pos.column);
                    lemma_vrows_bound(m, m.lines.len() as int);
                    lemma_vrows_mono(m, pos.row as int + 1, m.lines.len() as int);
                    assert(m.lines.subrange(0, m.lines.len() as int) =~= m.lines);
                    lemma_doc_size_prefix(m.lines, m.lines.len() as int);
                    assert(vrows_before(m, pos.row as int + 1) == vrows_before(
                        m,
                        pos.row as int,
                    ) + row_seg_count(m, pos.row as int));
                    assert(base + k < vrows_before(m, pos.row as int + 1));
                }
                VisualPosition::new(base + k, pos.column - segs[k].start)
            },
        }
    }

    /// Translate a wrapped visual position back to a logical position,
    /// clamping the column into its segment.
    pub fn visual_to_buffer(&self, vpos: VisualPosition) -> (pos: BufferPosition)
        requires
            buffer_wf(self@),
        ensures
            (pos.row as int, pos.column as int) == spec_v2b(
                self@,
                (vpos.visual_row as int, vpos.column as int),
            ),
    {
        let ghost m = self@;
        let mut r: usize = 0;
        let mut vrow = vpos.visual_row;
        let nrows = self.lines.len();
        while r < nrows
            invariant
                buffer_wf(self@),
                m == self@,
                nrows == self@.lines.len(),
                r <= nrows,
                v2b_from(m, 0, vpos.visual_row as int, vpos.column as int) == v2b_from(
                    m,
                    r as int,
                    vrow as int,
                    vpos.column as int,
                ),
            decreases nrows - r,
        {
            let ghost segsg = row_segs(m, r as int);
            let cnt = self.row_count_exec(r);
            if vrow < cnt {
                match &self.line_layouts[r] {
                    None => {
                        let len = self.lines[r].len();
                        let c = if vpos.column <= len {
                            vpos.column
                        } else {
                            len
                        };
                        proof {
                            assert(segsg[vrow as int] == (0int, m.lines[r as int].len() as int, WrapType::SoftWrap));
                        }
                        return BufferPosition::new(r, c);
                    },
                    Some(cl) => {
                        let seg = cl.visual_lines[vrow];
                        proof {
                            assert(segsg[vrow as int] == (seg.start as int, seg.end as int, seg.wrap_type));
                            lemma_segs_ok_bounds(m, r as int, vrow as int);
                        }
                        let slen = seg.end - seg.start;
                        let c = seg.start + (if vpos.column <= slen {
                            vpos.column
                        } else {
                            slen
                        });
                        return BufferPosition::new(r, c);
                    },
                }
            }
            vrow = vrow - cnt;
            r += 1;
        }
        let last = self.lines.len() - 1;
        let len = self.lines[last].len();
        proof {
            assert(m.lines[last as int] == self.lines@[last as int]@);
        }
        BufferPosition::new(last, len)
    }

    /// Step the cursor one visual row up, staying in the same on-screen
    /// column.
    pub fn move_visual_up(&self, pos: BufferPosition) -> (r: BufferPosition)
        requires
            buffer_wf(self@),
        ensures
            ({
                let v = b2v_clamp(self@, (pos.row as int, pos.column as int));
                if v.0 == 0 {
                    r == pos
                } else {
                    (r.row as int, r.column as int) == spec_v2b(self@, (v.0 - 1, v.1))
                }
            }),
    {
        let v = self.buffer_to_visual(pos);
        if v.visual_row == 0 {
            return pos;
        }
        self.visual_to_buffer(VisualPosition::new(v.visual_row - 1, v.column))
    }

    /// Step the cursor one visual row down, staying in the same on-screen
    /// column.
    pub fn move_visual_down(&self, pos: BufferPosition) -> (r: BufferPosition)
        requires
            buffer_wf(self@),
        ensures
            ({
                let v = b2v_clamp(self@, (pos.row as int, pos.column as int));
                if v.0 >= total_vrows(self@) - 1 {
                    r == pos
                } else {
                    (r.row as int, r.column as int) == spec_v2b(self@, (v.0 + 1, v.1))
                }
            }),
    {
        let v = self.buffer_to_visual(pos);
        let total = self.visual_line_count();
        let max_visual_row = if total > 0 {
            total - 1
        } else {
            0
        };
        if v.visual_row >= max_visual_row {
            proof {
                lemma_total_vrows_pos(self@);
            }
            return pos;
        }
        self.visual_to_buffer(VisualPosition::new(v.visual_row + 1, v.column))
    }
}

/// Visual row counts are monotone in the row index.
pub proof fn lemma_vrows_mono(m: BufferModel, a: int, b: int)
    requires
        buffer_wf(m),
        0 <= a <= b <= m.lines.len(),
    ensures
        vrows_before(m, a) <= vrows_before(m, b),
    decreases b - a,
{
    if a < b {
        lemma_vrows_mono(m, a + 1, b);
        lemma_row_seg_count_bound(m, a);
    }
}

/// There is always at least one visual row.
pub proof fn lemma_total_vrows_pos(m: BufferModel)
    requires
        buffer_wf(m),
    ensures
        total_vrows(m) >= 1,
{
    lemma_vrows_bound(m, m.lines.len() as int);
}

/// The owning segment found by `seg_index` brackets the column.
pub proof fn lemma_b2v_col_in_seg(m: BufferModel, r: int, col: int)
    requires
        buffer_wf(m),
        0 <= r < m.lines.len(),
        0 <= col <= m.lines[r].len(),
    ensures
        ({
            let segs = row_segs(m, r);
            let k = seg_index(segs, col);
            &&& 0 <= k < segs.len()
            &&& segs[k].0 <= col <= segs[k].1
        }),
{
    let segs = row_segs(m, r);
    let line = m.lines[r];
    match m.layouts[r] {
        None => {
            assert(seg_index(segs, col) == 0);
        },
        Some(cl) => {
            if line.len() == 0 {
                assert(segs == seq![(0int, 0int, WrapType::SoftWrap)]);
                assert(seg_index(segs, col) == 0);
            } else {
                lemma_seg_index(segs, 0, line.len() as int, line, col);
            }
        },
    }
}

/// Segment bounds within a well-formed layout.
pub proof fn lemma_segs_ok_bounds(m: BufferModel, r: int, k: int)
    requires
        buffer_wf(m),
        0 <= r < m.lines.len(),
        0 <= k < row_segs(m, r).len(),
    ensures
        0 <= row_segs(m, r)[k].0 <= row_segs(m, r)[k].1 <= m.lines[r].len(),
{
    let segs = row_segs(m, r);
    let line = m.lines[r];
    match m.layouts[r] {
        None => {},
        Some(cl) => {
            if line.len() == 0 {
                assert(segs == seq![(0int, 0int, WrapType::SoftWrap)]);
            } else {
                crate::wrap::lemma_chain_props(segs, 0, line.len() as int, line);
            }
        },
    }
}


/// Index of the first segment whose range contains the column, for
/// segment-at-position queries: the first `k` with `col <= end_k`.
pub open spec fn bracket_index(segs: Seq<(int, int, WrapType)>, col: int) -> int
    decreases segs.len(),
{
    if segs.len() <= 1 {
        0
    } else if col <= segs[0].1 {
        0
    } else {
        1 + bracket_index(segs.drop_first(), col)
    }
}

/// `bracket_index` is pinned by "first segment whose end reaches the
/// column".
proof fn lemma_bracket_at(segs: Seq<(int, int, WrapType)>, k: int, col: int)
    requires
        0 <= k < segs.len(),
        col <= segs[k].1,
        forall|j: int| 0 <= j < k ==> col > (#[trigger] segs[j]).1,
    ensures
        bracket_index(segs, col) == k,
    decreases k,
{
    if k > 0 {
        let rest = segs.drop_first();
        assert forall|j: int| 0 <= j < k - 1 implies col > (#[trigger] rest[j]).1 by {
            assert(rest[j] == segs[j + 1]);
        }
        assert(rest[k - 1] == segs[k]);
        lemma_bracket_at(rest, k - 1, col);
        assert(col > segs[0].1);
    }
}

/// Whether a visual position addresses a column its owning segment can
/// represent: strictly inside the segment, or at its end when it is the last
/// segment of its row.
pub open spec fn vpos_fits_from(m: BufferModel, r: int, vrow: int, vcol: int) -> bool
    decreases m.lines.len() - r,
    when 0 <= r <= m.lines.len()
{
    if r >= m.lines.len() {
        false
    } else {
        let segs = row_segs(m, r);
        if vrow < segs.len() {
            let seg = segs[vrow];
            vcol < seg.1 - seg.0 || (vcol == seg.1 - seg.0 && vrow == segs.len() - 1)
        } else {
            vpos_fits_from(m, r + 1, vrow - segs.len(), vcol)
        }
    }
}

pub open spec fn vpos_fits(m: BufferModel, vrow: int, vcol: int) -> bool {
    vpos_fits_from(m, 0, vrow, vcol)
}

/// `seg_index` recovers the segment a column was addressed through, for
/// columns strictly inside it or at the very end of the row.
proof fn lemma_seg_index_exact(
    segs: Seq<(int, int, WrapType)>,
    from: int,
    to: int,
    line: Seq<u8>,
    k: int,
    col: int,
)
    requires
        seg_chain(segs, from, to, line),
        0 <= k < segs.len(),
        segs[k].0 <= col,
        col < segs[k].1 || (col == segs[k].1 && k == segs.len() - 1),
    ensures
        seg_index(segs, col) == k,
    decreases segs.len(),
{
    if k == 0 {
        if segs.len() > 1 {
            assert(col < segs[0].1);
        }
    } else {
        let rest = segs.drop_first();
        crate::wrap::lemma_chain_props(segs, from, to, line);
        assert(rest[k - 1] == segs[k]);
        crate::wrap::lemma_chain_props(rest, segs[0].1, to, line);
        assert(segs[0].1 <= segs[k].0);
        assert(!(col < segs[0].1));
        assert(segs.len() > 1);
        lemma_seg_index_exact(rest, segs[0].1, to, line, k - 1, col);
    }
}

/// Visual round trip: translating a representable visual position to the
/// buffer and back is the identity.
pub proof fn lemma_visual_round_trip(m: BufferModel, vrow: int, vcol: int)
    requires
        buffer_wf(m),
        0 <= vcol,
        0 <= vrow,
        vpos_fits(m, vrow, vcol),
    ensures
        spec_b2v(m, spec_v2b(m, (vrow, vcol))) == (vrow, vcol),
{
    lemma_round_trip_from(m, 0, vrow, vcol);
}

proof fn lemma_round_trip_from(m: BufferModel, r: int, vrow: int, vcol: int)
    requires
        buffer_wf(m),
        0 <= r <= m.lines.len(),
        0 <= vcol,
        0 <= vrow,
        vpos_fits_from(m, r, vrow, vcol),
    ensures
        spec_b2v(m, v2b_from(m, r, vrow, vcol)) == (vrows_before(m, r) + vrow, vcol),
    decreases m.lines.len() - r,
{
    let segs = row_segs(m, r);
    if vrow < segs.len() {
        let seg = segs[vrow];
        let line = m.lines[r];
        assert(vcol <= seg.1 - seg.0);
        let col = seg.0 + vcol;
        assert(v2b_from(m, r, vrow, vcol) == (r, col));
        match m.layouts[r] {
            None => {
                assert(segs =~= seq![(0int, line.len() as int, WrapType::SoftWrap)]);
                assert(vrow == 0);
                assert(seg_index(segs, col) == 0);
            },
            Some(cl) => {
                if line.len() == 0 {
                    assert(segs == seq![(0int, 0int, WrapType::SoftWrap)]);
                    assert(vrow == 0 && vcol == 0);
                    assert(seg_index(segs, col) == 0);
                } else {
                    lemma_seg_index_exact(segs, 0, line.len() as int, line, vrow, col);
                }
            },
        }
        assert(spec_b2v(m, (r, col)) == (vrows_before(m, r) + vrow, vcol));
    } else {
        lemma_round_trip_from(m, r + 1, vrow - segs.len(), vcol);
    }
}

impl TextBuffer {
    /// The segment of the cached layout that brackets a position, with its
    /// local index: the first segment whose range contains the column.
    pub fn get_visual_line_at_position(&self, pos: BufferPosition) -> (r: Option<
        (usize, VisualLine),
    >)
        requires
            buffer_wf(self@),
        ensures
            r is Some <==> (pos.row < self@.lines.len() && self@.layouts[pos.row as int] is Some
                && pos.column <= self@.lines[pos.row as int].len()),
            r matches Some((k, seg)) ==> (self@.layouts[pos.row as int] matches Some(cl) && k
                < cl.visual_lines@.len() && seg == cl.visual_lines@[k as int]
                && seg.start <= pos.column <= seg.end && k as int == bracket_index(
                row_segs(self@, pos.row as int),
                pos.column as int,
            )),
    {
        let ghost m = self@;
        if pos.row >= self.lines.len() {
            return None;
        }
        proof {
            assert(m.lines[pos.row as int] == self.lines@[pos.row as int]@);
        }
        if pos.column > self.lines[pos.row].len() {
            return None;
        }
        match &self.line_layouts[pos.row] {
            None => None,
            Some(cl) => {
                let segs = &cl.visual_lines;
                let mut k: usize = 0;
                let nsegs = segs.len();
                let ghost segsg = seg_ranges_kinds(cl.visual_lines@);
                let ghost line = m.lines[pos.row as int];
                proof {
                    lemma_segs_end(m, pos.row as int);
                    if line.len() > 0 {
                        crate::wrap::lemma_chain_props(segsg, 0, line.len() as int, line);
                    }
                }
                while !(segs[k].start <= pos.column && pos.column <= segs[k].end)
                    invariant
                        buffer_wf(self@),
                        m == self@,
                        line == m.lines[pos.row as int],
                        pos.row < self@.lines.len(),
                        pos.column <= line.len(),
                        self@.layouts[pos.row as int] matches Some(c) && c.visual_lines@
                            == cl.visual_lines@,
                        segs == cl.visual_lines,
                        segsg == seg_ranges_kinds(cl.visual_lines@),
                        segs@.len() == segsg.len(),
                        nsegs == segs@.len(),
                        k < nsegs,
                        segs@[segs@.len() - 1].end == line.len(),
                        forall|j: int| 0 <= j < k ==> pos.column > (#[trigger] segs@[j]).end,
                    decreases segs@.len() - k,
                {
                    proof {
                        assert(segsg[k as int] == (
                            segs@[k as int].start as int,
                            segs@[k as int].end as int,
                            segs@[k as int].wrap_type,
                        ));
                        assert(pos.column >= segs@[k as int].start) by {
                            if k == 0 {
                                if line.len() == 0 {
                                    assert(segsg == seq![(0int, 0int, WrapType::SoftWrap)]);
                                    assert(segsg[0] == (0int, 0int, WrapType::SoftWrap));
                                } else {
                                    assert(segsg[0].0 == 0);
                                }
                            } else {
                                assert(segsg[k as int - 1] == (
                                    segs@[k as int - 1].start as int,
                                    segs@[k as int - 1].end as int,
                                    segs@[k as int - 1].wrap_type,
                                ));
                                if line.len() > 0 {
                                    crate::wrap::lemma_chain_props(
                                        segsg,
                                        0,
                                        line.len() as int,
                                        line,
                                    );
                                    assert(segsg[k as int - 1].1 == segsg[k as int].0);
                                }
                                assert(pos.column > segs@[k as int - 1].end);
                            }
                        }
                        assert(pos.column > segs@[k as int].end);
                        if k + 1 == nsegs {
                            assert(segs@[k as int].end == line.len());
                            assert(false);
                        }
                        assert(k + 1 < nsegs);
                    }
                    k += 1;
                }
                proof {
                    assert(segsg[k as int] == (
                        segs@[k as int].start as int,
                        segs@[k as int].end as int,
                        segs@[k as int].wrap_type,
                    ));
                    assert forall|j: int| 0 <= j < k implies pos.column > (#[trigger] segsg[j]).1
                        by {
                        assert(segsg[j] == (
                            segs@[j].start as int,
                            segs@[j].end as int,
                            segs@[j].wrap_type,
                        ));
                    }
                    lemma_bracket_at(segsg, k as int, pos.column as int);
                }
                Some((k, segs[k]))
            },
        }
    }

    /// Start of the visual segment the position lies on, or column zero when
    /// the row is not cached.
    pub fn visual_line_start(&self, pos: BufferPosition) -> (r: BufferPosition)
        requires
            buffer_wf(self@),
        ensures
            r.row == pos.row,
            !(pos.row < self@.lines.len() && self@.layouts[pos.row as int] is Some && pos.column
                <= self@.lines[pos.row as int].len()) ==> r.column == 0,
            pos.row < self@.lines.len() && self@.layouts[pos.row as int] is Some && pos.column
                <= self@.lines[pos.row as int].len() ==> ({
                let segs = row_segs(self@, pos.row as int);
                &&& r.column as int == segs[bracket_index(segs, pos.column as int)].0
                &&& r.column <= pos.column
                &&& is_char_boundary(self@.lines[pos.row as int], r.column as int)
            }),
    {
        match self.get_visual_line_at_position(pos) {
            Some((k, seg)) => {
                proof {
                    lemma_seg_boundaries(self@, pos.row as int, k as int);
                }
                BufferPosition::new(pos.row, seg.start)
            },
            None => BufferPosition::new(pos.row, 0),
        }
    }

    /// End of the visual segment the position lies on, or the row end when
    /// the row is not cached.
    pub fn visual_line_end(&self, pos: BufferPosition) -> (r: BufferPosition)
        requires
            buffer_wf(self@),
        ensures
            r.row == pos.row,
            !(pos.row < self@.lines.len() && self@.layouts[pos.row as int] is Some && pos.column
                <= self@.lines[pos.row as int].len()) ==> r.column as int == (if pos.row
                < self@.lines.len() {
                self@.lines[pos.row as int].len() as int
            } else {
                0
            }),
            pos.row < self@.lines.len() && self@.layouts[pos.row as int] is Some && pos.column
                <= self@.lines[pos.row as int].len() ==> ({
                let segs = row_segs(self@, pos.row as int);
                &&& r.column as int == segs[bracket_index(segs, pos.column as int)].1
                &&& pos.column <= r.column <= self@.lines[pos.row as int].len()
                &&& is_char_boundary(self@.lines[pos.row as int], r.column as int)
            }),
    {
        match self.get_visual_line_at_position(pos) {
            Some((k, seg)) => {
                proof {
                    lemma_seg_boundaries(self@, pos.row as int, k as int);
                }
                BufferPosition::new(pos.row, seg.end)
            },
            None => {
                let len = if pos.row < self.lines.len() {
                    proof {
                        assert(self@.lines[pos.row as int] == self.lines@[pos.row as int]@);
                    }
                    self.lines[pos.row].len()
                } else {
                    0
                };
                BufferPosition::new(pos.row, len)
            },
        }
    }
}

/// The last cached segment of a row ends at the row's end.
proof fn lemma_segs_end(m: BufferModel, r: int)
    requires
        buffer_wf(m),
        0 <= r < m.lines.len(),
        m.layouts[r] is Some,
    ensures
        ({
            let segs = m.layouts[r]->Some_0.visual_lines@;
            &&& segs.len() >= 1
            &&& segs[segs.len() - 1].end == m.lines[r].len()
            &&& segs[segs.len() - 1].start <= segs[segs.len() - 1].end
        }),
{
    let cl = m.layouts[r]->Some_0;
    let segs = seg_ranges_kinds(cl.visual_lines@);
    let line = m.lines[r];
    if line.len() == 0 {
        assert(segs == seq![(0int, 0int, WrapType::SoftWrap)]);
        assert(segs[0] == (0int, 0int, WrapType::SoftWrap));
    } else {
        crate::wrap::lemma_chain_props(segs, 0, line.len() as int, line);
    }
    assert(segs[segs.len() - 1] == (
        cl.visual_lines@[segs.len() - 1].start as int,
        cl.visual_lines@[segs.len() - 1].end as int,
        cl.visual_lines@[segs.len() - 1].wrap_type,
    ));
}

/// Cached segment starts and ends are character boundaries within the row.
proof fn lemma_seg_boundaries(m: BufferModel, r: int, k: int)
    requires
        buffer_wf(m),
        0 <= r < m.lines.len(),
        m.layouts[r] is Some,
        0 <= k < m.layouts[r]->Some_0.visual_lines@.len(),
    ensures
        ({
            let seg = m.layouts[r]->Some_0.visual_lines@[k];
            &&& seg.start <= seg.end <= m.lines[r].len()
            &&& is_char_boundary(m.lines[r], seg.start as int)
            &&& is_char_boundary(m.lines[r], seg.end as int)
        }),
{
    let cl = m.layouts[r]->Some_0;
    let segs = seg_ranges_kinds(cl.visual_lines@);
    let line = m.lines[r];
    assert(segs[k] == (
        cl.visual_lines@[k].start as int,
        cl.visual_lines@[k].end as int,
        cl.visual_lines@[k].wrap_type,
    ));
    if line.len() == 0 {
        assert(segs == seq![(0int, 0int, WrapType::SoftWrap)]);
        assert(segs[0] == (0int, 0int, WrapType::SoftWrap));
        assert(is_char_boundary(line, 0));
    } else {
        crate::wrap::lemma_chain_props(segs, 0, line.len() as int, line);
    }
}


// ---------------------------------------------------------------------
// Text mutation. Every mutation invalidates the affected row's layout and
// moves the unaffected rows' layouts along with their rows.
// ---------------------------------------------------------------------

/// Rows after inserting split text parts at `(r, c)`: a single part splices
/// into the row; several parts split it, the first joining the head, the
/// last joining the tail.
pub open spec fn insert_parts_lines(
    lines: Seq<Seq<u8>>,
    r: int,
    c: int,
    parts: Seq<Seq<u8>>,
) -> Seq<Seq<u8>> {
    let line = lines[r];
    if parts.len() <= 1 {
        lines.update(r, crate::text::splice(line, c, c, parts[0]))
    } else {
        lines.subrange(0, r) + seq![line.subrange(0, c) + parts[0]] + parts.subrange(
            1,
            parts.len() - 1,
        ) + seq![parts.last() + line.subrange(c, line.len() as int)] + lines.subrange(
            r + 1,
            lines.len() as int,
        )
    }
}

/// Layouts after the same insertion: the row is invalidated and one empty
/// slot appears per added row.
pub open spec fn insert_parts_layouts(
    layouts: Seq<Option<CachedLineLayout>>,
    r: int,
    k: int,
) -> Seq<Option<CachedLineLayout>> {
    layouts.subrange(0, r) + Seq::new((k + 1) as nat, |i: int| Option::<CachedLineLayout>::None)
        + layouts.subrange(r + 1, layouts.len() as int)
}

impl TextBuffer {
    /// Insert one character at a position; a newline splits the row. A row
    /// index past the end is ignored.
    pub fn insert_char(&mut self, pos: BufferPosition, ch: char)
        requires
            buffer_wf(old(self)@),
            pos.row < old(self)@.lines.len() ==> pos.column <= old(self)@.lines[pos.row as int].len()
                && is_char_boundary(old(self)@.lines[pos.row as int], pos.column as int),
            doc_size(old(self)@.lines) + old(self)@.lines.len() + 5 <= usize::MAX,
        ensures
            buffer_wf(final(self)@),
            pos.row >= old(self)@.lines.len() ==> final(self)@ == old(self)@,
            pos.row < old(self)@.lines.len() && ch == '\n' ==> ({
                let line = old(self)@.lines[pos.row as int];
                &&& final(self)@.lines =~= old(self)@.lines.update(
                    pos.row as int,
                    line.subrange(0, pos.column as int),
                ).insert(pos.row as int + 1, line.subrange(pos.column as int, line.len() as int))
                &&& final(self)@.layouts =~= old(self)@.layouts.update(pos.row as int, None).insert(
                    pos.row as int + 1,
                    None,
                )
            }),
            pos.row < old(self)@.lines.len() && ch != '\n' ==> ({
                let line = old(self)@.lines[pos.row as int];
                &&& final(self)@.lines =~= old(self)@.lines.update(
                    pos.row as int,
                    crate::text::splice(line, pos.column as int, pos.column as int, encode_scalar(ch as u32)),
                )
                &&& final(self)@.layouts =~= old(self)@.layouts.update(pos.row as int, None)
            }),
    {
        let ghost m = old(self)@;
        if pos.row >= self.lines.len() {
            return ;
        }
        let r = pos.row;
        let c = pos.column;
        let ghost line = m.lines[r as int];
        proof {
            assert(line == self.lines@[r as int]@);
            crate::edit::lemma_row_le_doc_size(m.lines, r as int);
        }
        if ch == '\n' {
            let before = crate::text::sub_bytes(&self.lines[r], 0, c);
            let after = crate::text::sub_bytes(&self.lines[r], c, self.lines[r].len());
            proof {
                valid_utf8_split(line, c as int);
            }
            self.lines[r] = before;
            let ghost mid = self.lines@;
            self.lines.insert(r + 1, after);
            self.line_layouts[r] = None;
            let ghost midl = self.line_layouts@;
            self.line_layouts.insert(r + 1, None);
            proof {
                crate::state::lemma_views_of_update(old(self).lines@, r as int, mid[r as int]);
                crate::state::lemma_views_of_insert(mid, r as int + 1, self.lines@[r as int + 1]);
                assert(final(self)@.lines =~= m.lines.update(
                    r as int,
                    line.subrange(0, c as int),
                ).insert(r as int + 1, line.subrange(c as int, line.len() as int)));
                assert(final(self)@.layouts =~= m.layouts.update(r as int, None).insert(
                    r as int + 1,
                    None,
                ));
                lemma_insert_split_wf(m, r as int, c as int);
            }
        } else {
            let b = crate::text::encode_char(ch);
            let newrow = crate::text::splice_bytes(&self.lines[r], c, c, &b);
            proof {
                crate::text::lemma_splice_valid(line, c as int, c as int, b@);
            }
            self.lines[r] = newrow;
            self.line_layouts[r] = None;
            proof {
                crate::state::lemma_views_of_update(old(self).lines@, r as int, newrow);
                assert(final(self)@.lines =~= m.lines.update(
                    r as int,
                    crate::text::splice(line, c as int, c as int, encode_scalar(ch as u32)),
                ));
                assert(final(self)@.layouts =~= m.layouts.update(r as int, None));
                lemma_update_row_wf(m, r as int, final(self)@.lines[r as int], 4);
            }
        }
    }

    /// Delete the character at a position, or merge the next row up when the
    /// position sits at the row end. Returns whether anything changed.
    pub fn delete_char(&mut self, pos: BufferPosition) -> (changed: bool)
        requires
            buffer_wf(old(self)@),
            pos.row < old(self)@.lines.len() ==> pos.column <= old(self)@.lines[pos.row as int].len()
                && is_char_boundary(old(self)@.lines[pos.row as int], pos.column as int),
        ensures
            buffer_wf(final(self)@),
            pos.row >= old(self)@.lines.len() ==> final(self)@ == old(self)@ && !changed,
            pos.row < old(self)@.lines.len() ==> ({
                let line = old(self)@.lines[pos.row as int];
                let r = pos.row as int;
                let c = pos.column as int;
                if c < line.len() {
                    let n = crate::edit::next_boundary(line, c);
                    &&& changed
                    &&& final(self)@.lines =~= old(self)@.lines.update(
                        r,
                        line.subrange(0, c) + line.subrange(n, line.len() as int),
                    )
                    &&& final(self)@.layouts =~= old(self)@.layouts.update(r, None)
                } else if r + 1 < old(self)@.lines.len() {
                    &&& changed
                    &&& final(self)@.lines =~= old(self)@.lines.update(
                        r,
                        line + old(self)@.lines[r + 1],
                    ).remove(r + 1)
                    &&& final(self)@.layouts =~= old(self)@.layouts.update(r, None).remove(r + 1)
                } else {
                    final(self)@ == old(self)@ && !changed
                }
            }),
    {
        let ghost m = old(self)@;
        if pos.row >= self.lines.len() {
            return false;
        }
        let r = pos.row;
        let c = pos.column;
        let ghost line = m.lines[r as int];
        proof {
            assert(line == self.lines@[r as int]@);
        }
        let row_len = self.lines[r].len();
        if c < row_len {
            let n = crate::text::char_len_at(&self.lines[r], c);
            let empty: Vec<u8> = Vec::new();
            let newrow = crate::text::splice_bytes(&self.lines[r], c, c + n, &empty);
            proof {
                crate::text::lemma_splice_valid(line, c as int, c as int + n as int, Seq::<u8>::empty());
                assert(newrow@ =~= line.subrange(0, c as int) + line.subrange(
                    c as int + n as int,
                    line.len() as int,
                ));
            }
            self.lines[r] = newrow;
            self.line_layouts[r] = None;
            proof {
                crate::state::lemma_views_of_update(old(self).lines@, r as int, newrow);
                assert(final(self)@.lines =~= m.lines.update(r as int, newrow@));
                assert(final(self)@.layouts =~= m.layouts.update(r as int, None));
                lemma_update_row_wf(m, r as int, newrow@, 0);
                crate::edit::lemma_doc_size_update(m.lines, r as int, newrow@);
            }
            true
        } else if r < self.lines.len() - 1 {
            let removed = self.lines.remove(r + 1);
            let merged = crate::text::concat_bytes(&self.lines[r], &removed);
            proof {
                crate::text::lemma_concat_boundary(m.lines[r as int], m.lines[r as int + 1]);
            }
            self.lines[r] = merged;
            self.line_layouts[r] = None;
            self.line_layouts.remove(r + 1);
            proof {
                lemma_merge_next_wf(m, r as int, final(self)@);
            }
            true
        } else {
            false
        }
    }

    /// Delete the character that ends at a position, or merge the row into
    /// the previous one at column zero. Returns whether anything changed.
    pub fn backspace(&mut self, pos: BufferPosition) -> (changed: bool)
        requires
            buffer_wf(old(self)@),
            pos.row < old(self)@.lines.len(),
            pos.column <= old(self)@.lines[pos.row as int].len(),
        ensures
            buffer_wf(final(self)@),
            ({
                let line = old(self)@.lines[pos.row as int];
                let r = pos.row as int;
                let c = pos.column as int;
                if c > 0 {
                    // mid-character columns snap back: the whole character
                    // covering the nearest boundary at or before `c - 1` goes
                    let j = crate::edit::snap_back(line, c - 1);
                    let nb = crate::edit::next_boundary(line, j);
                    &&& changed
                    &&& final(self)@.lines =~= old(self)@.lines.update(
                        r,
                        line.subrange(0, j) + line.subrange(nb, line.len() as int),
                    )
                    &&& final(self)@.layouts =~= old(self)@.layouts.update(r, None)
                } else if r > 0 {
                    &&& changed
                    &&& final(self)@.lines =~= old(self)@.lines.update(
                        r - 1,
                        old(self)@.lines[r - 1] + line,
                    ).remove(r)
                    &&& final(self)@.layouts =~= old(self)@.layouts.update(r - 1, None).remove(r)
                } else {
                    final(self)@ == old(self)@ && !changed
                }
            }),
    {
        let ghost m = old(self)@;
        let r = pos.row;
        let c = pos.column;
        let ghost line = m.lines[r as int];
        proof {
            assert(line == self.lines@[r as int]@);
        }
        if c > 0 {
            let j = crate::edit::snap_col(&self.lines[r], c - 1);
            let n = crate::text::char_len_at(&self.lines[r], j);
            let empty: Vec<u8> = Vec::new();
            let newrow = crate::text::splice_bytes(&self.lines[r], j, j + n, &empty);
            proof {
                crate::text::lemma_splice_valid(
                    line,
                    j as int,
                    j as int + n as int,
                    Seq::<u8>::empty(),
                );
                assert(j as int + n as int == crate::edit::next_boundary(line, j as int));
                assert(newrow@ =~= line.subrange(0, j as int) + line.subrange(
                    j as int + n as int,
                    line.len() as int,
                ));
            }
            self.lines[r] = newrow;
            self.line_layouts[r] = None;
            proof {
                crate::state::lemma_views_of_update(old(self).lines@, r as int, newrow);
                assert(final(self)@.lines =~= m.lines.update(r as int, newrow@));
                assert(final(self)@.layouts =~= m.layouts.update(r as int, None));
                lemma_update_row_wf(m, r as int, newrow@, 0);
                crate::edit::lemma_doc_size_update(m.lines, r as int, newrow@);
            }
            true
        } else if r > 0 {
            let removed = self.lines.remove(r);
            let merged = crate::text::concat_bytes(&self.lines[r - 1], &removed);
            proof {
                crate::text::lemma_concat_boundary(m.lines[r as int - 1], m.lines[r as int]);
            }
            self.lines[r - 1] = merged;
            self.line_layouts[r - 1] = None;
            self.line_layouts.remove(r);
            proof {
                lemma_merge_next_wf(m, r as int - 1, final(self)@);
            }
            true
        } else {
            false
        }
    }

    /// The absolute byte offset of a position in the serialised document,
    /// counting one separator byte per earlier row.
    pub fn position_to_byte_offset(&self, pos: BufferPosition) -> (off: usize)
        requires
            buffer_wf(self@),
        ensures
            off == spec_byte_offset(self@.lines, pos.row as int, pos.column as int),
    {
        let mut off: usize = 0;
        let mut r: usize = 0;
        let top = if pos.row < self.lines.len() {
            pos.row
        } else {
            self.lines.len()
        };
        while r < top
            invariant
                buffer_wf(self@),
                top <= self@.lines.len(),
                r <= top,
                off == rows_offset(self@.lines, r as int),
            decreases top - r,
        {
            proof {
                lemma_rows_offset_bound(self@.lines, r as int + 1);
                lemma_doc_size_prefix(self@.lines, r as int + 1);
                assert(self@.lines[r as int] == self.lines@[r as int]@);
            }
            off = off + self.lines[r].len() + 1;
            r += 1;
        }
        if pos.row < self.lines.len() {
            let len = self.lines[pos.row].len();
            let c = if pos.column < len {
                pos.column
            } else {
                len
            };
            proof {
                assert(self@.lines[pos.row as int] == self.lines@[pos.row as int]@);
                lemma_rows_offset_bound(self@.lines, pos.row as int + 1);
                lemma_doc_size_prefix(self@.lines, pos.row as int + 1);
                assert(rows_offset(self@.lines, pos.row as int + 1) == rows_offset(
                    self@.lines,
                    pos.row as int,
                ) + self@.lines[pos.row as int].len() + 1);
            }
            off + c
        } else {
            off
        }
    }
}

/// Byte offset of `(row, col)` in the serialised document.
pub open spec fn spec_byte_offset(lines: Seq<Seq<u8>>, row: int, col: int) -> int {
    let r = if row < lines.len() {
        row
    } else {
        lines.len() as int
    };
    rows_offset(lines, r) + if row < lines.len() {
        let l = lines[row].len() as int;
        if col < l {
            col
        } else {
            l
        }
    } else {
        0
    }
}

/// Combined byte length, with separators, of the first `r` rows.
pub open spec fn rows_offset(lines: Seq<Seq<u8>>, r: int) -> int
    decreases r,
{
    if r <= 0 {
        0
    } else {
        rows_offset(lines, r - 1) + lines[r - 1].len() + 1
    }
}

pub proof fn lemma_rows_offset_bound(lines: Seq<Seq<u8>>, r: int)
    requires
        0 <= r <= lines.len(),
    ensures
        r <= rows_offset(lines, r) <= doc_size(lines.subrange(0, r)) + r,
    decreases r,
{
    if r > 0 {
        lemma_rows_offset_bound(lines, r - 1);
        assert(lines.subrange(0, r).drop_last() =~= lines.subrange(0, r - 1));
        lemma_doc_size_snoc(lines.subrange(0, r));
    }
}

/// Updating one row to a value at most `extra` bytes longer keeps the buffer
/// well formed when the headroom allows.
proof fn lemma_update_row_wf(m: BufferModel, r: int, newrow: Seq<u8>, extra: int)
    requires
        buffer_wf(m),
        0 <= r < m.lines.len(),
        valid_utf8(newrow),
        newrow.len() <= m.lines[r].len() + extra,
        doc_size(m.lines) + m.lines.len() + extra <= usize::MAX,
    ensures
        buffer_wf(
            BufferModel { lines: m.lines.update(r, newrow), layouts: m.layouts.update(r, None) },
        ),
{
    let m2 = BufferModel {
        lines: m.lines.update(r, newrow),
        layouts: m.layouts.update(r, None),
    };
    crate::edit::lemma_doc_size_update(m.lines, r, newrow);
    assert forall|i: int| 0 <= i < m2.lines.len() implies valid_utf8(#[trigger] m2.lines[i]) by {
        if i != r {
            assert(m2.lines[i] == m.lines[i]);
        }
    }
    assert forall|i: int|
        0 <= i < m2.layouts.len() implies layout_ok_opt(#[trigger] m2.layouts[i], m2.lines[i]) by {
        if i != r {
            assert(m2.layouts[i] == m.layouts[i]);
            assert(m2.lines[i] == m.lines[i]);
        }
    }
}

/// Merging row `r + 1` into row `r` (with its layout dropped and the slot
/// removed) keeps the buffer well formed.
proof fn lemma_merge_next_wf(m: BufferModel, r: int, m2: BufferModel)
    requires
        buffer_wf(m),
        0 <= r,
        r + 1 < m.lines.len(),
        m2.lines =~= m.lines.update(r, m.lines[r] + m.lines[r + 1]).remove(r + 1),
        m2.layouts =~= m.layouts.update(r, None).remove(r + 1),
    ensures
        buffer_wf(m2),
{
    let merged = m.lines[r] + m.lines[r + 1];
    valid_utf8_concat(m.lines[r], m.lines[r + 1]);
    m.lines.update(r, merged).remove_ensures(r + 1);
    m.layouts.update(r, None).remove_ensures(r + 1);
    assert forall|i: int| 0 <= i < m2.lines.len() implies valid_utf8(#[trigger] m2.lines[i]) by {
        if i < r {
            assert(m2.lines[i] == m.lines[i]);
        } else if i == r {
            assert(m2.lines[i] == merged);
        } else {
            assert(m2.lines[i] == m.lines[i + 1]);
        }
    }
    assert(doc_size(m2.lines) <= doc_size(m.lines)) by {
        lemma_doc_size_remove_merge(m.lines, r);
    }
    assert forall|i: int|
        0 <= i < m2.layouts.len() implies layout_ok_opt(#[trigger] m2.layouts[i], m2.lines[i]) by {
        if i < r {
            assert(m2.layouts[i] == m.layouts[i]);
            assert(m2.lines[i] == m.lines[i]);
        } else if i == r {
            assert(m2.layouts[i] is None);
        } else {
            assert(m2.layouts[i] == m.layouts[i + 1]);
            assert(m2.lines[i] == m.lines[i + 1]);
        }
    }
}

proof fn lemma_doc_size_remove_merge(lines: Seq<Seq<u8>>, r: int)
    requires
        0 <= r,
        r + 1 < lines.len(),
    ensures
        doc_size(lines.update(r, lines[r] + lines[r + 1]).remove(r + 1)) == doc_size(lines),
{
    let merged = lines[r] + lines[r + 1];
    let m2 = lines.update(r, merged).remove(r + 1);
    assert(m2 =~= lines.subrange(0, r) + seq![merged] + lines.subrange(r + 2, lines.len() as int));
    assert(lines =~= lines.subrange(0, r) + seq![lines[r]] + seq![lines[r + 1]] + lines.subrange(
        r + 2,
        lines.len() as int,
    ));
    crate::edit::lemma_doc_size_concat(
        lines.subrange(0, r) + seq![merged],
        lines.subrange(r + 2, lines.len() as int),
    );
    crate::edit::lemma_doc_size_concat(lines.subrange(0, r), seq![merged]);
    crate::edit::lemma_doc_size_singleton(merged);
    crate::edit::lemma_doc_size_concat(
        lines.subrange(0, r) + seq![lines[r]] + seq![lines[r + 1]],
        lines.subrange(r + 2, lines.len() as int),
    );
    crate::edit::lemma_doc_size_concat(lines.subrange(0, r) + seq![lines[r]], seq![lines[r + 1]]);
    crate::edit::lemma_doc_size_concat(lines.subrange(0, r), seq![lines[r]]);
    crate::edit::lemma_doc_size_singleton(lines[r]);
    crate::edit::lemma_doc_size_singleton(lines[r + 1]);
}

/// Splitting one row in two (both layout slots empty) keeps the buffer well
/// formed.
#[verifier::rlimit(50)]
proof fn lemma_insert_split_wf(m: BufferModel, r: int, c: int)
    requires
        buffer_wf(m),
        0 <= r < m.lines.len(),
        0 <= c <= m.lines[r].len(),
        is_char_boundary(m.lines[r], c),
        doc_size(m.lines) + m.lines.len() + 1 <= usize::MAX,
    ensures
        buffer_wf(
            BufferModel {
                lines: m.lines.update(r, m.lines[r].subrange(0, c)).insert(
                    r + 1,
                    m.lines[r].subrange(c, m.lines[r].len() as int),
                ),
                layouts: m.layouts.update(r, None).insert(r + 1, None),
            },
        ),
{
    let line = m.lines[r];
    let head = line.subrange(0, c);
    let tail = line.subrange(c, line.len() as int);
    valid_utf8_split(line, c);
    let l2 = m.lines.update(r, head).insert(r + 1, tail);
    let y2 = m.layouts.update(r, None).insert(r + 1, None);
    m.lines.update(r, head).insert_ensures(r + 1, tail);
    m.layouts.update(r, None).insert_ensures(r + 1, None);
    assert forall|i: int| 0 <= i < l2.len() implies valid_utf8(#[trigger] l2[i]) by {
        if i < r {
            assert(l2[i] == m.lines[i]);
        } else if i == r {
            assert(l2[i] == head);
        } else if i == r + 1 {
            assert(l2[i] == tail);
        } else {
            assert(l2[i] == m.lines[i - 1]);
        }
    }
    assert(doc_size(l2) == doc_size(m.lines)) by {
        lemma_doc_size_split_rows(m.lines, r, c);
    }
    assert forall|i: int|
        0 <= i < y2.len() implies layout_ok_opt(#[trigger] y2[i], l2[i]) by {
        if i < r {
            assert(y2[i] == m.layouts[i]);
            assert(l2[i] == m.lines[i]);
        } else if i == r || i == r + 1 {
            assert(y2[i] is None);
        } else {
            assert(y2[i] == m.layouts[i - 1]);
            assert(l2[i] == m.lines[i - 1]);
        }
    }
}

proof fn lemma_doc_size_split_rows(lines: Seq<Seq<u8>>, r: int, c: int)
    requires
        0 <= r < lines.len(),
        0 <= c <= lines[r].len(),
    ensures
        doc_size(
            lines.update(r, lines[r].subrange(0, c)).insert(
                r + 1,
                lines[r].subrange(c, lines[r].len() as int),
            ),
        ) == doc_size(lines),
{
    let line = lines[r];
    let head = line.subrange(0, c);
    let tail = line.subrange(c, line.len() as int);
    let l2 = lines.update(r, head).insert(r + 1, tail);
    assert(l2 =~= lines.subrange(0, r) + seq![head] + seq![tail] + lines.subrange(
        r + 1,
        lines.len() as int,
    )) by {
        lines.update(r, head).insert_ensures(r + 1, tail);
    }
    assert(lines =~= lines.subrange(0, r) + seq![line] + lines.subrange(r + 1, lines.len() as int));
    crate::edit::lemma_doc_size_concat(
        lines.subrange(0, r) + seq![head] + seq![tail],
        lines.subrange(r + 1, lines.len() as int),
    );
    crate::edit::lemma_doc_size_concat(lines.subrange(0, r) + seq![head], seq![tail]);
    crate::edit::lemma_doc_size_concat(lines.subrange(0, r), seq![head]);
    crate::edit::lemma_doc_size_concat(lines.subrange(0, r) + seq![line], lines.subrange(r + 1, lines.len() as int));
    crate::edit::lemma_doc_size_concat(lines.subrange(0, r), seq![line]);
    crate::edit::lemma_doc_size_singleton(head);
    crate::edit::lemma_doc_size_singleton(tail);
    crate::edit::lemma_doc_size_singleton(line);
}


impl TextBuffer {
    /// Insert a string at a position; embedded newlines split the row into
    /// further rows. A row index past the end is ignored.
    pub fn insert_str(&mut self, pos: BufferPosition, text: &str)
        requires
            buffer_wf(old(self)@),
            pos.row < old(self)@.lines.len() ==> pos.column <= old(self)@.lines[pos.row as int].len()
                && is_char_boundary(old(self)@.lines[pos.row as int], pos.column as int),
            doc_size(old(self)@.lines) + old(self)@.lines.len() + encode_utf8(text@).len()
                <= usize::MAX,
        ensures
            buffer_wf(final(self)@),
            pos.row >= old(self)@.lines.len() ==> final(self)@ == old(self)@,
            pos.row < old(self)@.lines.len() ==> ({
                let parts = split_text(encode_utf8(text@));
                &&& final(self)@.lines =~= insert_parts_lines(
                    old(self)@.lines,
                    pos.row as int,
                    pos.column as int,
                    parts,
                )
                &&& final(self)@.layouts =~= (if parts.len() <= 1 {
                    old(self)@.layouts.update(pos.row as int, None)
                } else {
                    insert_parts_layouts(old(self)@.layouts, pos.row as int, parts.len() - 1)
                })
            }),
    {
        let ghost m = old(self)@;
        if pos.row >= self.lines.len() {
            return ;
        }
        let r = pos.row;
        let c = pos.column;
        let ghost line = m.lines[r as int];
        proof {
            assert(line == self.lines@[r as int]@);
            encode_utf8_valid_utf8(text@);
        }
        let bytes = text.as_bytes_vec();
        let parts = split_lines(&bytes);
        let ghost partsg = split_text(bytes@);
        proof {
            lemma_split_rows(bytes@);
            lemma_split_sizes(bytes@);
            crate::edit::lemma_row_le_doc_size(m.lines, r as int);
            crate::edit::lemma_doc_size_nonneg(partsg);
        }
        if parts.len() == 1 {
            proof {
                assert(parts@[0]@ == partsg[0]);
                assert(partsg.len() == 1);
                assert(partsg[0].len() <= doc_size(partsg)) by {
                    crate::edit::lemma_row_le_doc_size(partsg, 0);
                }
            }
            let newrow = crate::text::splice_bytes(&self.lines[r], c, c, &parts[0]);
            proof {
                crate::text::lemma_splice_valid(line, c as int, c as int, partsg[0]);
            }
            self.lines[r] = newrow;
            self.line_layouts[r] = None;
            proof {
                crate::state::lemma_views_of_update(old(self).lines@, r as int, newrow);
                assert(final(self)@.lines =~= m.lines.update(
                    r as int,
                    crate::text::splice(line, c as int, c as int, partsg[0]),
                ));
                assert(final(self)@.layouts =~= m.layouts.update(r as int, None));
                lemma_update_row_wf(m, r as int, newrow@, partsg[0].len() as int);
            }
            return ;
        }
        let ghost k = partsg.len() - 1;
        let before = crate::text::sub_bytes(&self.lines[r], 0, c);
        let after = crate::text::sub_bytes(&self.lines[r], c, self.lines[r].len());
        proof {
            valid_utf8_split(line, c as int);
        }
        let first = crate::text::concat_bytes(&before, &parts[0]);
        self.lines[r] = first;
        self.line_layouts[r] = None;
        let ghost target = insert_parts_lines(m.lines, r as int, c as int, partsg);
        let ghost ltarget = insert_parts_layouts(m.layouts, r as int, k);
        proof {
            crate::state::lemma_views_of_update(old(self).lines@, r as int, first);
            assert(target.len() == m.lines.len() + k);
            assert(ltarget.len() == m.layouts.len() + k);
        }
        let mut i: usize = 1;
        let n = parts.len();
        while i < n
            invariant
                1 <= i <= n,
                n == partsg.len(),
                n >= 2,
                k == partsg.len() - 1,
                r < m.lines.len(),
                0 <= c <= line.len(),
                line == m.lines[r as int],
                views_of(parts@) == partsg,
                parts@.len() == n,
                target == insert_parts_lines(m.lines, r as int, c as int, partsg),
                ltarget == insert_parts_layouts(m.layouts, r as int, k),
                after@ == line.subrange(c as int, line.len() as int),
                self.lines@.len() == m.lines.len() + i - 1,
                self.line_layouts@.len() == m.layouts.len() + i - 1,
                m.layouts.len() == m.lines.len(),
                forall|j: int|
                    0 <= j < self.lines@.len() ==> views_of(self.lines@)[j] == (if j < r + i {
                        seg_or_target(target, m.lines, r as int, c as int, partsg, j, i as int)
                    } else {
                        m.lines[j - (i - 1)]
                    }),
                forall|j: int|
                    0 <= j < self.line_layouts@.len() ==> self.line_layouts@[j] == (if j < r + i {
                        if r as int <= j {
                            Option::<CachedLineLayout>::None
                        } else {
                            m.layouts[j]
                        }
                    } else {
                        m.layouts[j - (i - 1)]
                    }),
            decreases n - i,
        {
            let rowvec = if i == n - 1 {
                crate::text::concat_bytes(&parts[i], &after)
            } else {
                crate::text::copy_bytes(&parts[i])
            };
            let ghost lines_before = self.lines@;
            let ghost lay_before = self.line_layouts@;
            let cur = self.lines.len();
            let curl = self.line_layouts.len();
            proof {
                assert(r + i <= cur);
                assert(r + i <= curl);
            }
            self.lines.insert(r + i, rowvec);
            self.line_layouts.insert(r + i, None);
            proof {
                crate::state::lemma_views_of_insert(lines_before, r as int + i as int, rowvec);
                views_of(lines_before).insert_ensures(r as int + i as int, rowvec@);
                lay_before.insert_ensures(r as int + i as int, Option::<CachedLineLayout>::None);
            }
            i += 1;
        }
        proof {
            assert forall|j: int| 0 <= j < target.len() implies views_of(self.lines@)[j]
                == target[j] by {
                if j < r + n {
                    assert(views_of(self.lines@)[j] == seg_or_target(
                        target,
                        m.lines,
                        r as int,
                        c as int,
                        partsg,
                        j,
                        n as int,
                    ));
                } else {
                    assert(views_of(self.lines@)[j] == m.lines[j - k]);
                    assert(target[j] == m.lines[j - k]);
                }
            }
            assert(final(self)@.lines =~= target);
            assert forall|j: int| 0 <= j < ltarget.len() implies self.line_layouts@[j]
                == ltarget[j] by {
                if j < r {
                    assert(ltarget[j] == m.layouts[j]);
                } else if j <= r + k {
                    assert(ltarget[j] is None);
                } else {
                    assert(ltarget[j] == m.layouts[j - k]);
                }
            }
            assert(final(self)@.layouts =~= ltarget);
            lemma_insert_parts_wf(m, r as int, c as int, partsg, bytes@.len() as int);
        }
    }
}

/// The row value at index `j` once the first `i` parts are in place.
pub open spec fn seg_or_target(
    target: Seq<Seq<u8>>,
    lines: Seq<Seq<u8>>,
    r: int,
    c: int,
    parts: Seq<Seq<u8>>,
    j: int,
    i: int,
) -> Seq<u8> {
    if j < r {
        lines[j]
    } else if j == r {
        lines[r].subrange(0, c) + parts[0]
    } else if j < r + i - 1 {
        parts[j - r]
    } else if j == r + i - 1 && i == parts.len() {
        parts.last() + lines[r].subrange(c, lines[r].len() as int)
    } else {
        parts[j - r]
    }
}

/// A multi-part insertion keeps the buffer well formed.
proof fn lemma_insert_parts_wf(m: BufferModel, r: int, c: int, parts: Seq<Seq<u8>>, blen: int)
    requires
        buffer_wf(m),
        0 <= r < m.lines.len(),
        0 <= c <= m.lines[r].len(),
        is_char_boundary(m.lines[r], c),
        parts.len() >= 2,
        forall|i: int| 0 <= i < parts.len() ==> valid_utf8(#[trigger] parts[i]),
        doc_size(parts) + parts.len() == blen + 1,
        doc_size(m.lines) + m.lines.len() + blen <= usize::MAX,
    ensures
        buffer_wf(
            BufferModel {
                lines: insert_parts_lines(m.lines, r, c, parts),
                layouts: insert_parts_layouts(m.layouts, r, parts.len() - 1),
            },
        ),
{
    let line = m.lines[r];
    let l2 = insert_parts_lines(m.lines, r, c, parts);
    let y2 = insert_parts_layouts(m.layouts, r, parts.len() - 1);
    let k = parts.len() - 1;
    valid_utf8_split(line, c);
    assert(l2.len() == m.lines.len() + k);
    assert(y2.len() == m.layouts.len() + k);
    assert forall|i: int| 0 <= i < l2.len() implies valid_utf8(#[trigger] l2[i]) by {
        if i < r {
            assert(l2[i] == m.lines[i]);
        } else if i == r {
            assert(l2[i] == line.subrange(0, c) + parts[0]);
            valid_utf8_concat(line.subrange(0, c), parts[0]);
        } else if i < r + k {
            assert(l2[i] == parts[i - r]);
        } else if i == r + k {
            assert(l2[i] == parts.last() + line.subrange(c, line.len() as int));
            valid_utf8_concat(parts.last(), line.subrange(c, line.len() as int));
        } else {
            assert(l2[i] == m.lines[i - k]);
        }
    }
    assert forall|i: int|
        0 <= i < y2.len() implies layout_ok_opt(#[trigger] y2[i], l2[i]) by {
        if i < r {
            assert(y2[i] == m.layouts[i]);
            assert(l2[i] == m.lines[i]);
        } else if i <= r + k {
            assert(y2[i] is None);
        } else {
            assert(y2[i] == m.layouts[i - k]);
            assert(l2[i] == m.lines[i - k]);
        }
    }
    assert(doc_size(l2) + l2.len() <= usize::MAX) by {
        lemma_insert_parts_size(m.lines, r, c, parts);
        crate::edit::lemma_doc_size_nonneg(parts);
    }
}

proof fn lemma_insert_parts_size(lines: Seq<Seq<u8>>, r: int, c: int, parts: Seq<Seq<u8>>)
    requires
        0 <= r < lines.len(),
        0 <= c <= lines[r].len(),
        parts.len() >= 2,
    ensures
        doc_size(insert_parts_lines(lines, r, c, parts)) == doc_size(lines) + doc_size(parts),
{
    let line = lines[r];
    let head = line.subrange(0, c) + parts[0];
    let tail = parts.last() + line.subrange(c, line.len() as int);
    let mids = parts.subrange(1, parts.len() - 1);
    let l2 = insert_parts_lines(lines, r, c, parts);
    assert(l2 == lines.subrange(0, r) + seq![head] + mids + seq![tail] + lines.subrange(
        r + 1,
        lines.len() as int,
    ));
    crate::edit::lemma_doc_size_concat(
        lines.subrange(0, r) + seq![head] + mids + seq![tail],
        lines.subrange(r + 1, lines.len() as int),
    );
    crate::edit::lemma_doc_size_concat(lines.subrange(0, r) + seq![head] + mids, seq![tail]);
    crate::edit::lemma_doc_size_concat(lines.subrange(0, r) + seq![head], mids);
    crate::edit::lemma_doc_size_concat(lines.subrange(0, r), seq![head]);
    crate::edit::lemma_doc_size_singleton(head);
    crate::edit::lemma_doc_size_singleton(tail);
    assert(lines =~= lines.subrange(0, r) + seq![line] + lines.subrange(r + 1, lines.len() as int));
    crate::edit::lemma_doc_size_concat(
        lines.subrange(0, r) + seq![line],
        lines.subrange(r + 1, lines.len() as int),
    );
    crate::edit::lemma_doc_size_concat(lines.subrange(0, r), seq![line]);
    crate::edit::lemma_doc_size_singleton(line);
    assert(parts =~= seq![parts[0]] + mids + seq![parts.last()]);
    crate::edit::lemma_doc_size_concat(seq![parts[0]] + mids, seq![parts.last()]);
    crate::edit::lemma_doc_size_concat(seq![parts[0]], mids);
    crate::edit::lemma_doc_size_singleton(parts[0]);
    crate::edit::lemma_doc_size_singleton(parts.last());
}


impl TextBuffer {
    /// Delete the text between two positions (in either order); both rows
    /// merge into one and the rows between them disappear.
    pub fn delete_range(&mut self, start: BufferPosition, end: BufferPosition)
        requires
            buffer_wf(old(self)@),
            start.row < old(self)@.lines.len(),
            start.column <= old(self)@.lines[start.row as int].len(),
            is_char_boundary(old(self)@.lines[start.row as int], start.column as int),
            end.row < old(self)@.lines.len(),
            end.column <= old(self)@.lines[end.row as int].len(),
            is_char_boundary(old(self)@.lines[end.row as int], end.column as int),
        ensures
            buffer_wf(final(self)@),
            start == end ==> final(self)@ == old(self)@,
            start != end ==> ({
                let s = if crate::edit::pos_lt(
                    (end.row as int, end.column as int),
                    (start.row as int, start.column as int),
                ) {
                    (end.row as int, end.column as int)
                } else {
                    (start.row as int, start.column as int)
                };
                let e = if crate::edit::pos_lt(
                    (end.row as int, end.column as int),
                    (start.row as int, start.column as int),
                ) {
                    (start.row as int, start.column as int)
                } else {
                    (end.row as int, end.column as int)
                };
                &&& final(self)@.lines =~= crate::edit::delete_range_lines(old(self)@.lines, s, e)
                &&& final(self)@.layouts =~= old(self)@.layouts.subrange(0, s.0) + seq![
                    Option::<CachedLineLayout>::None,
                ] + old(self)@.layouts.subrange(e.0 + 1, old(self)@.layouts.len() as int)
            }),
    {
        let ghost m = old(self)@;
        if start.row == end.row && start.column == end.column {
            proof {
                assert(start == end);
            }
            return ;
        }
        let (s, e) = if start.row > end.row || (start.row == end.row && start.column > end.column) {
            (end, start)
        } else {
            (start, end)
        };
        let ghost sg = (s.row as int, s.column as int);
        let ghost eg = (e.row as int, e.column as int);
        let first = crate::text::sub_bytes(&self.lines[s.row], 0, s.column);
        let last = crate::text::sub_bytes(&self.lines[e.row], e.column, self.lines[e.row].len());
        let merged = crate::text::concat_bytes(&first, &last);
        proof {
            valid_utf8_split(m.lines[sg.0], sg.1);
            valid_utf8_split(m.lines[eg.0], eg.1);
            valid_utf8_concat(m.lines[sg.0].subrange(0, sg.1), m.lines[eg.0].subrange(eg.1, m.lines[eg.0].len() as int));
        }
        self.lines[s.row] = merged;
        self.line_layouts[s.row] = None;
        proof {
            crate::state::lemma_views_of_update(old(self).lines@, sg.0, self.lines@[sg.0]);
        }
        let ghost v0 = views_of(self.lines@);
        let ghost y0 = self.line_layouts@;
        let mut k: usize = 0;
        let n = e.row - s.row;
        while k < n
            invariant
                k <= n,
                sg == (s.row as int, s.column as int),
                eg == (e.row as int, e.column as int),
                n == eg.0 - sg.0,
                0 <= sg.0,
                sg.0 + 1 + n <= v0.len(),
                st_len(self.lines@) == v0.len() - k,
                self.line_layouts@.len() == y0.len() - k,
                v0.len() == m.lines.len(),
                y0.len() == m.layouts.len(),
                y0.len() == v0.len(),
                views_of(self.lines@) =~= v0.subrange(0, sg.0 + 1) + v0.subrange(
                    sg.0 + 1 + k,
                    v0.len() as int,
                ),
                self.line_layouts@ =~= y0.subrange(0, sg.0 + 1) + y0.subrange(
                    sg.0 + 1 + k,
                    y0.len() as int,
                ),
            decreases n - k,
        {
            let ghost before = self.lines@;
            let ghost lbefore = self.line_layouts@;
            self.lines.remove(s.row + 1);
            self.line_layouts.remove(s.row + 1);
            proof {
                crate::state::lemma_views_of_remove(before, sg.0 + 1);
                views_of(before).remove_ensures(sg.0 + 1);
                lbefore.remove_ensures(sg.0 + 1);
                assert(views_of(self.lines@) =~= v0.subrange(0, sg.0 + 1) + v0.subrange(
                    sg.0 + 1 + (k + 1),
                    v0.len() as int,
                ));
                assert(self.line_layouts@ =~= y0.subrange(0, sg.0 + 1) + y0.subrange(
                    sg.0 + 1 + (k + 1),
                    y0.len() as int,
                ));
            }
            k += 1;
        }
        proof {
            let target = crate::edit::delete_range_lines(m.lines, sg, eg);
            assert forall|i: int| 0 <= i < views_of(self.lines@).len() implies views_of(
                self.lines@,
            )[i] == target[i] by {
                if i < sg.0 {
                    assert(v0[i] == m.lines[i]);
                } else if i == sg.0 {
                } else {
                    assert(views_of(self.lines@)[i] == v0[i + n]);
                    assert(v0[i + n] == m.lines[i + n]);
                }
            }
            assert(views_of(self.lines@) =~= target);
            let ltarget = m.layouts.subrange(0, sg.0) + seq![Option::<CachedLineLayout>::None]
                + m.layouts.subrange(eg.0 + 1, m.layouts.len() as int);
            assert forall|i: int| 0 <= i < self.line_layouts@.len() implies self.line_layouts@[i]
                == ltarget[i] by {
                if i < sg.0 {
                    assert(y0[i] == m.layouts[i]);
                } else if i == sg.0 {
                    assert(y0[i] is None);
                } else {
                    assert(self.line_layouts@[i] == y0[i + n]);
                    assert(y0[i + n] == m.layouts[i + n]);
                }
            }
            assert(self.line_layouts@ =~= ltarget);
            lemma_delete_range_buffer_wf(m, sg, eg);
        }
    }
}

/// Row count of a line vector, as a spec abbreviation for loop invariants.
pub open spec fn st_len(v: Seq<Vec<u8>>) -> int {
    v.len() as int
}

/// A range deletion with its layout bookkeeping keeps the buffer well
/// formed.
proof fn lemma_delete_range_buffer_wf(m: BufferModel, s: (int, int), e: (int, int))
    requires
        buffer_wf(m),
        0 <= s.0 <= e.0 < m.lines.len(),
        0 <= s.1 <= m.lines[s.0].len(),
        0 <= e.1 <= m.lines[e.0].len(),
        s.0 == e.0 ==> s.1 <= e.1,
        is_char_boundary(m.lines[s.0], s.1),
        is_char_boundary(m.lines[e.0], e.1),
    ensures
        buffer_wf(
            BufferModel {
                lines: crate::edit::delete_range_lines(m.lines, s, e),
                layouts: m.layouts.subrange(0, s.0) + seq![Option::<CachedLineLayout>::None]
                    + m.layouts.subrange(e.0 + 1, m.layouts.len() as int),
            },
        ),
{
    let l2 = crate::edit::delete_range_lines(m.lines, s, e);
    let y2 = m.layouts.subrange(0, s.0) + seq![Option::<CachedLineLayout>::None]
        + m.layouts.subrange(e.0 + 1, m.layouts.len() as int);
    valid_utf8_split(m.lines[s.0], s.1);
    valid_utf8_split(m.lines[e.0], e.1);
    valid_utf8_concat(
        m.lines[s.0].subrange(0, s.1),
        m.lines[e.0].subrange(e.1, m.lines[e.0].len() as int),
    );
    assert forall|i: int| 0 <= i < l2.len() implies valid_utf8(#[trigger] l2[i]) by {
        if i < s.0 {
            assert(l2[i] == m.lines[i]);
        } else if i == s.0 {
        } else {
            assert(l2[i] == m.lines[i + (e.0 - s.0)]);
        }
    }
    crate::edit::lemma_doc_size_delete_range(m.lines, s, e);
    assert forall|i: int|
        0 <= i < y2.len() implies layout_ok_opt(#[trigger] y2[i], l2[i]) by {
        if i < s.0 {
            assert(y2[i] == m.layouts[i]);
            assert(l2[i] == m.lines[i]);
        } else if i == s.0 {
            assert(y2[i] is None);
        } else {
            assert(y2[i] == m.layouts[i + (e.0 - s.0)]);
            assert(l2[i] == m.lines[i + (e.0 - s.0)]);
        }
    }
}

} // verus!
