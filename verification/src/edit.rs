//! Document transformations: the mathematical model of every edit the engine
//! can perform, and the verified primitives that realise it on `EditorState`.

use vstd::prelude::*;
use vstd::utf8::*;

use crate::pos::BufferPosition;
use crate::state::{lines_wf, pos_wf, state_wf, views_of, EditorState, StateModel};
use crate::text::{
    char_len_at, concat_bytes, copy_bytes, lemma_boundary_char, lemma_concat_boundary,
    lemma_splice_boundary, lemma_splice_valid, lemma_step_boundary, lemma_suffix_first_scalar,
    prev_char_start, splice, splice_bytes, sub_bytes,
};

verus! {

broadcast use vstd::seq_lib::group_seq_lib_default, vstd::seq::group_seq_axioms;

/// Strict document order on positions: row first, then column.
pub open spec fn pos_lt(a: (int, int), b: (int, int)) -> bool {
    a.0 < b.0 || (a.0 == b.0 && a.1 < b.1)
}

/// The selection as an ordered (start, end) pair, if an anchor is set.
pub open spec fn sel_range(m: StateModel) -> Option<((int, int), (int, int))> {
    match m.anchor {
        None => None,
        Some(a) => if pos_lt(a, m.cursor) {
            Some((a, m.cursor))
        } else {
            Some((m.cursor, a))
        },
    }
}

/// Rows after deleting the range `[s, e)`: the partial start and end rows
/// merge into one, rows strictly between them disappear.
pub open spec fn delete_range_lines(lines: Seq<Seq<u8>>, s: (int, int), e: (int, int)) -> Seq<
    Seq<u8>,
> {
    lines.subrange(0, s.0) + seq![
        lines[s.0].subrange(0, s.1) + lines[e.0].subrange(e.1, lines[e.0].len() as int),
    ] + lines.subrange(e.0 + 1, lines.len() as int)
}

/// The state once an active selection has been deleted: cursor collapses to
/// the range start and the anchor is cleared. Without a selection the state
/// is unchanged.
pub open spec fn after_sel_delete(m: StateModel) -> StateModel {
    match sel_range(m) {
        None => m,
        Some((s, e)) => StateModel {
            lines: delete_range_lines(m.lines, s, e),
            cursor: s,
            anchor: None,
            ..m
        },
    }
}

/// The state after inserting bytes (one character, or a newline-free run) at
/// the cursor: the cursor moves past the insertion.
pub open spec fn insert_at_cursor(m: StateModel, ins: Seq<u8>) -> StateModel {
    StateModel {
        lines: m.lines.update(
            m.cursor.0,
            splice(m.lines[m.cursor.0], m.cursor.1, m.cursor.1, ins),
        ),
        cursor: (m.cursor.0, m.cursor.1 + ins.len()),
        ..m
    }
}

/// The state after splitting the cursor row at the cursor: the tail becomes
/// a new row and the cursor moves to its start.
pub open spec fn split_at_cursor(m: StateModel) -> StateModel {
    let line = m.lines[m.cursor.0];
    StateModel {
        lines: m.lines.subrange(0, m.cursor.0) + seq![line.subrange(0, m.cursor.1)] + seq![
            line.subrange(m.cursor.1, line.len() as int),
        ] + m.lines.subrange(m.cursor.0 + 1, m.lines.len() as int),
        cursor: (m.cursor.0 + 1, 0),
        ..m
    }
}

/// The greatest character boundary at or before `c`; columns snap backwards
/// to it so that clamped positions stay on character boundaries.
pub open spec fn snap_back(line: Seq<u8>, c: int) -> int
    decreases c,
{
    if c <= 0 {
        0
    } else if is_char_boundary(line, c) {
        c
    } else {
        snap_back(line, c - 1)
    }
}

pub proof fn lemma_snap_back(line: Seq<u8>, c: int)
    requires
        valid_utf8(line),
        0 <= c <= line.len(),
    ensures
        0 <= snap_back(line, c) <= c,
        is_char_boundary(line, snap_back(line, c)),
    decreases c,
{
    if c <= 0 {
    } else if is_char_boundary(line, c) {
    } else {
        lemma_snap_back(line, c - 1);
    }
}

/// A position clamped into the document: row into range, column to the row
/// end, and then back to the nearest character boundary.
pub open spec fn clamp_pos(lines: Seq<Seq<u8>>, p: (int, int)) -> (int, int) {
    let r = if p.0 < lines.len() {
        p.0
    } else {
        lines.len() - 1
    };
    let c = if p.1 <= lines[r].len() {
        p.1
    } else {
        lines[r].len() as int
    };
    (r, snap_back(lines[r], c))
}

/// The anchor re-clamped after a mutation that may have invalidated it.
pub open spec fn sanitize_anchor(lines: Seq<Seq<u8>>, anchor: Option<(int, int)>) -> Option<
    (int, int),
> {
    match anchor {
        None => None,
        Some(a) => Some(clamp_pos(lines, a)),
    }
}

/// The greatest character boundary strictly before `c`.
pub open spec fn prev_boundary(line: Seq<u8>, c: int) -> int
    decreases c,
{
    if c <= 1 {
        0
    } else if is_char_boundary(line, c - 1) {
        c - 1
    } else {
        prev_boundary(line, c - 1)
    }
}

/// `prev_boundary` is the unique boundary below `c` with none between.
pub proof fn lemma_prev_boundary(line: Seq<u8>, c: int)
    requires
        valid_utf8(line),
        0 < c <= line.len(),
    ensures
        0 <= prev_boundary(line, c) < c,
        is_char_boundary(line, prev_boundary(line, c)),
        forall|k: int| prev_boundary(line, c) < k < c ==> !is_char_boundary(line, k),
    decreases c,
{
    if c <= 1 {
    } else if is_char_boundary(line, c - 1) {
    } else {
        lemma_prev_boundary(line, c - 1);
    }
}

/// Two boundaries below `c` with no boundaries between them and `c` coincide.
pub proof fn lemma_boundary_unique(line: Seq<u8>, c: int, j1: int, j2: int)
    requires
        0 <= j1 < c,
        0 <= j2 < c,
        is_char_boundary(line, j1),
        is_char_boundary(line, j2),
        forall|k: int| j1 < k < c ==> !is_char_boundary(line, k),
        forall|k: int| j2 < k < c ==> !is_char_boundary(line, k),
    ensures
        j1 == j2,
{
}

/// The character that starts at boundary `c`.
pub open spec fn char_at_spec(line: Seq<u8>, c: int) -> char {
    decode_first_scalar(line.subrange(c, line.len() as int)) as char
}

/// The character that ends at boundary `c`.
pub open spec fn char_before_spec(line: Seq<u8>, c: int) -> char {
    char_at_spec(line, prev_boundary(line, c))
}

/// Word characters for word-wise navigation: alphanumerics and underscore.
pub open spec fn is_word_char(ch: char) -> bool {
    crate::trusted::alphanumeric(ch) || ch == '_'
}

/// Scan left from `c` over whitespace characters.
pub open spec fn scan_back_ws(line: Seq<u8>, c: int) -> int
    decreases c,
    when c <= line.len()
    via scan_back_ws_decreases
{
    if c <= 0 {
        0
    } else if crate::trusted::whitespace(char_before_spec(line, c)) {
        scan_back_ws(line, prev_boundary(line, c))
    } else {
        c
    }
}

#[via_fn]
proof fn scan_back_ws_decreases(line: Seq<u8>, c: int) {
    if c > 0 {
        lemma_prev_bound_simple(line, c);
    }
}

proof fn lemma_prev_bound_simple(line: Seq<u8>, c: int)
    requires
        c > 0,
    ensures
        0 <= prev_boundary(line, c) < c,
    decreases c,
{
    if c > 1 && !is_char_boundary(line, c - 1) {
        lemma_prev_bound_simple(line, c - 1);
    }
}

/// Scan left from `c` over word characters.
pub open spec fn scan_back_word(line: Seq<u8>, c: int) -> int
    decreases c,
    when c <= line.len()
    via scan_back_word_decreases
{
    if c <= 0 {
        0
    } else if is_word_char(char_before_spec(line, c)) {
        scan_back_word(line, prev_boundary(line, c))
    } else {
        c
    }
}

#[via_fn]
proof fn scan_back_word_decreases(line: Seq<u8>, c: int) {
    if c > 0 {
        lemma_prev_bound_simple(line, c);
    }
}

/// The boundary one character after boundary `c`.
pub open spec fn next_boundary(line: Seq<u8>, c: int) -> int {
    c + length_of_first_scalar(line.subrange(c, line.len() as int))
}

/// Scan right from `c` over word characters.
pub open spec fn scan_fwd_word(line: Seq<u8>, c: int) -> int
    decreases line.len() - c,
    when 0 <= c <= line.len() && valid_utf8(line) && is_char_boundary(line, c)
    via scan_fwd_word_decreases
{
    if c >= line.len() {
        c
    } else if is_word_char(char_at_spec(line, c)) {
        scan_fwd_word(line, next_boundary(line, c))
    } else {
        c
    }
}

#[via_fn]
proof fn scan_fwd_word_decreases(line: Seq<u8>, c: int) {
    if c < line.len() {
        lemma_step_boundary(
            line,
            c,
            length_of_first_scalar(line.subrange(c, line.len() as int)),
        );
    }
}

/// Scan right from `c` over whitespace characters.
pub open spec fn scan_fwd_ws(line: Seq<u8>, c: int) -> int
    decreases line.len() - c,
    when 0 <= c <= line.len() && valid_utf8(line) && is_char_boundary(line, c)
    via scan_fwd_ws_decreases
{
    if c >= line.len() {
        c
    } else if crate::trusted::whitespace(char_at_spec(line, c)) {
        scan_fwd_ws(line, next_boundary(line, c))
    } else {
        c
    }
}

#[via_fn]
proof fn scan_fwd_ws_decreases(line: Seq<u8>, c: int) {
    if c < line.len() {
        lemma_step_boundary(
            line,
            c,
            length_of_first_scalar(line.subrange(c, line.len() as int)),
        );
    }
}

/// Scan results stay within the line and on boundaries.
pub proof fn lemma_scan_back_ws_wf(line: Seq<u8>, c: int)
    requires
        valid_utf8(line),
        0 <= c <= line.len(),
        is_char_boundary(line, c),
    ensures
        0 <= scan_back_ws(line, c) <= c,
        is_char_boundary(line, scan_back_ws(line, c)),
    decreases c,
{
    if c > 0 && crate::trusted::whitespace(char_before_spec(line, c)) {
        lemma_prev_boundary(line, c);
        lemma_scan_back_ws_wf(line, prev_boundary(line, c));
    }
}

pub proof fn lemma_scan_back_word_wf(line: Seq<u8>, c: int)
    requires
        valid_utf8(line),
        0 <= c <= line.len(),
        is_char_boundary(line, c),
    ensures
        0 <= scan_back_word(line, c) <= c,
        is_char_boundary(line, scan_back_word(line, c)),
    decreases c,
{
    if c > 0 && is_word_char(char_before_spec(line, c)) {
        lemma_prev_boundary(line, c);
        lemma_scan_back_word_wf(line, prev_boundary(line, c));
    }
}

pub proof fn lemma_scan_fwd_word_wf(line: Seq<u8>, c: int)
    requires
        valid_utf8(line),
        0 <= c <= line.len(),
        is_char_boundary(line, c),
    ensures
        c <= scan_fwd_word(line, c) <= line.len(),
        is_char_boundary(line, scan_fwd_word(line, c)),
    decreases line.len() - c,
{
    if c < line.len() && is_word_char(char_at_spec(line, c)) {
        lemma_suffix_first_scalar(line, c);
        lemma_step_boundary(
            line,
            c,
            length_of_first_scalar(line.subrange(c, line.len() as int)),
        );
        lemma_scan_fwd_word_wf(line, next_boundary(line, c));
    }
}

pub proof fn lemma_scan_fwd_ws_wf(line: Seq<u8>, c: int)
    requires
        valid_utf8(line),
        0 <= c <= line.len(),
        is_char_boundary(line, c),
    ensures
        c <= scan_fwd_ws(line, c) <= line.len(),
        is_char_boundary(line, scan_fwd_ws(line, c)),
    decreases line.len() - c,
{
    if c < line.len() && crate::trusted::whitespace(char_at_spec(line, c)) {
        lemma_suffix_first_scalar(line, c);
        lemma_step_boundary(
            line,
            c,
            length_of_first_scalar(line.subrange(c, line.len() as int)),
        );
        lemma_scan_fwd_ws_wf(line, next_boundary(line, c));
    }
}

// ---------------------------------------------------------------------
// Cursor targets: where each movement sends the cursor, independent of
// whether the move extends a selection.
// ---------------------------------------------------------------------

pub open spec fn cursor_left(m: StateModel) -> (int, int) {
    let (r, c) = m.cursor;
    if c > 0 {
        (r, prev_boundary(m.lines[r], c))
    } else if r > 0 {
        (r - 1, m.lines[r - 1].len() as int)
    } else {
        m.cursor
    }
}

pub open spec fn cursor_right(m: StateModel) -> (int, int) {
    let (r, c) = m.cursor;
    if c < m.lines[r].len() {
        (r, next_boundary(m.lines[r], c))
    } else if r + 1 < m.lines.len() {
        (r + 1, 0)
    } else {
        m.cursor
    }
}

pub open spec fn cursor_up(m: StateModel) -> (int, int) {
    let (r, c) = m.cursor;
    if r > 0 {
        let l = m.lines[r - 1].len() as int;
        (r - 1, snap_back(m.lines[r - 1], if c <= l { c } else { l }))
    } else {
        m.cursor
    }
}

pub open spec fn cursor_down(m: StateModel) -> (int, int) {
    let (r, c) = m.cursor;
    if r + 1 < m.lines.len() {
        let l = m.lines[r + 1].len() as int;
        (r + 1, snap_back(m.lines[r + 1], if c <= l { c } else { l }))
    } else {
        m.cursor
    }
}

pub open spec fn cursor_word_left(m: StateModel) -> (int, int) {
    let (r, c) = m.cursor;
    if c == 0 {
        if r > 0 {
            (r - 1, m.lines[r - 1].len() as int)
        } else {
            m.cursor
        }
    } else {
        (r, scan_back_word(m.lines[r], scan_back_ws(m.lines[r], c)))
    }
}

pub open spec fn cursor_word_right(m: StateModel) -> (int, int) {
    let (r, c) = m.cursor;
    if c >= m.lines[r].len() {
        if r + 1 < m.lines.len() {
            (r + 1, 0)
        } else {
            m.cursor
        }
    } else {
        (r, scan_fwd_ws(m.lines[r], scan_fwd_word(m.lines[r], c)))
    }
}

/// A pure cursor move: selection cleared, cursor at the given target.
pub open spec fn moved_to(m: StateModel, p: (int, int)) -> StateModel {
    StateModel { cursor: p, anchor: None, ..m }
}

/// A selecting move: the anchor is pinned to the pre-movement cursor when
/// none is set, then the cursor moves.
pub open spec fn selected_to(m: StateModel, p: (int, int)) -> StateModel {
    StateModel {
        cursor: p,
        anchor: match m.anchor {
            None => Some(m.cursor),
            Some(a) => Some(a),
        },
        ..m
    }
}

// ---------------------------------------------------------------------
// Document transforms, one per edit action.
// ---------------------------------------------------------------------

/// The UTF-8 bytes a typed character contributes.
pub open spec fn char_bytes(ch: char) -> Seq<u8> {
    encode_scalar(ch as u32)
}

/// One step of typing: a newline splits the row, any other character is
/// inserted at the cursor.
pub open spec fn type_char_step(m: StateModel, ch: char) -> StateModel {
    if ch == '\n' {
        split_at_cursor(m)
    } else {
        insert_at_cursor(m, char_bytes(ch))
    }
}

/// Typing a sequence of characters, one step per character.
pub open spec fn type_chars(m: StateModel, s: Seq<char>) -> StateModel
    decreases s.len(),
{
    if s.len() == 0 {
        m
    } else {
        type_chars(type_char_step(m, s[0]), s.drop_first())
    }
}

pub open spec fn spec_type_char(m: StateModel, ch: char) -> StateModel {
    type_char_step(after_sel_delete(m), ch)
}

pub open spec fn spec_type_string(m: StateModel, s: Seq<char>) -> StateModel {
    type_chars(after_sel_delete(m), s)
}

pub open spec fn spec_backspace(m: StateModel) -> StateModel {
    if sel_range(m) is Some {
        after_sel_delete(m)
    } else {
        let (r, c) = m.cursor;
        if c > 0 {
            let line = m.lines[r];
            let j = prev_boundary(line, c);
            StateModel {
                lines: m.lines.update(r, line.subrange(0, j) + line.subrange(c, line.len() as int)),
                cursor: (r, j),
                ..m
            }
        } else if r > 0 {
            StateModel {
                lines: m.lines.subrange(0, r - 1) + seq![m.lines[r - 1] + m.lines[r]]
                    + m.lines.subrange(r + 1, m.lines.len() as int),
                cursor: (r - 1, m.lines[r - 1].len() as int),
                ..m
            }
        } else {
            m
        }
    }
}

pub open spec fn spec_delete(m: StateModel) -> StateModel {
    if sel_range(m) is Some {
        after_sel_delete(m)
    } else {
        let (r, c) = m.cursor;
        let line = m.lines[r];
        if c < line.len() {
            let n = next_boundary(line, c);
            StateModel {
                lines: m.lines.update(r, line.subrange(0, c) + line.subrange(n, line.len() as int)),
                ..m
            }
        } else if r + 1 < m.lines.len() {
            StateModel {
                lines: m.lines.subrange(0, r) + seq![line + m.lines[r + 1]] + m.lines.subrange(
                    r + 2,
                    m.lines.len() as int,
                ),
                ..m
            }
        } else {
            m
        }
    }
}

// --- list markers ---------------------------------------------------

pub open spec fn marker_checkbox() -> Seq<u8> {
    seq![45u8, 32u8, 91u8, 32u8, 93u8, 32u8]  // "- [ ] "
}

pub open spec fn marker_checkbox_x() -> Seq<u8> {
    seq![45u8, 32u8, 91u8, 120u8, 93u8, 32u8]  // "- [x] "
}

pub open spec fn marker_checkbox_xx() -> Seq<u8> {
    seq![45u8, 32u8, 91u8, 88u8, 93u8, 32u8]  // "- [X] "
}

pub open spec fn marker_dash() -> Seq<u8> {
    seq![45u8, 32u8]  // "- "
}

pub open spec fn marker_star() -> Seq<u8> {
    seq![42u8, 32u8]  // "* "
}

pub open spec fn marker_plus() -> Seq<u8> {
    seq![43u8, 32u8]  // "+ "
}

pub open spec fn starts_with(s: Seq<u8>, prefix: Seq<u8>) -> bool {
    s.len() >= prefix.len() && s.subrange(0, prefix.len() as int) == prefix
}

pub open spec fn is_digit(b: u8) -> bool {
    0x30 <= b <= 0x39
}

pub open spec fn all_digits(s: Seq<u8>) -> bool {
    forall|i: int| 0 <= i < s.len() ==> is_digit(#[trigger] s[i])
}

/// The decimal value of a digit string.
pub open spec fn dec_value(s: Seq<u8>) -> int
    decreases s.len(),
{
    if s.len() == 0 {
        0
    } else {
        dec_value(s.drop_last()) * 10 + (s.last() - 0x30)
    }
}

/// The decimal digit string of a non-negative number.
pub open spec fn digits_of(n: int) -> Seq<u8>
    decreases n,
{
    if n < 10 {
        seq![(0x30 + if n >= 0 { n } else { 0 }) as u8]
    } else {
        digits_of(n / 10).push((0x30 + n % 10) as u8)
    }
}

/// First index at or after `from` where `". "` occurs, or the length.
pub open spec fn find_dot_space(s: Seq<u8>, from: int) -> int
    decreases s.len() - from,
    when 0 <= from
{
    if from + 2 > s.len() {
        s.len() as int
    } else if s[from] == 46 && s[from + 1] == 32 {
        from
    } else {
        find_dot_space(s, from + 1)
    }
}

/// A matched list marker: the text to seed the next row with, the byte
/// length of indentation plus marker, and whether the item's content is
/// empty.
pub open spec fn detect_list_pattern(line: Seq<u8>) -> Option<(Seq<u8>, int, bool)> {
    let t = scan_fwd_ws(line, 0);
    let trimmed = line.subrange(t, line.len() as int);
    if starts_with(trimmed, marker_checkbox()) || starts_with(trimmed, marker_checkbox_x())
        || starts_with(trimmed, marker_checkbox_xx()) {
        Some((marker_checkbox(), t + 6, trimmed.len() == 6))
    } else if starts_with(trimmed, marker_dash()) {
        Some((marker_dash(), t + 2, trimmed.len() == 2))
    } else if starts_with(trimmed, marker_star()) {
        Some((marker_star(), t + 2, trimmed.len() == 2))
    } else if starts_with(trimmed, marker_plus()) {
        Some((marker_plus(), t + 2, trimmed.len() == 2))
    } else {
        let ne = find_dot_space(trimmed, 0);
        if ne < trimmed.len() && ne > 0 && all_digits(trimmed.subrange(0, ne)) && dec_value(
            trimmed.subrange(0, ne),
        ) < usize::MAX {
            Some(
                (
                    digits_of(dec_value(trimmed.subrange(0, ne)) + 1) + seq![46u8, 32u8],
                    t + ne + 2,
                    trimmed.len() == ne + 2,
                ),
            )
        } else {
            None
        }
    }
}

pub open spec fn spec_newline(m0: StateModel) -> StateModel {
    let m = after_sel_delete(m0);
    let (r, c) = m.cursor;
    let line = m.lines[r];
    match detect_list_pattern(line) {
        Some((pattern, plen, is_empty)) => {
            if is_empty {
                StateModel {
                    lines: m.lines.update(r, line.subrange(0, line.len() - plen)).insert(
                        r + 1,
                        Seq::empty(),
                    ),
                    cursor: (r + 1, 0),
                    ..m
                }
            } else {
                StateModel {
                    lines: m.lines.subrange(0, r) + seq![line.subrange(0, c)] + seq![
                        pattern + line.subrange(c, line.len() as int),
                    ] + m.lines.subrange(r + 1, m.lines.len() as int),
                    cursor: (r + 1, pattern.len() as int),
                    ..m
                }
            }
        },
        None => split_at_cursor(m),
    }
}

// --- structural edits -------------------------------------------------

pub open spec fn four_spaces() -> Seq<u8> {
    seq![32u8, 32u8, 32u8, 32u8]
}

pub open spec fn spec_tab(m: StateModel) -> StateModel {
    match sel_range(m) {
        Some((s, e)) => StateModel {
            lines: Seq::new(
                m.lines.len(),
                |i: int|
                    if s.0 <= i <= e.0 {
                        four_spaces() + m.lines[i]
                    } else {
                        m.lines[i]
                    },
            ),
            cursor: (e.0, e.1 + 4),
            anchor: Some((s.0, s.1 + 4)),
            ..m
        },
        None => insert_at_cursor(m, four_spaces()),
    }
}

/// Up to four leading spaces of a row, as removed by outdent.
pub open spec fn spaces_prefix(line: Seq<u8>, i: int) -> int
    decreases 4 - i,
    when 0 <= i <= 4
{
    if i >= 4 || i >= line.len() || line[i] != 32 {
        i
    } else {
        spaces_prefix(line, i + 1)
    }
}

pub open spec fn outdent_row(line: Seq<u8>) -> Seq<u8> {
    line.subrange(spaces_prefix(line, 0), line.len() as int)
}

pub open spec fn sat_sub(a: int, b: int) -> int {
    if a >= b {
        a - b
    } else {
        0
    }
}

pub open spec fn spec_outdent(m: StateModel) -> StateModel {
    match sel_range(m) {
        Some((s, e)) => {
            let lines = Seq::new(
                m.lines.len(),
                |i: int|
                    if s.0 <= i <= e.0 {
                        outdent_row(m.lines[i])
                    } else {
                        m.lines[i]
                    },
            );
            StateModel {
                lines,
                cursor: (e.0, sat_sub(e.1, spaces_prefix(m.lines[e.0], 0))),
                anchor: Some((s.0, sat_sub(s.1, spaces_prefix(m.lines[s.0], 0)))),
                ..m
            }
        },
        None => {
            let (r, c) = m.cursor;
            let k = spaces_prefix(m.lines[r], 0);
            if k > 0 {
                StateModel {
                    lines: m.lines.update(r, outdent_row(m.lines[r])),
                    cursor: (r, sat_sub(c, k)),
                    ..m
                }
            } else {
                m
            }
        },
    }
}

pub open spec fn spec_delete_line(m: StateModel) -> StateModel {
    let (r, c) = m.cursor;
    if m.lines.len() == 1 {
        StateModel { lines: seq![Seq::<u8>::empty()], cursor: (0, 0), anchor: None, ..m }
    } else if r < m.lines.len() - 1 {
        StateModel { lines: m.lines.remove(r), cursor: (r, 0), anchor: None, ..m }
    } else {
        StateModel { lines: m.lines.remove(r), cursor: (r - 1, 0), anchor: None, ..m }
    }
}

/// Delete to beginning of line. Like every edit, an active selection is
/// deleted first, the cursor collapsing to the range start; the row prefix
/// before the (collapsed) cursor then goes.
pub open spec fn spec_delete_to_bol(m0: StateModel) -> StateModel {
    let m = after_sel_delete(m0);
    let (r, c) = m.cursor;
    let lines = m.lines.update(r, m.lines[r].subrange(c, m.lines[r].len() as int));
    StateModel { lines, cursor: (r, 0), anchor: None, ..m }
}

/// Delete to end of line: the selection first, then the row suffix after the
/// (collapsed) cursor.
pub open spec fn spec_delete_to_eol(m0: StateModel) -> StateModel {
    let m = after_sel_delete(m0);
    let (r, c) = m.cursor;
    let lines = m.lines.update(r, m.lines[r].subrange(0, c));
    StateModel { lines, cursor: (r, c), anchor: None, ..m }
}

/// Delete word left: the selection first; then, when the word-wise left
/// target stays on the cursor row, the bytes back to it go, else the cursor
/// only moves there.
pub open spec fn spec_delete_word_left(m0: StateModel) -> StateModel {
    let m = after_sel_delete(m0);
    let t = cursor_word_left(m);
    let (r, c) = m.cursor;
    if t.0 == r {
        let line = m.lines[r];
        StateModel {
            lines: m.lines.update(r, line.subrange(0, t.1) + line.subrange(c, line.len() as int)),
            cursor: t,
            anchor: None,
            ..m
        }
    } else {
        StateModel { cursor: t, anchor: None, ..m }
    }
}

/// Delete word right: the mirror of delete word left; the cursor keeps its
/// place when bytes are deleted.
pub open spec fn spec_delete_word_right(m0: StateModel) -> StateModel {
    let m = after_sel_delete(m0);
    let t = cursor_word_right(m);
    let (r, c) = m.cursor;
    if t.0 == r {
        let line = m.lines[r];
        StateModel {
            lines: m.lines.update(r, line.subrange(0, c) + line.subrange(t.1, line.len() as int)),
            cursor: (r, c),
            anchor: None,
            ..m
        }
    } else {
        StateModel { cursor: t, anchor: None, ..m }
    }
}

pub open spec fn spec_move_line_up(m: StateModel) -> StateModel {
    let (r, c) = m.cursor;
    if r == 0 {
        m
    } else {
        let lines = m.lines.update(r, m.lines[r - 1]).update(r - 1, m.lines[r]);
        StateModel {
            lines,
            cursor: (r - 1, c),
            anchor: sanitize_anchor(lines, m.anchor),
            ..m
        }
    }
}

pub open spec fn spec_move_line_down(m: StateModel) -> StateModel {
    let (r, c) = m.cursor;
    if r + 1 >= m.lines.len() {
        m
    } else {
        let lines = m.lines.update(r, m.lines[r + 1]).update(r + 1, m.lines[r]);
        StateModel {
            lines,
            cursor: (r + 1, c),
            anchor: sanitize_anchor(lines, m.anchor),
            ..m
        }
    }
}

pub open spec fn spec_select_all(m: StateModel) -> StateModel {
    let last = m.lines.len() - 1;
    StateModel { cursor: (last, m.lines[last].len() as int), anchor: Some((0, 0)), ..m }
}

pub open spec fn spec_set_cursor(m: StateModel, row: int, column: int) -> StateModel {
    StateModel { cursor: clamp_pos(m.lines, (row, column)), anchor: None, ..m }
}

pub open spec fn spec_start_selection(m: StateModel, row: int, column: int) -> StateModel {
    let p = clamp_pos(m.lines, (row, column));
    StateModel { cursor: p, anchor: Some(p), ..m }
}

pub open spec fn spec_extend_selection(m: StateModel, row: int, column: int) -> StateModel {
    let p = clamp_pos(m.lines, (row, column));
    StateModel {
        cursor: p,
        anchor: match m.anchor {
            None => Some(m.cursor),
            Some(a) => Some(a),
        },
        ..m
    }
}

impl EditorState {
    /// The ordered selection range, when an anchor is set.
    pub fn selection_range(&self) -> (r: Option<(BufferPosition, BufferPosition)>)
        ensures
            r is Some <==> sel_range(self@) is Some,
            r matches Some((s, e)) ==> sel_range(self@) == Some(
                ((s.row as int, s.column as int), (e.row as int, e.column as int)),
            ),
    {
        match self.selection_anchor {
            None => None,
            Some(anchor) => {
                if anchor.row < self.cursor.row || (anchor.row == self.cursor.row && anchor.column
                    < self.cursor.column) {
                    Some((anchor, self.cursor))
                } else {
                    Some((self.cursor, anchor))
                }
            },
        }
    }
}

/// Deleting a well-formed range keeps the document well formed, with the
/// cursor collapsed to the range start and the anchor cleared.
pub proof fn lemma_delete_range_wf(m: StateModel, s: (int, int), e: (int, int))
    requires
        state_wf(m),
        pos_wf(m.lines, s),
        pos_wf(m.lines, e),
        s.0 <= e.0,
        s.0 == e.0 ==> s.1 <= e.1,
    ensures
        state_wf(
            StateModel { lines: delete_range_lines(m.lines, s, e), cursor: s, anchor: None, ..m },
        ),
{
    let l_start = m.lines[s.0];
    let l_end = m.lines[e.0];
    let pre = l_start.subrange(0, s.1);
    let post = l_end.subrange(e.1, l_end.len() as int);
    valid_utf8_split(l_start, s.1);
    valid_utf8_split(l_end, e.1);
    lemma_concat_boundary(pre, post);
    let d = delete_range_lines(m.lines, s, e);
    assert(d.len() == m.lines.len() - (e.0 - s.0));
    assert forall|i: int| 0 <= i < d.len() implies valid_utf8(#[trigger] d[i]) by {
        if i < s.0 {
            assert(d[i] == m.lines[i]);
        } else if i == s.0 {
            assert(d[i] == pre + post);
        } else {
            assert(d[i] == m.lines[i + (e.0 - s.0)]);
        }
    }
    assert(d[s.0] == pre + post);
}

/// Delete the byte range `[s, e)` from the rows. Cursor and anchor are the
/// caller's business.
pub fn state_delete_range(st: &mut EditorState, s: BufferPosition, e: BufferPosition)
    requires
        state_wf(old(st)@),
        pos_wf(old(st)@.lines, (s.row as int, s.column as int)),
        pos_wf(old(st)@.lines, (e.row as int, e.column as int)),
        s.row <= e.row,
        s.row == e.row ==> s.column <= e.column,
    ensures
        final(st)@.lines == delete_range_lines(
            old(st)@.lines,
            (s.row as int, s.column as int),
            (e.row as int, e.column as int),
        ),
        final(st)@.cursor == old(st)@.cursor,
        final(st)@.anchor == old(st)@.anchor,
        final(st)@.font_size == old(st)@.font_size,
{
    let ghost l0 = old(st)@.lines;
    let ghost sp = (s.row as int, s.column as int);
    let ghost ep = (e.row as int, e.column as int);
    let first = sub_bytes(&st.lines[s.row], 0, s.column);
    let last = sub_bytes(&st.lines[e.row], e.column, st.lines[e.row].len());
    let merged = concat_bytes(&first, &last);
    st.lines[s.row] = merged;
    proof {
        crate::state::lemma_views_of_update(old(st).lines@, s.row as int, st.lines@[s.row as int]);
    }
    let ghost v0 = views_of(st.lines@);
    let mut k: usize = 0;
    let n = e.row - s.row;
    while k < n
        invariant
            k <= n,
            sp == (s.row as int, s.column as int),
            ep == (e.row as int, e.column as int),
            n == ep.0 - sp.0,
            0 <= sp.0,
            sp.0 + 1 + n <= v0.len(),
            st.lines@.len() == v0.len() - k,
            v0.len() == l0.len(),
            views_of(st.lines@) =~= v0.subrange(0, sp.0 + 1) + v0.subrange(
                sp.0 + 1 + k,
                v0.len() as int,
            ),
            st.cursor == old(st).cursor,
            st.selection_anchor == old(st).selection_anchor,
            st.font_size == old(st).font_size,
        decreases n - k,
    {
        let ghost before = st.lines@;
        st.lines.remove(s.row + 1);
        proof {
            crate::state::lemma_views_of_remove(before, sp.0 + 1);
            let w = views_of(before);
            let target = v0.subrange(0, sp.0 + 1) + v0.subrange(
                sp.0 + 1 + (k + 1),
                v0.len() as int,
            );
            assert(views_of(st.lines@) =~= w.remove(sp.0 + 1));
            w.remove_ensures(sp.0 + 1);
            assert(w =~= v0.subrange(0, sp.0 + 1) + v0.subrange(sp.0 + 1 + k, v0.len() as int));
            assert(w.len() == v0.len() - k);
            assert forall|j: int| 0 <= j < views_of(st.lines@).len() implies views_of(
                st.lines@,
            )[j] == target[j] by {
                if j <= sp.0 {
                    assert(w.remove(sp.0 + 1)[j] == w[j]);
                    assert(w[j] == v0[j]);
                } else {
                    assert(w.remove(sp.0 + 1)[j] == w[j + 1]);
                    assert(w[j + 1] == v0[j + 1 + k]);
                }
            }
            assert(views_of(st.lines@) =~= target);
        }
        k += 1;
    }
    proof {
        assert(st@.lines =~= delete_range_lines(l0, sp, ep)) by {
            assert(v0 =~= views_of(old(st).lines@).update(sp.0, first@ + last@));
            assert forall|i: int|
                0 <= i < views_of(st.lines@).len() implies views_of(st.lines@)[i]
                == delete_range_lines(l0, sp, ep)[i] by {
                if i < sp.0 {
                    assert(v0[i] == l0[i]);
                } else if i == sp.0 {
                    assert(v0[i] == first@ + last@);
                } else {
                    assert(views_of(st.lines@)[i] == v0[i + (ep.0 - sp.0)]);
                    assert(v0[i + (ep.0 - sp.0)] == l0[i + (ep.0 - sp.0)]);
                }
            }
        }
    }
}

/// Delete the active selection, if any: rows merge, the cursor collapses to
/// the selection start and the anchor is cleared.
pub fn state_delete_selection(st: &mut EditorState)
    requires
        state_wf(old(st)@),
    ensures
        final(st)@ == after_sel_delete(old(st)@),
        state_wf(final(st)@),
        final(st)@.anchor is None,
{
    match st.selection_range() {
        None => {
            proof {
                assert(old(st)@.anchor is None);
            }
        },
        Some((s, e)) => {
            proof {
                lemma_delete_range_wf(
                    old(st)@,
                    (s.row as int, s.column as int),
                    (e.row as int, e.column as int),
                );
            }
            state_delete_range(st, s, e);
            st.cursor = s;
            st.selection_anchor = None;
        },
    }
}

/// Insert newline-free bytes at the cursor; the cursor moves past them.
pub fn state_insert_at_cursor(st: &mut EditorState, ins: &Vec<u8>)
    requires
        state_wf(old(st)@),
        old(st)@.anchor is None,
        valid_utf8(ins@),
        old(st)@.lines[old(st)@.cursor.0].len() + ins@.len() <= usize::MAX,
    ensures
        final(st)@ == insert_at_cursor(old(st)@, ins@),
        state_wf(final(st)@),
        final(st)@.anchor is None,
{
    let ghost m = old(st)@;
    let r = st.cursor.row;
    let c = st.cursor.column;
    let line = splice_bytes(&st.lines[r], c, c, ins);
    proof {
        lemma_splice_valid(m.lines[r as int], c as int, c as int, ins@);
        is_char_boundary_start_end_of_seq(ins@);
        lemma_splice_boundary(m.lines[r as int], c as int, c as int, ins@, ins@.len() as int);
        assert(line@.len() == m.lines[r as int].len() + ins@.len());
    }
    st.lines[r] = line;
    st.cursor = BufferPosition::new(r, c + ins.len());
    proof {
        crate::state::lemma_views_of_update(old(st).lines@, r as int, line);
        assert(st@.lines =~= m.lines.update(r as int, splice(m.lines[r as int], c as int, c as int, ins@)));
        assert forall|i: int| 0 <= i < st@.lines.len() implies valid_utf8(#[trigger] st@.lines[i]) by {
            if i != r {
                assert(st@.lines[i] == m.lines[i]);
            }
        }
    }
}

/// Split the cursor row at the cursor; the tail becomes a new row and the
/// cursor moves to its start.
pub fn state_split_at_cursor(st: &mut EditorState)
    requires
        state_wf(old(st)@),
        old(st)@.anchor is None,
    ensures
        final(st)@ == split_at_cursor(old(st)@),
        state_wf(final(st)@),
        final(st)@.anchor is None,
{
    let ghost m = old(st)@;
    let r = st.cursor.row;
    let c = st.cursor.column;
    let before = sub_bytes(&st.lines[r], 0, c);
    let after = sub_bytes(&st.lines[r], c, st.lines[r].len());
    proof {
        valid_utf8_split(m.lines[r as int], c as int);
    }
    st.lines[r] = before;
    let ghost mid = st.lines@;
    let nrows = st.lines.len();
    proof {
        assert(r < nrows);
    }
    st.lines.insert(r + 1, after);
    st.cursor = BufferPosition::new(r + 1, 0);
    proof {
        crate::state::lemma_views_of_update(old(st).lines@, r as int, before);
        crate::state::lemma_views_of_insert(mid, r + 1, after);
        let target = split_at_cursor(m).lines;
        assert forall|i: int| 0 <= i < st@.lines.len() implies st@.lines[i] == target[i] by {
            if i < r {
                assert(views_of(mid)[i] == m.lines[i]);
            } else if i == r {
            } else if i == r + 1 {
            } else {
                assert(views_of(mid)[i - 1] == m.lines[i - 1]);
            }
        }
        assert(st@.lines =~= target);
        assert forall|i: int| 0 <= i < st@.lines.len() implies valid_utf8(#[trigger] st@.lines[i]) by {
            assert(st@.lines[i] == target[i]);
            if i < r {
                assert(target[i] == m.lines[i]);
            } else if i > r + 1 {
                assert(target[i] == m.lines[i - 1]);
            }
        }
    }
}

/// Snap a column back onto a character boundary of `line`.
pub fn snap_col(line: &Vec<u8>, c: usize) -> (r: usize)
    requires
        valid_utf8(line@),
        c <= line.len(),
    ensures
        r == snap_back(line@, c as int),
        r <= c,
        is_char_boundary(line@, r as int),
{
    let mut r = c;
    while !(r == line.len() || !(0x80 <= line[r] && line[r] <= 0xBF))
        invariant
            valid_utf8(line@),
            0 <= r <= c <= line.len(),
            snap_back(line@, c as int) == snap_back(line@, r as int),
        decreases r,
    {
        proof {
            lemma_boundary_char(line@, r as int);
            assert(!is_char_boundary(line@, r as int));
            if r == 0 {
                assert(is_char_boundary(line@, 0));
            }
        }
        r = r - 1;
    }
    proof {
        lemma_boundary_char(line@, r as int);
        assert(is_char_boundary(line@, r as int));
        assert(snap_back(line@, r as int) == r);
        lemma_snap_back(line@, c as int);
    }
    r
}

/// Clamp a requested (row, column) into the document, snapping the column to
/// a character boundary.
pub fn clamp_position(st: &EditorState, row: usize, column: usize) -> (p: BufferPosition)
    requires
        lines_wf(st@.lines),
    ensures
        (p.row as int, p.column as int) == clamp_pos(st@.lines, (row as int, column as int)),
        pos_wf(st@.lines, (p.row as int, p.column as int)),
{
    let r = if row < st.lines.len() {
        row
    } else {
        st.lines.len() - 1
    };
    let line = &st.lines[r];
    proof {
        assert(st@.lines[r as int] == st.lines@[r as int]@);
        assert(valid_utf8(st@.lines[r as int]));
    }
    let c = if column <= line.len() {
        column
    } else {
        line.len()
    };
    let c = snap_col(line, c);
    BufferPosition::new(r, c)
}


// ---------------------------------------------------------------------
// Document size accounting: the headroom conditions that keep byte
// arithmetic within `usize`.
// ---------------------------------------------------------------------

/// Total byte size of all rows.
pub open spec fn doc_size(lines: Seq<Seq<u8>>) -> int
    decreases lines.len(),
{
    if lines.len() == 0 {
        0
    } else {
        lines[0].len() + doc_size(lines.drop_first())
    }
}

pub proof fn lemma_doc_size_singleton(x: Seq<u8>)
    ensures
        doc_size(seq![x]) == x.len(),
{
    assert(seq![x].drop_first() =~= Seq::<Seq<u8>>::empty());
    assert(doc_size(Seq::<Seq<u8>>::empty()) == 0);
    assert(doc_size(seq![x]) == x.len() + doc_size(seq![x].drop_first()));
}

pub proof fn lemma_doc_size_nonneg(lines: Seq<Seq<u8>>)
    ensures
        doc_size(lines) >= 0,
    decreases lines.len(),
{
    if lines.len() > 0 {
        lemma_doc_size_nonneg(lines.drop_first());
    }
}

pub proof fn lemma_doc_size_concat(a: Seq<Seq<u8>>, b: Seq<Seq<u8>>)
    ensures
        doc_size(a + b) == doc_size(a) + doc_size(b),
    decreases a.len(),
{
    if a.len() == 0 {
        assert(a + b =~= b);
    } else {
        assert((a + b).drop_first() =~= a.drop_first() + b);
        lemma_doc_size_concat(a.drop_first(), b);
    }
}

/// Every row is at most the whole document's size.
pub proof fn lemma_row_le_doc_size(lines: Seq<Seq<u8>>, i: int)
    requires
        0 <= i < lines.len(),
    ensures
        lines[i].len() <= doc_size(lines),
    decreases i,
{
    lemma_doc_size_nonneg(lines.drop_first());
    if i == 0 {
    } else {
        lemma_row_le_doc_size(lines.drop_first(), i - 1);
    }
}

/// Two distinct rows together are at most the whole document's size.
pub proof fn lemma_two_rows_le_doc_size(lines: Seq<Seq<u8>>, i: int, j: int)
    requires
        0 <= i < j < lines.len(),
    ensures
        lines[i].len() + lines[j].len() <= doc_size(lines),
    decreases i,
{
    if i == 0 {
        lemma_row_le_doc_size(lines.drop_first(), j - 1);
    } else {
        lemma_two_rows_le_doc_size(lines.drop_first(), i - 1, j - 1);
        lemma_doc_size_nonneg(lines.drop_first());
    }
}

/// Deleting a range never grows the document.
pub proof fn lemma_doc_size_delete_range(lines: Seq<Seq<u8>>, s: (int, int), e: (int, int))
    requires
        0 <= s.0 <= e.0 < lines.len(),
        0 <= s.1 <= lines[s.0].len(),
        0 <= e.1 <= lines[e.0].len(),
        s.0 == e.0 ==> s.1 <= e.1,
    ensures
        doc_size(delete_range_lines(lines, s, e)) <= doc_size(lines),
{
    let d = delete_range_lines(lines, s, e);
    let merged = lines[s.0].subrange(0, s.1) + lines[e.0].subrange(e.1, lines[e.0].len() as int);
    lemma_doc_size_concat(lines.subrange(0, s.0) + seq![merged], lines.subrange(e.0 + 1, lines.len() as int));
    lemma_doc_size_concat(lines.subrange(0, s.0), seq![merged]);
    lemma_doc_size_singleton(merged);
    assert(lines =~= (lines.subrange(0, s.0) + lines.subrange(s.0, e.0 + 1)) + lines.subrange(e.0 + 1, lines.len() as int));
    lemma_doc_size_concat(lines.subrange(0, s.0) + lines.subrange(s.0, e.0 + 1), lines.subrange(e.0 + 1, lines.len() as int));
    lemma_doc_size_concat(lines.subrange(0, s.0), lines.subrange(s.0, e.0 + 1));
    let mid = lines.subrange(s.0, e.0 + 1);
    if s.0 == e.0 {
        assert(mid =~= seq![lines[s.0]]);
        lemma_doc_size_singleton(lines[s.0]);
    } else {
        lemma_two_rows_le_doc_size(mid, 0, e.0 - s.0);
        assert(mid[0] == lines[s.0] && mid[e.0 - s.0] == lines[e.0]);
    }
    lemma_doc_size_nonneg(mid);
    assert(doc_size(d) == doc_size(lines.subrange(0, s.0)) + merged.len() + doc_size(
        lines.subrange(e.0 + 1, lines.len() as int),
    ));
    assert(doc_size(lines) == doc_size(lines.subrange(0, s.0)) + doc_size(mid) + doc_size(
        lines.subrange(e.0 + 1, lines.len() as int),
    ));
    assert(merged.len() <= doc_size(mid));
}

// ---------------------------------------------------------------------
// Executable cursor targets.
// ---------------------------------------------------------------------

/// The row the cursor is on.
fn cursor_line<'a>(st: &'a EditorState) -> (line: &'a Vec<u8>)
    requires
        state_wf(st@),
    ensures
        line@ == st@.lines[st@.cursor.0],
        valid_utf8(line@),
        is_char_boundary(line@, st@.cursor.1),
        st.cursor.column <= line.len(),
{
    let line = &st.lines[st.cursor.row];
    proof {
        assert(st@.lines[st@.cursor.0] == st.lines@[st.cursor.row as int]@);
    }
    line
}

/// Where a plain left step sends the cursor.
pub fn cursor_left_exec(st: &EditorState) -> (p: BufferPosition)
    requires
        state_wf(st@),
    ensures
        (p.row as int, p.column as int) == cursor_left(st@),
        pos_wf(st@.lines, cursor_left(st@)),
{
    let r = st.cursor.row;
    let c = st.cursor.column;
    if c > 0 {
        let line = cursor_line(st);
        let j = prev_char_start(line, c);
        proof {
            lemma_prev_boundary(line@, c as int);
            lemma_boundary_unique(
                line@,
                c as int,
                j as int,
                prev_boundary(line@, c as int),
            );
        }
        BufferPosition::new(r, j)
    } else if r > 0 {
        proof {
            assert(st@.lines[r - 1] == st.lines@[r as int - 1]@);
            is_char_boundary_start_end_of_seq(st@.lines[r - 1]);
        }
        BufferPosition::new(r - 1, st.lines[r - 1].len())
    } else {
        st.cursor
    }
}

/// Where a plain right step sends the cursor.
pub fn cursor_right_exec(st: &EditorState) -> (p: BufferPosition)
    requires
        state_wf(st@),
    ensures
        (p.row as int, p.column as int) == cursor_right(st@),
        pos_wf(st@.lines, cursor_right(st@)),
{
    let r = st.cursor.row;
    let c = st.cursor.column;
    let line = cursor_line(st);
    if c < line.len() {
        let n = char_len_at(line, c);
        BufferPosition::new(r, c + n)
    } else {
        let nrows = st.lines.len();
        if r < nrows - 1 {
            proof {
                assert(st@.lines[r + 1] == st.lines@[r as int + 1]@);
                is_char_boundary_start_end_of_seq(st@.lines[r + 1]);
            }
            BufferPosition::new(r + 1, 0)
        } else {
            st.cursor
        }
    }
}

/// Where a vertical step sends the cursor: the same column clamped into the
/// destination row and snapped to a character boundary.
pub fn cursor_up_exec(st: &EditorState) -> (p: BufferPosition)
    requires
        state_wf(st@),
    ensures
        (p.row as int, p.column as int) == cursor_up(st@),
        pos_wf(st@.lines, cursor_up(st@)),
{
    let r = st.cursor.row;
    let c = st.cursor.column;
    if r > 0 {
        let line = &st.lines[r - 1];
        proof {
            assert(st@.lines[r - 1] == st.lines@[r as int - 1]@);
        }
        let c2 = if c <= line.len() {
            c
        } else {
            line.len()
        };
        let c3 = snap_col(line, c2);
        BufferPosition::new(r - 1, c3)
    } else {
        st.cursor
    }
}

pub fn cursor_down_exec(st: &EditorState) -> (p: BufferPosition)
    requires
        state_wf(st@),
    ensures
        (p.row as int, p.column as int) == cursor_down(st@),
        pos_wf(st@.lines, cursor_down(st@)),
{
    let r = st.cursor.row;
    let c = st.cursor.column;
    let nrows = st.lines.len();
    if r < nrows - 1 {
        let line = &st.lines[r + 1];
        proof {
            assert(st@.lines[r + 1] == st.lines@[r as int + 1]@);
        }
        let c2 = if c <= line.len() {
            c
        } else {
            line.len()
        };
        let c3 = snap_col(line, c2);
        BufferPosition::new(r + 1, c3)
    } else {
        st.cursor
    }
}

// ---------------------------------------------------------------------
// Executable document transforms.
// ---------------------------------------------------------------------

/// Backspace: delete the selection, or the character before the cursor, or
/// merge with the previous row at column zero.
pub fn doc_backspace(st: &mut EditorState)
    requires
        state_wf(old(st)@),
    ensures
        final(st)@ == spec_backspace(old(st)@),
        state_wf(final(st)@),
{
    let ghost m = old(st)@;
    match st.selection_range() {
        Some(_) => {
            state_delete_selection(st);
        },
        None => {
            let r = st.cursor.row;
            let c = st.cursor.column;
            if c > 0 {
                let ghost line = m.lines[r as int];
                let j = prev_char_start(cursor_line(st), c);
                proof {
                    lemma_prev_boundary(line, c as int);
                    lemma_boundary_unique(line, c as int, j as int, prev_boundary(line, c as int));
                }
                let empty: Vec<u8> = Vec::new();
                let newline_row = splice_bytes(&st.lines[r], j, c, &empty);
                proof {
                    lemma_splice_valid(line, j as int, c as int, Seq::<u8>::empty());
                    lemma_splice_boundary(line, j as int, c as int, Seq::<u8>::empty(), 0);
                    assert(newline_row@ =~= line.subrange(0, j as int) + line.subrange(c as int, line.len() as int));
                }
                st.lines[r] = newline_row;
                st.cursor = BufferPosition::new(r, j);
                proof {
                    crate::state::lemma_views_of_update(old(st).lines@, r as int, newline_row);
                    assert(final(st)@.lines =~= spec_backspace(m).lines);
                    assert forall|i: int| 0 <= i < final(st)@.lines.len() implies valid_utf8(
                        #[trigger] final(st)@.lines[i],
                    ) by {
                        if i != r {
                            assert(final(st)@.lines[i] == m.lines[i]);
                        }
                    }
                }
            } else if r > 0 {
                let removed = st.lines.remove(r);
                let merged = concat_bytes(&st.lines[r - 1], &removed);
                proof {
                    lemma_concat_boundary(m.lines[r as int - 1], m.lines[r as int]);
                }
                let prev_len = st.lines[r - 1].len();
                st.lines[r - 1] = merged;
                st.cursor = BufferPosition::new(r - 1, prev_len);
                proof {
                    crate::state::lemma_views_of_remove(old(st).lines@, r as int);
                    let mid = old(st).lines@.remove(r as int);
                    crate::state::lemma_views_of_update(mid, r as int - 1, merged);
                    views_of(mid).remove_ensures(0);
                    assert forall|i: int| 0 <= i < final(st)@.lines.len() implies final(st)@.lines[i]
                        == spec_backspace(m).lines[i] by {
                        if i < r - 1 {
                            assert(views_of(mid)[i] == m.lines[i]);
                        } else if i == r - 1 {
                        } else {
                            assert(views_of(mid)[i] == m.lines[i + 1]);
                        }
                    }
                    assert(final(st)@.lines =~= spec_backspace(m).lines);
                    assert forall|i: int| 0 <= i < final(st)@.lines.len() implies valid_utf8(
                        #[trigger] final(st)@.lines[i],
                    ) by {
                        assert(final(st)@.lines[i] == spec_backspace(m).lines[i]);
                        if i < r - 1 {
                            assert(spec_backspace(m).lines[i] == m.lines[i]);
                        } else if i > r - 1 {
                            assert(spec_backspace(m).lines[i] == m.lines[i + 1]);
                        }
                    }
                }
            }
        },
    }
}

/// Delete: delete the selection, or the character at the cursor, or merge
/// the next row up at end of row.
pub fn doc_delete(st: &mut EditorState)
    requires
        state_wf(old(st)@),
    ensures
        final(st)@ == spec_delete(old(st)@),
        state_wf(final(st)@),
{
    let ghost m = old(st)@;
    match st.selection_range() {
        Some(_) => {
            state_delete_selection(st);
        },
        None => {
            let r = st.cursor.row;
            let c = st.cursor.column;
            let row_len = st.lines[r].len();
            if c < row_len {
                let ghost line = m.lines[r as int];
                let n = char_len_at(cursor_line(st), c);
                let empty: Vec<u8> = Vec::new();
                let new_row = splice_bytes(&st.lines[r], c, c + n, &empty);
                proof {
                    lemma_splice_valid(line, c as int, c as int + n as int, Seq::<u8>::empty());
                    assert(new_row@ =~= line.subrange(0, c as int) + line.subrange(c as int + n as int, line.len() as int));
                }
                st.lines[r] = new_row;
                proof {
                    crate::state::lemma_views_of_update(old(st).lines@, r as int, new_row);
                    assert(final(st)@.lines =~= spec_delete(m).lines);
                    assert forall|i: int| 0 <= i < final(st)@.lines.len() implies valid_utf8(
                        #[trigger] final(st)@.lines[i],
                    ) by {
                        if i != r {
                            assert(final(st)@.lines[i] == m.lines[i]);
                        }
                    }
                    assert(is_char_boundary(spec_delete(m).lines[r as int], c as int)) by {
                        lemma_splice_boundary(line, c as int, c as int + n as int, Seq::<u8>::empty(), 0);
                    }
                }
            } else if r < st.lines.len() - 1 {
                let removed = st.lines.remove(r + 1);
                let merged = concat_bytes(&st.lines[r], &removed);
                proof {
                    lemma_concat_boundary(m.lines[r as int], m.lines[r as int + 1]);
                }
                st.lines[r] = merged;
                proof {
                    crate::state::lemma_views_of_remove(old(st).lines@, r as int + 1);
                    let mid = old(st).lines@.remove(r as int + 1);
                    crate::state::lemma_views_of_update(mid, r as int, merged);
                    views_of(old(st).lines@).remove_ensures(r as int + 1);
                    assert forall|i: int| 0 <= i < final(st)@.lines.len() implies final(st)@.lines[i]
                        == spec_delete(m).lines[i] by {
                        if i < r {
                            assert(views_of(mid)[i] == views_of(old(st).lines@).remove(r as int + 1)[i]);
                        } else if i > r {
                            assert(views_of(mid)[i] == views_of(old(st).lines@).remove(r as int + 1)[i]);
                        }
                    }
                    assert(final(st)@.lines =~= spec_delete(m).lines);
                    assert forall|i: int| 0 <= i < final(st)@.lines.len() implies valid_utf8(
                        #[trigger] final(st)@.lines[i],
                    ) by {
                        assert(final(st)@.lines[i] == spec_delete(m).lines[i]);
                        if i < r {
                            assert(spec_delete(m).lines[i] == m.lines[i]);
                        } else if i > r {
                            assert(spec_delete(m).lines[i] == m.lines[i + 1]);
                        }
                    }
                    assert(is_char_boundary(spec_delete(m).lines[r as int], c as int)) by {
                        lemma_concat_boundary(m.lines[r as int], m.lines[r as int + 1]);
                        assert(c as int == m.lines[r as int].len());
                    }
                }
            }
        },
    }
}


/// Re-clamp the anchor after a mutation that may have moved it out of range.
pub fn doc_sanitize_anchor(st: &mut EditorState)
    requires
        lines_wf(old(st)@.lines),
    ensures
        final(st)@.lines == old(st)@.lines,
        final(st)@.cursor == old(st)@.cursor,
        final(st)@.font_size == old(st)@.font_size,
        final(st)@.anchor == sanitize_anchor(old(st)@.lines, old(st)@.anchor),
        match final(st)@.anchor {
            Some(a) => pos_wf(final(st)@.lines, a),
            None => true,
        },
{
    match st.selection_anchor {
        None => {},
        Some(a) => {
            let p = clamp_position(st, a.row, a.column);
            st.selection_anchor = Some(p);
        },
    }
}

/// Delete the cursor row; the sole row of a document is cleared instead.
pub fn doc_delete_line(st: &mut EditorState)
    requires
        state_wf(old(st)@),
    ensures
        final(st)@ == spec_delete_line(old(st)@),
        state_wf(final(st)@),
{
    let ghost m = old(st)@;
    let r = st.cursor.row;
    let nrows = st.lines.len();
    if nrows == 1 {
        st.lines[0] = Vec::new();
        st.cursor = BufferPosition::zero();
        st.selection_anchor = None;
        proof {
            crate::state::lemma_views_of_update(old(st).lines@, 0, st.lines@[0]);
            assert(final(st)@.lines =~= seq![Seq::<u8>::empty()]);
            assert(valid_utf8(Seq::<u8>::empty()));
        }
    } else if r < nrows - 1 {
        st.lines.remove(r);
        st.cursor = BufferPosition::new(r, 0);
        st.selection_anchor = None;
        proof {
            crate::state::lemma_views_of_remove(old(st).lines@, r as int);
            assert(final(st)@.lines =~= m.lines.remove(r as int));
            views_of(old(st).lines@).remove_ensures(r as int);
            assert forall|i: int| 0 <= i < final(st)@.lines.len() implies valid_utf8(
                #[trigger] final(st)@.lines[i],
            ) by {
                if i < r {
                    assert(final(st)@.lines[i] == m.lines[i]);
                } else {
                    assert(final(st)@.lines[i] == m.lines[i + 1]);
                }
            }
            assert(final(st)@.lines[r as int] == m.lines[r as int + 1]);
        }
    } else {
        st.lines.remove(r);
        st.cursor = BufferPosition::new(r - 1, 0);
        st.selection_anchor = None;
        proof {
            crate::state::lemma_views_of_remove(old(st).lines@, r as int);
            assert(final(st)@.lines =~= m.lines.remove(r as int));
            views_of(old(st).lines@).remove_ensures(r as int);
            assert forall|i: int| 0 <= i < final(st)@.lines.len() implies valid_utf8(
                #[trigger] final(st)@.lines[i],
            ) by {
                assert(final(st)@.lines[i] == m.lines[i]);
            }
            assert(final(st)@.lines[r as int - 1] == m.lines[r as int - 1]);
        }
    }
}

/// Delete the selection, then from the start of the row up to the cursor.
pub fn doc_delete_to_bol(st: &mut EditorState)
    requires
        state_wf(old(st)@),
    ensures
        final(st)@ == spec_delete_to_bol(old(st)@),
        state_wf(final(st)@),
{
    state_delete_selection(st);
    let ghost m = st@;
    let ghost lv = st.lines@;
    let r = st.cursor.row;
    let c = st.cursor.column;
    let rest = sub_bytes(&st.lines[r], c, st.lines[r].len());
    proof {
        valid_utf8_split(m.lines[r as int], c as int);
    }
    st.lines[r] = rest;
    st.cursor = BufferPosition::new(r, 0);
    proof {
        crate::state::lemma_views_of_update(lv, r as int, st.lines@[r as int]);
        assert(st@.lines =~= spec_delete_to_bol(old(st)@).lines);
        assert forall|i: int| 0 <= i < st@.lines.len() implies valid_utf8(
            #[trigger] st@.lines[i],
        ) by {
            if i != r {
                assert(st@.lines[i] == m.lines[i]);
            }
        }
    }
}

/// Delete the selection, then from the cursor to the end of the row.
pub fn doc_delete_to_eol(st: &mut EditorState)
    requires
        state_wf(old(st)@),
    ensures
        final(st)@ == spec_delete_to_eol(old(st)@),
        state_wf(final(st)@),
{
    state_delete_selection(st);
    let ghost m = st@;
    let ghost lv = st.lines@;
    let r = st.cursor.row;
    let c = st.cursor.column;
    let kept = sub_bytes(&st.lines[r], 0, c);
    proof {
        valid_utf8_split(m.lines[r as int], c as int);
        is_char_boundary_start_end_of_seq(m.lines[r as int].subrange(0, c as int));
    }
    st.lines[r] = kept;
    proof {
        crate::state::lemma_views_of_update(lv, r as int, st.lines@[r as int]);
        assert(st@.lines =~= spec_delete_to_eol(old(st)@).lines);
        assert forall|i: int| 0 <= i < st@.lines.len() implies valid_utf8(
            #[trigger] st@.lines[i],
        ) by {
            if i != r {
                assert(st@.lines[i] == m.lines[i]);
            }
        }
    }
}

/// Swap the cursor row with the one above and move the cursor with it.
pub fn doc_move_line_up(st: &mut EditorState)
    requires
        state_wf(old(st)@),
    ensures
        final(st)@ == spec_move_line_up(old(st)@),
        state_wf(final(st)@),
{
    let ghost m = old(st)@;
    let r = st.cursor.row;
    if r == 0 {
        return ;
    }
    let upper = crate::text::copy_bytes(&st.lines[r - 1]);
    let lower = crate::text::copy_bytes(&st.lines[r]);
    st.lines[r] = upper;
    let ghost mid = st.lines@;
    st.lines[r - 1] = lower;
    st.cursor = BufferPosition::new(r - 1, st.cursor.column);
    proof {
        crate::state::lemma_views_of_update(old(st).lines@, r as int, mid[r as int]);
        crate::state::lemma_views_of_update(mid, r as int - 1, st.lines@[r as int - 1]);
        assert(st@.lines =~= spec_move_line_up(m).lines);
        assert forall|i: int| 0 <= i < st@.lines.len() implies valid_utf8(
            #[trigger] st@.lines[i],
        ) by {
            if i == r {
                assert(st@.lines[i] == m.lines[i - 1]);
            } else if i == r - 1 {
                assert(st@.lines[i] == m.lines[i + 1]);
            } else {
                assert(st@.lines[i] == m.lines[i]);
            }
        }
        assert(st@.lines[r as int - 1] == m.lines[r as int]);
    }
    doc_sanitize_anchor(st);
}

/// Swap the cursor row with the one below and move the cursor with it.
pub fn doc_move_line_down(st: &mut EditorState)
    requires
        state_wf(old(st)@),
    ensures
        final(st)@ == spec_move_line_down(old(st)@),
        state_wf(final(st)@),
{
    let ghost m = old(st)@;
    let r = st.cursor.row;
    let nrows = st.lines.len();
    if r >= nrows - 1 {
        return ;
    }
    let upper = crate::text::copy_bytes(&st.lines[r]);
    let lower = crate::text::copy_bytes(&st.lines[r + 1]);
    st.lines[r] = lower;
    let ghost mid = st.lines@;
    st.lines[r + 1] = upper;
    st.cursor = BufferPosition::new(r + 1, st.cursor.column);
    proof {
        crate::state::lemma_views_of_update(old(st).lines@, r as int, mid[r as int]);
        crate::state::lemma_views_of_update(mid, r as int + 1, st.lines@[r as int + 1]);
        assert(st@.lines =~= spec_move_line_down(m).lines);
        assert forall|i: int| 0 <= i < st@.lines.len() implies valid_utf8(
            #[trigger] st@.lines[i],
        ) by {
            if i == r {
                assert(st@.lines[i] == m.lines[i + 1]);
            } else if i == r + 1 {
                assert(st@.lines[i] == m.lines[i - 1]);
            } else {
                assert(st@.lines[i] == m.lines[i]);
            }
        }
        assert(st@.lines[r as int + 1] == m.lines[r as int]);
    }
    doc_sanitize_anchor(st);
}

/// Select the whole document: anchor at the origin, cursor at the end.
pub fn doc_select_all(st: &mut EditorState)
    requires
        state_wf(old(st)@),
    ensures
        final(st)@ == spec_select_all(old(st)@),
        state_wf(final(st)@),
{
    let last = st.lines.len() - 1;
    let last_len = st.lines[last].len();
    st.selection_anchor = Some(BufferPosition::zero());
    st.cursor = BufferPosition::new(last, last_len);
    proof {
        assert(old(st)@.lines[last as int] == old(st).lines@[last as int]@);
        is_char_boundary_start_end_of_seq(old(st)@.lines[last as int]);
    }
}

/// Clamp-and-set the cursor, clearing the selection.
pub fn doc_set_cursor(st: &mut EditorState, row: usize, column: usize)
    requires
        state_wf(old(st)@),
    ensures
        final(st)@ == spec_set_cursor(old(st)@, row as int, column as int),
        state_wf(final(st)@),
{
    st.selection_anchor = None;
    let p = clamp_position(st, row, column);
    st.cursor = p;
}

/// Begin a selection at a clamped position: cursor and anchor both land
/// there.
pub fn doc_start_selection(st: &mut EditorState, row: usize, column: usize)
    requires
        state_wf(old(st)@),
    ensures
        final(st)@ == spec_start_selection(old(st)@, row as int, column as int),
        state_wf(final(st)@),
{
    let p = clamp_position(st, row, column);
    st.cursor = p;
    st.selection_anchor = Some(p);
}

/// Extend the selection to a clamped position, pinning the anchor first if
/// none is set.
pub fn doc_extend_selection(st: &mut EditorState, row: usize, column: usize)
    requires
        state_wf(old(st)@),
    ensures
        final(st)@ == spec_extend_selection(old(st)@, row as int, column as int),
        state_wf(final(st)@),
{
    if st.selection_anchor.is_none() {
        st.selection_anchor = Some(st.cursor);
    }
    let p = clamp_position(st, row, column);
    st.cursor = p;
}


/// Where a word-wise left step sends the cursor: skip whitespace, then a run
/// of word characters, stopping at any class change.
pub fn cursor_word_left_exec(st: &EditorState) -> (p: BufferPosition)
    requires
        state_wf(st@),
    ensures
        (p.row as int, p.column as int) == cursor_word_left(st@),
        pos_wf(st@.lines, cursor_word_left(st@)),
{
    let r = st.cursor.row;
    let c = st.cursor.column;
    if c == 0 {
        if r > 0 {
            proof {
                assert(st@.lines[r - 1] == st.lines@[r as int - 1]@);
                is_char_boundary_start_end_of_seq(st@.lines[r - 1]);
            }
            BufferPosition::new(r - 1, st.lines[r - 1].len())
        } else {
            st.cursor
        }
    } else {
        let line = cursor_line(st);
        let mut pos = c;
        let mut done = false;
        while pos > 0 && !done
            invariant
                valid_utf8(line@),
                0 <= pos <= c <= line.len(),
                is_char_boundary(line@, pos as int),
                scan_back_ws(line@, c as int) == scan_back_ws(line@, pos as int),
                done ==> scan_back_ws(line@, pos as int) == pos as int,
            decreases pos, (if done { 0int } else { 1int }),
        {
            let j = prev_char_start(line, pos);
            proof {
                lemma_prev_boundary(line@, pos as int);
                lemma_boundary_unique(
                    line@,
                    pos as int,
                    j as int,
                    prev_boundary(line@, pos as int),
                );
            }
            let ch = crate::text::char_at(line, j);
            if crate::trusted::char_is_whitespace(ch) {
                pos = j;
            } else {
                done = true;
            }
        }
        let ghost wstop = scan_back_ws(line@, c as int);
        proof {
            assert(wstop == pos as int);
        }
        let mut done2 = false;
        while pos > 0 && !done2
            invariant
                valid_utf8(line@),
                0 <= pos <= line.len(),
                is_char_boundary(line@, pos as int),
                scan_back_word(line@, wstop) == scan_back_word(line@, pos as int),
                done2 ==> scan_back_word(line@, pos as int) == pos as int,
            decreases pos, (if done2 { 0int } else { 1int }),
        {
            let j = prev_char_start(line, pos);
            proof {
                lemma_prev_boundary(line@, pos as int);
                lemma_boundary_unique(
                    line@,
                    pos as int,
                    j as int,
                    prev_boundary(line@, pos as int),
                );
            }
            let ch = crate::text::char_at(line, j);
            if crate::trusted::char_is_alphanumeric(ch) || ch == '_' {
                pos = j;
            } else {
                done2 = true;
            }
        }
        proof {
            assert(scan_back_word(line@, wstop) == pos as int);
        }
        BufferPosition::new(r, pos)
    }
}

/// Where a word-wise right step sends the cursor: skip the current run of
/// word characters, then any following whitespace.
pub fn cursor_word_right_exec(st: &EditorState) -> (p: BufferPosition)
    requires
        state_wf(st@),
    ensures
        (p.row as int, p.column as int) == cursor_word_right(st@),
        pos_wf(st@.lines, cursor_word_right(st@)),
{
    let r = st.cursor.row;
    let c = st.cursor.column;
    let line = cursor_line(st);
    if c >= line.len() {
        let nrows = st.lines.len();
        if r < nrows - 1 {
            proof {
                assert(st@.lines[r + 1] == st.lines@[r as int + 1]@);
                is_char_boundary_start_end_of_seq(st@.lines[r + 1]);
            }
            BufferPosition::new(r + 1, 0)
        } else {
            st.cursor
        }
    } else {
        let mut pos = c;
        let mut done = false;
        while pos < line.len() && !done
            invariant
                valid_utf8(line@),
                0 <= c <= pos <= line.len(),
                is_char_boundary(line@, pos as int),
                scan_fwd_word(line@, c as int) == scan_fwd_word(line@, pos as int),
                done ==> scan_fwd_word(line@, pos as int) == pos as int,
            decreases line.len() - pos, (if done { 0int } else { 1int }),
        {
            let ch = crate::text::char_at(line, pos);
            if crate::trusted::char_is_alphanumeric(ch) || ch == '_' {
                let n = char_len_at(line, pos);
                pos = pos + n;
            } else {
                done = true;
            }
        }
        let ghost wstop = scan_fwd_word(line@, c as int);
        proof {
            assert(wstop == pos as int);
        }
        let mut done2 = false;
        while pos < line.len() && !done2
            invariant
                valid_utf8(line@),
                0 <= pos <= line.len(),
                is_char_boundary(line@, pos as int),
                scan_fwd_ws(line@, wstop) == scan_fwd_ws(line@, pos as int),
                done2 ==> scan_fwd_ws(line@, pos as int) == pos as int,
            decreases line.len() - pos, (if done2 { 0int } else { 1int }),
        {
            let ch = crate::text::char_at(line, pos);
            if crate::trusted::char_is_whitespace(ch) {
                let n = char_len_at(line, pos);
                pos = pos + n;
            } else {
                done2 = true;
            }
        }
        proof {
            assert(scan_fwd_ws(line@, wstop) == pos as int);
        }
        BufferPosition::new(r, pos)
    }
}


/// ASCII-only byte sequences are valid UTF-8.
pub proof fn lemma_ascii_valid(s: Seq<u8>)
    requires
        forall|i: int| 0 <= i < s.len() ==> #[trigger] s[i] < 0x80,
    ensures
        valid_utf8(s),
    decreases s.len(),
{
    if s.len() > 0 {
        assert(valid_first_scalar(s));
        assert(pop_first_scalar(s) =~= s.drop_first());
        assert forall|i: int| 0 <= i < s.drop_first().len() implies #[trigger] s.drop_first()[i]
            < 0x80 by {
            assert(s.drop_first()[i] == s[i + 1]);
        }
        lemma_ascii_valid(s.drop_first());
    }
}

/// Prepending a valid prefix shifts every boundary of the tail.
pub proof fn lemma_prefix_shift_boundary(p: Seq<u8>, line: Seq<u8>, k: int)
    requires
        valid_utf8(p),
        valid_utf8(line),
        0 <= k <= line.len(),
        is_char_boundary(line, k),
    ensures
        valid_utf8(p + line),
        is_char_boundary(p + line, p.len() + k),
{
    valid_utf8_concat(p, line);
    lemma_boundary_char(line, k);
    lemma_boundary_char(p + line, p.len() + k);
    if k < line.len() {
        assert((p + line)[p.len() + k] == line[k]);
    }
}

/// Dropping a prefix at a boundary shifts every later boundary down.
pub proof fn lemma_skip_boundary(line: Seq<u8>, k: int, c: int)
    requires
        valid_utf8(line),
        0 <= k <= c <= line.len(),
        is_char_boundary(line, k),
        is_char_boundary(line, c),
    ensures
        valid_utf8(line.subrange(k, line.len() as int)),
        is_char_boundary(line.subrange(k, line.len() as int), c - k),
{
    valid_utf8_split(line, k);
    let tail = line.subrange(k, line.len() as int);
    lemma_boundary_char(line, c);
    lemma_boundary_char(tail, c - k);
    if c < line.len() {
        assert(tail[c - k] == line[c]);
    }
}

/// A vector holding four spaces.
pub fn four_spaces_vec() -> (r: Vec<u8>)
    ensures
        r@ == four_spaces(),
        valid_utf8(r@),
        forall|i: int| 0 <= i < r@.len() ==> #[trigger] r@[i] < 0x80,
{
    let mut r: Vec<u8> = Vec::new();
    r.push(32);
    r.push(32);
    r.push(32);
    r.push(32);
    proof {
        assert(r@ =~= four_spaces());
        lemma_ascii_valid(r@);
    }
    r
}

/// Indent: four spaces at the cursor, or at the start of every selected row
/// with cursor and anchor shifted along.
pub fn doc_tab(st: &mut EditorState)
    requires
        state_wf(old(st)@),
        doc_size(old(st)@.lines) + 4 <= usize::MAX,
    ensures
        final(st)@ == spec_tab(old(st)@),
        state_wf(final(st)@),
{
    let ghost m = old(st)@;
    let sp = four_spaces_vec();
    match st.selection_range() {
        Some((s, e)) => {
            let ghost sg = (s.row as int, s.column as int);
            let ghost eg = (e.row as int, e.column as int);
            let ghost target = Seq::new(
                m.lines.len(),
                |i: int|
                    if sg.0 <= i <= eg.0 {
                        four_spaces() + m.lines[i]
                    } else {
                        m.lines[i]
                    },
            );
            let ks = count_outdent(&st.lines[s.row]);
            let ke = count_outdent(&st.lines[e.row]);
            proof {
                assert(m.lines[sg.0] == st.lines@[sg.0]@);
                assert(m.lines[eg.0] == st.lines@[eg.0]@);
            }
            let mut row = s.row;
            let nrows = st.lines.len();
            while row <= e.row
                invariant
                    state_wf(m),
                    doc_size(m.lines) + 4 <= usize::MAX,
                    sg == (s.row as int, s.column as int),
                    eg == (e.row as int, e.column as int),
                    e.row < nrows,
                    nrows == st.lines@.len(),
                    sp@ == four_spaces(),
                    0 <= sg.0 <= eg.0 < m.lines.len(),
                    sg.0 <= row as int <= eg.0 + 1,
                    st.lines@.len() == m.lines.len(),
                    target == Seq::new(
                        m.lines.len(),
                        |i: int|
                            if sg.0 <= i <= eg.0 {
                                four_spaces() + m.lines[i]
                            } else {
                                m.lines[i]
                            },
                    ),
                    forall|i: int|
                        0 <= i < m.lines.len() ==> views_of(st.lines@)[i] == (if sg.0 <= i
                            < row as int {
                            target[i]
                        } else {
                            m.lines[i]
                        }),
                    ks == spaces_prefix(m.lines[sg.0], 0),
                    ke == spaces_prefix(m.lines[eg.0], 0),
                    st.cursor == old(st).cursor,
                    st.selection_anchor == old(st).selection_anchor,
                    st.font_size == old(st).font_size,
                decreases e.row + 1 - row,
            {
                let ghost before = st.lines@;
                proof {
                    assert(views_of(before)[row as int] == m.lines[row as int]);
                    lemma_row_le_doc_size(m.lines, row as int);
                }
                let newrow = splice_bytes(&st.lines[row], 0, 0, &sp);
                proof {
                    assert(newrow@ =~= four_spaces() + m.lines[row as int]);
                }
                st.lines[row] = newrow;
                proof {
                    crate::state::lemma_views_of_update(before, row as int, newrow);
                }
                row += 1;
            }
            proof {
                lemma_row_le_doc_size(m.lines, sg.0);
                lemma_row_le_doc_size(m.lines, eg.0);
            }
            st.selection_anchor = Some(BufferPosition::new(s.row, s.column + 4));
            st.cursor = BufferPosition::new(e.row, e.column + 4);
            proof {
                assert(final(st)@.lines =~= target);
                assert(final(st)@ == spec_tab(m));
                assert forall|i: int| 0 <= i < target.len() implies valid_utf8(
                    #[trigger] target[i],
                ) by {
                    if sg.0 <= i <= eg.0 {
                        lemma_ascii_valid(four_spaces());
                        valid_utf8_concat(four_spaces(), m.lines[i]);
                    }
                }
                lemma_ascii_valid(four_spaces());
                lemma_prefix_shift_boundary(four_spaces(), m.lines[eg.0], eg.1);
                lemma_prefix_shift_boundary(four_spaces(), m.lines[sg.0], sg.1);
                assert(state_wf(final(st)@));
            }
        },
        None => {
            proof {
                lemma_row_le_doc_size(m.lines, m.cursor.0);
            }
            state_insert_at_cursor(st, &sp);
        },
    }
}

/// How many of up to four leading spaces a row has.
pub fn count_outdent(line: &Vec<u8>) -> (k: usize)
    requires
        valid_utf8(line@),
    ensures
        k == spaces_prefix(line@, 0),
        k <= line.len(),
        k <= 4,
        is_char_boundary(line@, k as int),
{
    let mut k: usize = 0;
    proof {
        assert(is_char_boundary(line@, 0));
    }
    while k < 4 && k < line.len() && line[k] == 32
        invariant
            valid_utf8(line@),
            0 <= k <= 4,
            k <= line.len(),
            is_char_boundary(line@, k as int),
            spaces_prefix(line@, 0) == spaces_prefix(line@, k as int),
        decreases 4 - k,
    {
        proof {
            lemma_suffix_first_scalar(line@, k as int);
            let suffix = line@.subrange(k as int, line@.len() as int);
            assert(suffix[0] == line@[k as int]);
            assert(length_of_first_scalar(suffix) == 1);
            lemma_step_boundary(line@, k as int, 1);
        }
        k += 1;
    }
    proof {
        assert(spaces_prefix(line@, k as int) == k as int);
    }
    k
}

/// Outdent: strip up to four leading spaces from the cursor row, or from
/// every selected row, pulling cursor and anchor left.
pub fn doc_outdent(st: &mut EditorState)
    requires
        state_wf(old(st)@),
    ensures
        final(st)@ == spec_outdent(old(st)@),
        state_wf(final(st)@),
{
    let ghost m = old(st)@;
    match st.selection_range() {
        Some((s, e)) => {
            let ghost sg = (s.row as int, s.column as int);
            let ghost eg = (e.row as int, e.column as int);
            let ghost target = Seq::new(
                m.lines.len(),
                |i: int|
                    if sg.0 <= i <= eg.0 {
                        outdent_row(m.lines[i])
                    } else {
                        m.lines[i]
                    },
            );
            let ks = count_outdent(&st.lines[s.row]);
            let ke = count_outdent(&st.lines[e.row]);
            proof {
                assert(m.lines[sg.0] == st.lines@[sg.0]@);
                assert(m.lines[eg.0] == st.lines@[eg.0]@);
            }
            let mut row = s.row;
            let nrows = st.lines.len();
            while row <= e.row
                invariant
                    state_wf(m),
                    sg == (s.row as int, s.column as int),
                    eg == (e.row as int, e.column as int),
                    e.row < nrows,
                    nrows == st.lines@.len(),
                    0 <= sg.0 <= eg.0 < m.lines.len(),
                    sg.0 <= row as int <= eg.0 + 1,
                    st.lines@.len() == m.lines.len(),
                    target == Seq::new(
                        m.lines.len(),
                        |i: int|
                            if sg.0 <= i <= eg.0 {
                                outdent_row(m.lines[i])
                            } else {
                                m.lines[i]
                            },
                    ),
                    forall|i: int|
                        0 <= i < m.lines.len() ==> views_of(st.lines@)[i] == (if sg.0 <= i
                            < row as int {
                            target[i]
                        } else {
                            m.lines[i]
                        }),
                    ks == spaces_prefix(m.lines[sg.0], 0),
                    ke == spaces_prefix(m.lines[eg.0], 0),
                    st.cursor == old(st).cursor,
                    st.selection_anchor == old(st).selection_anchor,
                    st.font_size == old(st).font_size,
                decreases e.row + 1 - row,
            {
                let ghost before = st.lines@;
                proof {
                    assert(views_of(before)[row as int] == m.lines[row as int]);
                }
                let k = count_outdent(&st.lines[row]);
                let newrow = sub_bytes(&st.lines[row], k, st.lines[row].len());
                proof {
                    assert(newrow@ =~= outdent_row(m.lines[row as int]));
                }
                st.lines[row] = newrow;
                proof {
                    crate::state::lemma_views_of_update(before, row as int, newrow);
                }
                row += 1;
            }
            proof {
                assert(views_of(st.lines@) =~= target);
                assert forall|i: int| 0 <= i < target.len() implies valid_utf8(
                    #[trigger] target[i],
                ) by {
                    if sg.0 <= i <= eg.0 {
                        lemma_spaces_prefix_boundary(m.lines[i]);
                        valid_utf8_split(m.lines[i], spaces_prefix(m.lines[i], 0));
                    }
                }
                assert(crate::state::lines_wf(views_of(st.lines@)));
            }
            let new_start_col = if s.column >= ks {
                s.column - ks
            } else {
                0
            };
            let new_end_col = if e.column >= ke {
                e.column - ke
            } else {
                0
            };
            st.selection_anchor = Some(BufferPosition::new(s.row, new_start_col));
            st.cursor = BufferPosition::new(e.row, new_end_col);
            proof {
                assert(final(st)@.lines =~= target);
                assert(final(st)@ == spec_outdent(m));
                lemma_outdent_col_boundary(m.lines[sg.0], sg.1);
                lemma_outdent_col_boundary(m.lines[eg.0], eg.1);
                assert(final(st)@.lines[sg.0] == outdent_row(m.lines[sg.0]));
                assert(final(st)@.lines[eg.0] == outdent_row(m.lines[eg.0]));
            }
        },
        None => {
            let r = st.cursor.row;
            let c = st.cursor.column;
            let k = count_outdent(&st.lines[r]);
            proof {
                assert(m.lines[r as int] == st.lines@[r as int]@);
            }
            if k > 0 {
                let newrow = sub_bytes(&st.lines[r], k, st.lines[r].len());
                proof {
                    assert(newrow@ =~= outdent_row(m.lines[r as int]));
                }
                st.lines[r] = newrow;
                let newc = if c >= k {
                    c - k
                } else {
                    0
                };
                st.cursor = BufferPosition::new(r, newc);
                proof {
                    crate::state::lemma_views_of_update(old(st).lines@, r as int, newrow);
                    assert(final(st)@.lines =~= spec_outdent(m).lines);
                    assert forall|i: int| 0 <= i < final(st)@.lines.len() implies valid_utf8(
                        #[trigger] final(st)@.lines[i],
                    ) by {
                        if i != r {
                            assert(final(st)@.lines[i] == m.lines[i]);
                        } else {
                            lemma_spaces_prefix_boundary(m.lines[i]);
                            valid_utf8_split(m.lines[i], spaces_prefix(m.lines[i], 0));
                        }
                    }
                    if c >= k {
                        lemma_spaces_prefix_boundary(m.lines[r as int]);
                        lemma_skip_boundary(m.lines[r as int], k as int, c as int);
                    }
                    assert(is_char_boundary(final(st)@.lines[r as int], final(st)@.cursor.1));
                }
            }
        },
    }
}

/// A column shifted left by the removed leading spaces stays in bounds and
/// on a character boundary of the outdented row.
pub proof fn lemma_outdent_col_boundary(line: Seq<u8>, c: int)
    requires
        valid_utf8(line),
        0 <= c <= line.len(),
        is_char_boundary(line, c),
    ensures
        ({
            let k = spaces_prefix(line, 0);
            let col = sat_sub(c, k);
            &&& 0 <= col <= outdent_row(line).len()
            &&& is_char_boundary(outdent_row(line), col)
        }),
{
    lemma_spaces_prefix_boundary(line);
    let k = spaces_prefix(line, 0);
    valid_utf8_split(line, k);
    if c >= k {
        lemma_skip_boundary(line, k, c);
    } else {
        assert(is_char_boundary(outdent_row(line), 0));
    }
}

/// The leading-space count is a character boundary.
pub proof fn lemma_spaces_prefix_boundary(line: Seq<u8>)
    requires
        valid_utf8(line),
    ensures
        0 <= spaces_prefix(line, 0) <= line.len(),
        0 <= spaces_prefix(line, 0) <= 4,
        is_char_boundary(line, spaces_prefix(line, 0)),
{
    lemma_spaces_prefix_boundary_from(line, 0);
}

proof fn lemma_spaces_prefix_boundary_from(line: Seq<u8>, i: int)
    requires
        valid_utf8(line),
        0 <= i <= 4,
        i <= line.len(),
        is_char_boundary(line, i),
    ensures
        i <= spaces_prefix(line, i) <= line.len(),
        spaces_prefix(line, i) <= 4,
        is_char_boundary(line, spaces_prefix(line, i)),
    decreases 4 - i,
{
    if i >= 4 || i >= line.len() || line[i] != 32 {
    } else {
        lemma_suffix_first_scalar(line, i);
        let suffix = line.subrange(i, line.len() as int);
        assert(suffix[0] == line[i]);
        assert(length_of_first_scalar(suffix) == 1);
        lemma_step_boundary(line, i, 1);
        lemma_spaces_prefix_boundary_from(line, i + 1);
    }
}

/// Delete word left: delete the selection, then move the cursor word-wise
/// left and, when the move stays on the same row, delete the bytes it
/// skipped.
pub fn doc_delete_word_left(st: &mut EditorState)
    requires
        state_wf(old(st)@),
    ensures
        final(st)@ == spec_delete_word_left(old(st)@),
        state_wf(final(st)@),
{
    state_delete_selection(st);
    let ghost m = st@;
    let ghost lv = st.lines@;
    let t = cursor_word_left_exec(st);
    let r = st.cursor.row;
    let c = st.cursor.column;
    if t.row == r {
        proof {
            if c > 0 {
                let line = m.lines[r as int];
                lemma_scan_back_ws_wf(line, c as int);
                lemma_scan_back_word_wf(line, scan_back_ws(line, c as int));
            }
        }
        let empty: Vec<u8> = Vec::new();
        let newrow = splice_bytes(&st.lines[r], t.column, c, &empty);
        proof {
            let line = m.lines[r as int];
            lemma_splice_valid(line, t.column as int, c as int, Seq::<u8>::empty());
            lemma_splice_boundary(line, t.column as int, c as int, Seq::<u8>::empty(), 0);
            assert(newrow@ =~= line.subrange(0, t.column as int) + line.subrange(
                c as int,
                line.len() as int,
            ));
        }
        st.lines[r] = newrow;
        st.cursor = t;
        proof {
            crate::state::lemma_views_of_update(lv, r as int, newrow);
            assert(final(st)@.lines =~= spec_delete_word_left(old(st)@).lines);
            assert forall|i: int| 0 <= i < final(st)@.lines.len() implies valid_utf8(
                #[trigger] final(st)@.lines[i],
            ) by {
                if i != r {
                    assert(final(st)@.lines[i] == m.lines[i]);
                }
            }
        }
    } else {
        st.cursor = t;
    }
}

/// Delete word right: delete the selection, then compute the word-wise right
/// target and, when it stays on the same row, delete up to it while the
/// cursor keeps its place.
pub fn doc_delete_word_right(st: &mut EditorState)
    requires
        state_wf(old(st)@),
    ensures
        final(st)@ == spec_delete_word_right(old(st)@),
        state_wf(final(st)@),
{
    state_delete_selection(st);
    let ghost m = st@;
    let ghost lv = st.lines@;
    let t = cursor_word_right_exec(st);
    let r = st.cursor.row;
    let c = st.cursor.column;
    if t.row == r {
        proof {
            if c < m.lines[r as int].len() {
                let line = m.lines[r as int];
                lemma_scan_fwd_word_wf(line, c as int);
                lemma_scan_fwd_ws_wf(line, scan_fwd_word(line, c as int));
            }
        }
        let empty: Vec<u8> = Vec::new();
        let newrow = splice_bytes(&st.lines[r], c, t.column, &empty);
        proof {
            let line = m.lines[r as int];
            lemma_splice_valid(line, c as int, t.column as int, Seq::<u8>::empty());
            lemma_splice_boundary(line, c as int, t.column as int, Seq::<u8>::empty(), 0);
            assert(newrow@ =~= line.subrange(0, c as int) + line.subrange(
                t.column as int,
                line.len() as int,
            ));
        }
        st.lines[r] = newrow;
        proof {
            crate::state::lemma_views_of_update(lv, r as int, newrow);
            assert(final(st)@.lines =~= spec_delete_word_right(old(st)@).lines);
            assert forall|i: int| 0 <= i < final(st)@.lines.len() implies valid_utf8(
                #[trigger] final(st)@.lines[i],
            ) by {
                if i != r {
                    assert(final(st)@.lines[i] == m.lines[i]);
                }
            }
        }
    } else {
        st.cursor = t;
    }
}


// ---------------------------------------------------------------------
// Typing.
// ---------------------------------------------------------------------

pub proof fn lemma_doc_size_update(lines: Seq<Seq<u8>>, i: int, row: Seq<u8>)
    requires
        0 <= i < lines.len(),
    ensures
        doc_size(lines.update(i, row)) == doc_size(lines) - lines[i].len() + row.len(),
    decreases i,
{
    if i == 0 {
        assert(lines.update(0, row).drop_first() =~= lines.drop_first());
        assert(lines.update(0, row)[0] == row);
    } else {
        assert(lines.update(i, row).drop_first() =~= lines.drop_first().update(i - 1, row));
        lemma_doc_size_update(lines.drop_first(), i - 1, row);
    }
}

/// Splitting a row leaves the total byte size unchanged.
pub proof fn lemma_doc_size_split(m: StateModel)
    requires
        state_wf(m),
    ensures
        doc_size(split_at_cursor(m).lines) == doc_size(m.lines),
{
    let (r, c) = m.cursor;
    let line = m.lines[r];
    let d = split_at_cursor(m).lines;
    lemma_doc_size_concat(
        m.lines.subrange(0, r) + seq![line.subrange(0, c)] + seq![
            line.subrange(c, line.len() as int),
        ],
        m.lines.subrange(r + 1, m.lines.len() as int),
    );
    lemma_doc_size_concat(
        m.lines.subrange(0, r) + seq![line.subrange(0, c)],
        seq![line.subrange(c, line.len() as int)],
    );
    lemma_doc_size_concat(m.lines.subrange(0, r), seq![line.subrange(0, c)]);
    lemma_doc_size_singleton(line.subrange(0, c));
    lemma_doc_size_singleton(line.subrange(c, line.len() as int));
    assert(m.lines =~= (m.lines.subrange(0, r) + seq![line]) + m.lines.subrange(
        r + 1,
        m.lines.len() as int,
    ));
    lemma_doc_size_concat(m.lines.subrange(0, r) + seq![line], m.lines.subrange(r + 1, m.lines.len() as int));
    lemma_doc_size_concat(m.lines.subrange(0, r), seq![line]);
    lemma_doc_size_singleton(line);
}

/// Deleting the selection never grows the document.
pub proof fn lemma_doc_size_after_sel_delete(m: StateModel)
    requires
        state_wf(m),
    ensures
        doc_size(after_sel_delete(m).lines) <= doc_size(m.lines),
{
    match sel_range(m) {
        None => {},
        Some((s, e)) => {
            lemma_doc_size_delete_range(m.lines, s, e);
        },
    }
}

/// Type one character: the selection goes first, then a newline splits the
/// row and anything else is inserted at the cursor.
pub fn doc_type_char(st: &mut EditorState, ch: char)
    requires
        state_wf(old(st)@),
        doc_size(old(st)@.lines) + 4 <= usize::MAX,
    ensures
        final(st)@ == spec_type_char(old(st)@, ch),
        state_wf(final(st)@),
{
    let ghost m = old(st)@;
    state_delete_selection(st);
    proof {
        lemma_doc_size_after_sel_delete(m);
    }
    if ch == '\n' {
        state_split_at_cursor(st);
    } else {
        let b = crate::text::encode_char(ch);
        proof {
            lemma_row_le_doc_size(after_sel_delete(m).lines, after_sel_delete(m).cursor.0);
            lemma_doc_size_nonneg(after_sel_delete(m).lines);
        }
        state_insert_at_cursor(st, &b);
    }
}

/// Type a string: the selection goes first, then the characters are applied
/// one step at a time.
pub fn doc_type_string(st: &mut EditorState, s: &str)
    requires
        state_wf(old(st)@),
        doc_size(old(st)@.lines) + encode_utf8(s@).len() <= usize::MAX,
    ensures
        final(st)@ == spec_type_string(old(st)@, s@),
        state_wf(final(st)@),
{
    let ghost m = old(st)@;
    state_delete_selection(st);
    proof {
        lemma_doc_size_after_sel_delete(m);
        encode_utf8_valid_utf8(s@);
        encode_utf8_decode_utf8(s@);
    }
    let bytes = s.as_bytes_vec();
    let ghost m1 = after_sel_delete(m);
    let mut pos: usize = 0;
    proof {
        assert(bytes@.subrange(0, bytes@.len() as int) =~= bytes@);
        assert(decode_utf8(bytes@) == s@);
        assert(st@ == m1);
    }
    while pos < bytes.len()
        invariant
            valid_utf8(bytes@),
            bytes@ == encode_utf8(s@),
            is_char_boundary(bytes@, pos as int),
            0 <= pos <= bytes.len(),
            state_wf(st@),
            st@.anchor is None,
            type_chars(st@, decode_utf8(bytes@.subrange(pos as int, bytes@.len() as int)))
                == type_chars(m1, s@),
            doc_size(st@.lines) + (bytes@.len() - pos) <= usize::MAX,
        decreases bytes.len() - pos,
    {
        let ghost cur = st@;
        let ghost suffix = bytes@.subrange(pos as int, bytes@.len() as int);
        let ch = crate::text::char_at(&bytes, pos);
        let n = char_len_at(&bytes, pos);
        proof {
            lemma_suffix_first_scalar(bytes@, pos as int);
            assert(decode_utf8(suffix) == seq![decode_first_scalar(suffix) as char] + decode_utf8(
                pop_first_scalar(suffix),
            ));
            assert(decode_utf8(suffix)[0] == ch);
            assert(pop_first_scalar(suffix) =~= bytes@.subrange(
                pos + n,
                bytes@.len() as int,
            ));
            assert(decode_utf8(suffix).drop_first() =~= decode_utf8(
                bytes@.subrange(pos + n, bytes@.len() as int),
            ));
        }
        if ch == '\n' {
            state_split_at_cursor(st);
            proof {
                lemma_doc_size_split(cur);
            }
        } else {
            let b = crate::text::encode_char(ch);
            proof {
                lemma_row_le_doc_size(cur.lines, cur.cursor.0);
                lemma_doc_size_nonneg(cur.lines);
                assert(b@.len() <= 4);
                // one character's encoding is exactly the bytes consumed
                decode_utf8_first_scalar(suffix);
                assert(take_first_scalar(suffix).len() == n);
                assert(b@.len() == n);
            }
            state_insert_at_cursor(st, &b);
            proof {
                lemma_doc_size_update(
                    cur.lines,
                    cur.cursor.0,
                    splice(cur.lines[cur.cursor.0], cur.cursor.1, cur.cursor.1, b@),
                );
            }
        }
        proof {
            assert(st@ == type_char_step(cur, ch));
            assert(type_chars(cur, decode_utf8(suffix)) == type_chars(
                type_char_step(cur, ch),
                decode_utf8(suffix).drop_first(),
            ));
        }
        pos = pos + n;
    }
    proof {
        assert(bytes@.subrange(pos as int, bytes@.len() as int) =~= Seq::<u8>::empty());
        assert(decode_utf8(Seq::<u8>::empty()) =~= Seq::<char>::empty());
        assert(type_chars(st@, Seq::<char>::empty()) == st@);
    }
}


// ---------------------------------------------------------------------
// Newline and list markers.
// ---------------------------------------------------------------------

/// Forward whitespace scan from a boundary, as used to measure indentation.
pub fn scan_ws_from(line: &Vec<u8>, from: usize) -> (r: usize)
    requires
        valid_utf8(line@),
        is_char_boundary(line@, from as int),
        from <= line.len(),
    ensures
        r == scan_fwd_ws(line@, from as int),
        from <= r <= line.len(),
        is_char_boundary(line@, r as int),
{
    let mut pos = from;
    let mut done = false;
    while pos < line.len() && !done
        invariant
            valid_utf8(line@),
            from <= pos <= line.len(),
            is_char_boundary(line@, pos as int),
            scan_fwd_ws(line@, from as int) == scan_fwd_ws(line@, pos as int),
            done ==> scan_fwd_ws(line@, pos as int) == pos as int,
        decreases line.len() - pos, (if done { 0int } else { 1int }),
    {
        let ch = crate::text::char_at(line, pos);
        if crate::trusted::char_is_whitespace(ch) {
            let n = char_len_at(line, pos);
            pos = pos + n;
        } else {
            done = true;
        }
    }
    proof {
        assert(scan_fwd_ws(line@, pos as int) == pos as int);
        lemma_scan_fwd_ws_wf(line@, from as int);
    }
    pos
}

/// Whether `s` starts with `p`.
pub fn has_prefix(s: &Vec<u8>, p: &Vec<u8>) -> (r: bool)
    ensures
        r == starts_with(s@, p@),
{
    if s.len() < p.len() {
        proof {
            assert(!starts_with(s@, p@));
        }
        return false;
    }
    let mut i: usize = 0;
    while i < p.len()
        invariant
            p.len() <= s.len(),
            0 <= i <= p.len(),
            forall|k: int| 0 <= k < i ==> s@[k] == p@[k],
        decreases p.len() - i,
    {
        if s[i] != p[i] {
            proof {
                assert(s@.subrange(0, p@.len() as int)[i as int] != p@[i as int]);
            }
            return false;
        }
        i += 1;
    }
    proof {
        assert(s@.subrange(0, p@.len() as int) =~= p@);
    }
    true
}

/// Digit strings have non-negative value, monotone in their prefixes.
pub proof fn lemma_dec_value_mono(s: Seq<u8>, i: int)
    requires
        all_digits(s),
        0 <= i <= s.len(),
    ensures
        0 <= dec_value(s.subrange(0, i)) <= dec_value(s),
    decreases s.len() - i,
{
    lemma_dec_value_nonneg(s.subrange(0, i));
    if i == s.len() {
        assert(s.subrange(0, i) =~= s);
    } else {
        lemma_dec_value_mono(s, i + 1);
        let t = s.subrange(0, i + 1);
        assert(t.drop_last() =~= s.subrange(0, i));
        assert(is_digit(t.last()));
        assert(dec_value(t) == dec_value(s.subrange(0, i)) * 10 + (t.last() - 0x30));
        lemma_dec_value_nonneg(s.subrange(0, i));
    }
}

pub proof fn lemma_dec_value_nonneg(s: Seq<u8>)
    requires
        all_digits(s),
    ensures
        dec_value(s) >= 0,
    decreases s.len(),
{
    if s.len() > 0 {
        assert(s.drop_last() =~= s.subrange(0, s.len() - 1));
        assert forall|i: int| 0 <= i < s.drop_last().len() implies is_digit(
            #[trigger] s.drop_last()[i],
        ) by {
            assert(s.drop_last()[i] == s[i]);
        }
        lemma_dec_value_nonneg(s.drop_last());
        assert(is_digit(s.last()));
    }
}

/// Parse a digit string as a number, failing on any non-digit, the empty
/// string, or overflow.
pub fn parse_usize(s: &Vec<u8>) -> (r: Option<usize>)
    ensures
        r matches Some(v) ==> all_digits(s@) && s@.len() > 0 && v as int == dec_value(s@),
        r is None ==> !(all_digits(s@) && s@.len() > 0 && dec_value(s@) <= usize::MAX),
{
    if s.len() == 0 {
        return None;
    }
    let mut acc: usize = 0;
    let mut i: usize = 0;
    while i < s.len()
        invariant
            0 < s@.len(),
            0 <= i <= s.len(),
            forall|k: int| 0 <= k < i ==> is_digit(#[trigger] s@[k]),
            acc as int == dec_value(s@.subrange(0, i as int)),
        decreases s.len() - i,
    {
        let b = s[i];
        if b < 0x30 || b > 0x39 {
            proof {
                assert(!is_digit(s@[i as int]));
            }
            return None;
        }
        let d = (b - 0x30) as usize;
        if acc > (usize::MAX - d) / 10 {
            proof {
                let t = s@.subrange(0, i + 1);
                assert(t.drop_last() =~= s@.subrange(0, i as int));
                assert(dec_value(t) == acc * 10 + d);
                assert(acc * 10 + d > usize::MAX) by (nonlinear_arith)
                    requires
                        acc > (usize::MAX - d) / 10,
                        0 <= d <= 9,
                        acc >= 0,
                ;
                if all_digits(s@) {
                    lemma_dec_value_mono(s@, i + 1);
                }
            }
            return None;
        }
        proof {
            let t = s@.subrange(0, i + 1);
            assert(t.drop_last() =~= s@.subrange(0, i as int));
            assert(dec_value(t) == acc * 10 + (s@[i as int] - 0x30));
            assert(acc * 10 + d <= usize::MAX) by (nonlinear_arith)
                requires
                    acc <= (usize::MAX - d) / 10,
                    0 <= d <= 9,
                    acc >= 0,
            ;
        }
        acc = acc * 10 + d;
        i += 1;
    }
    proof {
        assert(s@.subrange(0, s@.len() as int) =~= s@);
    }
    Some(acc)
}

/// Every byte of a rendered number is a decimal digit.
pub proof fn lemma_digits_of_digits(n: int)
    requires
        n >= 0,
    ensures
        all_digits(digits_of(n)),
        digits_of(n).len() >= 1,
        forall|i: int| 0 <= i < digits_of(n).len() ==> #[trigger] digits_of(n)[i] < 0x80,
    decreases n,
{
    if n >= 10 {
        lemma_digits_of_digits(n / 10);
        assert forall|i: int| 0 <= i < digits_of(n).len() implies is_digit(
            #[trigger] digits_of(n)[i],
        ) && digits_of(n)[i] < 0x80 by {
            if i < digits_of(n / 10).len() {
                assert(digits_of(n)[i] == digits_of(n / 10)[i]);
            } else {
                assert(digits_of(n)[i] == (0x30 + n % 10) as u8);
            }
        }
    }
}

/// Render a number in decimal.
pub fn render_number(n: usize) -> (r: Vec<u8>)
    ensures
        r@ == digits_of(n as int),
    decreases n,
{
    if n < 10 {
        let mut r: Vec<u8> = Vec::new();
        r.push(0x30 + (n as u8));
        proof {
            assert(r@ =~= digits_of(n as int));
        }
        r
    } else {
        let mut r = render_number(n / 10);
        r.push(0x30 + ((n % 10) as u8));
        proof {
            assert(r@ =~= digits_of(n as int));
        }
        r
    }
}

/// Build one of the fixed marker byte strings.
fn marker_vec(kind: u8) -> (r: Vec<u8>)
    ensures
        kind == 0 ==> r@ == marker_checkbox(),
        kind == 1 ==> r@ == marker_checkbox_x(),
        kind == 2 ==> r@ == marker_checkbox_xx(),
        kind == 3 ==> r@ == marker_dash(),
        kind == 4 ==> r@ == marker_star(),
        kind == 5 ==> r@ == marker_plus(),
{
    let mut r: Vec<u8> = Vec::new();
    if kind == 0 || kind == 1 || kind == 2 {
        r.push(45);
        r.push(32);
        r.push(91);
        if kind == 0 {
            r.push(32);
        } else if kind == 1 {
            r.push(120);
        } else {
            r.push(88);
        }
        r.push(93);
        r.push(32);
        proof {
            if kind == 0 {
                assert(r@ =~= marker_checkbox());
            } else if kind == 1 {
                assert(r@ =~= marker_checkbox_x());
            } else {
                assert(r@ =~= marker_checkbox_xx());
            }
        }
    } else {
        if kind == 3 {
            r.push(45);
        } else if kind == 4 {
            r.push(42);
        } else {
            r.push(43);
        }
        r.push(32);
        proof {
            if kind == 3 {
                assert(r@ =~= marker_dash());
            } else if kind == 4 {
                assert(r@ =~= marker_star());
            } else if kind == 5 {
                assert(r@ =~= marker_plus());
            }
        }
    }
    r
}

/// Detect a list marker at the start of a row.
pub fn detect_list_pattern_exec(line: &Vec<u8>) -> (r: Option<(Vec<u8>, usize, bool)>)
    requires
        valid_utf8(line@),
    ensures
        r is Some <==> detect_list_pattern(line@) is Some,
        r matches Some((p, l, e)) ==> detect_list_pattern(line@) == Some(
            (p@, l as int, e),
        ),
{
    let t = scan_ws_from(line, 0);
    let trimmed = sub_bytes(line, t, line.len());
    let cb = marker_vec(0);
    let cbx = marker_vec(1);
    let cbxx = marker_vec(2);
    if has_prefix(&trimmed, &cb) || has_prefix(&trimmed, &cbx) || has_prefix(&trimmed, &cbxx) {
        return Some((cb, t + 6, trimmed.len() == 6));
    }
    let dash = marker_vec(3);
    if has_prefix(&trimmed, &dash) {
        return Some((dash, t + 2, trimmed.len() == 2));
    }
    let star = marker_vec(4);
    if has_prefix(&trimmed, &star) {
        return Some((star, t + 2, trimmed.len() == 2));
    }
    let plus = marker_vec(5);
    if has_prefix(&trimmed, &plus) {
        return Some((plus, t + 2, trimmed.len() == 2));
    }
    // ordered marker: digits, then ". "
    let mut ne: usize = 0;
    let mut found = false;
    let tlen = trimmed.len();
    while !found && tlen >= 2 && ne <= tlen - 2
        invariant
            tlen == trimmed@.len(),
            0 <= ne,
            ne <= trimmed.len(),
            !found ==> find_dot_space(trimmed@, 0) == find_dot_space(trimmed@, ne as int),
            found ==> ne + 2 <= trimmed@.len() && find_dot_space(trimmed@, 0) == ne as int,
        decreases trimmed.len() - ne, (if found { 0int } else { 1int }),
    {
        if trimmed[ne] == 46 && trimmed[ne + 1] == 32 {
            found = true;
        } else {
            ne += 1;
        }
    }
    if !found {
        proof {
            assert(find_dot_space(trimmed@, ne as int) == trimmed@.len());
        }
        return None;
    }
    let digits = sub_bytes(&trimmed, 0, ne);
    match parse_usize(&digits) {
        None => {
            proof {
                if ne as int > 0 && all_digits(trimmed@.subrange(0, ne as int)) && dec_value(
                    trimmed@.subrange(0, ne as int),
                ) < usize::MAX {
                    assert(dec_value(digits@) <= usize::MAX);
                }
            }
            None
        },
        Some(num) => {
            if num == usize::MAX {
                // the successor is not representable; treat as plain text
                proof {
                    assert(dec_value(trimmed@.subrange(0, ne as int)) == usize::MAX as int);
                }
                return None;
            }
            let mut pattern = render_number(num + 1);
            pattern.push(46);
            pattern.push(32);
            proof {
                assert(pattern@ =~= digits_of(num as int + 1) + seq![46u8, 32u8]);
            }
            Some((pattern, t + ne + 2, trimmed.len() == ne + 2))
        },
    }
}

/// Facts about a detected marker that the newline edit relies on.
pub proof fn lemma_detect_props(line: Seq<u8>)
    requires
        valid_utf8(line),
    ensures
        match detect_list_pattern(line) {
            Some((p, l, e)) => {
                &&& valid_utf8(p)
                &&& p.len() >= 1
                &&& 0 <= l <= line.len()
                &&& (e ==> l == line.len())
            },
            None => true,
        },
{
    let t = scan_fwd_ws(line, 0);
    is_char_boundary_start_end_of_seq(line);
    lemma_scan_fwd_ws_wf(line, 0);
    let trimmed = line.subrange(t, line.len() as int);
    match detect_list_pattern(line) {
        Some((p, l, e)) => {
            if starts_with(trimmed, marker_checkbox()) || starts_with(trimmed, marker_checkbox_x())
                || starts_with(trimmed, marker_checkbox_xx()) {
                assert(forall|i: int| 0 <= i < p.len() ==> #[trigger] p[i] < 0x80);
                lemma_ascii_valid(p);
            } else if starts_with(trimmed, marker_dash()) || starts_with(trimmed, marker_star())
                || starts_with(trimmed, marker_plus()) {
                assert(forall|i: int| 0 <= i < p.len() ==> #[trigger] p[i] < 0x80);
                lemma_ascii_valid(p);
            } else {
                let ne = find_dot_space(trimmed, 0);
                lemma_find_dot_space(trimmed, 0);
                let num = dec_value(trimmed.subrange(0, ne));
                lemma_dec_value_nonneg(trimmed.subrange(0, ne));
                lemma_digits_of_digits(num + 1);
                assert forall|i: int| 0 <= i < p.len() implies #[trigger] p[i] < 0x80 by {
                    if i < digits_of(num + 1).len() {
                        assert(p[i] == digits_of(num + 1)[i]);
                    }
                }
                lemma_ascii_valid(p);
            }
        },
        None => {},
    }
}

pub proof fn lemma_find_dot_space(s: Seq<u8>, from: int)
    requires
        0 <= from <= s.len(),
    ensures
        from <= find_dot_space(s, from) <= s.len(),
        find_dot_space(s, from) < s.len() ==> find_dot_space(s, from) + 2 <= s.len(),
    decreases s.len() - from,
{
    if from + 2 > s.len() {
    } else if s[from] == 46 && s[from + 1] == 32 {
    } else {
        lemma_find_dot_space(s, from + 1);
    }
}

/// Newline: the selection goes first; a matched list marker either continues
/// the list on the new row or, when the item is empty, is stripped; plain
/// rows simply split at the cursor.
pub fn doc_newline(st: &mut EditorState)
    requires
        state_wf(old(st)@),
    ensures
        final(st)@ == spec_newline(old(st)@),
        state_wf(final(st)@),
{
    let ghost m0 = old(st)@;
    state_delete_selection(st);
    let ghost m = after_sel_delete(m0);
    let r = st.cursor.row;
    let c = st.cursor.column;
    let ghost line = m.lines[r as int];
    proof {
        lemma_detect_props(line);
        assert(st@.lines[r as int] == st.lines@[r as int]@);
    }
    match detect_list_pattern_exec(&st.lines[r]) {
        Some((pattern, plen, is_empty)) => {
            if is_empty {
                let keep = st.lines[r].len() - plen;
                let prefix = sub_bytes(&st.lines[r], 0, keep);
                proof {
                    lemma_boundary_char(line, 0);
                    assert(is_char_boundary(line, keep as int)) by {
                        assert(keep as int == 0);
                    }
                    valid_utf8_split(line, keep as int);
                }
                st.lines[r] = prefix;
                let ghost mid = st.lines@;
                let nrows = st.lines.len();
                proof {
                    assert(r < nrows);
                }
                let fresh: Vec<u8> = Vec::new();
                st.lines.insert(r + 1, fresh);
                st.cursor = BufferPosition::new(r + 1, 0);
                proof {
                    crate::state::lemma_views_of_update(old(st).lines@, r as int, prefix);
                    crate::state::lemma_views_of_insert(mid, r as int + 1, st.lines@[r as int + 1]);
                    assert(final(st)@.lines =~= spec_newline(m0).lines);
                    assert forall|i: int| 0 <= i < final(st)@.lines.len() implies valid_utf8(
                        #[trigger] final(st)@.lines[i],
                    ) by {
                        if i < r {
                            assert(final(st)@.lines[i] == m.lines[i]);
                        } else if i == r {
                            assert(final(st)@.lines[i] == line.subrange(0, line.len() - plen));
                        } else if i == r + 1 {
                            assert(final(st)@.lines[i] =~= Seq::<u8>::empty());
                            assert(valid_utf8(Seq::<u8>::empty()));
                        } else {
                            assert(final(st)@.lines[i] == m.lines[i - 1]);
                        }
                    }
                    assert(final(st)@.lines[r as int + 1] =~= Seq::<u8>::empty());
                }
            } else {
                let before = sub_bytes(&st.lines[r], 0, c);
                let tail = sub_bytes(&st.lines[r], c, st.lines[r].len());
                proof {
                    valid_utf8_split(line, c as int);
                }
                let newrow = concat_bytes(&pattern, &tail);
                proof {
                    lemma_concat_boundary(pattern@, tail@);
                }
                st.lines[r] = before;
                let ghost mid = st.lines@;
                let nrows = st.lines.len();
                proof {
                    assert(r < nrows);
                }
                let plen2 = pattern.len();
                st.lines.insert(r + 1, newrow);
                st.cursor = BufferPosition::new(r + 1, plen2);
                proof {
                    crate::state::lemma_views_of_update(old(st).lines@, r as int, before);
                    crate::state::lemma_views_of_insert(mid, r as int + 1, newrow);
                    assert(final(st)@.lines =~= spec_newline(m0).lines);
                    assert forall|i: int| 0 <= i < final(st)@.lines.len() implies valid_utf8(
                        #[trigger] final(st)@.lines[i],
                    ) by {
                        if i < r {
                            assert(final(st)@.lines[i] == m.lines[i]);
                        } else if i == r {
                            assert(final(st)@.lines[i] == line.subrange(0, c as int));
                        } else if i == r + 1 {
                            assert(final(st)@.lines[i] == pattern@ + line.subrange(
                                c as int,
                                line.len() as int,
                            ));
                        } else {
                            assert(final(st)@.lines[i] == m.lines[i - 1]);
                        }
                    }
                    assert(final(st)@.lines[r as int + 1] == pattern@ + line.subrange(
                        c as int,
                        line.len() as int,
                    ));
                }
            }
        },
        None => {
            state_split_at_cursor(st);
        },
    }
}


/// The column snapped forward to the next character boundary.
pub open spec fn fwd_snap(line: Seq<u8>, c: int) -> int {
    if is_char_boundary(line, c) {
        c
    } else {
        next_boundary(line, snap_back(line, c))
    }
}

/// The word around a position: both boundaries of the maximal run of word
/// characters covering the character at (or right after) the position, if
/// that character is a word character.
pub open spec fn word_at(lines: Seq<Seq<u8>>, row: int, col: int) -> Option<
    ((int, int), (int, int)),
> {
    if !(0 <= row < lines.len()) {
        None
    } else {
        let line = lines[row];
        if line.len() == 0 || col >= line.len() {
            None
        } else {
            let c = fwd_snap(line, col);
            if c < line.len() && is_word_char(char_at_spec(line, c)) {
                Some(((row, scan_back_word(line, c)), (row, scan_fwd_word(line, c))))
            } else {
                None
            }
        }
    }
}

impl EditorState {
    /// The word boundaries around a position, as selected by a double
    /// click: `None` off the document, at the row end, or on a character
    /// that is not a word character.
    pub fn find_word_boundaries(&self, pos: BufferPosition) -> (r: Option<
        (BufferPosition, BufferPosition),
    >)
        requires
            state_wf(self@),
        ensures
            r is Some <==> word_at(self@.lines, pos.row as int, pos.column as int) is Some,
            r matches Some((s, e)) ==> word_at(self@.lines, pos.row as int, pos.column as int)
                == Some(((s.row as int, s.column as int), (e.row as int, e.column as int)))
                && pos_wf(self@.lines, (s.row as int, s.column as int)) && pos_wf(
                self@.lines,
                (e.row as int, e.column as int),
            ),
    {
        if pos.row >= self.lines.len() {
            return None;
        }
        let line = &self.lines[pos.row];
        proof {
            assert(self@.lines[pos.row as int] == self.lines@[pos.row as int]@);
        }
        if line.len() == 0 || pos.column >= line.len() {
            return None;
        }
        let j = snap_col(line, pos.column);
        let c = if j == pos.column {
            pos.column
        } else {
            j + char_len_at(line, j)
        };
        proof {
            assert(c as int == fwd_snap(line@, pos.column as int));
        }
        if c >= line.len() {
            return None;
        }
        let ch = crate::text::char_at(line, c);
        if !(crate::trusted::char_is_alphanumeric(ch) || ch == '_') {
            return None;
        }
        // expand left over word characters
        let mut start = c;
        let mut done = false;
        while start > 0 && !done
            invariant
                valid_utf8(line@),
                0 <= start <= line.len(),
                is_char_boundary(line@, start as int),
                scan_back_word(line@, c as int) == scan_back_word(line@, start as int),
                done ==> scan_back_word(line@, start as int) == start as int,
            decreases start, (if done { 0int } else { 1int }),
        {
            let p = prev_char_start(line, start);
            proof {
                lemma_prev_boundary(line@, start as int);
                lemma_boundary_unique(
                    line@,
                    start as int,
                    p as int,
                    prev_boundary(line@, start as int),
                );
            }
            let pc = crate::text::char_at(line, p);
            if crate::trusted::char_is_alphanumeric(pc) || pc == '_' {
                start = p;
            } else {
                done = true;
            }
        }
        proof {
            assert(scan_back_word(line@, c as int) == start as int);
            lemma_scan_back_word_wf(line@, c as int);
        }
        // expand right over word characters
        let mut end = c;
        let mut done2 = false;
        while end < line.len() && !done2
            invariant
                valid_utf8(line@),
                0 <= end <= line.len(),
                is_char_boundary(line@, end as int),
                scan_fwd_word(line@, c as int) == scan_fwd_word(line@, end as int),
                done2 ==> scan_fwd_word(line@, end as int) == end as int,
            decreases line.len() - end, (if done2 { 0int } else { 1int }),
        {
            let ec = crate::text::char_at(line, end);
            if crate::trusted::char_is_alphanumeric(ec) || ec == '_' {
                let n = char_len_at(line, end);
                end = end + n;
            } else {
                done2 = true;
            }
        }
        proof {
            assert(scan_fwd_word(line@, c as int) == end as int);
            lemma_scan_fwd_word_wf(line@, c as int);
        }
        Some((BufferPosition::new(pos.row, start), BufferPosition::new(pos.row, end)))
    }
}

} // verus!
