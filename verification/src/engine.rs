//! The action engine: the single mutation entry point over document state,
//! with a debounced undo/redo history of full snapshots.
//!
//! Every action's effect is pinned down by `spec_step`, a functional model of
//! the engine. `handle_action_at` takes the clock reading as an argument and
//! is verified against that model exactly; `handle_action` reads the real
//! clock and satisfies the model for the time it read.

use vstd::prelude::*;
use vstd::utf8::*;

use crate::actions::EditorAction;
use crate::edit::{
    after_sel_delete, cursor_down, cursor_down_exec, cursor_left, cursor_left_exec, cursor_right,
    cursor_right_exec, cursor_up, cursor_up_exec, cursor_word_left, cursor_word_left_exec,
    cursor_word_right, cursor_word_right_exec, doc_backspace, doc_delete, doc_delete_line,
    doc_delete_to_bol, doc_delete_to_eol, doc_delete_word_left, doc_delete_word_right,
    doc_extend_selection, doc_move_line_down, doc_move_line_up, doc_newline, doc_outdent,
    doc_select_all, doc_set_cursor, doc_size, doc_start_selection, doc_tab, doc_type_char,
    doc_type_string, moved_to, sel_range, selected_to, spec_backspace, spec_delete,
    spec_delete_line, spec_delete_to_bol, spec_delete_to_eol, spec_delete_word_left,
    spec_delete_word_right, spec_extend_selection, spec_move_line_down, spec_move_line_up,
    spec_newline, spec_outdent, spec_select_all, spec_set_cursor, spec_start_selection, spec_tab,
    spec_type_char, spec_type_string,
};
use crate::state::{state_wf, EditorState, StateModel, DEFAULT_FONT_SIZE};

verus! {

broadcast use vstd::seq_lib::group_seq_lib_default, vstd::seq::group_seq_axioms;

/// Edits closer together than this merge into one undo chunk.
pub const UNDO_CHUNK_MS: u64 = 500;

/// The largest font size an increase can reach, in points.
pub const MAX_FONT_SIZE: u32 = 72;

/// The smallest font size a decrease can reach, in points.
pub const MIN_FONT_SIZE: u32 = 8;

/// The mathematical model of the whole engine.
pub ghost struct EngineModel {
    pub state: StateModel,
    pub undo: Seq<StateModel>,
    pub redo: Seq<StateModel>,
    pub last_edit: Option<u64>,
}

/// The models of a stack of snapshots.
pub open spec fn models_of(v: Seq<EditorState>) -> Seq<StateModel> {
    Seq::new(v.len(), |i: int| v[i]@)
}

/// Engine invariant: every held state is well formed, and a running edit
/// chunk implies an empty redo stack (only edits start chunks, and every
/// history-changing edit clears redo).
pub open spec fn engine_inv(m: EngineModel) -> bool {
    &&& state_wf(m.state)
    &&& forall|i: int| 0 <= i < m.undo.len() ==> state_wf(#[trigger] m.undo[i])
    &&& forall|i: int| 0 <= i < m.redo.len() ==> state_wf(#[trigger] m.redo[i])
    &&& m.last_edit is Some ==> m.redo.len() == 0
}

/// Milliseconds elapsed since `t`, saturating at zero.
pub open spec fn elapsed(t: u64, now: u64) -> int {
    if now >= t {
        now - t
    } else {
        0
    }
}

/// Whether a mutating action starts a fresh undo chunk: always when no chunk
/// is running, otherwise only after the chunk window has passed.
pub open spec fn should_push(m: EngineModel, now: u64) -> bool {
    match m.last_edit {
        None => true,
        Some(t) => elapsed(t, now) > UNDO_CHUNK_MS,
    }
}

/// History after offering the pre-action state as an undo frame: pushed
/// (clearing redo) when a fresh chunk starts, coalesced (no change)
/// otherwise.
pub open spec fn pushed(m: EngineModel, now: u64) -> EngineModel {
    if should_push(m, now) {
        EngineModel { undo: m.undo.push(m.state), redo: Seq::empty(), ..m }
    } else {
        m
    }
}

pub open spec fn with_doc(m: EngineModel, s: StateModel) -> EngineModel {
    EngineModel { state: s, ..m }
}

pub open spec fn marked(m: EngineModel, now: u64) -> EngineModel {
    EngineModel { last_edit: Some(now), ..m }
}

pub open spec fn timer_reset(m: EngineModel) -> EngineModel {
    EngineModel { last_edit: None, ..m }
}

/// Undo: restore the newest snapshot, parking the current state on the redo
/// stack; a no-op when the history is empty.
pub open spec fn spec_undo(m: EngineModel) -> EngineModel {
    if m.undo.len() > 0 {
        EngineModel {
            state: m.undo.last(),
            undo: m.undo.drop_last(),
            redo: m.redo.push(m.state),
            last_edit: None,
        }
    } else {
        m
    }
}

/// Redo: the mirror of undo.
pub open spec fn spec_redo(m: EngineModel) -> EngineModel {
    if m.redo.len() > 0 {
        EngineModel {
            state: m.redo.last(),
            undo: m.undo.push(m.state),
            redo: m.redo.drop_last(),
            last_edit: None,
        }
    } else {
        m
    }
}

pub open spec fn font_clamped_inc(fs: int) -> int {
    if fs + 2 <= MAX_FONT_SIZE {
        fs + 2
    } else {
        MAX_FONT_SIZE as int
    }
}

pub open spec fn font_clamped_dec(fs: int) -> int {
    if fs - 2 >= MIN_FONT_SIZE {
        fs - 2
    } else {
        MIN_FONT_SIZE as int
    }
}

/// The machine-limit headroom an action needs: the document plus what the
/// action can add must stay within address space.
pub open spec fn action_fits(s: StateModel, a: EditorAction) -> bool {
    match a {
        EditorAction::TypeCharacter(_) => doc_size(s.lines) + 4 <= usize::MAX,
        EditorAction::TypeString(t) => doc_size(s.lines) + encode_utf8(t@).len() <= usize::MAX,
        EditorAction::Tab => doc_size(s.lines) + 4 <= usize::MAX,
        _ => true,
    }
}

/// The functional model of the engine: what one action does to document,
/// history and chunk timer, given the clock reading `now`.
pub open spec fn spec_step(m: EngineModel, a: EditorAction, now: u64) -> EngineModel {
    match a {
        EditorAction::TypeCharacter(c) => with_doc(
            marked(pushed(m, now), now),
            spec_type_char(m.state, c),
        ),
        EditorAction::TypeString(s) => with_doc(
            marked(pushed(m, now), now),
            spec_type_string(m.state, s@),
        ),
        EditorAction::Backspace => with_doc(marked(pushed(m, now), now), spec_backspace(m.state)),
        EditorAction::Delete => with_doc(marked(pushed(m, now), now), spec_delete(m.state)),
        EditorAction::Newline => with_doc(timer_reset(pushed(m, now)), spec_newline(m.state)),
        EditorAction::Paste(_) => m,
        EditorAction::Cut => m,
        EditorAction::Copy => m,
        EditorAction::Quit => m,
        EditorAction::MoveLeft => with_doc(m, moved_to(m.state, cursor_left(m.state))),
        EditorAction::MoveRight => with_doc(m, moved_to(m.state, cursor_right(m.state))),
        EditorAction::MoveUp => with_doc(m, moved_to(m.state, cursor_up(m.state))),
        EditorAction::MoveDown => with_doc(m, moved_to(m.state, cursor_down(m.state))),
        EditorAction::MoveToBeginningOfLine => with_doc(
            m,
            moved_to(m.state, (m.state.cursor.0, 0)),
        ),
        EditorAction::MoveToEndOfLine => with_doc(
            m,
            moved_to(m.state, (m.state.cursor.0, m.state.lines[m.state.cursor.0].len() as int)),
        ),
        EditorAction::MoveWordLeft => with_doc(m, moved_to(m.state, cursor_word_left(m.state))),
        EditorAction::MoveWordRight => with_doc(m, moved_to(m.state, cursor_word_right(m.state))),
        EditorAction::SelectLeft => with_doc(m, selected_to(m.state, cursor_left(m.state))),
        EditorAction::SelectRight => with_doc(m, selected_to(m.state, cursor_right(m.state))),
        EditorAction::SelectUp => with_doc(m, selected_to(m.state, cursor_up(m.state))),
        EditorAction::SelectDown => with_doc(m, selected_to(m.state, cursor_down(m.state))),
        EditorAction::SelectWordLeft => with_doc(
            m,
            selected_to(m.state, cursor_word_left(m.state)),
        ),
        EditorAction::SelectWordRight => with_doc(
            m,
            selected_to(m.state, cursor_word_right(m.state)),
        ),
        EditorAction::SelectAll => with_doc(m, spec_select_all(m.state)),
        EditorAction::Undo => spec_undo(m),
        EditorAction::Redo => spec_redo(m),
        EditorAction::DeleteLine => with_doc(
            timer_reset(pushed(m, now)),
            spec_delete_line(m.state),
        ),
        EditorAction::DeleteToBeginningOfLine => with_doc(
            timer_reset(pushed(m, now)),
            spec_delete_to_bol(m.state),
        ),
        EditorAction::DeleteToEndOfLine => with_doc(
            timer_reset(pushed(m, now)),
            spec_delete_to_eol(m.state),
        ),
        EditorAction::DeleteWordLeft => {
            let s1 = after_sel_delete(m.state);
            let t = cursor_word_left(s1);
            if sel_range(m.state) is Some || t.0 == s1.cursor.0 {
                with_doc(timer_reset(pushed(m, now)), spec_delete_word_left(m.state))
            } else {
                with_doc(m, spec_delete_word_left(m.state))
            }
        },
        EditorAction::DeleteWordRight => {
            let s1 = after_sel_delete(m.state);
            let t = cursor_word_right(s1);
            if sel_range(m.state) is Some || t.0 == s1.cursor.0 {
                with_doc(timer_reset(pushed(m, now)), spec_delete_word_right(m.state))
            } else {
                with_doc(m, spec_delete_word_right(m.state))
            }
        },
        EditorAction::MoveLineUp => {
            if m.state.cursor.0 == 0 {
                m
            } else {
                with_doc(timer_reset(pushed(m, now)), spec_move_line_up(m.state))
            }
        },
        EditorAction::MoveLineDown => {
            if m.state.cursor.0 + 1 >= m.state.lines.len() {
                m
            } else {
                with_doc(timer_reset(pushed(m, now)), spec_move_line_down(m.state))
            }
        },
        EditorAction::Tab => with_doc(timer_reset(pushed(m, now)), spec_tab(m.state)),
        EditorAction::Outdent => with_doc(timer_reset(pushed(m, now)), spec_outdent(m.state)),
        EditorAction::IncreaseFontSize => with_doc(
            m,
            StateModel { font_size: font_clamped_inc(m.state.font_size), ..m.state },
        ),
        EditorAction::DecreaseFontSize => with_doc(
            m,
            StateModel { font_size: font_clamped_dec(m.state.font_size), ..m.state },
        ),
        EditorAction::ResetFontSize => with_doc(
            m,
            StateModel { font_size: DEFAULT_FONT_SIZE as int, ..m.state },
        ),
        EditorAction::SetCursorPosition { row, column } => with_doc(
            m,
            spec_set_cursor(m.state, row as int, column as int),
        ),
        EditorAction::StartSelection { row, column } => with_doc(
            m,
            spec_start_selection(m.state, row as int, column as int),
        ),
        EditorAction::ExtendSelection { row, column } => with_doc(
            m,
            spec_extend_selection(m.state, row as int, column as int),
        ),
    }
}

/// The actions that edit the document and always offer an undo frame.
pub open spec fn is_edit_action(a: EditorAction) -> bool {
    match a {
        EditorAction::TypeCharacter(_) => true,
        EditorAction::TypeString(_) => true,
        EditorAction::Backspace => true,
        EditorAction::Delete => true,
        EditorAction::Newline => true,
        EditorAction::DeleteLine => true,
        EditorAction::DeleteToBeginningOfLine => true,
        EditorAction::DeleteToEndOfLine => true,
        EditorAction::Tab => true,
        EditorAction::Outdent => true,
        _ => false,
    }
}

/// The edits that keep the chunk timer running (typing-style edits).
pub open spec fn is_marked_edit(a: EditorAction) -> bool {
    match a {
        EditorAction::TypeCharacter(_) => true,
        EditorAction::TypeString(_) => true,
        EditorAction::Backspace => true,
        EditorAction::Delete => true,
        _ => false,
    }
}

/// The clock reading influences only undo chunking: the document state an
/// action produces is the same at every time.
pub proof fn lemma_step_doc_time_independent(m: EngineModel, a: EditorAction, t1: u64, t2: u64)
    ensures
        spec_step(m, a, t1).state == spec_step(m, a, t2).state,
{
}

/// Undo then redo restores the state: for any engine whose undo stack is
/// non-empty or whose redo stack is empty, applying Undo and then Redo gives
/// back exactly the document state it started with.
pub proof fn lemma_undo_redo_restore(m1: EngineModel, t2: u64, t3: u64)
    requires
        m1.undo.len() > 0 || m1.redo.len() == 0,
    ensures
        spec_step(spec_step(m1, EditorAction::Undo, t2), EditorAction::Redo, t3).state
            == m1.state,
{
    let m2 = spec_step(m1, EditorAction::Undo, t2);
    if m1.undo.len() > 0 {
        assert(m2.redo == m1.redo.push(m1.state));
        assert(m2.redo.len() > 0);
        assert(m2.redo.last() == m1.state);
    }
}

/// Undo/redo inverse law: applying an edit action, then Undo, then Redo
/// yields the same document state (rows, cursor, selection) as right after
/// the edit.
pub proof fn lemma_edit_undo_redo_inverse(
    m: EngineModel,
    a: EditorAction,
    t1: u64,
    t2: u64,
    t3: u64,
)
    requires
        engine_inv(m),
        is_edit_action(a),
    ensures
        spec_step(spec_step(spec_step(m, a, t1), EditorAction::Undo, t2), EditorAction::Redo, t3)
            .state == spec_step(m, a, t1).state,
{
    let m1 = spec_step(m, a, t1);
    if should_push(m, t1) {
        assert(m1.undo.len() > 0);
    } else {
        assert(m.last_edit is Some);
        assert(m.redo.len() == 0);
        assert(m1.redo.len() == 0);
    }
    lemma_undo_redo_restore(m1, t2, t3);
}

/// Debounce law, coalescing half: two chunk-timer edits whose clock readings
/// lie within the chunk window produce exactly one undo frame.
pub proof fn lemma_debounce_one_frame(
    m: EngineModel,
    a1: EditorAction,
    a2: EditorAction,
    t1: u64,
    t2: u64,
)
    requires
        engine_inv(m),
        is_marked_edit(a1),
        is_marked_edit(a2),
        should_push(m, t1),
        elapsed(t1, t2) <= UNDO_CHUNK_MS,
    ensures
        spec_step(spec_step(m, a1, t1), a2, t2).undo.len() == m.undo.len() + 1,
{
    let m1 = spec_step(m, a1, t1);
    assert(m1.last_edit == Some(t1));
    assert(!should_push(m1, t2));
}

/// Debounce law, separating half: two chunk-timer edits whose clock readings
/// lie farther apart than the chunk window produce two undo frames.
pub proof fn lemma_debounce_two_frames(
    m: EngineModel,
    a1: EditorAction,
    a2: EditorAction,
    t1: u64,
    t2: u64,
)
    requires
        engine_inv(m),
        is_marked_edit(a1),
        is_marked_edit(a2),
        should_push(m, t1),
        elapsed(t1, t2) > UNDO_CHUNK_MS,
    ensures
        spec_step(spec_step(m, a1, t1), a2, t2).undo.len() == m.undo.len() + 2,
{
    let m1 = spec_step(m, a1, t1);
    assert(m1.last_edit == Some(t1));
    assert(should_push(m1, t2));
}

/// Core editor engine: current state, undo and redo stacks, and the time of
/// the last chunk-starting edit.
pub struct EditorEngine {
    state: EditorState,
    undo_stack: Vec<EditorState>,
    redo_stack: Vec<EditorState>,
    last_edit_ms: Option<u64>,
}

impl View for EditorEngine {
    type V = EngineModel;

    closed spec fn view(&self) -> EngineModel {
        EngineModel {
            state: self.state@,
            undo: models_of(self.undo_stack@),
            redo: models_of(self.redo_stack@),
            last_edit: self.last_edit_ms,
        }
    }
}

proof fn lemma_models_of_push(v: Seq<EditorState>, x: EditorState)
    ensures
        models_of(v.push(x)) =~= models_of(v).push(x@),
{
    assert forall|k: int| 0 <= k < v.len() + 1 implies models_of(v.push(x))[k] == models_of(
        v,
    ).push(x@)[k] by {
        if k < v.len() {
            assert(v.push(x)[k] == v[k]);
        } else {
            assert(v.push(x)[k] == x);
        }
    }
}

proof fn lemma_models_of_drop_last(v: Seq<EditorState>)
    requires
        v.len() > 0,
    ensures
        models_of(v.drop_last()) =~= models_of(v).drop_last(),
{
    assert forall|k: int| 0 <= k < v.len() - 1 implies models_of(v.drop_last())[k] == models_of(
        v,
    ).drop_last()[k] by {
        assert(v.drop_last()[k] == v[k]);
    }
}

impl EditorEngine {
    /// A fresh engine over an empty document with empty history.
    pub fn new() -> (r: Self)
        ensures
            r@.state.lines =~= seq![Seq::<u8>::empty()],
            r@.state.cursor == (0int, 0int),
            r@.state.anchor is None,
            r@.state.font_size == DEFAULT_FONT_SIZE as int,
            r@.undo.len() == 0,
            r@.redo.len() == 0,
            r@.last_edit is None,
            engine_inv(r@),
    {
        let r = Self {
            state: EditorState::new(),
            undo_stack: Vec::new(),
            redo_stack: Vec::new(),
            last_edit_ms: None,
        };
        r
    }

    /// Replace the whole document, as on a load or an external reload, and
    /// clear the history: a reload fully replaces state, and undone edits of
    /// the old document must not resurface in the new one.
    pub fn replace_document(&mut self, state: EditorState)
        requires
            state_wf(state@),
        ensures
            final(self)@.state == state@,
            final(self)@.undo.len() == 0,
            final(self)@.redo.len() == 0,
            final(self)@.last_edit is None,
            engine_inv(final(self)@),
    {
        self.state = state;
        self.undo_stack.clear();
        self.redo_stack.clear();
        self.last_edit_ms = None;
        proof {
            assert(models_of(self.undo_stack@) =~= Seq::<StateModel>::empty());
            assert(models_of(self.redo_stack@) =~= Seq::<StateModel>::empty());
        }
    }

    /// Read-only view of the current document state.
    pub fn state(&self) -> (r: &EditorState)
        ensures
            r@ == self@.state,
    {
        &self.state
    }

    /// Mutable access to the document state. A caller that mutates through
    /// this must keep the state well formed before using the engine again.
    pub fn state_mut(&mut self) -> (r: &mut EditorState)
        ensures
            old(self)@.state == (*r)@,
            final(self)@.state == (*final(r))@,
            final(self)@.undo == old(self)@.undo,
            final(self)@.redo == old(self)@.redo,
            final(self)@.last_edit == old(self)@.last_edit,
    {
        &mut self.state
    }

    fn should_push_undo_state(&self, now_ms: u64) -> (r: bool)
        ensures
            r == should_push(self@, now_ms),
    {
        match self.last_edit_ms {
            None => true,
            Some(t) => now_ms.saturating_sub(t) > UNDO_CHUNK_MS,
        }
    }

    /// Offer the current state as an undo frame, starting or extending a
    /// chunk per the debounce rule.
    fn push_undo_state(&mut self, now_ms: u64)
        requires
            engine_inv(old(self)@),
        ensures
            final(self)@ == pushed(old(self)@, now_ms),
            engine_inv(final(self)@),
    {
        if !self.should_push_undo_state(now_ms) {
            return ;
        }
        let snap = self.state.clone_for_undo();
        proof {
            lemma_models_of_push(self.undo_stack@, snap);
        }
        self.undo_stack.push(snap);
        self.redo_stack.clear();
        proof {
            assert(models_of(self.redo_stack@) =~= Seq::<StateModel>::empty());
            assert(final(self)@.undo =~= old(self)@.undo.push(old(self)@.state));
        }
    }

    /// Restore the newest undo frame, parking the current state for redo.
    pub fn undo(&mut self)
        requires
            engine_inv(old(self)@),
        ensures
            final(self)@ == spec_undo(old(self)@),
            engine_inv(final(self)@),
    {
        let n = self.undo_stack.len();
        if n > 0 {
            let snap = self.state.clone_for_undo();
            proof {
                lemma_models_of_push(self.redo_stack@, snap);
                lemma_models_of_drop_last(self.undo_stack@);
                assert(models_of(self.undo_stack@)[n - 1] == self.undo_stack@[n - 1]@);
            }
            self.redo_stack.push(snap);
            let prev = match self.undo_stack.pop() {
                Some(p) => p,
                None => EditorState::new(),  // unreachable: the stack is non-empty
            };
            self.state = prev;
            self.last_edit_ms = None;
            proof {
                assert(final(self)@.undo =~= old(self)@.undo.drop_last());
                assert(final(self)@.redo =~= old(self)@.redo.push(old(self)@.state));
                assert(final(self)@.state == old(self)@.undo.last());
            }
        }
    }

    /// Apply one action at the given clock reading. The effect is exactly
    /// `spec_step`: document, history and chunk timer all pinned down.
    pub fn handle_action_at(&mut self, action: EditorAction, now_ms: u64)
        requires
            engine_inv(old(self)@),
            action_fits(old(self)@.state, action),
        ensures
            final(self)@ == spec_step(old(self)@, action, now_ms),
            engine_inv(final(self)@),
    {
        let ghost m = old(self)@;
        match action {
            EditorAction::TypeCharacter(c) => {
                self.push_undo_state(now_ms);
                self.last_edit_ms = Some(now_ms);
                doc_type_char(&mut self.state, c);
            },
            EditorAction::TypeString(s) => {
                self.push_undo_state(now_ms);
                self.last_edit_ms = Some(now_ms);
                doc_type_string(&mut self.state, s.as_str());
            },
            EditorAction::Backspace => {
                self.push_undo_state(now_ms);
                self.last_edit_ms = Some(now_ms);
                doc_backspace(&mut self.state);
            },
            EditorAction::Delete => {
                self.push_undo_state(now_ms);
                self.last_edit_ms = Some(now_ms);
                doc_delete(&mut self.state);
            },
            EditorAction::Newline => {
                self.push_undo_state(now_ms);
                self.last_edit_ms = None;
                doc_newline(&mut self.state);
            },
            EditorAction::Paste(_) => {
                // clipboard handling belongs to the adapter
            },
            EditorAction::Cut => {},
            EditorAction::Copy => {},
            EditorAction::Quit => {},
            EditorAction::MoveLeft => {
                self.state.selection_anchor = None;
                let t = cursor_left_exec(&self.state);
                self.state.cursor = t;
            },
            EditorAction::MoveRight => {
                self.state.selection_anchor = None;
                let t = cursor_right_exec(&self.state);
                self.state.cursor = t;
            },
            EditorAction::MoveUp => {
                self.state.selection_anchor = None;
                let t = cursor_up_exec(&self.state);
                self.state.cursor = t;
            },
            EditorAction::MoveDown => {
                self.state.selection_anchor = None;
                let t = cursor_down_exec(&self.state);
                self.state.cursor = t;
            },
            EditorAction::MoveToBeginningOfLine => {
                self.state.selection_anchor = None;
                self.state.cursor = crate::pos::BufferPosition::new(self.state.cursor.row, 0);
            },
            EditorAction::MoveToEndOfLine => {
                self.state.selection_anchor = None;
                let r = self.state.cursor.row;
                let len = self.state.lines[r].len();
                proof {
                    assert(m.state.lines[r as int] == self.state.lines@[r as int]@);
                    is_char_boundary_start_end_of_seq(m.state.lines[r as int]);
                }
                self.state.cursor = crate::pos::BufferPosition::new(r, len);
            },
            EditorAction::MoveWordLeft => {
                self.state.selection_anchor = None;
                let t = cursor_word_left_exec(&self.state);
                self.state.cursor = t;
            },
            EditorAction::MoveWordRight => {
                self.state.selection_anchor = None;
                let t = cursor_word_right_exec(&self.state);
                self.state.cursor = t;
            },
            EditorAction::SelectLeft => {
                let t = cursor_left_exec(&self.state);
                if self.state.selection_anchor.is_none() {
                    self.state.selection_anchor = Some(self.state.cursor);
                }
                self.state.cursor = t;
            },
            EditorAction::SelectRight => {
                let t = cursor_right_exec(&self.state);
                if self.state.selection_anchor.is_none() {
                    self.state.selection_anchor = Some(self.state.cursor);
                }
                self.state.cursor = t;
            },
            EditorAction::SelectUp => {
                let t = cursor_up_exec(&self.state);
                if self.state.selection_anchor.is_none() {
                    self.state.selection_anchor = Some(self.state.cursor);
                }
                self.state.cursor = t;
            },
            EditorAction::SelectDown => {
                let t = cursor_down_exec(&self.state);
                if self.state.selection_anchor.is_none() {
                    self.state.selection_anchor = Some(self.state.cursor);
                }
                self.state.cursor = t;
            },
            EditorAction::SelectWordLeft => {
                let t = cursor_word_left_exec(&self.state);
                if self.state.selection_anchor.is_none() {
                    self.state.selection_anchor = Some(self.state.cursor);
                }
                self.state.cursor = t;
            },
            EditorAction::SelectWordRight => {
                let t = cursor_word_right_exec(&self.state);
                if self.state.selection_anchor.is_none() {
                    self.state.selection_anchor = Some(self.state.cursor);
                }
                self.state.cursor = t;
            },
            EditorAction::SelectAll => {
                doc_select_all(&mut self.state);
            },
            EditorAction::Undo => {
                self.undo();
            },
            EditorAction::Redo => {
                self.redo();
            },
            EditorAction::DeleteLine => {
                self.push_undo_state(now_ms);
                self.last_edit_ms = None;
                doc_delete_line(&mut self.state);
            },
            EditorAction::DeleteToBeginningOfLine => {
                self.push_undo_state(now_ms);
                self.last_edit_ms = None;
                doc_delete_to_bol(&mut self.state);
            },
            EditorAction::DeleteToEndOfLine => {
                self.push_undo_state(now_ms);
                self.last_edit_ms = None;
                doc_delete_to_eol(&mut self.state);
            },
            EditorAction::DeleteWordLeft => {
                let has_sel = self.state.selection_range().is_some();
                let t = cursor_word_left_exec(&self.state);
                if has_sel || t.row == self.state.cursor.row {
                    self.push_undo_state(now_ms);
                    self.last_edit_ms = None;
                    doc_delete_word_left(&mut self.state);
                } else {
                    self.state.cursor = t;
                }
            },
            EditorAction::DeleteWordRight => {
                let has_sel = self.state.selection_range().is_some();
                let t = cursor_word_right_exec(&self.state);
                if has_sel || t.row == self.state.cursor.row {
                    self.push_undo_state(now_ms);
                    self.last_edit_ms = None;
                    doc_delete_word_right(&mut self.state);
                } else {
                    self.state.cursor = t;
                }
            },
            EditorAction::MoveLineUp => {
                if self.state.cursor.row > 0 {
                    self.push_undo_state(now_ms);
                    self.last_edit_ms = None;
                    doc_move_line_up(&mut self.state);
                }
            },
            EditorAction::MoveLineDown => {
                let nrows = self.state.lines.len();
                if self.state.cursor.row < nrows - 1 {
                    self.push_undo_state(now_ms);
                    self.last_edit_ms = None;
                    doc_move_line_down(&mut self.state);
                }
            },
            EditorAction::Tab => {
                self.push_undo_state(now_ms);
                self.last_edit_ms = None;
                doc_tab(&mut self.state);
            },
            EditorAction::Outdent => {
                self.push_undo_state(now_ms);
                self.last_edit_ms = None;
                doc_outdent(&mut self.state);
            },
            EditorAction::IncreaseFontSize => {
                let fs = self.state.font_size;
                self.state.font_size = if fs <= MAX_FONT_SIZE - 2 {
                    fs + 2
                } else {
                    MAX_FONT_SIZE
                };
            },
            EditorAction::DecreaseFontSize => {
                let fs = self.state.font_size;
                self.state.font_size = if fs >= MIN_FONT_SIZE + 2 {
                    fs - 2
                } else {
                    MIN_FONT_SIZE
                };
            },
            EditorAction::ResetFontSize => {
                self.state.font_size = DEFAULT_FONT_SIZE;
            },
            EditorAction::SetCursorPosition { row, column } => {
                doc_set_cursor(&mut self.state, row, column);
            },
            EditorAction::StartSelection { row, column } => {
                doc_start_selection(&mut self.state, row, column);
            },
            EditorAction::ExtendSelection { row, column } => {
                doc_extend_selection(&mut self.state, row, column);
            },
        }
    }

    /// Apply one action at the current wall-clock time. The document effect
    /// is that of `spec_step` at the time that was read; only the undo
    /// chunking depends on it.
    pub fn handle_action(&mut self, action: EditorAction)
        requires
            engine_inv(old(self)@),
            action_fits(old(self)@.state, action),
        ensures
            engine_inv(final(self)@),
            exists|now_ms: u64| final(self)@ == spec_step(old(self)@, action, now_ms),
    {
        let now_ms = crate::trusted::now_millis();
        let ghost a = action;
        self.handle_action_at(action, now_ms);
        proof {
            assert(self@ == spec_step(old(self)@, a, now_ms));
        }
    }

    /// Reapply the newest redo frame, parking the current state for undo.
    pub fn redo(&mut self)
        requires
            engine_inv(old(self)@),
        ensures
            final(self)@ == spec_redo(old(self)@),
            engine_inv(final(self)@),
    {
        let n = self.redo_stack.len();
        if n > 0 {
            let snap = self.state.clone_for_undo();
            proof {
                lemma_models_of_push(self.undo_stack@, snap);
                lemma_models_of_drop_last(self.redo_stack@);
                assert(models_of(self.redo_stack@)[n - 1] == self.redo_stack@[n - 1]@);
            }
            self.undo_stack.push(snap);
            let next = match self.redo_stack.pop() {
                Some(p) => p,
                None => EditorState::new(),  // unreachable: the stack is non-empty
            };
            self.state = next;
            self.last_edit_ms = None;
            proof {
                assert(final(self)@.redo =~= old(self)@.redo.drop_last());
                assert(final(self)@.undo =~= old(self)@.undo.push(old(self)@.state));
                assert(final(self)@.state == old(self)@.redo.last());
            }
        }
    }
}

} // verus!
