use zrd_core::{BufferPosition, EditorAction, EditorEngine};

#[test]
fn test_type_character() {
    let mut engine = EditorEngine::new();
    engine.handle_action(EditorAction::TypeCharacter('h'));
    engine.handle_action(EditorAction::TypeCharacter('i'));

    assert_eq!(engine.state().to_string(), "hi");
    assert_eq!(engine.state().cursor, BufferPosition::new(0, 2));
}

#[test]
fn test_type_string() {
    let mut engine = EditorEngine::new();
    engine.handle_action(EditorAction::TypeString("hello world".to_string()));

    assert_eq!(engine.state().to_string(), "hello world");
    assert_eq!(engine.state().cursor.column, 11);
}

#[test]
fn test_backspace_empty() {
    let mut engine = EditorEngine::new();
    engine.handle_action(EditorAction::Backspace);

    assert_eq!(engine.state().to_string(), "");
    assert_eq!(engine.state().cursor, BufferPosition::zero());
}

#[test]
fn test_backspace_deletes_character() {
    let mut engine = EditorEngine::new();
    engine.handle_action(EditorAction::TypeCharacter('a'));
    engine.handle_action(EditorAction::TypeCharacter('b'));
    engine.handle_action(EditorAction::Backspace);

    assert_eq!(engine.state().to_string(), "a");
    assert_eq!(engine.state().cursor.column, 1);
}

#[test]
fn test_delete_character() {
    let mut engine = EditorEngine::new();
    engine.handle_action(EditorAction::TypeString("abc".to_string()));
    engine.handle_action(EditorAction::MoveLeft);
    engine.handle_action(EditorAction::Delete);

    assert_eq!(engine.state().to_string(), "ab");
}

#[test]
fn test_move_cursor_left() {
    let mut engine = EditorEngine::new();
    engine.handle_action(EditorAction::TypeCharacter('a'));
    engine.handle_action(EditorAction::TypeCharacter('b'));
    engine.handle_action(EditorAction::MoveLeft);

    assert_eq!(engine.state().cursor.column, 1);
}

#[test]
fn test_move_cursor_left_at_start() {
    let mut engine = EditorEngine::new();
    engine.handle_action(EditorAction::MoveLeft);

    assert_eq!(engine.state().cursor, BufferPosition::zero());
}

#[test]
fn test_move_cursor_right() {
    let mut engine = EditorEngine::new();
    engine.handle_action(EditorAction::TypeCharacter('a'));
    engine.handle_action(EditorAction::MoveLeft);
    engine.handle_action(EditorAction::MoveRight);

    assert_eq!(engine.state().cursor.column, 1);
}

#[test]
fn test_newline() {
    let mut engine = EditorEngine::new();
    engine.handle_action(EditorAction::TypeString("hello".to_string()));
    engine.handle_action(EditorAction::Newline);
    engine.handle_action(EditorAction::TypeString("world".to_string()));

    assert_eq!(engine.state().to_string(), "hello\nworld");
    assert_eq!(engine.state().cursor.row, 1);
    assert_eq!(engine.state().cursor.column, 5);
}

#[test]
fn test_move_up_down() {
    let mut engine = EditorEngine::new();
    engine.handle_action(EditorAction::TypeString("line1".to_string()));
    engine.handle_action(EditorAction::Newline);
    engine.handle_action(EditorAction::TypeString("line2".to_string()));

    assert_eq!(engine.state().cursor.row, 1);

    engine.handle_action(EditorAction::MoveUp);
    assert_eq!(engine.state().cursor.row, 0);

    engine.handle_action(EditorAction::MoveDown);
    assert_eq!(engine.state().cursor.row, 1);
}

#[test]
fn test_move_to_line_start_end() {
    let mut engine = EditorEngine::new();
    engine.handle_action(EditorAction::TypeString("hello world".to_string()));

    engine.handle_action(EditorAction::MoveToBeginningOfLine);
    assert_eq!(engine.state().cursor.column, 0);

    engine.handle_action(EditorAction::MoveToEndOfLine);
    assert_eq!(engine.state().cursor.column, 11);
}

#[test]
fn test_undo_redo() {
    let mut engine = EditorEngine::new();
    engine.handle_action(EditorAction::TypeCharacter('a'));

    assert_eq!(engine.state().to_string(), "a");

    engine.handle_action(EditorAction::Undo);
    assert_eq!(engine.state().to_string(), "");

    engine.handle_action(EditorAction::Redo);
    assert_eq!(engine.state().to_string(), "a");
}

#[test]
fn test_undo_multiple_edits() {
    // Three keystrokes spaced beyond the 500 ms chunk window, driven through
    // the explicit-clock entry point.
    let mut engine = EditorEngine::new();
    engine.handle_action_at(EditorAction::TypeCharacter('a'), 1_000);
    engine.handle_action_at(EditorAction::TypeCharacter('b'), 1_600);
    engine.handle_action_at(EditorAction::TypeCharacter('c'), 2_200);

    assert_eq!(engine.state().to_string(), "abc");

    engine.handle_action(EditorAction::Undo);
    assert_eq!(engine.state().to_string(), "ab");

    engine.handle_action(EditorAction::Undo);
    assert_eq!(engine.state().to_string(), "a");

    engine.handle_action(EditorAction::Undo);
    assert_eq!(engine.state().to_string(), "");
}

#[test]
fn test_unicode_handling() {
    let mut engine = EditorEngine::new();
    engine.handle_action(EditorAction::TypeCharacter('🚀'));

    assert_eq!(engine.state().to_string(), "🚀");
    assert_eq!(engine.state().cursor.column, 4); // UTF-8 bytes
}

#[test]
fn test_increase_decrease_font_size() {
    let mut engine = EditorEngine::new();
    let initial_size = engine.state().font_size;

    engine.handle_action(EditorAction::IncreaseFontSize);
    assert_eq!(engine.state().font_size, initial_size + 2);

    engine.handle_action(EditorAction::DecreaseFontSize);
    assert_eq!(engine.state().font_size, initial_size);
}

#[test]
fn test_decrease_font_size_minimum() {
    let mut engine = EditorEngine::new();

    for _ in 0..30 {
        engine.handle_action(EditorAction::DecreaseFontSize);
    }

    assert!(engine.state().font_size >= 8);
}

#[test]
fn test_delete_line() {
    let mut engine = EditorEngine::new();
    engine.handle_action(EditorAction::TypeString("line1".to_string()));
    engine.handle_action(EditorAction::Newline);
    engine.handle_action(EditorAction::TypeString("line2".to_string()));
    engine.handle_action(EditorAction::Newline);
    engine.handle_action(EditorAction::TypeString("line3".to_string()));

    engine.handle_action(EditorAction::MoveUp);
    engine.handle_action(EditorAction::DeleteLine);

    assert_eq!(engine.state().to_string(), "line1\nline3");
}

#[test]
fn test_move_line_up() {
    let mut engine = EditorEngine::new();
    engine.handle_action(EditorAction::TypeString("line1".to_string()));
    engine.handle_action(EditorAction::Newline);
    engine.handle_action(EditorAction::TypeString("line2".to_string()));

    engine.handle_action(EditorAction::MoveLineUp);

    assert_eq!(engine.state().to_string(), "line2\nline1");
    assert_eq!(engine.state().cursor.row, 0);
}

#[test]
fn test_move_line_down() {
    let mut engine = EditorEngine::new();
    engine.handle_action(EditorAction::TypeString("line1".to_string()));
    engine.handle_action(EditorAction::Newline);
    engine.handle_action(EditorAction::TypeString("line2".to_string()));
    engine.handle_action(EditorAction::MoveUp);

    engine.handle_action(EditorAction::MoveLineDown);

    assert_eq!(engine.state().to_string(), "line2\nline1");
    assert_eq!(engine.state().cursor.row, 1);
}

#[test]
fn test_tab_indentation() {
    let mut engine = EditorEngine::new();
    engine.handle_action(EditorAction::TypeString("hello".to_string()));
    engine.handle_action(EditorAction::Tab);
    engine.handle_action(EditorAction::TypeString("world".to_string()));

    assert_eq!(engine.state().to_string(), "hello    world");
}

#[test]
fn test_select_all() {
    let mut engine = EditorEngine::new();
    engine.handle_action(EditorAction::TypeString("hello\nworld".to_string()));
    engine.handle_action(EditorAction::SelectAll);

    assert!(engine.state().selection_anchor.is_some());
    assert_eq!(
        engine.state().selection_anchor.unwrap(),
        BufferPosition::zero()
    );
    assert_eq!(engine.state().cursor.row, 1);
    assert_eq!(engine.state().cursor.column, 5);
}

#[test]
fn test_select_left_right() {
    let mut engine = EditorEngine::new();
    engine.handle_action(EditorAction::TypeString("hello".to_string()));
    engine.handle_action(EditorAction::SelectLeft);
    engine.handle_action(EditorAction::SelectLeft);

    assert!(engine.state().selection_anchor.is_some());
    assert_eq!(engine.state().cursor.column, 3);
}

#[test]
fn test_backspace_joins_lines() {
    let mut engine = EditorEngine::new();
    engine.handle_action(EditorAction::TypeString("hello".to_string()));
    engine.handle_action(EditorAction::Newline);
    engine.handle_action(EditorAction::TypeString("world".to_string()));
    engine.handle_action(EditorAction::MoveToBeginningOfLine);
    engine.handle_action(EditorAction::Backspace);

    assert_eq!(engine.state().to_string(), "helloworld");
    assert_eq!(engine.state().cursor.row, 0);
    assert_eq!(engine.state().cursor.column, 5);
}

#[test]
fn test_delete_joins_lines() {
    let mut engine = EditorEngine::new();
    engine.handle_action(EditorAction::TypeString("hello".to_string()));
    engine.handle_action(EditorAction::Newline);
    engine.handle_action(EditorAction::TypeString("world".to_string()));
    engine.handle_action(EditorAction::MoveUp);
    engine.handle_action(EditorAction::MoveToEndOfLine);
    engine.handle_action(EditorAction::Delete);

    assert_eq!(engine.state().to_string(), "helloworld");
}

#[test]
fn test_delete_to_beginning_of_line() {
    let mut engine = EditorEngine::new();
    engine.handle_action(EditorAction::TypeString("hello world".to_string()));
    engine.handle_action(EditorAction::MoveLeft);
    engine.handle_action(EditorAction::MoveLeft);
    engine.handle_action(EditorAction::MoveLeft);
    engine.handle_action(EditorAction::MoveLeft);
    engine.handle_action(EditorAction::MoveLeft);
    engine.handle_action(EditorAction::DeleteToBeginningOfLine);

    assert_eq!(engine.state().to_string(), "world");
}

#[test]
fn test_delete_to_end_of_line() {
    let mut engine = EditorEngine::new();
    engine.handle_action(EditorAction::TypeString("hello world".to_string()));
    engine.handle_action(EditorAction::MoveToBeginningOfLine);
    engine.handle_action(EditorAction::MoveRight);
    engine.handle_action(EditorAction::MoveRight);
    engine.handle_action(EditorAction::MoveRight);
    engine.handle_action(EditorAction::MoveRight);
    engine.handle_action(EditorAction::MoveRight);
    engine.handle_action(EditorAction::DeleteToEndOfLine);

    assert_eq!(engine.state().to_string(), "hello");
}

// --- debounce, word movement, list markers, unicode boundaries ---

#[test]
fn test_debounce_coalesces_quick_edits() {
    // Two edits under 500 ms apart form one undo frame; a third beyond the
    // window opens a second frame.
    let mut engine = EditorEngine::new();
    engine.handle_action_at(EditorAction::TypeCharacter('a'), 1_000);
    engine.handle_action_at(EditorAction::TypeCharacter('b'), 1_200);
    engine.handle_action_at(EditorAction::TypeCharacter('c'), 2_000);

    assert_eq!(engine.state().to_string(), "abc");

    engine.handle_action_at(EditorAction::Undo, 2_100);
    assert_eq!(engine.state().to_string(), "ab");

    engine.handle_action_at(EditorAction::Undo, 2_200);
    assert_eq!(engine.state().to_string(), "");
}

#[test]
fn test_undo_redo_restores_cursor_and_rows() {
    let mut engine = EditorEngine::new();
    engine.handle_action_at(EditorAction::TypeString("one\ntwo".to_string()), 1_000);
    engine.handle_action_at(EditorAction::Newline, 2_000);
    engine.handle_action_at(EditorAction::TypeString("three".to_string()), 3_000);

    assert_eq!(engine.state().to_string(), "one\ntwo\nthree");
    let after = (engine.state().cursor, engine.state().to_string());

    engine.handle_action(EditorAction::Undo);
    engine.handle_action(EditorAction::Redo);

    assert_eq!(engine.state().cursor, after.0);
    assert_eq!(engine.state().to_string(), after.1);
}

#[test]
fn test_move_word_right_skips_word_and_spaces() {
    let mut engine = EditorEngine::new();
    engine.handle_action(EditorAction::TypeString("foo  bar baz".to_string()));
    engine.handle_action(EditorAction::MoveToBeginningOfLine);

    engine.handle_action(EditorAction::MoveWordRight);
    assert_eq!(engine.state().cursor.column, 5); // past "foo" and both spaces

    engine.handle_action(EditorAction::MoveWordRight);
    assert_eq!(engine.state().cursor.column, 9); // past "bar" and one space
}

#[test]
fn test_move_word_left_stops_at_word_start() {
    let mut engine = EditorEngine::new();
    engine.handle_action(EditorAction::TypeString("foo bar".to_string()));

    engine.handle_action(EditorAction::MoveWordLeft);
    assert_eq!(engine.state().cursor.column, 4); // start of "bar"

    engine.handle_action(EditorAction::MoveWordLeft);
    assert_eq!(engine.state().cursor.column, 0); // start of "foo"
}

#[test]
fn test_word_movement_crosses_rows() {
    let mut engine = EditorEngine::new();
    engine.handle_action(EditorAction::TypeString("ab\ncd".to_string()));
    engine.handle_action(EditorAction::MoveToBeginningOfLine);

    engine.handle_action(EditorAction::MoveWordLeft);
    assert_eq!(engine.state().cursor, BufferPosition::new(0, 2));

    engine.handle_action(EditorAction::MoveWordRight);
    assert_eq!(engine.state().cursor, BufferPosition::new(1, 0));
}

#[test]
fn test_delete_word_left() {
    let mut engine = EditorEngine::new();
    engine.handle_action(EditorAction::TypeString("hello world".to_string()));
    engine.handle_action(EditorAction::DeleteWordLeft);

    assert_eq!(engine.state().to_string(), "hello ");
    assert_eq!(engine.state().cursor.column, 6);
}

#[test]
fn test_delete_word_right() {
    let mut engine = EditorEngine::new();
    engine.handle_action(EditorAction::TypeString("hello world".to_string()));
    engine.handle_action(EditorAction::MoveToBeginningOfLine);
    engine.handle_action(EditorAction::DeleteWordRight);

    assert_eq!(engine.state().to_string(), "world");
    assert_eq!(engine.state().cursor.column, 0);
}

#[test]
fn test_newline_continues_unordered_list() {
    let mut engine = EditorEngine::new();
    engine.handle_action(EditorAction::TypeString("- buy milk".to_string()));
    engine.handle_action(EditorAction::Newline);

    assert_eq!(engine.state().to_string(), "- buy milk\n- ");
    assert_eq!(engine.state().cursor, BufferPosition::new(1, 2));
}

#[test]
fn test_newline_continues_checkbox_item() {
    let mut engine = EditorEngine::new();
    engine.handle_action(EditorAction::TypeString("- [ ] buy milk".to_string()));
    engine.handle_action(EditorAction::Newline);

    assert_eq!(engine.state().to_string(), "- [ ] buy milk\n- [ ] ");
    assert_eq!(engine.state().cursor, BufferPosition::new(1, 6));
}

#[test]
fn test_newline_terminates_empty_checkbox_item() {
    let mut engine = EditorEngine::new();
    engine.handle_action(EditorAction::TypeString("- [ ] ".to_string()));
    engine.handle_action(EditorAction::Newline);

    assert_eq!(engine.state().to_string(), "\n");
    assert_eq!(engine.state().cursor, BufferPosition::new(1, 0));
}

#[test]
fn test_newline_increments_ordered_list() {
    let mut engine = EditorEngine::new();
    engine.handle_action(EditorAction::TypeString("3. threes".to_string()));
    engine.handle_action(EditorAction::Newline);

    assert_eq!(engine.state().to_string(), "3. threes\n4. ");
    assert_eq!(engine.state().cursor, BufferPosition::new(1, 3));
}

#[test]
fn test_move_left_steps_whole_characters() {
    let mut engine = EditorEngine::new();
    engine.handle_action(EditorAction::TypeString("aé🚀".to_string()));
    assert_eq!(engine.state().cursor.column, 7); // 1 + 2 + 4 bytes

    engine.handle_action(EditorAction::MoveLeft);
    assert_eq!(engine.state().cursor.column, 3);

    engine.handle_action(EditorAction::MoveLeft);
    assert_eq!(engine.state().cursor.column, 1);

    engine.handle_action(EditorAction::MoveLeft);
    assert_eq!(engine.state().cursor.column, 0);
}

#[test]
fn test_backspace_removes_whole_character() {
    let mut engine = EditorEngine::new();
    engine.handle_action(EditorAction::TypeString("aé".to_string()));
    engine.handle_action(EditorAction::Backspace);

    assert_eq!(engine.state().to_string(), "a");
    assert_eq!(engine.state().cursor.column, 1);
}

#[test]
fn test_move_up_snaps_to_character_boundary() {
    let mut engine = EditorEngine::new();
    engine.handle_action(EditorAction::TypeString("é\nabcd".to_string()));
    // cursor at (1, 4); row 0 is two bytes but column 4 clamps to 2, and a
    // mid-character landing would snap back
    engine.handle_action(EditorAction::MoveUp);
    assert_eq!(engine.state().cursor, BufferPosition::new(0, 2));
}

#[test]
fn test_selection_edit_replaces_range() {
    let mut engine = EditorEngine::new();
    engine.handle_action(EditorAction::TypeString("hello world".to_string()));
    engine.handle_action(EditorAction::StartSelection { row: 0, column: 5 });
    engine.handle_action(EditorAction::ExtendSelection { row: 0, column: 11 });
    engine.handle_action(EditorAction::TypeCharacter('!'));

    assert_eq!(engine.state().to_string(), "hello!");
    assert!(engine.state().selection_anchor.is_none());
}

#[test]
fn test_set_cursor_clamps() {
    let mut engine = EditorEngine::new();
    engine.handle_action(EditorAction::TypeString("ab".to_string()));
    engine.handle_action(EditorAction::SetCursorPosition { row: 9, column: 9 });

    assert_eq!(engine.state().cursor, BufferPosition::new(0, 2));
}

#[test]
fn test_outdent_removes_leading_spaces() {
    let mut engine = EditorEngine::new();
    engine.handle_action(EditorAction::TypeString("      x".to_string()));
    engine.handle_action(EditorAction::Outdent);

    assert_eq!(engine.state().to_string(), "  x");
    assert_eq!(engine.state().cursor.column, 3);
}

#[test]
fn test_tab_with_selection_indents_rows() {
    let mut engine = EditorEngine::new();
    engine.handle_action(EditorAction::TypeString("a\nb".to_string()));
    engine.handle_action(EditorAction::StartSelection { row: 0, column: 0 });
    engine.handle_action(EditorAction::ExtendSelection { row: 1, column: 1 });
    engine.handle_action(EditorAction::Tab);

    assert_eq!(engine.state().to_string(), "    a\n    b");
    assert_eq!(engine.state().cursor, BufferPosition::new(1, 5));
}

#[test]
fn test_text_round_trip() {
    let mut engine = EditorEngine::new();
    engine.handle_action(EditorAction::TypeString("alpha\n\nbéta".to_string()));
    let text = engine.state().to_string();

    let reread = zrd_core::EditorState::from_string(text.clone());
    assert_eq!(reread.to_string(), text);
    assert_eq!(reread.line_count(), 3);
}

#[test]
fn test_from_string_empty_gives_one_row() {
    let state = zrd_core::EditorState::from_string(String::new());
    assert_eq!(state.line_count(), 1);
    assert_eq!(state.line_len(0), 0);
    assert_eq!(state.to_string(), "");
}

#[test]
fn test_find_word_boundaries() {
    let state = zrd_core::EditorState::from_string("foo bar_baz!".to_string());
    let (s, e) = state
        .find_word_boundaries(BufferPosition::new(0, 5))
        .unwrap();
    assert_eq!(s, BufferPosition::new(0, 4));
    assert_eq!(e, BufferPosition::new(0, 11));
    // the space and the exclamation mark are not word characters
    assert!(state.find_word_boundaries(BufferPosition::new(0, 3)).is_none());
    assert!(state.find_word_boundaries(BufferPosition::new(0, 11)).is_none());
    // past the end of the row
    assert!(state.find_word_boundaries(BufferPosition::new(0, 12)).is_none());
}

#[test]
fn test_word_movement_over_accented_word() {
    let mut engine = EditorEngine::new();
    engine.handle_action(EditorAction::TypeString("héllo wörld".to_string()));
    // "wörld" is 6 bytes; the full line is 13 bytes
    assert_eq!(engine.state().cursor.column, 13);
    engine.handle_action(EditorAction::MoveWordLeft);
    assert_eq!(engine.state().cursor.column, 7); // start of "wörld"
    engine.handle_action(EditorAction::MoveWordLeft);
    assert_eq!(engine.state().cursor.column, 0); // start of "héllo"
}

fn assert_cursor_valid(engine: &EditorEngine) {
    let state = engine.state();
    let row = state.cursor.row;
    let col = state.cursor.column;
    assert!(row < state.line_count());
    let line = state.line(row).unwrap();
    assert!(col <= line.len());
    // a valid column never points into the middle of a UTF-8 character
    if col < line.len() {
        assert_ne!(line[col] & 0xC0, 0x80);
    }
}

#[test]
fn test_cursor_stays_on_character_boundaries() {
    let mut engine = EditorEngine::new();
    let steps = [
        EditorAction::TypeString("héllo wörld\n🚀🚀🚀\nend".to_string()),
        EditorAction::MoveUp,
        EditorAction::MoveToEndOfLine,
        EditorAction::MoveLeft,
        EditorAction::MoveUp,
        EditorAction::MoveDown,
        EditorAction::Backspace,
        EditorAction::Tab,
        EditorAction::Outdent,
        EditorAction::MoveWordLeft,
        EditorAction::Delete,
        EditorAction::Undo,
        EditorAction::Redo,
    ];
    for action in steps {
        engine.handle_action(action.clone());
        assert_cursor_valid(&engine);
    }
}

#[test]
fn test_outdent_with_selection_shifts_by_amount_removed() {
    // a row with two leading spaces loses two, not four, and the cursor
    // shifts by exactly what was removed
    let mut engine = EditorEngine::new();
    engine.handle_action(EditorAction::TypeString("  abc".to_string()));
    engine.handle_action(EditorAction::StartSelection { row: 0, column: 0 });
    engine.handle_action(EditorAction::ExtendSelection { row: 0, column: 5 });
    engine.handle_action(EditorAction::Outdent);

    assert_eq!(engine.state().to_string(), "abc");
    assert_eq!(engine.state().cursor, BufferPosition::new(0, 3));
    assert_eq!(
        engine.state().selection_anchor,
        Some(BufferPosition::zero())
    );
}

#[test]
fn test_delete_to_beginning_of_line_with_selection() {
    // an edit with an active selection deletes the range first; the prefix
    // before the collapsed cursor then goes too
    let mut engine = EditorEngine::new();
    engine.handle_action(EditorAction::TypeString("hello world".to_string()));
    engine.handle_action(EditorAction::StartSelection { row: 0, column: 6 });
    engine.handle_action(EditorAction::ExtendSelection { row: 0, column: 9 });
    engine.handle_action(EditorAction::DeleteToBeginningOfLine);

    assert_eq!(engine.state().to_string(), "ld");
    assert_eq!(engine.state().cursor, BufferPosition::zero());
    assert!(engine.state().selection_anchor.is_none());
}

#[test]
fn test_delete_to_end_of_line_with_selection() {
    let mut engine = EditorEngine::new();
    engine.handle_action(EditorAction::TypeString("hello world".to_string()));
    engine.handle_action(EditorAction::StartSelection { row: 0, column: 6 });
    engine.handle_action(EditorAction::ExtendSelection { row: 0, column: 9 });
    engine.handle_action(EditorAction::DeleteToEndOfLine);

    assert_eq!(engine.state().to_string(), "hello ");
    assert_eq!(engine.state().cursor, BufferPosition::new(0, 6));
    assert!(engine.state().selection_anchor.is_none());
}

#[test]
fn test_delete_word_left_with_selection() {
    // the selection "wor" goes first, then the word scan runs from the
    // collapsed cursor and takes "hello " with it
    let mut engine = EditorEngine::new();
    engine.handle_action(EditorAction::TypeString("hello world".to_string()));
    engine.handle_action(EditorAction::StartSelection { row: 0, column: 6 });
    engine.handle_action(EditorAction::ExtendSelection { row: 0, column: 9 });
    engine.handle_action(EditorAction::DeleteWordLeft);

    assert_eq!(engine.state().to_string(), "ld");
    assert_eq!(engine.state().cursor, BufferPosition::zero());
    assert!(engine.state().selection_anchor.is_none());
}

#[test]
fn test_delete_word_right_with_selection() {
    let mut engine = EditorEngine::new();
    engine.handle_action(EditorAction::TypeString("hello world".to_string()));
    engine.handle_action(EditorAction::StartSelection { row: 0, column: 6 });
    engine.handle_action(EditorAction::ExtendSelection { row: 0, column: 9 });
    engine.handle_action(EditorAction::DeleteWordRight);

    assert_eq!(engine.state().to_string(), "hello ");
    assert_eq!(engine.state().cursor, BufferPosition::new(0, 6));
    assert!(engine.state().selection_anchor.is_none());
}

#[test]
fn test_undo_restores_selection_deleted_range() {
    // the undo frame is the pre-action state, so the selected text comes back
    let mut engine = EditorEngine::new();
    engine.handle_action_at(EditorAction::TypeString("hello world".to_string()), 1_000);
    engine.handle_action_at(EditorAction::StartSelection { row: 0, column: 6 }, 1_100);
    engine.handle_action_at(EditorAction::ExtendSelection { row: 0, column: 9 }, 1_200);
    engine.handle_action_at(EditorAction::DeleteToEndOfLine, 2_000);
    assert_eq!(engine.state().to_string(), "hello ");

    engine.handle_action_at(EditorAction::Undo, 2_100);
    assert_eq!(engine.state().to_string(), "hello world");
}

#[test]
fn test_outdent_with_selection_mixed_indentation() {
    // each selected row loses its own leading-space count
    let mut engine = EditorEngine::new();
    engine.handle_action(EditorAction::TypeString("  a\n      b".to_string()));
    engine.handle_action(EditorAction::StartSelection { row: 0, column: 1 });
    engine.handle_action(EditorAction::ExtendSelection { row: 1, column: 7 });
    engine.handle_action(EditorAction::Outdent);

    assert_eq!(engine.state().to_string(), "a\n  b");
    assert_eq!(engine.state().selection_anchor, Some(BufferPosition::zero()));
    assert_eq!(engine.state().cursor, BufferPosition::new(1, 3));
}
