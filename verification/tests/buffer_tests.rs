use zrd_core::{BufferPosition, TextBuffer, VisualPosition, WrapType};
use zrd_core::wrap::compute_visual_lines;

/// Advance table for text where every byte is one pixel wide; good enough to
/// drive the wrap algorithm deterministically in tests.
fn unit_advances(len: usize) -> Vec<u64> {
    let mut adv = Vec::new();
    let mut i = 0;
    while i <= len {
        adv.push(i as u64);
        i += 1;
    }
    adv
}

#[test]
fn test_wrap_empty_row_single_segment() {
    let line: Vec<u8> = Vec::new();
    let segs = compute_visual_lines(&line, &unit_advances(0), 10);
    assert_eq!(segs.len(), 1);
    assert_eq!(segs[0].start, 0);
    assert_eq!(segs[0].end, 0);
    assert_eq!(segs[0].wrap_type, WrapType::SoftWrap);
}

#[test]
fn test_wrap_soft_breaks_at_whitespace() {
    let line: Vec<u8> = b"hello world".to_vec();
    let segs = compute_visual_lines(&line, &unit_advances(line.len()), 8);
    // "hello " closes softly at the space, "world" trails
    assert_eq!(segs.len(), 2);
    assert_eq!((segs[0].start, segs[0].end), (0, 6));
    assert_eq!(segs[0].wrap_type, WrapType::SoftWrap);
    assert_eq!((segs[1].start, segs[1].end), (6, 11));
    assert_eq!(segs[1].wrap_type, WrapType::SoftWrap);
}

#[test]
fn test_wrap_hard_breaks_long_token() {
    let line: Vec<u8> = b"abcdefghij".to_vec();
    let segs = compute_visual_lines(&line, &unit_advances(line.len()), 4);
    assert!(segs.len() > 1);
    assert_eq!(segs[0].wrap_type, WrapType::HardWrap);
    // exact cover, contiguous
    assert_eq!(segs[0].start, 0);
    for w in segs.windows(2) {
        assert_eq!(w[0].end, w[1].start);
    }
    assert_eq!(segs[segs.len() - 1].end, line.len());
}

#[test]
fn test_wrap_covers_row_exactly() {
    let line: Vec<u8> = b"the quick brown fox jumps over the lazy dog".to_vec();
    for width in [3u64, 7, 10, 100] {
        let segs = compute_visual_lines(&line, &unit_advances(line.len()), width);
        assert!(!segs.is_empty());
        assert_eq!(segs[0].start, 0);
        for w in segs.windows(2) {
            assert_eq!(w[0].end, w[1].start);
        }
        assert_eq!(segs[segs.len() - 1].end, line.len());
        for s in &segs {
            assert!(s.start < s.end);
        }
    }
}

#[test]
fn test_buffer_round_trip_text() {
    let tb = TextBuffer::from_string("one\ntwo\nthree".to_string());
    assert_eq!(tb.to_string(), "one\ntwo\nthree");
    assert_eq!(tb.line_count(), 3);
    assert_eq!(tb.line_len(1), 3);
}

#[test]
fn test_get_or_shape_line_caches_and_reuses() {
    let mut tb = TextBuffer::from_string("hello world".to_string());
    let adv = unit_advances(11);
    let shaped = tb.get_or_shape_line(0, 14, 8, &adv);
    assert!(shaped);
    let again = tb.get_or_shape_line(0, 14, 8, &adv);
    assert!(!again); // cache hit at identical parameters
    let reshaped = tb.get_or_shape_line(0, 16, 8, &adv);
    assert!(reshaped); // font change forces a reshape
    let rewidth = tb.get_or_shape_line(0, 16, 5, &adv);
    assert!(rewidth); // width change forces one too
    let reback = tb.get_or_shape_line(0, 16, 8, &adv);
    assert!(reback); // the cache holds only the latest parameters
    let segs = tb.get_visual_lines(0).unwrap();
    assert_eq!(segs.len(), 2);
}

#[test]
fn test_invalidate_all_layouts() {
    let mut tb = TextBuffer::from_string("hello world".to_string());
    let adv = unit_advances(11);
    tb.get_or_shape_line(0, 14, 8, &adv);
    assert!(tb.get_visual_lines(0).is_some());
    tb.invalidate_all_layouts();
    assert!(tb.get_visual_lines(0).is_none());
}

#[test]
fn test_buffer_to_visual_and_back() {
    let mut tb = TextBuffer::from_string("hello world\nsecond".to_string());
    let adv = unit_advances(11);
    tb.get_or_shape_line(0, 14, 8, &adv);
    // wrapped row 0: segments [0,6) and [6,11); row 1 unshaped placeholder
    assert_eq!(tb.visual_line_count(), 3);

    let v = tb.buffer_to_visual(BufferPosition::new(0, 8));
    assert_eq!(v, VisualPosition::new(1, 2));

    let b = tb.visual_to_buffer(v);
    assert_eq!(b, BufferPosition::new(0, 8));

    let v2 = tb.buffer_to_visual(BufferPosition::new(1, 3));
    assert_eq!(v2, VisualPosition::new(2, 3));
    let b2 = tb.visual_to_buffer(v2);
    assert_eq!(b2, BufferPosition::new(1, 3));
}

#[test]
fn test_move_visual_down_steps_one_screen_line() {
    let mut tb = TextBuffer::from_string("hello world".to_string());
    let adv = unit_advances(11);
    tb.get_or_shape_line(0, 14, 8, &adv);
    // from inside the first segment, down lands in the second segment of the
    // same logical row
    let down = tb.move_visual_down(BufferPosition::new(0, 2));
    assert_eq!(down, BufferPosition::new(0, 8));
    let up = tb.move_visual_up(down);
    assert_eq!(up, BufferPosition::new(0, 2));
}

#[test]
fn test_visual_line_start_end() {
    let mut tb = TextBuffer::from_string("hello world".to_string());
    let adv = unit_advances(11);
    tb.get_or_shape_line(0, 14, 8, &adv);
    let start = tb.visual_line_start(BufferPosition::new(0, 8));
    let end = tb.visual_line_end(BufferPosition::new(0, 8));
    assert_eq!(start, BufferPosition::new(0, 6));
    assert_eq!(end, BufferPosition::new(0, 11));
}

#[test]
fn test_insert_char_and_newline() {
    let mut tb = TextBuffer::from_string("ab".to_string());
    tb.insert_char(BufferPosition::new(0, 1), 'x');
    assert_eq!(tb.to_string(), "axb");
    tb.insert_char(BufferPosition::new(0, 2), '\n');
    assert_eq!(tb.to_string(), "ax\nb");
    assert_eq!(tb.line_count(), 2);
}

#[test]
fn test_insert_str_multiline() {
    let mut tb = TextBuffer::from_string("headtail".to_string());
    tb.insert_str(BufferPosition::new(0, 4), "-one\ntwo\nthree-");
    assert_eq!(tb.to_string(), "head-one\ntwo\nthree-tail");
    assert_eq!(tb.line_count(), 3);
}

#[test]
fn test_delete_char_and_merge() {
    let mut tb = TextBuffer::from_string("ab\ncd".to_string());
    let changed = tb.delete_char(BufferPosition::new(0, 0));
    assert!(changed);
    assert_eq!(tb.to_string(), "b\ncd");
    let merged = tb.delete_char(BufferPosition::new(0, 1));
    assert!(merged);
    assert_eq!(tb.to_string(), "bcd");
    let at_end = tb.delete_char(BufferPosition::new(0, 3));
    assert!(!at_end);
}

#[test]
fn test_backspace_and_merge() {
    let mut tb = TextBuffer::from_string("ab\ncd".to_string());
    let changed = tb.backspace(BufferPosition::new(0, 2));
    assert!(changed);
    assert_eq!(tb.to_string(), "a\ncd");
    let merged = tb.backspace(BufferPosition::new(1, 0));
    assert!(merged);
    assert_eq!(tb.to_string(), "acd");
    let at_origin = tb.backspace(BufferPosition::new(0, 0));
    assert!(!at_origin);
}

#[test]
fn test_delete_range_across_rows() {
    let mut tb = TextBuffer::from_string("one\ntwo\nthree".to_string());
    tb.delete_range(BufferPosition::new(0, 2), BufferPosition::new(2, 3));
    assert_eq!(tb.to_string(), "onee");
    // reversed argument order normalizes
    let mut tb2 = TextBuffer::from_string("one\ntwo".to_string());
    tb2.delete_range(BufferPosition::new(1, 1), BufferPosition::new(0, 1));
    assert_eq!(tb2.to_string(), "owo");
}

#[test]
fn test_position_to_byte_offset() {
    let tb = TextBuffer::from_string("ab\ncde\nf".to_string());
    assert_eq!(tb.position_to_byte_offset(BufferPosition::new(0, 0)), 0);
    assert_eq!(tb.position_to_byte_offset(BufferPosition::new(1, 2)), 5);
    assert_eq!(tb.position_to_byte_offset(BufferPosition::new(2, 1)), 8);
}

#[test]
fn test_backspace_snaps_mid_character_column() {
    // column 2 points into the middle of the two-byte character; the whole
    // character is removed
    let mut tb = TextBuffer::from_string("a\u{e9}b".to_string());
    let changed = tb.backspace(BufferPosition::new(0, 2));
    assert!(changed);
    assert_eq!(tb.to_string(), "ab");
}

#[test]
fn test_queries_tolerate_out_of_range_rows() {
    let mut tb = TextBuffer::from_string("hello world".to_string());
    let adv = unit_advances(11);
    let shaped = tb.get_or_shape_line(9, 14, 8, &adv);
    assert!(!shaped);
    assert!(tb.get_visual_lines(9).is_none());
    assert!(tb
        .get_visual_line_at_position(BufferPosition::new(9, 0))
        .is_none());

    // positions past the end clamp into the document
    tb.get_or_shape_line(0, 14, 8, &adv);
    let v = tb.buffer_to_visual(BufferPosition::new(9, 99));
    assert_eq!(v, VisualPosition::new(1, 5)); // end of the last segment

    let start = tb.visual_line_start(BufferPosition::new(9, 0));
    assert_eq!(start, BufferPosition::new(9, 0));
    let end = tb.visual_line_end(BufferPosition::new(9, 0));
    assert_eq!(end, BufferPosition::new(9, 0));
}
