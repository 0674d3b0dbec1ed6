use iota_buffer::buffer::Buffer;
use iota_buffer::buffer::Line;
use iota_buffer::direction::Direction;

fn data_from_str(s: &str) -> Vec<char> {
    s.chars().collect()
}

fn setup_buffer() -> Buffer {
    let mut buffer = Buffer::new_from_text(data_from_str("test\n\ntext file\ncontent"));
    buffer.file_path = Some(String::from("/some/file.txt"));
    buffer
}

fn text_of(b: &Buffer) -> String {
    b.text_chars().into_iter().collect()
}

#[test]
fn test_get_status_text() {
    let buffer = setup_buffer();
    assert_eq!(buffer.get_status_text(), "/some/file.txt, lines: 4".to_string())
}

#[test]
fn test_insert_line() {
    let mut buffer = setup_buffer();
    buffer.insert_line(0, 0);
    assert_eq!(buffer.lines.len(), 5);
}

#[test]
fn test_insert_line_in_middle_of_other_line() {
    let mut buffer = setup_buffer();
    buffer.insert_line(0, 1);
    assert_eq!(buffer.lines.len(), 5);

    let line = &buffer.lines[1];
    assert_eq!(line.data, data_from_str("est"));
}

#[test]
fn test_line_numbers_are_fixed_after_adding_new_line() {
    let mut buffer = setup_buffer();
    buffer.insert_line(2, 1);
    assert_eq!(buffer.lines.len(), 5);

    // check that all line numbers are sequential
    for (index, line) in buffer.lines.iter().enumerate() {
        assert_eq!(index, line.line_num);
    }
}

#[test]
fn test_join_line_with_previous() {
    let mut buffer = setup_buffer();

    let offset = buffer.join_line_with_previous(3, 0);

    assert_eq!(buffer.lines.len(), 3);
    assert_eq!(buffer.lines[2].data, data_from_str("text filecontent"));
    assert_eq!(offset, Some(9));
}

#[test]
fn join_line_with_previous_does_nothing_on_line_zero_offset_zero() {
    let mut buffer = setup_buffer();
    buffer.join_line_with_previous(0, 0);

    assert_eq!(buffer.lines.len(), 4);
    assert_eq!(buffer.lines[0].data, data_from_str("test"));
}

#[test]
fn test_split_line() {
    let buffer = setup_buffer();
    let (old, new) = buffer.split_line(3, 3).unwrap();

    assert_eq!(old, data_from_str("con"));
    assert_eq!(new, data_from_str("tent"));
}

#[test]
fn joining_line_with_non_existant_next_line_does_nothing() {
    let mut buffer = Buffer::new();
    buffer.join_line_with_previous(1, 0);
    assert_eq!(buffer.lines.len(), 1);
}

#[test]
fn empty_buffer_insert_chars() {
    let mut b = Buffer::new();
    b.insert_char('a');
    b.insert_char('b');
    assert_eq!(text_of(&b), "ab");
    assert_eq!(b.cursor, 2);
    assert_eq!(b.lines.len(), 1);
    assert_eq!(b.lines[0].data, data_from_str("ab"));
}

#[test]
fn status_text_untitled() {
    let b = Buffer::new_from_text(data_from_str("test\n\ntext file\ncontent"));
    assert_eq!(b.get_status_text(), "untitled, lines: 4");
}

#[test]
fn status_text_many_lines() {
    let mut s = String::new();
    for i in 0..12 {
        if i > 0 {
            s.push('\n');
        }
        s.push('x');
    }
    let b = Buffer::new_from_text(s.chars().collect());
    assert_eq!(b.get_status_text(), "untitled, lines: 12");
}

#[test]
fn join_empty_line_with_previous() {
    let mut b = Buffer::new_from_text(data_from_str("test\n\ntext file\ncontent"));
    b.join_line_with_previous(1, 0);
    assert_eq!(b.lines.len(), 3);
    assert_eq!(b.lines[1].data, data_from_str("text file"));
    for (index, line) in b.lines.iter().enumerate() {
        assert_eq!(index, line.line_num);
    }
}

#[test]
fn split_line_does_not_mutate() {
    let b = setup_buffer();
    let _ = b.split_line(3, 3).unwrap();
    assert_eq!(b.lines.len(), 4);
    assert_eq!(b.lines[3].data, data_from_str("content"));
}

#[test]
fn split_line_out_of_range_is_none() {
    let b = setup_buffer();
    assert!(b.split_line(4, 0).is_none());
    assert!(b.split_line(1, 1).is_none());
}

#[test]
fn join_on_first_line_is_noop() {
    let mut b = Buffer::new();
    let r = b.join_line_with_previous(0, 1);
    assert_eq!(r, None);
    assert_eq!(b.lines.len(), 1);
    assert_eq!(b.lines[0].data, Vec::<char>::new());
}

#[test]
fn move_cursor_out_of_range_is_noop() {
    let mut b = Buffer::new_from_text(data_from_str("abc"));
    b.move_cursor(2);
    assert_eq!(b.cursor, 2);
    b.move_cursor(5);
    assert_eq!(b.cursor, 2);
    b.move_cursor(-3);
    assert_eq!(b.cursor, 2);
    b.move_cursor(-2);
    assert_eq!(b.cursor, 0);
    b.move_cursor(3);
    assert_eq!(b.cursor, 3);
}

#[test]
fn set_cursor_out_of_range_is_noop() {
    let mut b = Buffer::new_from_text(data_from_str("abc"));
    b.set_cursor(2);
    b.set_cursor(9);
    assert_eq!(b.cursor, 2);
    b.set_cursor(3);
    assert_eq!(b.cursor, 3);
}

#[test]
fn shift_cursor_stops_at_newline() {
    let mut b = Buffer::new_from_text(data_from_str("ab\ncd"));
    b.shift_cursor(Direction::Right);
    assert_eq!(b.cursor, 1);
    b.shift_cursor(Direction::Right);
    assert_eq!(b.cursor, 2);
    b.shift_cursor(Direction::Right);
    assert_eq!(b.cursor, 2);
    b.shift_cursor(Direction::Left);
    assert_eq!(b.cursor, 1);
    b.shift_cursor(Direction::Left);
    assert_eq!(b.cursor, 0);
    b.shift_cursor(Direction::Left);
    assert_eq!(b.cursor, 0);
}

#[test]
fn shift_cursor_vertical() {
    let mut b = Buffer::new_from_text(data_from_str("ab\ncd\nef"));
    b.shift_cursor(Direction::Down);
    assert_eq!(b.cursor, 4);
    b.shift_cursor(Direction::Down);
    assert_eq!(b.cursor, 7);
    b.shift_cursor(Direction::Down);
    assert_eq!(b.cursor, 7);
    b.shift_cursor(Direction::Up);
    assert_eq!(b.cursor, 4);
    b.shift_cursor(Direction::Up);
    assert_eq!(b.cursor, 1);
    b.shift_cursor(Direction::Up);
    assert_eq!(b.cursor, 1);
}

#[test]
fn insert_newline_splits_line() {
    let mut b = Buffer::new_from_text(data_from_str("abcd"));
    b.set_cursor(2);
    b.insert_char('\n');
    assert_eq!(b.lines.len(), 2);
    assert_eq!(b.lines[0].data, data_from_str("ab"));
    assert_eq!(b.lines[1].data, data_from_str("cd"));
    assert_eq!(b.lines[1].line_num, 1);
    assert_eq!(text_of(&b), "ab\ncd");
    assert_eq!(b.cursor, 3);
}

#[test]
fn delete_newline_joins_lines() {
    let mut b = Buffer::new_from_text(data_from_str("ab\ncd"));
    b.set_cursor(3);
    b.delete_char(Direction::Left);
    assert_eq!(text_of(&b), "abcd");
    assert_eq!(b.lines.len(), 1);
    assert_eq!(b.lines[0].data, data_from_str("abcd"));
    assert_eq!(b.cursor, 2);
}

#[test]
fn delete_char_right_and_edges() {
    let mut b = Buffer::new_from_text(data_from_str("abc"));
    b.delete_char(Direction::Right);
    assert_eq!(text_of(&b), "bc");
    assert_eq!(b.cursor, 0);
    b.delete_char(Direction::Left);
    assert_eq!(text_of(&b), "bc");
    b.set_cursor(2);
    b.delete_char(Direction::Right);
    assert_eq!(text_of(&b), "bc");
}

#[test]
fn get_line_counts_newlines() {
    let b = Buffer::new_from_text(data_from_str("ab\ncd\nef"));
    assert_eq!(b.get_line(0), Some(0));
    assert_eq!(b.get_line(4), Some(1));
    assert_eq!(b.get_line(7), Some(2));
    assert_eq!(b.get_line(8), None);
}

#[test]
fn get_line_idx_finds_line_starts() {
    let b = Buffer::new_from_text(data_from_str("ab\ncd\nef"));
    assert_eq!(b.get_line_idx(0), Some(0));
    assert_eq!(b.get_line_idx(1), Some(3));
    assert_eq!(b.get_line_idx(2), Some(6));
    assert_eq!(b.get_line_idx(3), None);
}

#[test]
fn cursor_screen_offset_is_column() {
    let mut b = Buffer::new_from_text(data_from_str("ab\ncde"));
    assert_eq!(b.get_cursor_screen_offset(), 0);
    b.set_cursor(2);
    assert_eq!(b.get_cursor_screen_offset(), 2);
    b.set_cursor(3);
    assert_eq!(b.get_cursor_screen_offset(), 0);
    b.set_cursor(5);
    assert_eq!(b.get_cursor_screen_offset(), 2);
}

#[test]
fn get_line_at_bounds() {
    let b = setup_buffer();
    assert!(b.get_line_at(3).is_some());
    assert_eq!(b.get_line_at(3).unwrap().data, data_from_str("content"));
    assert!(b.get_line_at(4).is_none());
}

#[test]
fn line_new_and_len() {
    let l = Line::new(data_from_str("hello"), 3);
    assert_eq!(l.len(), 5);
    assert_eq!(l.line_num, 3);
    assert_eq!(l.data, data_from_str("hello"));
}

#[test]
fn insert_line_out_of_range_is_rejected() {
    let mut b = setup_buffer();
    assert!(!b.insert_line(4, 0));
    assert!(!b.insert_line(1, 1));
    assert_eq!(b.lines.len(), 4);
}

#[test]
fn insert_line_updates_text() {
    let mut b = Buffer::new_from_text(data_from_str("abcd"));
    assert!(b.insert_line(0, 2));
    assert_eq!(text_of(&b), "ab\ncd");
}

#[test]
fn join_line_with_previous_updates_text() {
    let mut b = Buffer::new_from_text(data_from_str("ab\ncd"));
    let r = b.join_line_with_previous(1, 1);
    assert_eq!(r, Some(2));
    assert_eq!(text_of(&b), "abd");
    assert_eq!(b.lines[0].data, data_from_str("abd"));
}

#[test]
fn empty_buffer_has_one_empty_line() {
    let b = Buffer::new_from_text(Vec::new());
    assert_eq!(b.lines.len(), 1);
    assert_eq!(b.lines[0].data.len(), 0);
    assert_eq!(b.lines[0].line_num, 0);
    let b2 = Buffer::new();
    assert_eq!(b2.lines.len(), 1);
}

#[test]
fn trailing_newline_makes_empty_last_line() {
    let b = Buffer::new_from_text(data_from_str("a\n"));
    assert_eq!(b.lines.len(), 2);
    assert_eq!(b.lines[1].data.len(), 0);
}

#[test]
fn direction_is_left() {
    assert!(Direction::Left.is_left());
    assert!(!Direction::Right.is_left());
    assert!(!Direction::Up.is_left());
    assert!(!Direction::Down.is_left());
}
