use sgraffito::canvas::TextBuffer;

#[test]
fn new_buffer_puts_cursor_at_end() {
    let b = TextBuffer::new("abc");
    assert_eq!(b.surrounding(), ("abc", 3));
}

#[test]
fn insert_appends_and_counts_chars_not_bytes() {
    let mut b = TextBuffer::new("");
    b.insert("买牛奶");
    assert_eq!(b.surrounding(), ("买牛奶", 3));
    b.insert("!");
    assert_eq!(b.surrounding(), ("买牛奶!", 4));
}

#[test]
fn backspace_deletes_one_multibyte_char() {
    let mut b = TextBuffer::new("买牛奶");
    assert!(b.backspace());
    assert_eq!(b.surrounding(), ("买牛", 2));
}

#[test]
fn backspace_on_empty_reports_nothing_deleted() {
    let mut b = TextBuffer::new("");
    assert!(!b.backspace());
    assert_eq!(b.surrounding(), ("", 0));
}

#[test]
fn delete_before_removes_requested_chars() {
    let mut b = TextBuffer::new("abcdef");
    assert!(b.delete_before(2));
    assert_eq!(b.surrounding(), ("abcd", 4));
    assert!(b.delete_before(99));
    assert_eq!(b.surrounding(), ("", 0));
}

#[test]
fn preedit_is_not_part_of_buffer() {
    let mut b = TextBuffer::new("hi");
    b.insert("!"); // only committed strings enter the buffer
    assert_eq!(b.surrounding(), ("hi!", 3));
    assert_eq!(b.preedit_at(), 3);
}

#[test]
fn the_cursor_is_also_a_byte_offset() {
    assert_eq!(TextBuffer::new("").cursor_bytes(), 0);
    assert_eq!(TextBuffer::new("a\u{e9}买\u{1f980}").cursor_bytes(), 1 + 2 + 3 + 4);
}

#[test]
fn deleting_bytes_takes_whole_characters() {
    let mut b = TextBuffer::new("a买b");
    assert!(!b.delete_before_bytes(0));
    assert_eq!(b.surrounding(), ("a买b", 3));
    assert!(b.delete_before_bytes(1));
    assert_eq!(b.surrounding(), ("a买", 2));
    // A request that cuts a character takes all of it.
    assert!(b.delete_before_bytes(2));
    assert_eq!(b.surrounding(), ("a", 1));
    assert!(b.delete_before_bytes(usize::MAX));
    assert_eq!(b.surrounding(), ("", 0));
    assert!(!b.delete_before_bytes(3));
}

#[test]
fn deleting_what_was_inserted_gives_the_text_back() {
    let mut b = TextBuffer::new("x买");
    b.insert("牛a奶");
    assert!(b.delete_before(3));
    assert_eq!(b.surrounding(), ("x买", 2));
    b.insert("牛a奶");
    assert!(b.delete_before_bytes(7));
    assert_eq!(b.surrounding(), ("x买", 2));
}
