use rope::info::Info;
use rope::laws::{round_trip, split_and_append};
use rope::str_utils::{
    byte_len, char_to_byte, count_line_breaks, first_is_lf, last_is_cr, line_to_byte, safe_cut,
};
use rope::Rope;

#[test]
fn line_breaks_of_a_chunk() {
    assert_eq!(count_line_breaks(""), 0);
    assert_eq!(count_line_breaks("abc"), 0);
    assert_eq!(count_line_breaks("\n"), 1);
    assert_eq!(count_line_breaks("\r"), 1);
    assert_eq!(count_line_breaks("\r\n"), 1);
    assert_eq!(count_line_breaks("\n\r"), 2);
    assert_eq!(count_line_breaks("\r\r\n\n"), 3);
    assert_eq!(count_line_breaks("a\nb\rc\r\nd"), 3);
}

#[test]
fn ends_of_a_chunk() {
    assert!(last_is_cr("ab\r"));
    assert!(!last_is_cr("ab\n"));
    assert!(!last_is_cr(""));
    assert!(first_is_lf("\nab"));
    assert!(!first_is_lf("\rab"));
    assert!(!first_is_lf(""));
    assert_eq!(byte_len("h\u{e9}"), 3);
    assert_eq!(byte_len(""), 0);
}

#[test]
fn char_to_byte_of_a_chunk() {
    let s = "a\u{e9}\u{4e16}\u{1f600}z";
    assert_eq!(char_to_byte(s, 0), 0);
    assert_eq!(char_to_byte(s, 1), 1);
    assert_eq!(char_to_byte(s, 2), 3);
    assert_eq!(char_to_byte(s, 3), 6);
    assert_eq!(char_to_byte(s, 4), 10);
    assert_eq!(char_to_byte(s, 5), 11);
}

#[test]
fn line_to_byte_of_a_chunk() {
    let s = "ab\r\ncd\re\n";
    assert_eq!(line_to_byte(s, 0), 0);
    assert_eq!(line_to_byte(s, 1), 4);
    assert_eq!(line_to_byte(s, 2), 7);
    assert_eq!(line_to_byte(s, 3), 9);
    assert_eq!(line_to_byte("\r", 1), 1);
    assert_eq!(line_to_byte("", 0), 0);
}

#[test]
fn safe_cut_avoids_characters_and_crlf_pairs() {
    assert_eq!(safe_cut("abcdef", 4), 4);
    assert_eq!(safe_cut("abcdef", 0), 0);
    assert_eq!(safe_cut("abcdef", 6), 6);
    assert_eq!(safe_cut("ab\u{1f600}cd", 3), 2);
    assert_eq!(safe_cut("ab\u{1f600}cd", 5), 2);
    assert_eq!(safe_cut("ab\u{1f600}cd", 6), 6);
    assert_eq!(safe_cut("ab\r\ncd", 3), 2);
    assert_eq!(safe_cut("ab\r\ncd", 4), 4);
    assert_eq!(safe_cut("\u{e9}\r\n", 3), 2);
    assert_eq!(safe_cut("\r\n", 1), 0);
}

#[test]
fn summary_of_a_chunk() {
    let zero = Info::new();
    assert_eq!(zero.byte_count, 0);
    assert_eq!(zero.char_count, 0);
    assert_eq!(zero.line_break_count, 0);
    let info = Info::of_str("h\u{e9}\r\nx\n");
    assert_eq!(info.byte_count, 7);
    assert_eq!(info.char_count, 6);
    assert_eq!(info.line_break_count, 2);
    let sum = info.combine(Info::of_str("\u{1f600}\r"));
    assert_eq!(sum.byte_count, 12);
    assert_eq!(sum.char_count, 8);
    assert_eq!(sum.line_break_count, 3);
}

#[test]
fn round_trip_of_characters() {
    let (forward, backward) = round_trip("a\u{e9}\r\n\u{1f600}");
    assert_eq!(forward, vec!['a', '\u{e9}', '\r', '\n', '\u{1f600}']);
    assert_eq!(backward, vec!['\u{1f600}', '\n', '\r', '\u{e9}', 'a']);
    let (none, none_back) = round_trip("");
    assert!(none.is_empty());
    assert!(none_back.is_empty());
}

#[test]
fn split_and_append_give_the_text_back() {
    let text = "one\r\ntwo \u{1f600}\nthree";
    let rope = Rope::from(text);
    let mut i = 0;
    while i <= text.len() {
        if text.is_char_boundary(i) {
            let joined = split_and_append(&rope, i);
            assert_eq!(joined.to_string(), text);
            assert_eq!(joined.line_len(), 3);
            assert_eq!(joined.char_len(), 16);
        }
        i += 1;
    }
}

#[test]
fn bounds_of_the_tree() {
    assert_eq!(rope::MAX_LEAF_LEN, 1024);
    assert_eq!(rope::MIN_LEAF_LEN, 256);
    assert_eq!(rope::MIN_CHILDREN, 2);
    assert_eq!(rope::MAX_CHILDREN, 8);
}
