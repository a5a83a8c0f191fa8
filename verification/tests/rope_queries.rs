use rope::Rope;

#[test]
fn new_rope_is_empty() {
    let rope = Rope::new();
    assert!(rope.is_empty());
    assert_eq!(rope.byte_len(), 0);
    assert_eq!(rope.char_len(), 0);
    assert_eq!(rope.line_len(), 1);
    assert_eq!(rope.to_string(), "");
}

#[test]
fn rope_from_empty_string_is_empty() {
    let rope = Rope::from("");
    assert!(rope.is_empty());
    assert_eq!(rope.byte_len(), 0);
    assert_eq!(rope.char_len(), 0);
    assert_eq!(rope.line_len(), 1);
}

#[test]
fn rope_from_string_values() {
    let owned = String::from("one\ntwo");
    let by_ref = Rope::from(&owned);
    assert_eq!(by_ref.to_string(), "one\ntwo");
    let by_value = Rope::from(owned);
    assert_eq!(by_value.to_string(), "one\ntwo");
    assert_eq!(by_value.line_len(), 2);
}

#[test]
fn crlf_counts_in_a_small_text() {
    let rope = Rope::from("ab\r\ncd");
    assert!(!rope.is_empty());
    assert_eq!(rope.byte_len(), 6);
    assert_eq!(rope.char_len(), 6);
    assert_eq!(rope.line_len(), 2);
    assert_eq!(rope.line_to_byte(0), 0);
    assert_eq!(rope.line_to_byte(1), 4);
    assert_eq!(rope.byte_to_char(4), 4);
}

#[test]
fn byte_to_line_counts_lines_of_the_prefix() {
    let rope = Rope::from("ab\r\ncd");
    assert_eq!(rope.byte_to_line(0), 1);
    assert_eq!(rope.byte_to_line(2), 1);
    assert_eq!(rope.byte_to_line(3), 2);
    assert_eq!(rope.byte_to_line(4), 2);
    assert_eq!(rope.byte_to_line(6), 2);
}

#[test]
fn line_terminators_lf_cr_and_crlf() {
    let rope = Rope::from("a\rb\nc\r\nd");
    assert_eq!(rope.line_len(), 4);
    assert_eq!(rope.line_to_byte(0), 0);
    assert_eq!(rope.line_to_byte(1), 2);
    assert_eq!(rope.line_to_byte(2), 4);
    assert_eq!(rope.line_to_byte(3), 7);
    let only_breaks = Rope::from("\n\n\r\r\r\n\n");
    assert_eq!(only_breaks.line_len(), 7);
    assert_eq!(only_breaks.line_to_byte(6), 7);
    let lf_cr = Rope::from("\n\r");
    assert_eq!(lf_cr.line_len(), 3);
}

#[test]
fn multi_byte_coordinates() {
    let rope = Rope::from("h\u{e9}llo \u{1f600}!");
    assert_eq!(rope.byte_len(), 12);
    assert_eq!(rope.char_len(), 8);
    assert_eq!(rope.byte_to_char(0), 0);
    assert_eq!(rope.byte_to_char(1), 1);
    assert_eq!(rope.byte_to_char(3), 2);
    assert_eq!(rope.byte_to_char(7), 6);
    assert_eq!(rope.byte_to_char(11), 7);
    assert_eq!(rope.byte_to_char(12), 8);
    assert_eq!(rope.char_to_byte(0), 0);
    assert_eq!(rope.char_to_byte(1), 1);
    assert_eq!(rope.char_to_byte(2), 3);
    assert_eq!(rope.char_to_byte(6), 7);
    assert_eq!(rope.char_to_byte(7), 11);
    assert_eq!(rope.char_to_byte(8), 12);
}

#[test]
fn char_boundaries() {
    let rope = Rope::from("h\u{e9}\u{1f600}");
    assert!(rope.is_char_boundary(0));
    assert!(rope.is_char_boundary(1));
    assert!(!rope.is_char_boundary(2));
    assert!(rope.is_char_boundary(3));
    assert!(!rope.is_char_boundary(4));
    assert!(!rope.is_char_boundary(5));
    assert!(!rope.is_char_boundary(6));
    assert!(rope.is_char_boundary(7));
    assert!(!rope.is_char_boundary(8));
}

fn sample(lines: usize) -> String {
    let mut s = String::new();
    let mut i = 0;
    while i < lines {
        s.push_str(&format!("{} gr\u{fc}\u{df}e \u{4e16}\u{754c} \u{1f600}", i));
        if i % 3 == 0 {
            s.push_str("\r\n");
        } else if i % 3 == 1 {
            s.push('\n');
        } else {
            s.push('\r');
        }
        i += 1;
    }
    s
}

fn line_breaks(s: &str) -> usize {
    let b = s.as_bytes();
    let mut n = 0;
    let mut i = 0;
    while i < b.len() {
        if b[i] == b'\r' || (b[i] == b'\n' && (i == 0 || b[i - 1] != b'\r')) {
            n += 1;
        }
        i += 1;
    }
    n
}

#[test]
fn coordinates_agree_with_the_text_on_a_deep_tree() {
    let text = sample(6000);
    let rope = Rope::from(text.as_str());
    assert_eq!(rope.byte_len(), text.len());
    assert_eq!(rope.char_len(), text.chars().count());
    assert_eq!(rope.line_len(), line_breaks(&text) + 1);
    let mut i = 0;
    while i <= text.len() {
        assert_eq!(rope.is_char_boundary(i), text.is_char_boundary(i));
        if text.is_char_boundary(i) {
            let chars = text[..i].chars().count();
            assert_eq!(rope.byte_to_char(i), chars);
            assert_eq!(rope.char_to_byte(chars), i);
            assert_eq!(rope.byte_to_line(i), line_breaks(&text[..i]) + 1);
        }
        i += 311;
    }
}

#[test]
fn line_starts_agree_with_the_text_on_a_deep_tree() {
    let text = sample(3000);
    let rope = Rope::from(text.as_str());
    let bytes = text.as_bytes();
    let mut starts = vec![0usize];
    let mut i = 0;
    while i < bytes.len() {
        if bytes[i] == b'\n' || (bytes[i] == b'\r' && (i + 1 == bytes.len() || bytes[i + 1] != b'\n')) {
            starts.push(i + 1);
        }
        i += 1;
    }
    assert_eq!(rope.line_len(), starts.len());
    let mut line = 0;
    while line < starts.len() {
        assert_eq!(rope.line_to_byte(line), starts[line]);
        line += 7;
    }
    assert_eq!(rope.line_to_byte(starts.len() - 1), starts[starts.len() - 1]);
}

#[test]
fn coordinates_are_monotonic() {
    let text = sample(500);
    let rope = Rope::from(text.as_str());
    let mut last_char = 0;
    let mut last_line = 0;
    let mut i = 0;
    while i <= text.len() {
        if rope.is_char_boundary(i) {
            let c = rope.byte_to_char(i);
            let l = rope.byte_to_line(i);
            assert!(last_char <= c);
            assert!(last_line <= l);
            last_char = c;
            last_line = l;
        }
        i += 1;
    }
}
