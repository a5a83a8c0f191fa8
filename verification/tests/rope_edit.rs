use rope::Rope;

fn sample_text(n: usize) -> String {
    let mut s = String::new();
    let mut i = 0;
    while s.len() < n {
        s.push_str("line ");
        s.push_str(&format!("{}", i));
        s.push_str(" h\u{e9}llo w\u{f6}rld \u{1f600}\r\n");
        i += 1;
    }
    s
}

fn count_breaks(s: &str) -> usize {
    let b = s.as_bytes();
    let mut n = 0;
    let mut i = 0;
    while i < b.len() {
        if b[i] == b'\r' || (b[i] == b'\n' && (i == 0 || b[i - 1] != b'\r')) {
            n += 1;
        }
        i += 1;
    }
    n
}

#[test]
fn append_joins_cr_and_lf() {
    let mut rope = Rope::from("x\r");
    rope.append(Rope::from("\n"));
    assert_eq!(rope.to_string(), "x\r\n");
    assert_eq!(rope.byte_len(), 3);
    assert_eq!(rope.line_len(), 2);
}

#[test]
fn append_of_cr_and_lf_alone() {
    let mut rope = Rope::from("\r");
    rope.append(Rope::from("\n"));
    assert_eq!(rope.to_string(), "\r\n");
    assert_eq!(rope.line_len(), 2);
    assert_eq!(rope.line_to_byte(1), 2);
}

#[test]
fn append_counts_a_joined_crlf_once() {
    let left = sample_text(5000) + "tail\r";
    let right = String::from("\n") + &sample_text(5000);
    let a = Rope::from(left.as_str());
    let b = Rope::from(right.as_str());
    let lines_a = a.line_len();
    let lines_b = b.line_len();
    let mut joined = a.clone();
    joined.append(b);
    assert_eq!(joined.to_string(), left.clone() + &right);
    assert_eq!(joined.line_len(), lines_a + lines_b - 2);
    assert_eq!(joined.byte_len(), left.len() + right.len());
    assert_eq!(a.to_string(), left);
}

#[test]
fn append_empty_ropes() {
    let mut rope = Rope::new();
    rope.append(Rope::new());
    assert!(rope.is_empty());
    rope.append(Rope::from("abc"));
    assert_eq!(rope.to_string(), "abc");
    rope.append(Rope::new());
    assert_eq!(rope.to_string(), "abc");
    assert_eq!(rope.byte_len(), 3);
}

#[test]
fn append_small_pieces_many_times() {
    let mut rope = Rope::new();
    let mut text = String::new();
    let mut i = 0;
    while i < 3000 {
        let piece = format!("<{}>\u{e9}\r", i);
        rope.append(Rope::from(piece.as_str()));
        text.push_str(&piece);
        if i % 2 == 0 {
            rope.append(Rope::from("\nnext"));
            text.push_str("\nnext");
        }
        i += 1;
    }
    assert_eq!(rope.to_string(), text);
    assert_eq!(rope.byte_len(), text.len());
    assert_eq!(rope.char_len(), text.chars().count());
}

#[test]
fn append_a_tall_rope_to_a_short_one_and_back() {
    let big = sample_text(300_000);
    let small = "small \u{1f600} text";
    let mut a = Rope::from(small);
    a.append(Rope::from(big.as_str()));
    assert_eq!(a.to_string(), String::from(small) + &big);
    let mut b = Rope::from(big.as_str());
    b.append(Rope::from(small));
    assert_eq!(b.to_string(), big.clone() + small);
    let mut c = Rope::from(big.as_str());
    c.append(b.clone());
    assert_eq!(c.byte_len(), 2 * big.len() + small.len());
    assert_eq!(c.to_string(), big.clone() + &big + small);
}

#[test]
fn appending_a_rope_to_itself_doubles_it() {
    let mut rope = Rope::from("ab\u{e9}\n");
    let mut text = String::from("ab\u{e9}\n");
    let mut i = 0;
    while i < 16 {
        let copy = rope.clone();
        rope.append(copy);
        text = text.clone() + &text;
        i += 1;
    }
    assert_eq!(rope.byte_len(), text.len());
    assert_eq!(rope.line_len(), 65536 + 1);
    assert_eq!(rope.to_string(), text);
}

#[test]
fn split_off_at_zero_returns_everything() {
    let mut rope = Rope::from("hello\nworld");
    let tail = rope.split_off(0);
    assert!(rope.is_empty());
    assert_eq!(rope.line_len(), 1);
    assert_eq!(tail.to_string(), "hello\nworld");
}

#[test]
fn split_off_at_the_end_returns_nothing() {
    let mut rope = Rope::from("hello\nworld");
    let tail = rope.split_off(11);
    assert!(tail.is_empty());
    assert_eq!(tail.byte_len(), 0);
    assert_eq!(rope.to_string(), "hello\nworld");
    assert_eq!(rope.line_len(), 2);
}

#[test]
fn split_off_inside_a_crlf_pair() {
    let mut rope = Rope::from("ab\r\ncd");
    let tail = rope.split_off(3);
    assert_eq!(rope.to_string(), "ab\r");
    assert_eq!(tail.to_string(), "\ncd");
    assert_eq!(rope.line_len(), 2);
    assert_eq!(tail.line_len(), 2);
    rope.append(tail);
    assert_eq!(rope.to_string(), "ab\r\ncd");
    assert_eq!(rope.line_len(), 2);
}

#[test]
fn split_and_append_restore_a_deep_tree() {
    let text = sample_text(200_000);
    let rope = Rope::from(text.as_str());
    assert_eq!(rope.to_string(), text);
    let mut i = 0;
    while i < text.len() {
        if rope.is_char_boundary(i) {
            let mut a = rope.clone();
            let b = a.split_off(i);
            assert_eq!(a.to_string(), &text[..i]);
            assert_eq!(b.to_string(), &text[i..]);
            assert_eq!(a.char_len(), text[..i].chars().count());
            assert_eq!(b.char_len(), text[i..].chars().count());
            a.append(b);
            assert_eq!(a.to_string(), text);
            assert_eq!(a.char_len(), rope.char_len());
            assert_eq!(a.line_len(), rope.line_len());
        }
        i += 997;
    }
    assert_eq!(rope.to_string(), text);
}

#[test]
fn a_clone_keeps_its_text_when_the_rope_changes() {
    let text = sample_text(20_000);
    let mut rope = Rope::from(text.as_str());
    let snapshot = rope.clone();
    rope.truncate_back(5);
    rope.append(Rope::from(" changed"));
    assert_eq!(rope.to_string(), "line  changed");
    assert_eq!(snapshot.to_string(), text);
    assert_eq!(snapshot.byte_len(), text.len());
}

#[test]
fn truncate_front_cases() {
    let mut rope = Rope::from("h\u{e9}llo\nworld");
    rope.truncate_front(0);
    assert_eq!(rope.to_string(), "h\u{e9}llo\nworld");
    rope.truncate_front(3);
    assert_eq!(rope.to_string(), "llo\nworld");
    assert_eq!(rope.char_len(), 9);
    assert_eq!(rope.line_len(), 2);
    rope.truncate_front(9);
    assert!(rope.is_empty());
    assert_eq!(rope.line_len(), 1);
}

#[test]
fn truncate_back_cases() {
    let mut rope = Rope::from("h\u{e9}llo\nworld");
    rope.truncate_back(12);
    assert_eq!(rope.to_string(), "h\u{e9}llo\nworld");
    rope.truncate_back(7);
    assert_eq!(rope.to_string(), "h\u{e9}llo\n");
    assert_eq!(rope.line_len(), 2);
    rope.truncate_back(3);
    assert_eq!(rope.to_string(), "h\u{e9}");
    assert_eq!(rope.char_len(), 2);
    rope.truncate_back(0);
    assert!(rope.is_empty());
}

#[test]
fn truncate_a_deep_tree_from_both_ends() {
    let text = sample_text(150_000);
    let mut rope = Rope::from(text.as_str());
    let mut from = 0;
    let mut to = text.len();
    let mut step = 1;
    while from + 4000 < to {
        let mut cut = 1537 * step % 1900 + 1;
        while !text.is_char_boundary(to - cut) {
            cut += 1;
        }
        rope.truncate_back(to - from - cut);
        to -= cut;
        let mut skip = 911 * step % 1900 + 1;
        while !text.is_char_boundary(from + skip) {
            skip += 1;
        }
        rope.truncate_front(skip);
        from += skip;
        assert_eq!(rope.byte_len(), to - from);
        if step % 16 == 0 {
            assert_eq!(rope.to_string(), &text[from..to]);
            assert_eq!(rope.char_len(), text[from..to].chars().count());
        }
        step += 1;
    }
    assert_eq!(rope.to_string(), &text[from..to]);
}

#[test]
fn edits_follow_a_string_model() {
    let mut seed: u64 = 0x2545f4914f6cdd1d;
    let mut rope = Rope::new();
    let mut model = String::new();
    let words = ["alpha", "\r", "\n", "\r\n", "\u{e9}t\u{e9}", "\u{1f600}", " ", "omega\n\n", "x"];
    let mut round = 0;
    while round < 4000 {
        seed ^= seed << 13;
        seed ^= seed >> 7;
        seed ^= seed << 17;
        let pick = (seed % 9) as usize;
        let action = (seed >> 8) % 8;
        if action < 4 {
            rope.append(Rope::from(words[pick]));
            model.push_str(words[pick]);
        } else if action == 4 {
            let mut copy = Rope::from(words[pick]);
            copy.append(rope);
            rope = copy;
            model = String::from(words[pick]) + &model;
        } else if model.len() > 0 {
            let mut at = ((seed >> 16) as usize) % (model.len() + 1);
            while !model.is_char_boundary(at) {
                at -= 1;
            }
            if action == 5 {
                let tail = rope.split_off(at);
                let mut joined = tail;
                joined.append(rope);
                rope = joined;
                model = String::from(&model[at..]) + &model[..at];
            } else if action == 6 && model.len() > 3000 {
                rope.truncate_front(at);
                model = String::from(&model[at..]);
            } else if action == 7 && model.len() > 3000 {
                rope.truncate_back(at);
                model.truncate(at);
            }
        }
        assert_eq!(rope.byte_len(), model.len());
        if round % 50 == 0 {
            assert_eq!(rope.to_string(), model);
            assert_eq!(rope.char_len(), model.chars().count());
            assert_eq!(rope.line_len(), count_breaks(&model) + 1);
        }
        round += 1;
    }
    assert_eq!(rope.to_string(), model);
    assert_eq!(rope.char_len(), model.chars().count());
    assert_eq!(rope.line_len(), count_breaks(&model) + 1);
}

fn shareable<T: Send + Sync + Clone>(_value: &T) -> bool {
    true
}

#[test]
fn ropes_can_be_shared_between_readers() {
    let rope = Rope::from("snapshot");
    assert!(shareable(&rope));
    let first = rope.clone();
    let second = rope.clone();
    assert_eq!(first.to_string(), "snapshot");
    assert_eq!(second.to_string(), "snapshot");
    assert_eq!(first.byte_len(), second.byte_len());
}
