use rope::{Builder, Rope};

fn mixed_text(n: usize) -> String {
    let mut s = String::new();
    let mut i = 0;
    while s.len() < n {
        s.push_str(&format!("{}:\u{3b1}\u{3b2}\u{3b3} \u{1f680} tail", i));
        s.push_str(if i % 2 == 0 { "\r\n" } else { "\n" });
        i += 1;
    }
    s
}

#[test]
fn empty_slice_of_an_empty_rope() {
    let rope = Rope::from("");
    let slice = rope.slice(0..0);
    assert!(slice.is_empty());
    assert_eq!(slice.byte_len(), 0);
    assert_eq!(slice.char_len(), 0);
    assert_eq!(slice.line_len(), 1);
    let whole = rope.as_slice();
    assert_eq!(whole.byte_len(), 0);
    assert_eq!(whole.line_len(), 1);
}

#[test]
fn slice_lengths() {
    let rope = Rope::from("ab\r\nc\u{e9}d\ne");
    let slice = rope.slice(2..8);
    assert!(!slice.is_empty());
    assert_eq!(slice.byte_len(), 6);
    assert_eq!(slice.char_len(), 5);
    assert_eq!(slice.line_len(), 2);
    assert_eq!(slice.chunks().to_string(), "\r\nc\u{e9}d");
    let after_cr = rope.slice(3..10);
    assert_eq!(after_cr.chunks().to_string(), "\nc\u{e9}d\ne");
    assert_eq!(after_cr.line_len(), 3);
    assert_eq!(after_cr.char_len(), 6);
    let before_lf = rope.slice(0..3);
    assert_eq!(before_lf.line_len(), 2);
    assert_eq!(rope.as_slice().line_len(), 3);
}

#[test]
fn slices_of_a_deep_tree() {
    let text = mixed_text(120_000);
    let rope = Rope::from(text.as_str());
    let mut from = 0;
    while from < text.len() {
        let mut to = from + 4321;
        if to > text.len() {
            to = text.len();
        }
        while !text.is_char_boundary(from) {
            from += 1;
        }
        while !text.is_char_boundary(to) {
            to += 1;
        }
        let slice = rope.slice(from..to);
        assert_eq!(slice.byte_len(), to - from);
        assert_eq!(slice.char_len(), text[from..to].chars().count());
        assert_eq!(slice.chunks().to_string(), &text[from..to]);
        assert_eq!(slice.bytes().to_vec(), text[from..to].as_bytes().to_vec());
        let chars: Vec<char> = text[from..to].chars().collect();
        assert_eq!(slice.chars().to_vec(), chars);
        let chars_back: Vec<char> = text[from..to].chars().rev().collect();
        assert_eq!(slice.chars_rev().to_vec(), chars_back);
        let mut bytes_back = text[from..to].as_bytes().to_vec();
        bytes_back.reverse();
        assert_eq!(slice.bytes_rev().to_vec(), bytes_back);
        let mut parts: Vec<&str> = Vec::new();
        let mut chunks_back = slice.chunks_rev();
        loop {
            match chunks_back.next() {
                None => break,
                Some(chunk) => parts.push(chunk),
            }
        }
        parts.reverse();
        assert_eq!(parts.concat(), &text[from..to]);
        from += 9973;
    }
}

#[test]
fn chunks_are_bounded_and_join_to_the_text() {
    let text = mixed_text(100_000);
    let rope = Rope::from(text.as_str());
    let mut chunks = rope.chunks();
    let mut joined = String::new();
    let mut count = 0;
    loop {
        match chunks.next() {
            None => break,
            Some(chunk) => {
                assert!(chunk.len() >= 256);
                assert!(chunk.len() <= 1024);
                joined.push_str(chunk);
                count += 1;
            }
        }
    }
    assert!(count >= text.len() / 1024);
    assert_eq!(joined, text);
    assert_eq!(chunks.next(), None);
}

#[test]
fn chunks_never_split_a_crlf_pair() {
    let mut text = String::new();
    while text.len() < 50_000 {
        text.push_str("\r\n");
    }
    let rope = Rope::from(text.as_str());
    assert_eq!(rope.line_len(), text.len() / 2 + 1);
    let mut chunks = rope.chunks();
    loop {
        match chunks.next() {
            None => break,
            Some(chunk) => {
                assert!(chunk.starts_with("\r\n"));
                assert!(chunk.ends_with("\r\n"));
            }
        }
    }
}

#[test]
fn chunks_rev_join_to_the_text_backwards() {
    let text = mixed_text(60_000);
    let rope = Rope::from(text.as_str());
    let mut chunks = rope.chunks_rev();
    let mut parts: Vec<&str> = Vec::new();
    loop {
        match chunks.next() {
            None => break,
            Some(chunk) => parts.push(chunk),
        }
    }
    parts.reverse();
    let mut joined = String::new();
    for part in parts {
        joined.push_str(part);
    }
    assert_eq!(joined, text);
}

#[test]
fn bytes_forward_and_backward() {
    let rope = Rope::from("a\u{e9}\n");
    let mut bytes = rope.bytes();
    assert_eq!(bytes.next(), Some(0x61));
    assert_eq!(bytes.next(), Some(0xc3));
    assert_eq!(bytes.next(), Some(0xa9));
    assert_eq!(bytes.next(), Some(0x0a));
    assert_eq!(bytes.next(), None);
    assert_eq!(bytes.next(), None);
    let mut back = rope.bytes_rev();
    assert_eq!(back.next(), Some(0x0a));
    assert_eq!(back.next(), Some(0xa9));
    assert_eq!(back.next(), Some(0xc3));
    assert_eq!(back.next(), Some(0x61));
    assert_eq!(back.next(), None);
    assert_eq!(rope.bytes().to_vec(), vec![0x61, 0xc3, 0xa9, 0x0a]);
    assert_eq!(rope.bytes_rev().to_vec(), vec![0x0a, 0xa9, 0xc3, 0x61]);
}

#[test]
fn chars_forward_and_backward() {
    let rope = Rope::from("a\u{e9}\u{4e16}\u{1f600}\r\n");
    let mut chars = rope.chars();
    assert_eq!(chars.next(), Some('a'));
    assert_eq!(chars.next(), Some('\u{e9}'));
    assert_eq!(chars.next(), Some('\u{4e16}'));
    assert_eq!(chars.next(), Some('\u{1f600}'));
    assert_eq!(chars.next(), Some('\r'));
    assert_eq!(chars.next(), Some('\n'));
    assert_eq!(chars.next(), None);
    let mut back = rope.chars_rev();
    assert_eq!(back.next(), Some('\n'));
    assert_eq!(back.next(), Some('\r'));
    assert_eq!(back.next(), Some('\u{1f600}'));
    assert_eq!(back.next(), Some('\u{4e16}'));
    assert_eq!(back.next(), Some('\u{e9}'));
    assert_eq!(back.next(), Some('a'));
    assert_eq!(back.next(), None);
}

#[test]
fn iterators_of_the_empty_rope_are_empty() {
    let rope = Rope::new();
    assert_eq!(rope.chunks().next(), None);
    assert_eq!(rope.chunks_rev().next(), None);
    assert_eq!(rope.bytes().next(), None);
    assert_eq!(rope.bytes_rev().next(), None);
    assert_eq!(rope.chars().next(), None);
    assert_eq!(rope.chars_rev().next(), None);
    assert_eq!(rope.chars().to_vec(), Vec::<char>::new());
}

#[test]
fn chars_round_trip_on_a_deep_tree() {
    let text = mixed_text(80_000);
    let rope = Rope::from(text.as_str());
    let forward: Vec<char> = text.chars().collect();
    let backward: Vec<char> = text.chars().rev().collect();
    assert_eq!(rope.chars().to_vec(), forward);
    assert_eq!(rope.chars_rev().to_vec(), backward);
    assert_eq!(rope.bytes().to_vec(), text.as_bytes().to_vec());
    let mut bytes_back = text.as_bytes().to_vec();
    bytes_back.reverse();
    assert_eq!(rope.bytes_rev().to_vec(), bytes_back);
}

#[test]
fn cursor_at_the_ends() {
    let rope = Rope::from("hello");
    let mut front = rope.cursor_front();
    assert!(front.is_at_front());
    assert!(!front.is_at_back());
    assert_eq!(front.byte_position(), 0);
    assert_eq!(front.prev_chunk(), None);
    assert_eq!(front.next_chunk(), Some("hello"));
    assert!(front.is_at_back());
    assert_eq!(front.byte_position(), 5);
    assert_eq!(front.next_chunk(), None);
    let mut back = rope.cursor_back();
    assert!(back.is_at_back());
    assert_eq!(back.byte_position(), 5);
    assert_eq!(back.next_chunk(), None);
    assert_eq!(back.prev_chunk(), Some("hello"));
    assert!(back.is_at_front());
    let empty = Rope::new();
    let mut cursor = empty.cursor_front();
    assert!(cursor.is_at_front());
    assert!(cursor.is_at_back());
    assert_eq!(cursor.next_chunk(), None);
    assert_eq!(cursor.prev_chunk(), None);
}

#[test]
fn cursor_in_the_middle_reads_both_ways() {
    let rope = Rope::from("h\u{e9}llo w\u{f6}rld");
    let mut cursor = rope.cursor_at(3);
    assert_eq!(cursor.byte_position(), 3);
    assert_eq!(cursor.next_chunk(), Some("llo w\u{f6}rld"));
    assert_eq!(cursor.byte_position(), 13);
    cursor.move_to(3);
    assert_eq!(cursor.prev_chunk(), Some("h\u{e9}"));
    assert_eq!(cursor.byte_position(), 0);
    cursor.move_to(7);
    assert_eq!(cursor.byte_position(), 7);
    assert_eq!(cursor.next_chunk(), Some("w\u{f6}rld"));
}

#[test]
fn cursor_walks_a_deep_tree_in_both_directions() {
    let text = mixed_text(150_000);
    let rope = Rope::from(text.as_str());
    let mut at = 0;
    while at <= text.len() {
        while !text.is_char_boundary(at) {
            at += 1;
        }
        let mut cursor = rope.cursor_at(at);
        assert_eq!(cursor.byte_position(), at);
        let mut after = String::new();
        loop {
            match cursor.next_chunk() {
                None => break,
                Some(chunk) => after.push_str(chunk),
            }
        }
        assert!(cursor.is_at_back());
        assert_eq!(after, &text[at..]);
        cursor.move_to(at);
        let mut before: Vec<&str> = Vec::new();
        loop {
            match cursor.prev_chunk() {
                None => break,
                Some(chunk) => before.push(chunk),
            }
        }
        assert!(cursor.is_at_front());
        before.reverse();
        assert_eq!(before.concat(), &text[..at]);
        at += 20_011;
    }
}

#[test]
fn cursor_turns_around_between_leaves() {
    let text = mixed_text(10_000);
    let rope = Rope::from(text.as_str());
    let mut cursor = rope.cursor_front();
    let first = cursor.next_chunk().unwrap();
    let second = cursor.next_chunk().unwrap();
    assert_eq!(cursor.byte_position(), first.len() + second.len());
    assert_eq!(cursor.prev_chunk(), Some(second));
    assert_eq!(cursor.prev_chunk(), Some(first));
    assert_eq!(cursor.prev_chunk(), None);
    assert_eq!(cursor.next_chunk(), Some(first));
    assert_eq!(cursor.byte_position(), first.len());
}

#[test]
fn cursor_in_a_slice_stays_inside_it() {
    let text = mixed_text(20_000);
    let rope = Rope::from(text.as_str());
    let mut from = 1500;
    while !text.is_char_boundary(from) {
        from += 1;
    }
    let mut to = 9000;
    while !text.is_char_boundary(to) {
        to += 1;
    }
    let slice = rope.slice(from..to);
    let mut cursor = slice.cursor_front();
    let mut seen = String::new();
    loop {
        match cursor.next_chunk() {
            None => break,
            Some(chunk) => seen.push_str(chunk),
        }
    }
    assert_eq!(seen, &text[from..to]);
    assert_eq!(cursor.byte_position(), to - from);
    let mut back = slice.cursor_back();
    let mut parts: Vec<&str> = Vec::new();
    loop {
        match back.prev_chunk() {
            None => break,
            Some(chunk) => parts.push(chunk),
        }
    }
    parts.reverse();
    assert_eq!(parts.concat(), &text[from..to]);
    let mut mid = slice.cursor_at(0);
    assert!(mid.is_at_front());
    assert_eq!(mid.prev_chunk(), None);
}

#[test]
fn builder_without_text_builds_the_empty_rope() {
    let rope = Builder::new().build();
    assert!(rope.is_empty());
    assert_eq!(rope.line_len(), 1);
}

#[test]
fn builder_joins_pieces() {
    let mut builder = Builder::new();
    builder.push_str("one\r");
    builder.push_str("\ntwo");
    builder.push_str("");
    builder.push_str("\u{e9}");
    let rope = builder.build();
    assert_eq!(rope.to_string(), "one\r\ntwo\u{e9}");
    assert_eq!(rope.line_len(), 2);
    assert_eq!(rope.char_len(), 9);
}

#[test]
fn builder_takes_large_and_small_pieces() {
    let text = mixed_text(70_000);
    let mut builder = Builder::new();
    let mut from = 0;
    let mut step = 1;
    while from < text.len() {
        let mut to = from + (step * 7919) % 5000;
        if to > text.len() {
            to = text.len();
        }
        while !text.is_char_boundary(to) {
            to += 1;
        }
        builder.push_str(&text[from..to]);
        from = to;
        step += 1;
    }
    let rope = builder.build();
    assert_eq!(rope.to_string(), text);
    assert_eq!(rope.char_len(), text.chars().count());
    let direct = Rope::from(text.as_str());
    assert_eq!(direct.line_len(), rope.line_len());
}

#[test]
fn builder_keeps_wide_characters_whole_at_leaf_ends() {
    let mut text = String::from("x");
    while text.len() < 20_000 {
        text.push('\u{1f600}');
    }
    let rope = Rope::from(text.as_str());
    assert_eq!(rope.char_len(), text.chars().count());
    let mut chunks = rope.chunks();
    let mut total = 0;
    loop {
        match chunks.next() {
            None => break,
            Some(chunk) => {
                assert!(chunk.len() <= 1024);
                assert!(chunk.len() >= 256);
                assert!(chunk.chars().count() > 0);
                total += chunk.len();
            }
        }
    }
    assert_eq!(total, text.len());
}

#[test]
fn leaves_stay_between_the_bounds_through_edits() {
    let text = mixed_text(40_000);
    let mut rope = Rope::new();
    let mut model = String::new();
    let mut from = 0;
    let mut step = 1;
    while from < text.len() {
        let mut to = from + 1 + (step * 37) % 300;
        if to > text.len() {
            to = text.len();
        }
        while !text.is_char_boundary(to) {
            to += 1;
        }
        rope.append(Rope::from(&text[from..to]));
        model.push_str(&text[from..to]);
        from = to;
        step += 1;
    }
    let mut at = 12_345;
    while !model.is_char_boundary(at) {
        at += 1;
    }
    let tail = rope.split_off(at);
    let mut joined = tail;
    joined.append(rope);
    let expected = String::from(&model[at..]) + &model[..at];
    assert_eq!(joined.to_string(), expected);
    let mut chunks = joined.chunks();
    let mut count = 0;
    loop {
        match chunks.next() {
            None => break,
            Some(chunk) => {
                assert!(chunk.len() >= 256);
                assert!(chunk.len() <= 1024);
                count += 1;
            }
        }
    }
    assert!(count <= expected.len() / 256);
    let small = Rope::from("tiny");
    assert_eq!(small.chunks().next(), Some("tiny"));
}
