use amitxt::text::edit::EditableDocument;
use amitxt::text::{boundary_at, char_len, find_line_range, Document};

#[test]
fn char_len_matches_std_for_every_char() {
    for u in 0u32..=0x10FFFF {
        if let Some(c) = char::from_u32(u) {
            assert_eq!(char_len(c), c.len_utf8(), "width of U+{:04X}", u);
        }
    }
}

#[test]
fn len_and_emptiness() {
    assert_eq!(Document::len("héllo"), 6);
    assert!(Document::is_empty(""));
    assert!(!Document::is_empty("x"));
    assert_eq!(Document::as_slice("abc"), "abc");
}

#[test]
fn line_count_follows_str_lines() {
    for s in ["", "a", "a\n", "a\nb", "\n", "\n\n", "a\r\nb\r\n", "a\rb", "x\n\ny", "\r\n"] {
        assert_eq!(s.line_count(), s.lines().count(), "{:?}", s);
    }
    assert_eq!("".line_count(), 0);
    assert_eq!("one\ntwo\n".line_count(), 2);
    assert_eq!("one\ntwo\nthree".line_count(), 3);
}

#[test]
fn next_and_prev_char_step_over_multibyte_chars() {
    let s = "aé€😀";
    assert_eq!(s.next_char(0), 1);
    assert_eq!(s.next_char(1), 3);
    assert_eq!(s.next_char(3), 6);
    assert_eq!(s.next_char(6), 10);
    assert_eq!(s.next_char(10), 10);
    assert_eq!(s.prev_char(10), 6);
    assert_eq!(s.prev_char(6), 3);
    assert_eq!(s.prev_char(3), 1);
    assert_eq!(s.prev_char(1), 0);
    assert_eq!(s.prev_char(0), 0);
}

#[test]
fn next_then_prev_returns_to_start() {
    let s = "añ€😀b\nc";
    let mut pos = 0;
    while pos < s.len() {
        let next = s.next_char(pos);
        assert_eq!(s.prev_char(next), pos);
        assert_eq!(s.next_char(s.prev_char(next)), next);
        pos = next;
    }
}

#[test]
fn start_and_end_of_a_delimiter() {
    let s = "ab,cd,ef";
    assert_eq!(s.start_of(0, ','), 0);
    assert_eq!(s.start_of(2, ','), 0);
    assert_eq!(s.start_of(3, ','), 3);
    assert_eq!(s.start_of(8, ','), 6);
    assert_eq!(s.end_of(0, ','), 2);
    assert_eq!(s.end_of(2, ','), 2);
    assert_eq!(s.end_of(3, ','), 5);
    assert_eq!(s.end_of(6, ','), 8);
    let m = "a€b€c";
    assert_eq!(m.start_of(m.len(), '€'), 8);
    assert_eq!(m.end_of(0, '€'), 1);
}

#[test]
fn line_index_counts_newlines_before() {
    let s = "ab\ncd\n\nef";
    assert_eq!(s.line_index(0), 0);
    assert_eq!(s.line_index(2), 0);
    assert_eq!(s.line_index(3), 1);
    assert_eq!(s.line_index(6), 2);
    assert_eq!(s.line_index(7), 3);
    assert_eq!(s.line_index(s.len()), 3);
}

#[test]
fn line_start_end_and_range() {
    let s = "first\nsecond line\nthird";
    assert_eq!(s.line_start(8), 6);
    assert_eq!(s.line_end(8), 17);
    assert_eq!(s.line_start(6), 6);
    assert_eq!(s.line_end(17), 17);
    assert_eq!(s.line_start(0), 0);
    assert_eq!(s.line_end(20), s.len());
    assert_eq!(s.line_range(7..20), 6..s.len());
    let r = s.line_indices(2..20);
    assert_eq!((*r.start(), *r.end()), (0, 2));
}

#[test]
fn position_lies_within_its_line() {
    let s = "ab\r\ncd€\n\nxyz";
    let mut pos = 0;
    loop {
        let start = s.line_start(pos);
        let end = s.line_end(pos);
        assert!(start <= pos && pos <= end);
        assert!(!s[start..end].contains('\n'));
        assert_eq!(s.line_index(start), s.line_index(pos));
        if pos == s.len() {
            break;
        }
        pos = s.next_char(pos);
    }
}

#[test]
fn words_break_at_spaces_and_newlines_only() {
    let s = "one\ttwo\u{a0}three four\nfive";
    assert_eq!(s.word_start(5), 0);
    assert_eq!(s.word_end(5), 14);
    assert_eq!(s.word_start(16), 15);
    assert_eq!(s.word_end(16), 19);
    assert_eq!(s.word_start(21), 20);
    assert_eq!(s.word_end(21), s.len());
    assert_eq!(s.word_start(0), 0);
    assert_eq!(s.word_end(s.len()), s.len());
    assert_eq!("a\tb".word_start(3), 0);
    assert_eq!("a\tb".word_end(0), 3);
    assert_eq!("foo bar".word_end(1), 3);
    let mut pos = 0;
    loop {
        let a = s.word_start(pos);
        let b = s.word_end(pos);
        assert!(a <= pos && pos <= b);
        assert!(!s[a..b].contains([' ', '\n']));
        assert_eq!(a, s.start_of(pos, ' ').max(s.start_of(pos, '\n')));
        assert_eq!(b, s.end_of(pos, ' ').min(s.end_of(pos, '\n')));
        if pos == s.len() {
            break;
        }
        pos = s.next_char(pos);
    }
}

#[test]
fn find_line_clamps_to_the_last_line() {
    let s = "a\nb\nc";
    assert_eq!(s.find_line(0, 0), 0);
    assert_eq!(s.find_line(1, 1), 2);
    assert_eq!(s.find_line(7, 0), 2);
    assert_eq!(s.find_line(usize::MAX, 5), 2);
    assert_eq!("".find_line(3, 4), 0);
}

#[test]
fn find_line_slice_gives_the_line_without_its_ending() {
    let s = "alpha\r\nbeta\ngamma";
    assert_eq!(s.find_line_slice(0, 0), "alpha");
    assert_eq!(s.find_line_slice(0, 1), "beta");
    assert_eq!(s.find_line_slice(9, 0), "gamma");
    assert_eq!("".find_line_slice(0, 0), "");
    assert_eq!(find_line_range(s, 1, 0), 7..11);
    assert_eq!(find_line_range("", 0, 0), 0..0);
    assert_eq!(find_line_range("x\n", 3, 0), 0..1);
}

#[test]
fn find_pos_stops_at_the_first_reaching_character() {
    let s = "héllo";
    // the point is reached once the prefix holds three characters
    assert_eq!(s.find_pos(|p: &str| p.chars().count() >= 3), 3);
    assert_eq!(s.find_pos(|_: &str| true), 0);
    assert_eq!(s.find_pos(|_: &str| false), s.len());
    assert_eq!("".find_pos(|_: &str| true), 0);
}

#[test]
fn replace_erase_insert() {
    let mut s = String::from("hello world");
    EditableDocument::replace_range(&mut s, 0..5, "goodbye");
    assert_eq!(s, "goodbye world");
    s.erase_range(7..13);
    assert_eq!(s, "goodbye");
    s.insert_at(4, "€");
    assert_eq!(s, "good€bye");
}

#[test]
fn insert_then_erase_restores_the_text() {
    let before = "añb";
    for pos in [0, 1, 3, 4] {
        let mut s = String::from(before);
        s.insert_at(pos, "xé");
        s.erase_range(pos..pos + "xé".len());
        assert_eq!(s, before);
    }
}

#[test]
fn erase_then_insert_restores_the_text() {
    let before = "añb€c";
    let mut s = String::from(before);
    let erased = before[1..7].to_string();
    s.erase_range(1..7);
    assert_eq!(s, "ac");
    s.insert_at(1, &erased);
    assert_eq!(s, before);
}

#[test]
fn boundary_test_matches_std() {
    let s = "a€b";
    for pos in 0..=s.len() + 1 {
        assert_eq!(boundary_at(s, pos), s.is_char_boundary(pos), "{}", pos);
    }
}
