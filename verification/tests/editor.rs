use amitxt::editor::{TextEditor, Tick};
use amitxt::input::rep::KeyRepeater;
use amitxt::input::KeyInput;
use amitxt::select::Selection;
use std::time::Duration;

fn editor_with(text: &str, head: usize, tail: usize) -> TextEditor<String> {
    let mut ed = TextEditor::new(600, 10, KeyRepeater::new(Duration::from_millis(500), Duration::from_millis(200)));
    ed.content = String::from(text);
    ed.selection = Selection { head, tail };
    ed
}

fn keys_only(shift: bool, ctrl: bool) -> Tick {
    Tick { is_shifting: shift, is_ctrling: ctrl, mouse_down: false, mouse_pressed: false, mouse_row: 0, wheel: 0 }
}

fn caret(p: usize) -> Selection {
    Selection { head: p, tail: p }
}

#[test]
fn new_editor_is_blank() {
    let ed = TextEditor::new(7, 3, KeyRepeater::default());
    assert_eq!(ed.content, "");
    assert_eq!(ed.scroll, 0);
    assert_eq!(ed.selection, caret(0));
    assert_eq!(ed.fittable_lines(), 3);
    assert_eq!(ed.wrap, 7);
    let d: TextEditor<String> = Default::default();
    assert_eq!(d.content, "");
    assert_eq!(d.fittable_lines(), 0);
    assert_eq!(d.key_repeat.start_delay, Duration::ZERO);
    assert_eq!(d.key_repeat.period_nanos(), 0);
}

#[test]
fn typing_inserts_at_the_cursor() {
    let mut ed = editor_with("", 0, 0);
    for c in "hé!".chars() {
        ed.apply_input(KeyInput::Char(c), false, false);
    }
    assert_eq!(ed.content, "hé!");
    assert_eq!(ed.selection, caret(4));
    ed.apply_input(KeyInput::Char('\n'), false, false);
    assert_eq!(ed.content, "hé!\n");
}

#[test]
fn typing_replaces_a_backward_selection() {
    let mut ed = editor_with("abcdef", 4, 1);
    ed.apply_input(KeyInput::Char('X'), false, false);
    assert_eq!(ed.content, "aXef");
    assert_eq!(ed.selection, caret(2));
}

#[test]
fn typing_over_a_forward_selection_puts_the_caret_after_the_character() {
    let mut ed = editor_with("abcdef", 1, 4);
    ed.apply_input(KeyInput::Char('x'), false, false);
    assert_eq!(ed.content, "axef");
    assert_eq!(ed.selection, caret(2));
    let mut all = editor_with("abc", 0, 3);
    all.apply_input(KeyInput::Char('€'), false, false);
    assert_eq!(all.content, "€");
    assert_eq!(all.selection, caret(3));
    assert!(all.selection_valid());
}

#[test]
fn backspace_over_a_forward_selection_leaves_the_caret_where_it_began() {
    let mut ed = editor_with("abcdef", 1, 4);
    ed.apply_input(KeyInput::Backspace, false, false);
    assert_eq!(ed.content, "aef");
    assert_eq!(ed.selection, caret(1));
    let mut back = editor_with("abcdef", 4, 1);
    back.apply_input(KeyInput::Backspace, false, false);
    assert_eq!(back.content, "aef");
    assert_eq!(back.selection, caret(1));
}

#[test]
fn type_then_backspace_restores() {
    for (text, pos) in [("", 0), ("ab", 1), ("a€b", 4), ("x", 1)] {
        for c in ['q', 'ñ', '€', '😀'] {
            let mut ed = editor_with(text, pos, pos);
            ed.apply_input(KeyInput::Char(c), false, false);
            ed.apply_input(KeyInput::Backspace, false, false);
            assert_eq!(ed.content, text);
            assert_eq!(ed.selection, caret(pos));
        }
    }
}

#[test]
fn backspace_and_delete() {
    let mut ed = editor_with("a€b", 4, 4);
    ed.apply_input(KeyInput::Backspace, false, false);
    assert_eq!(ed.content, "ab");
    assert_eq!(ed.selection, caret(1));
    ed.apply_input(KeyInput::Delete, false, false);
    assert_eq!(ed.content, "a");
    assert_eq!(ed.selection, caret(1));
    ed.apply_input(KeyInput::Delete, false, false);
    assert_eq!(ed.content, "a");
    assert_eq!(ed.selection, caret(1));
    let mut at_start = editor_with("ab", 0, 0);
    at_start.apply_input(KeyInput::Backspace, false, false);
    assert_eq!(at_start.content, "ab");
    assert_eq!(at_start.selection, caret(0));
}

#[test]
fn delete_a_forward_selection() {
    let mut ed = editor_with("abcdef", 1, 4);
    ed.apply_input(KeyInput::Delete, false, false);
    assert_eq!(ed.content, "aef");
    assert_eq!(ed.selection, caret(1));
}

#[test]
fn delete_a_backward_selection_leaves_the_caret_where_it_began() {
    let mut ed = editor_with("abcdef", 4, 1);
    ed.apply_input(KeyInput::Delete, false, false);
    assert_eq!(ed.content, "aef");
    assert_eq!(ed.selection, caret(1));
    // clamping the head to the new length would land inside the euro sign
    let mut wide = editor_with("ab€cd€", 5, 2);
    wide.apply_input(KeyInput::Delete, false, false);
    assert_eq!(wide.content, "abcd€");
    assert_eq!(wide.selection, caret(2));
    assert!(wide.selection_valid());
    assert!(!wide.content.is_char_boundary(5));
}

#[test]
fn every_key_keeps_the_selection_on_boundaries() {
    let text = "a€ b\nc d";
    let keys = [
        KeyInput::Char('x'),
        KeyInput::Char('é'),
        KeyInput::Backspace,
        KeyInput::Delete,
        KeyInput::Left,
        KeyInput::Right,
        KeyInput::Up,
        KeyInput::Down,
        KeyInput::Home,
        KeyInput::End,
    ];
    let bounds: Vec<usize> = (0..=text.len()).filter(|&p| text.is_char_boundary(p)).collect();
    for &head in &bounds {
        for &tail in &bounds {
            for key in keys {
                for shift in [false, true] {
                    for ctrl in [false, true] {
                        let mut ed = editor_with(text, head, tail);
                        assert!(ed.can_apply(key, shift, ctrl));
                        ed.apply_input(key, shift, ctrl);
                        assert!(ed.selection_valid(), "{:?} {} {} {} {}", key, head, tail, shift, ctrl);
                    }
                }
            }
        }
    }
}

#[test]
fn arrows_move_by_char_and_word() {
    let mut ed = editor_with("one two three", 5, 5);
    ed.apply_input(KeyInput::Left, false, false);
    assert_eq!(ed.selection, caret(4));
    ed.apply_input(KeyInput::Right, false, false);
    assert_eq!(ed.selection, caret(5));
    ed.apply_input(KeyInput::Right, false, true);
    assert_eq!(ed.selection, caret(7));
    ed.apply_input(KeyInput::Left, false, true);
    assert_eq!(ed.selection, caret(4));
    let mut tab = editor_with("a\tb c", 0, 0);
    tab.apply_input(KeyInput::Right, false, true);
    assert_eq!(tab.selection, caret(3));
    tab.apply_input(KeyInput::End, false, false);
    tab.apply_input(KeyInput::Left, false, true);
    assert_eq!(tab.selection, caret(4));
    ed.apply_input(KeyInput::Right, true, false);
    assert_eq!(ed.selection, Selection { head: 4, tail: 5 });
    ed.apply_input(KeyInput::Left, false, false);
    assert_eq!(ed.selection, caret(4));
    let mut sel = editor_with("abcdef", 2, 5);
    sel.apply_input(KeyInput::Right, false, false);
    assert_eq!(sel.selection, caret(5));
    let mut sel = editor_with("abcdef", 2, 5);
    sel.apply_input(KeyInput::Left, false, false);
    assert_eq!(sel.selection, caret(2));
}

#[test]
fn up_down_home_end() {
    let text = "ab\ncde\nf";
    let mut ed = editor_with(text, 5, 5);
    ed.apply_input(KeyInput::Up, false, false);
    assert_eq!(ed.selection, caret(2));
    let mut ed = editor_with(text, 4, 4);
    ed.apply_input(KeyInput::Down, false, false);
    assert_eq!(ed.selection, caret(7));
    let mut ed = editor_with(text, 5, 5);
    ed.apply_input(KeyInput::Home, false, false);
    assert_eq!(ed.selection, caret(3));
    ed.apply_input(KeyInput::End, false, false);
    assert_eq!(ed.selection, caret(6));
    ed.apply_input(KeyInput::Home, false, true);
    assert_eq!(ed.selection, caret(0));
    ed.apply_input(KeyInput::End, true, true);
    assert_eq!(ed.selection, Selection { head: 0, tail: text.len() });
}

#[test]
fn moves_never_change_the_text() {
    let text = "ab €\ncd";
    for key in [KeyInput::Left, KeyInput::Right, KeyInput::Up, KeyInput::Down, KeyInput::Home, KeyInput::End] {
        for shift in [false, true] {
            for ctrl in [false, true] {
                let mut ed = editor_with(text, 3, 3);
                ed.apply_input(key, shift, ctrl);
                assert_eq!(ed.content, text);
                assert!(ed.selection_valid());
            }
        }
    }
}

#[test]
fn can_apply_rejects_positions_off_character_boundaries() {
    let ed = editor_with("a€b", 2, 2);
    assert!(!ed.can_apply(KeyInput::Left, false, false));
    assert!(!ed.can_apply(KeyInput::Char('x'), false, false));
    assert!(ed.can_apply(KeyInput::Home, false, true));
    assert!(ed.can_apply(KeyInput::End, false, true));
    let ok = editor_with("a€b", 1, 1);
    assert!(ok.can_apply(KeyInput::Left, false, false));
}

#[test]
fn update_applies_keys_and_scrolls() {
    let mut ed = editor_with("a\nb\nc\nd", 0, 0);
    let mut tick = keys_only(false, false);
    tick.wheel = -2;
    assert_eq!(ed.update(&tick, vec![KeyInput::Char('x'), KeyInput::Right], |_: &str| true), Ok(()));
    assert_eq!(ed.content, "xa\nb\nc\nd");
    assert_eq!(ed.selection, caret(2));
    assert_eq!(ed.scroll, 2);
    tick.wheel = -10;
    assert_eq!(ed.update(&tick, vec![], |_: &str| true), Ok(()));
    assert_eq!(ed.scroll, 4);
    tick.wheel = 3;
    assert_eq!(ed.update(&tick, vec![], |_: &str| true), Ok(()));
    assert_eq!(ed.scroll, 1);
    tick.wheel = isize::MAX;
    assert_eq!(ed.update(&tick, vec![], |_: &str| true), Ok(()));
    assert_eq!(ed.scroll, 0);
}

#[test]
fn update_stops_at_the_first_key_that_cannot_apply() {
    let mut ed = editor_with("a€b", 2, 2);
    let tick = keys_only(false, false);
    let r = ed.update(&tick, vec![KeyInput::Char('x'), KeyInput::Left], |_: &str| true);
    assert_eq!(r, Err(0));
    assert_eq!(ed.content, "a€b");
    assert_eq!(ed.scroll, 0);
}

#[test]
fn update_types_over_a_selection() {
    let mut ed = editor_with("abcdef", 1, 4);
    let tick = keys_only(false, false);
    assert_eq!(ed.update(&tick, vec![KeyInput::Char('x')], |_: &str| true), Ok(()));
    assert_eq!(ed.content, "axef");
    assert_eq!(ed.selection, caret(2));
    assert_eq!(ed.scroll, 0);
    let mut ed = editor_with("abcdef", 1, 4);
    assert_eq!(ed.update(&tick, vec![KeyInput::Backspace], |_: &str| true), Ok(()));
    assert_eq!(ed.content, "aef");
    assert_eq!(ed.selection, caret(1));
    let mut ed = editor_with("abcdef", 4, 1);
    assert_eq!(ed.update(&tick, vec![KeyInput::Delete], |_: &str| true), Ok(()));
    assert_eq!(ed.content, "aef");
    assert_eq!(ed.selection, caret(1));
}

#[test]
fn clicking_places_the_cursor_in_the_line_under_the_mouse() {
    let mut ed = editor_with("first\nsecond\nthird", 0, 0);
    let tick = Tick { is_shifting: false, is_ctrling: false, mouse_down: true, mouse_pressed: true, mouse_row: 1, wheel: 0 };
    // the point is reached after three characters of the line
    assert_eq!(ed.update(&tick, vec![], |p: &str| p.chars().count() >= 3), Ok(()));
    assert_eq!(ed.selection, caret(8));
    let drag = Tick { mouse_pressed: false, mouse_row: 2, ..tick };
    assert_eq!(ed.update(&drag, vec![], |_: &str| false), Ok(()));
    assert_eq!(ed.selection, Selection { head: 8, tail: 18 });
    let shifted = Tick { is_shifting: true, mouse_row: 0, ..tick };
    assert_eq!(ed.update(&shifted, vec![], |_: &str| true), Ok(()));
    assert_eq!(ed.selection, Selection { head: 8, tail: 0 });
}

#[test]
fn ranged_lines_gives_ranges_and_text() {
    let ed = editor_with("ab\r\n\ncd€", 0, 0);
    let lines = ed.ranged_lines();
    assert_eq!(lines.len(), 3);
    assert_eq!(lines[0], (0..2, "ab"));
    assert_eq!(lines[1], (4..4, ""));
    assert_eq!(lines[2], (5..10, "cd€"));
}

#[test]
fn shown_lines_scrolls_clips_and_highlights() {
    let mut ed = editor_with("one\ntwo\nthree\nfour", 5, 10);
    ed.scroll = 1;
    ed.fittable_lines = 2;
    let shown = ed.shown_lines();
    assert_eq!(shown.len(), 2);
    assert_eq!(shown[0].line, 1);
    assert_eq!(shown[0].text, "two");
    assert_eq!(shown[0].range, 4..7);
    assert_eq!(shown[0].highlight, Some((1, 3)));
    assert_eq!(shown[1].line, 2);
    assert_eq!(shown[1].text, "three");
    assert_eq!(shown[1].highlight, Some((0, 2)));
    ed.selection = Selection { head: 0, tail: 0 };
    let shown = ed.shown_lines();
    assert_eq!(shown[0].highlight, None);
    ed.scroll = 9;
    assert_eq!(ed.shown_lines().len(), 0);
}
