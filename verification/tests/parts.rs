use amitxt::input::rep::{repeat_due, repeat_key, KeyRepeater};
use amitxt::input::KeyInput;
use amitxt::oil::{Oil, Unload};
use amitxt::select::Selection;
use amitxt::text::wrap::{WrapLine, WrappedLines, WrappedLinesExt};
use std::ops::Range;
use std::time::Duration;

#[test]
fn selection_ends_length_and_range() {
    let s = Selection { head: 7, tail: 3 };
    assert_eq!(*s.start(), 3);
    assert_eq!(*s.end(), 7);
    assert_eq!(s.len(), 4);
    assert!(!s.is_empty());
    assert_eq!(s.range(), 3..7);
    assert_eq!(Range::from(s), 3..7);
    assert_eq!(s.into_iter().collect::<Vec<_>>(), vec![3, 4, 5, 6]);
    assert!(s.contains(&3));
    assert!(!s.contains(&7));
    let e = Selection { head: 2, tail: 2 };
    assert!(e.is_empty());
    assert_eq!(e.len(), 0);
    assert_eq!(e.range(), 2..2);
    assert!(!e.contains(&2));
    assert_eq!(&"héllo"[Selection { head: 3, tail: 1 }], "é");
    assert_eq!(&"héllo"[Selection { head: 3, tail: 3 }], "");
}

#[test]
fn repeater_press_release() {
    let mut r = KeyRepeater::new(Duration::from_millis(500), Duration::from_millis(200));
    assert!(r.input.is_none());
    r.press(KeyInput::Left);
    assert_eq!(r.input.map(|(k, _)| k), Some(KeyInput::Left));
    r.release(&KeyInput::Right);
    assert_eq!(r.input.map(|(k, _)| k), Some(KeyInput::Left));
    r.release(&KeyInput::Left);
    assert!(r.input.is_none());
    let d = KeyRepeater::default();
    assert!(d.input.is_none());
    assert_eq!(d.period, Duration::ZERO);
}

#[test]
fn repeater_repeats_nothing_before_it_is_due() {
    let mut r = KeyRepeater::new(Duration::from_secs(3600), Duration::from_millis(1));
    assert_eq!(r.check_repeat(), None);
    r.press(KeyInput::Char('a'));
    assert_eq!(r.check_repeat(), None);
    let held = r.check_repeat();
    assert!(held.is_none() || held == Some(KeyInput::Char('a')));
}

#[test]
fn repeat_due_on_whole_periods() {
    assert!(repeat_due(Some(0), 5));
    assert!(repeat_due(Some(10), 5));
    assert!(!repeat_due(Some(11), 5));
    assert!(!repeat_due(None, 5));
    assert!(!repeat_due(None, 0));
}

#[test]
fn repeat_key_gives_the_key_on_whole_periods() {
    let k = KeyInput::Left;
    assert_eq!(repeat_key(k, Some(0), 5), Some(k));
    assert_eq!(repeat_key(k, Some(10), 5), Some(k));
    assert_eq!(repeat_key(k, Some(11), 5), None);
    assert_eq!(repeat_key(k, None, 5), None);
    let r = KeyRepeater::new(Duration::from_millis(500), Duration::from_millis(200));
    assert_eq!(r.period_nanos(), 200_000_000);
}

struct Handle(u32);

impl Unload<&mut Vec<u32>> for Handle {
    type Error = String;

    fn unload(self, freed: &mut Vec<u32>) -> Result<(), String> {
        if self.0 == 0 {
            Err(String::from("null handle"))
        } else {
            freed.push(self.0);
            Ok(())
        }
    }
}

#[test]
fn oil_unloads_only_weak_values_through_their_unloader() {
    let mut freed = Vec::new();
    let strong: Oil<Handle, Handle> = Oil::Strong(Handle(1));
    assert_eq!(strong.unload(&mut freed), Ok(()));
    assert!(freed.is_empty());
    let weak: Oil<Handle, Handle> = Oil::Weak(Handle(2));
    assert_eq!(weak.unload(&mut freed), Ok(()));
    assert_eq!(freed, vec![2]);
    let bad: Oil<Handle, Handle> = Oil::Weak(Handle(0));
    assert_eq!(bad.unload(&mut freed), Err(String::from("null handle")));
}

#[test]
fn oil_default_is_weak_and_derefs_to_either() {
    let d: Oil<Box<u8>, Box<u8>> = Default::default();
    assert!(matches!(d, Oil::Weak(_)));
    assert_eq!(*d, 0);
    let mut s: Oil<Box<u8>, Box<u8>> = Oil::Strong(Box::new(5));
    *s += 1;
    assert_eq!(*s, 6);
}

fn wider_than(n: usize) -> impl Fn(&str) -> bool {
    move |p: &str| p.chars().count() > n
}

/// A font ten pixels wide per character, wrapping at `width` pixels.
fn wider_than_px(width: usize) -> impl Fn(&str) -> bool {
    move |p: &str| 10 * p.chars().count() > width
}

#[test]
fn wrapping_breaks_at_the_last_space() {
    let mut w = "the quick brown fox".wrapped_lines();
    assert_eq!(w.next(wider_than(10)), Some("the quick"));
    assert_eq!(w.next(wider_than(10)), Some("brown fox"));
    assert_eq!(w.next(wider_than(10)), None);
}

#[test]
fn wrapping_goes_line_by_line() {
    let mut w = "ab\ncd\n\nef".wrapped_lines();
    assert_eq!(w.next(wider_than(10)), Some("ab"));
    assert_eq!(w.next(wider_than(10)), Some("cd"));
    assert_eq!(w.next(wider_than(10)), Some(""));
    assert_eq!(w.next(wider_than(10)), Some("ef"));
    assert_eq!(w.next(wider_than(10)), None);
}

#[test]
fn wrapping_a_long_word_goes_by_character() {
    let mut w = WrappedLines::new(vec!["abcdefgh"]);
    assert_eq!(w.next(wider_than_px(35)), Some("abc"));
    assert_eq!(w.next(wider_than_px(35)), Some("def"));
    assert_eq!(w.next(wider_than_px(35)), Some("gh"));
    assert_eq!(w.next(wider_than_px(35)), None);
}

#[test]
fn wrapping_measures_the_whole_line() {
    let mut w = WrappedLines::new(vec!["ab cd"]);
    assert_eq!(w.next(wider_than_px(45)), Some("ab"));
    assert_eq!(w.next(wider_than_px(45)), Some("cd"));
    assert_eq!(w.next(wider_than_px(45)), None);
    let mut fits = WrappedLines::new(vec!["ab cd"]);
    assert_eq!(fits.next(wider_than_px(50)), Some("ab cd"));
    assert_eq!(fits.next(wider_than_px(50)), None);
}

#[test]
fn wrapping_keeps_multibyte_characters_whole() {
    let mut w = WrappedLines::new(vec!["ab€cd"]);
    assert_eq!(w.next(wider_than(2)), Some("ab"));
    assert_eq!(w.next(wider_than(2)), Some("€c"));
    assert_eq!(w.next(wider_than(2)), Some("d"));
    assert_eq!(w.next(wider_than(2)), None);
    let mut one = WrappedLines::new(vec!["€x"]);
    assert_eq!(one.next(wider_than(0)), Some("€"));
    assert_eq!(one.next(wider_than(0)), Some("x"));
    assert_eq!(one.next(wider_than(0)), None);
}

#[test]
fn wrap_line_breaks_at_the_start_of_the_overflowing_word() {
    let mut w = WrapLine::new("hello world");
    assert_eq!(w.next(wider_than_px(75)), Some("hello"));
    assert_eq!(w.next(wider_than_px(75)), Some("world"));
    assert_eq!(w.next(wider_than_px(75)), None);
    let mut fits = WrapLine::new("fits");
    assert_eq!(fits.next(wider_than(10)), Some("fits"));
    assert_eq!(fits.next(wider_than(10)), None);
    let mut long = WrapLine::new("abcdefgh");
    assert_eq!(long.next(wider_than_px(35)), Some("abc"));
    assert_eq!(long.next(wider_than_px(35)), Some("def"));
    assert_eq!(long.next(wider_than_px(35)), Some("gh"));
    assert_eq!(long.next(wider_than_px(35)), None);
    let mut empty = WrapLine::new("");
    assert_eq!(empty.next(wider_than(2)), None);
}

#[test]
fn key_inputs_maps_typed_characters_enter_and_keys() {
    let none = KeyInput::key_inputs(None, false, false, false, false, false, false, false, false, false);
    assert_eq!(none, [None; 9]);
    let typed = KeyInput::key_inputs(Some('a'), true, false, false, false, false, false, false, false, false);
    assert_eq!(typed[0], Some(KeyInput::Char('a')));
    let enter = KeyInput::key_inputs(None, true, true, false, true, false, true, false, true, false);
    assert_eq!(
        enter,
        [
            Some(KeyInput::Char('\n')),
            Some(KeyInput::Left),
            None,
            Some(KeyInput::Up),
            None,
            Some(KeyInput::Delete),
            None,
            Some(KeyInput::Home),
            None,
        ]
    );
    let rest = KeyInput::key_inputs(None, false, false, true, false, true, false, true, false, true);
    assert_eq!(
        rest,
        [None, None, Some(KeyInput::Right), None, Some(KeyInput::Down), None, Some(KeyInput::Backspace), None, Some(KeyInput::End)]
    );
}
