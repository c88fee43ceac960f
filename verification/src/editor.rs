//! An editable text document with a cursor, driven by key and mouse input.

use crate::input::rep::{duration_nanos, KeyRepeater};
use crate::input::KeyInput;
use crate::select::Selection;
use crate::text::edit::{law_insert_then_erase, lemma_spliced, spliced, EditableDocument};
use crate::text::model::{
    after_last, byte_len, char_width, first_at, is_boundary, is_char, lemma_after_last,
    lemma_boundary_index, lemma_byte_len_subrange, lemma_first_at, lemma_index_at,
    lemma_next_pos, lemma_offset_range, lemma_prev_pos, line_spans, count_before, index_at,
    lemma_offset_lt, spans_from, lemma_spans_from_wf, lemma_encode_single, lemma_offset_ends,
    lemma_offset_subrange, lemma_width, next_pos, offset, prev_pos, lemma_count_mono,
    lemma_spans_count,
    word_break,
};
use crate::text::{
    line_bounds, boundary_at, char_len, chosen_span, find_line_range, found_pos, lemma_chosen_span, substr,
    Document,
};
use std::ops::Range;
use vstd::prelude::*;

verus! {

/// `String::from(char)` from std: a string holding just `c`.
#[verifier::external_body]
fn char_string(c: char) -> (r: String)
    ensures
        r@ == seq![c],
{
    String::from(c)
}

/// Both ends of `sel` lie on character boundaries of `cs`.
pub open spec fn sel_valid(cs: Seq<char>, sel: Selection) -> bool {
    is_boundary(cs, sel.head as int) && is_boundary(cs, sel.tail as int)
}

/// `sel` with its tail moved to `t`.
pub open spec fn with_tail(sel: Selection, t: int) -> Selection {
    Selection { head: sel.head, tail: t as usize }
}

/// The collapsed selection at `t`.
pub open spec fn caret(t: int) -> Selection {
    Selection { head: t as usize, tail: t as usize }
}

/// Whether a key input can be applied to the text `cs` with the selection
/// `sel`: every position that the input reads lies on a character boundary,
/// and a typed character's width can be added to the low end of the selection.
pub open spec fn key_ok(cs: Seq<char>, sel: Selection, input: KeyInput, shift: bool, ctrl: bool) -> bool {
    let empty = sel.head == sel.tail;
    match input {
        KeyInput::Char(c) => is_boundary(cs, sel.low() as int) && is_boundary(cs, sel.high() as int)
            && sel.low() + char_width(c) <= usize::MAX,
        KeyInput::Backspace => if empty {
            is_boundary(cs, sel.tail as int)
        } else {
            is_boundary(cs, sel.low() as int) && is_boundary(cs, sel.high() as int)
        },
        KeyInput::Delete => if empty {
            is_boundary(cs, sel.tail as int)
        } else {
            is_boundary(cs, sel.low() as int) && is_boundary(cs, sel.high() as int)
        },
        KeyInput::Left | KeyInput::Right => (shift || empty) ==> is_boundary(cs, sel.tail as int),
        KeyInput::Up | KeyInput::Down => is_boundary(cs, sel.tail as int),
        KeyInput::Home | KeyInput::End => ctrl || is_boundary(cs, sel.tail as int),
    }
}

/// The text and selection after one key input, before the head is moved.
///
/// A typed character replaces the selection and the caret follows it;
/// Backspace and Delete erase the selection, or else the character before or
/// after the caret, and the caret stays where the erased range began.
pub open spec fn key_effect(
    cs: Seq<char>,
    sel: Selection,
    input: KeyInput,
    shift: bool,
    ctrl: bool,
) -> (Seq<char>, Selection) {
    let empty = sel.head == sel.tail;
    match input {
        KeyInput::Char(c) => (
            spliced(cs, sel.low() as int, sel.high() as int, seq![c]),
            caret(sel.low() + char_width(c)),
        ),
        KeyInput::Backspace => {
            let s1 = if empty {
                with_tail(sel, prev_pos(cs, sel.tail as int))
            } else {
                sel
            };
            (spliced(cs, s1.low() as int, s1.high() as int, Seq::empty()), caret(s1.low() as int))
        },
        KeyInput::Delete => {
            let s1 = if empty {
                with_tail(sel, next_pos(cs, sel.tail as int))
            } else {
                sel
            };
            let c1 = if s1.low() < byte_len(cs) {
                spliced(cs, s1.low() as int, s1.high() as int, Seq::empty())
            } else {
                cs
            };
            (c1, caret(s1.low() as int))
        },
        KeyInput::Left => (
            cs,
            with_tail(
                sel,
                if shift || empty {
                    let t = prev_pos(cs, sel.tail as int);
                    if ctrl {
                        after_last(cs, t, word_break())
                    } else {
                        t
                    }
                } else {
                    sel.low() as int
                },
            ),
        ),
        KeyInput::Right => (
            cs,
            with_tail(
                sel,
                if shift || empty {
                    let t = next_pos(cs, sel.tail as int);
                    if ctrl {
                        first_at(cs, t, word_break())
                    } else {
                        t
                    }
                } else {
                    sel.high() as int
                },
            ),
        ),
        KeyInput::Up => (
            cs,
            with_tail(sel, prev_pos(cs, after_last(cs, sel.tail as int, is_char('\n')))),
        ),
        KeyInput::Down => (
            cs,
            with_tail(sel, next_pos(cs, first_at(cs, sel.tail as int, is_char('\n')))),
        ),
        KeyInput::Home => (
            cs,
            with_tail(
                sel,
                if ctrl {
                    0
                } else {
                    after_last(cs, sel.tail as int, is_char('\n'))
                },
            ),
        ),
        KeyInput::End => (
            cs,
            with_tail(
                sel,
                if ctrl {
                    byte_len(cs)
                } else {
                    first_at(cs, sel.tail as int, is_char('\n'))
                },
            ),
        ),
    }
}

/// The text and selection after one key input: its effect, after which the
/// head follows the tail unless shift is held.
pub open spec fn key_step(cs: Seq<char>, sel: Selection, input: KeyInput, shift: bool, ctrl: bool) -> (
    Seq<char>,
    Selection,
) {
    let (c, s) = key_effect(cs, sel, input, shift, ctrl);
    if shift {
        (c, s)
    } else {
        (c, caret(s.tail as int))
    }
}

/// The text and selection after the key inputs `keys` in turn, with the number
/// of inputs applied: the run stops before the first input that cannot be
/// applied ([`key_ok`]).
pub open spec fn run_keys(
    cs: Seq<char>,
    sel: Selection,
    keys: Seq<KeyInput>,
    shift: bool,
    ctrl: bool,
) -> (Seq<char>, Selection, nat)
    decreases keys.len(),
{
    if keys.len() == 0 || !key_ok(cs, sel, keys[0], shift, ctrl) {
        (cs, sel, 0)
    } else {
        let (c1, s1) = key_step(cs, sel, keys[0], shift, ctrl);
        let (c2, s2, n) = run_keys(c1, s1, keys.drop_first(), shift, ctrl);
        (c2, s2, n + 1)
    }
}

/// The state of the input devices for one tick of the editor.
#[derive(Debug, Clone, Copy, PartialEq, Eq)]
pub struct Tick {
    /// Whether a shift key is held
    pub is_shifting: bool,
    /// Whether a control key is held
    pub is_ctrling: bool,
    /// Whether the left mouse button is held
    pub mouse_down: bool,
    /// Whether the left mouse button went down on this tick
    pub mouse_pressed: bool,
    /// The visual row under the mouse: its distance below the top of the
    /// text area divided by the line height, rounded down
    pub mouse_row: usize,
    /// The whole number of lines the mouse wheel moved (positive away from the user)
    pub wheel: isize,
}

/// `sel1` is a selection that the mouse can give on a tick: unchanged while
/// the button is up; otherwise its tail is where [`Document::find_pos`] stops
/// in the line under the mouse, and its head follows the tail when the button
/// went down without shift.
pub open spec fn pointed<F: Fn(&str) -> bool>(
    cs: Seq<char>,
    sel: Selection,
    scroll: usize,
    tick: Tick,
    reaches: F,
    sel1: Selection,
) -> bool {
    if tick.mouse_down {
        let (a, b) = chosen_span(cs, tick.mouse_row as int, scroll as int);
        exists|r: int|
            #[trigger] found_pos(reaches, cs.subrange(a, b), r) && sel1.tail == offset(cs, a) + r
                && sel1.head == if tick.mouse_pressed && !tick.is_shifting {
                sel1.tail
            } else {
                sel.head
            }
    } else {
        sel1 == sel
    }
}

/// The scroll position after the wheel moves `wheel` lines, clamped to the
/// number of lines.
pub open spec fn scrolled(scroll: int, wheel: int, count: int) -> int {
    let s = scroll - wheel;
    let s = if s < 0 {
        0
    } else if s > usize::MAX {
        usize::MAX as int
    } else {
        s
    };
    if s < count {
        s
    } else {
        count
    }
}

/// A line of the document as it is shown in the display area.
#[derive(Debug, PartialEq, Eq)]
pub struct ShownLine<'a> {
    /// The index of the line in the document
    pub line: usize,
    /// The byte range of the line within the document
    pub range: Range<usize>,
    /// The text of the line
    pub text: &'a str,
    /// The part of the line to highlight as selected, as byte positions
    /// within the line, when the line is one of the selected lines
    pub highlight: Option<(usize, usize)>,
}

/// The number of newlines before the byte position `pos`.
pub open spec fn line_of(cs: Seq<char>, pos: int) -> int {
    count_before(cs, index_at(cs, pos), is_char('\n')) as int
}

/// `a - b`, or 0 when `b` is larger.
pub open spec fn sat_sub(a: int, b: int) -> int {
    if a < b {
        0
    } else {
        a - b
    }
}

/// The highlighted part of the line at character range `span` (line number
/// `j`) for the selection `sel`: the selected bytes, clamped to the line and
/// relative to its start, when the line lies between the lines of the ends of
/// the selection.
pub open spec fn highlight_of(cs: Seq<char>, sel: Selection, j: int, span: (int, int)) -> Option<
    (usize, usize),
> {
    if line_of(cs, sel.low() as int) <= j <= line_of(cs, sel.high() as int) {
        let a = offset(cs, span.0);
        let b = offset(cs, span.1);
        let end = if sel.high() < b {
            sel.high() as int
        } else {
            b
        };
        Some((sat_sub(sel.low() as int, a) as usize, sat_sub(end, a) as usize))
    } else {
        None
    }
}

/// A container for editable text
#[derive(Debug, Clone, PartialEq)]
pub struct TextEditor<Doc> {
    /// The text content of the document
    pub content: Doc,
    /// How many lines to offset
    pub scroll: usize,
    /// The current selection within the document
    pub selection: Selection,
    /// Cache how many lines can be rendered within the display area
    /// (recalculated whenever the display area changes)
    pub fittable_lines: usize,
    /// How many pixels wide a line can get before wrapping
    pub wrap: u32,
    /// How the editor should repeat key inputs
    pub key_repeat: KeyRepeater,
}

impl Default for TextEditor<String> {
    fn default() -> (r: Self)
        ensures
            r.content@ == Seq::<char>::empty(),
            r.scroll == 0,
            r.selection == caret(0),
            r.fittable_lines == 0,
            r.wrap == 0,
            r.key_repeat.input is None,
            duration_nanos(r.key_repeat.start_delay) == 0,
            duration_nanos(r.key_repeat.period) == 0,
    {
        TextEditor {
            content: String::new(),
            scroll: 0,
            selection: Selection { head: 0, tail: 0 },
            fittable_lines: 0,
            wrap: 0,
            key_repeat: KeyRepeater::default(),
        }
    }
}

impl TextEditor<String> {
    /// Construct a new [`TextEditor`] with a blank document, given how many
    /// lines fit in its display area.
    pub fn new(wrap: u32, fittable_lines: usize, key_repeat: KeyRepeater) -> (r: Self)
        ensures
            r.content@ == Seq::<char>::empty(),
            r.scroll == 0,
            r.selection == caret(0),
            r.fittable_lines == fittable_lines,
            r.wrap == wrap,
            r.key_repeat == key_repeat,
    {
        TextEditor {
            content: String::new(),
            scroll: 0,
            selection: Selection { head: 0, tail: 0 },
            fittable_lines,
            wrap,
            key_repeat,
        }
    }

    /// Whether the key input `input` can be applied ([`key_ok`]).
    pub fn can_apply(&self, input: KeyInput, shifting: bool, ctrling: bool) -> (r: bool)
        ensures
            r == key_ok(self.content@, self.selection, input, shifting, ctrling),
    {
        let text = self.content.as_str();
        let empty = self.selection.is_empty();
        let tail = self.selection.tail;
        match input {
            KeyInput::Char(ch) => boundary_at(text, *self.selection.start()) && boundary_at(
                text,
                *self.selection.end(),
            ) && *self.selection.start() <= usize::MAX - char_len(ch),
            KeyInput::Backspace => if empty {
                boundary_at(text, tail)
            } else {
                boundary_at(text, *self.selection.start()) && boundary_at(text, *self.selection.end())
            },
            KeyInput::Delete => if empty {
                boundary_at(text, tail)
            } else {
                boundary_at(text, *self.selection.start()) && boundary_at(text, *self.selection.end())
            },
            KeyInput::Left | KeyInput::Right => !(shifting || empty) || boundary_at(text, tail),
            KeyInput::Up | KeyInput::Down => boundary_at(text, tail),
            KeyInput::Home | KeyInput::End => ctrling || boundary_at(text, tail),
        }
    }

    /// Apply one key input to the document and the selection ([`key_step`]).
    pub fn apply_input(&mut self, input: KeyInput, shifting: bool, ctrling: bool)
        requires
            key_ok(old(self).content@, old(self).selection, input, shifting, ctrling),
        ensures
            (final(self).content@, final(self).selection) == key_step(
                old(self).content@,
                old(self).selection,
                input,
                shifting,
                ctrling,
            ),
            final(self).scroll == old(self).scroll,
            final(self).fittable_lines == old(self).fittable_lines,
            final(self).wrap == old(self).wrap,
            final(self).key_repeat == old(self).key_repeat,
    {
        let ghost cs = self.content@;
        let ghost sel = self.selection;
        match input {
            KeyInput::Char(ch) => {
                let typed = char_string(ch);
                let low = *self.selection.start();
                EditableDocument::replace_range(&mut self.content, self.selection.range(), typed.as_str());
                // the caret follows the typed character
                self.selection.tail = low + char_len(ch);
                self.selection.head = self.selection.tail;
            },
            KeyInput::Backspace => {
                // select the previous character if none are selected
                if self.selection.is_empty() {
                    proof {
                        lemma_prev_pos(cs, sel.tail as int);
                    }
                    self.selection.tail = self.content.as_str().prev_char(self.selection.tail);
                }
                // erase the selection
                let low = *self.selection.start();
                EditableDocument::erase_range(&mut self.content, self.selection.range());
                // flatten the selection onto where the erased range began
                self.selection.tail = low;
                self.selection.head = low;
            },
            KeyInput::Delete => {
                // select the next character if none are selected
                if self.selection.is_empty() {
                    proof {
                        lemma_next_pos(cs, sel.tail as int);
                    }
                    self.selection.tail = self.content.as_str().next_char(self.selection.tail);
                }
                // replace the range as long as the cursor isn't at the end of the text
                // (which is a valid position to be in, since that's where it would append characters)
                let low = *self.selection.start();
                if low < Document::len(self.content.as_str()) {
                    EditableDocument::erase_range(&mut self.content, self.selection.range());
                }
                // flatten the selection onto where the erased range began
                self.selection.tail = low;
                self.selection.head = low;
            },
            KeyInput::Left => {
                if shifting || self.selection.is_empty() {
                    proof {
                        lemma_prev_pos(cs, sel.tail as int);
                    }
                    self.selection.tail = self.content.as_str().prev_char(self.selection.tail);
                    if ctrling {
                        self.selection.tail = self.content.as_str().word_start(self.selection.tail);
                    }
                } else {
                    self.selection.tail = *self.selection.start();
                }
            },
            KeyInput::Right => {
                if shifting || self.selection.is_empty() {
                    proof {
                        lemma_next_pos(cs, sel.tail as int);
                    }
                    self.selection.tail = self.content.as_str().next_char(self.selection.tail);
                    if ctrling {
                        self.selection.tail = self.content.as_str().word_end(self.selection.tail);
                    }
                } else {
                    self.selection.tail = *self.selection.end();
                }
            },
            KeyInput::Up => {
                proof {
                    lemma_after_last(cs, sel.tail as int, is_char('\n'));
                }
                let start = self.content.as_str().line_start(self.selection.tail);
                self.selection.tail = self.content.as_str().prev_char(start);
            },
            KeyInput::Down => {
                proof {
                    lemma_first_at(cs, sel.tail as int, is_char('\n'));
                }
                let end = self.content.as_str().line_end(self.selection.tail);
                self.selection.tail = self.content.as_str().next_char(end);
            },
            KeyInput::Home => {
                self.selection.tail = if ctrling {
                    0
                } else {
                    self.content.as_str().line_start(self.selection.tail)
                };
            },
            KeyInput::End => {
                self.selection.tail = if ctrling {
                    Document::len(self.content.as_str())
                } else {
                    self.content.as_str().line_end(self.selection.tail)
                };
            },
        }
        if !shifting {
            self.selection.head = self.selection.tail;
        }
    }

    /// Tick the editor
    ///
    /// While the mouse button is held, the tail of the selection moves to the
    /// position in the line under the mouse that [`Document::find_pos`] finds
    /// with `reaches`; the key inputs are then applied in turn
    /// ([`Self::apply_input`]), and the mouse wheel scrolls the view.
    ///
    /// Stops before the first key input that cannot be applied
    /// ([`Self::can_apply`]) and returns its index; the view is then not scrolled.
    pub fn update<F: Fn(&str) -> bool>(&mut self, tick: &Tick, inputs: Vec<KeyInput>, reaches: F) -> (r:
        Result<(), usize>)
        requires
            forall|t: &str| #[trigger] reaches.requires((t,)),
        ensures
            exists|sel1: Selection|
                #[trigger] pointed(
                    old(self).content@,
                    old(self).selection,
                    old(self).scroll,
                    *tick,
                    reaches,
                    sel1,
                ) && ({
                    let (c, s, n) = run_keys(
                        old(self).content@,
                        sel1,
                        inputs@,
                        tick.is_shifting,
                        tick.is_ctrling,
                    );
                    &&& final(self).content@ == c
                    &&& final(self).selection == s
                    &&& r == if n == inputs.len() {
                        Ok::<(), usize>(())
                    } else {
                        Err::<(), usize>(n as usize)
                    }
                    &&& final(self).scroll == if n == inputs.len() {
                        scrolled(old(self).scroll as int, tick.wheel as int, line_spans(c).len() as int)
                    } else {
                        old(self).scroll as int
                    }
                }),
            final(self).fittable_lines == old(self).fittable_lines,
            final(self).wrap == old(self).wrap,
            final(self).key_repeat == old(self).key_repeat,
    {
        let ghost cs0 = self.content@;
        let ghost sel0 = self.selection;
        let ghost scroll0 = self.scroll;
        let shifting = tick.is_shifting;
        let ctrling = tick.is_ctrling;
        if tick.mouse_down {
            let line = find_line_range(self.content.as_str(), tick.mouse_row, self.scroll);
            let ghost (a, b) = chosen_span(cs0, tick.mouse_row as int, scroll0 as int);
            proof {
                lemma_chosen_span(cs0, tick.mouse_row as int, scroll0 as int);
                lemma_index_at(cs0, a);
                lemma_index_at(cs0, b);
                lemma_byte_len_subrange(cs0, a, b);
                lemma_offset_range(cs0, b);
            }
            let text = substr(self.content.as_str(), line.start, line.end);
            let off = text.find_pos(reaches);
            proof {
                lemma_boundary_index(text@, off as int);
            }
            self.selection.tail = line.start + off;
            if tick.mouse_pressed && !shifting {
                self.selection.head = self.selection.tail;
            }
            proof {
                assert(found_pos(reaches, cs0.subrange(a, b), off as int));
            }
        }
        let ghost sel1 = self.selection;
        proof {
            assert(pointed(cs0, sel0, scroll0, *tick, reaches, sel1));
            assert(inputs@.skip(0) =~= inputs@);
        }
        let mut i: usize = 0;
        while i < inputs.len()
            invariant
                0 <= i <= inputs.len(),
                cs0 == old(self).content@,
                sel0 == old(self).selection,
                scroll0 == old(self).scroll,
                shifting == tick.is_shifting,
                ctrling == tick.is_ctrling,
                pointed(cs0, sel0, scroll0, *tick, reaches, sel1),
                ({
                    let (c, s, n) = run_keys(cs0, sel1, inputs@, shifting, ctrling);
                    let (c2, s2, n2) = run_keys(
                        self.content@,
                        self.selection,
                        inputs@.skip(i as int),
                        shifting,
                        ctrling,
                    );
                    c == c2 && s == s2 && n == n2 + i
                }),
                self.scroll == scroll0,
                self.fittable_lines == old(self).fittable_lines,
                self.wrap == old(self).wrap,
                self.key_repeat == old(self).key_repeat,
            decreases inputs.len() - i,
        {
            let input = inputs[i];
            proof {
                assert(inputs@.skip(i as int)[0] == input);
                assert(inputs@.skip(i as int).drop_first() =~= inputs@.skip(i + 1));
            }
            if !self.can_apply(input, shifting, ctrling) {
                proof {
                    let (c2, s2, n2) = run_keys(
                        self.content@,
                        self.selection,
                        inputs@.skip(i as int),
                        shifting,
                        ctrling,
                    );
                    assert(n2 == 0);
                }
                return Err(i);
            }
            self.apply_input(input, shifting, ctrling);
            i = i + 1;
        }
        proof {
            assert(inputs@.skip(i as int).len() == 0);
        }
        let count = self.content.as_str().line_count();
        let moved = if tick.wheel >= 0 {
            self.scroll.saturating_sub(tick.wheel as usize)
        } else {
            self.scroll.saturating_add(((-(tick.wheel + 1)) as usize) + 1)
        };
        self.scroll = if moved < count {
            moved
        } else {
            count
        };
        Ok(())
    }

    /// Get the lines and their ranges within `content`
    pub fn ranged_lines(&self) -> (r: Vec<(Range<usize>, &str)>)
        ensures
            r.len() == line_spans(self.content@).len(),
            forall|i: int|
                #![trigger r@[i]]
                0 <= i < r.len() ==> {
                    let (a, b) = line_spans(self.content@)[i];
                    &&& r@[i].0.start == offset(self.content@, a)
                    &&& r@[i].0.end == offset(self.content@, b)
                    &&& r@[i].1@ == self.content@.subrange(a, b)
                },
    {
        let text = self.content.as_str();
        let ghost cs = text@;
        let bounds = line_bounds(text);
        let mut r: Vec<(Range<usize>, &str)> = Vec::new();
        let mut i: usize = 0;
        proof {
            lemma_spans_from_wf(cs, 0);
        }
        while i < bounds.len()
            invariant
                cs == text@,
                text@ == self.content@,
                bounds.len() == line_spans(cs).len(),
                forall|k: int|
                    #![trigger bounds@[k]]
                    0 <= k < bounds.len() ==> bounds@[k].0 == offset(cs, line_spans(cs)[k].0)
                        && bounds@[k].1 == offset(cs, line_spans(cs)[k].1),
                forall|k: int|
                    0 <= k < spans_from(cs, 0).len() ==> {
                        let (a, b) = #[trigger] spans_from(cs, 0)[k];
                        &&& 0 <= a <= b <= cs.len()
                    },
                0 <= i <= bounds.len(),
                r.len() == i,
                forall|k: int|
                    #![trigger r@[k]]
                    0 <= k < i ==> {
                        let (a, b) = line_spans(cs)[k];
                        &&& r@[k].0.start == offset(cs, a)
                        &&& r@[k].0.end == offset(cs, b)
                        &&& r@[k].1@ == cs.subrange(a, b)
                    },
            decreases bounds.len() - i,
        {
            let (a, b) = bounds[i];
            proof {
                let (x, y) = line_spans(cs)[i as int];
                assert(spans_from(cs, 0)[i as int] == line_spans(cs)[i as int]);
                lemma_index_at(cs, x);
                lemma_index_at(cs, y);
                if x < y {
                    lemma_offset_lt(cs, x, y);
                }
            }
            let line = substr(text, a, b);
            let ghost old_r = r@;
            r.push((Range { start: a, end: b }, line));
            proof {
                assert forall|k: int| #![trigger r@[k]] 0 <= k < i + 1 implies {
                    let (a, b) = line_spans(cs)[k];
                    &&& r@[k].0.start == offset(cs, a)
                    &&& r@[k].0.end == offset(cs, b)
                    &&& r@[k].1@ == cs.subrange(a, b)
                } by {
                    if k < i {
                        assert(r@[k] == old_r[k]);
                    }
                }
            }
            i = i + 1;
        }
        r
    }

    /// The lines shown in the display area: those from line `scroll` on, at
    /// most [`Self::fittable_lines`] of them, with the part of each that the
    /// selection covers.
    pub fn shown_lines(&self) -> (r: Vec<ShownLine>)
        requires
            sel_valid(self.content@, self.selection),
        ensures
            r.len() == if line_spans(self.content@).len() <= self.scroll {
                0
            } else if line_spans(self.content@).len() - self.scroll < self.fittable_lines {
                line_spans(self.content@).len() - self.scroll
            } else {
                self.fittable_lines as int
            },
            forall|i: int|
                #![trigger r@[i]]
                0 <= i < r.len() ==> {
                    let j = self.scroll + i;
                    let (a, b) = line_spans(self.content@)[j];
                    &&& r@[i].line == j
                    &&& r@[i].range.start == offset(self.content@, a)
                    &&& r@[i].range.end == offset(self.content@, b)
                    &&& r@[i].text@ == self.content@.subrange(a, b)
                    &&& r@[i].highlight == highlight_of(self.content@, self.selection, j, (a, b))
                },
    {
        let ghost cs = self.content@;
        let text = self.content.as_str();
        let low = *self.selection.start();
        let high = *self.selection.end();
        let first_selected = text.line_index(low);
        let last_selected = text.line_index(high);
        let lines = self.ranged_lines();
        let mut r: Vec<ShownLine> = Vec::new();
        let mut i: usize = 0;
        while i < self.fittable_lines && self.scroll < lines.len() && i < lines.len() - self.scroll
            invariant
                cs == self.content@,
                text@ == cs,
                first_selected == line_of(cs, self.selection.low() as int),
                last_selected == line_of(cs, self.selection.high() as int),
                low == self.selection.low(),
                high == self.selection.high(),
                lines.len() == line_spans(cs).len(),
                forall|k: int|
                    #![trigger lines@[k]]
                    0 <= k < lines.len() ==> {
                        let (a, b) = line_spans(cs)[k];
                        &&& lines@[k].0.start == offset(cs, a)
                        &&& lines@[k].0.end == offset(cs, b)
                        &&& lines@[k].1@ == cs.subrange(a, b)
                    },
                r.len() == i,
                i <= self.fittable_lines,
                self.scroll < lines.len() ==> i <= lines.len() - self.scroll,
                self.scroll >= lines.len() ==> i == 0,
                forall|k: int|
                    #![trigger r@[k]]
                    0 <= k < i ==> {
                        let j = self.scroll + k;
                        let (a, b) = line_spans(cs)[j];
                        &&& r@[k].line == j
                        &&& r@[k].range.start == offset(cs, a)
                        &&& r@[k].range.end == offset(cs, b)
                        &&& r@[k].text@ == cs.subrange(a, b)
                        &&& r@[k].highlight == highlight_of(cs, self.selection, j, (a, b))
                    },
            decreases self.fittable_lines - i,
        {
            let j = self.scroll + i;
            let start = lines[j].0.start;
            let end = lines[j].0.end;
            let line = lines[j].1;
            let highlight = if first_selected <= j && j <= last_selected {
                let inline_start = low.saturating_sub(start);
                let clamped_end = if high < end {
                    high
                } else {
                    end
                };
                Some((inline_start, clamped_end.saturating_sub(start)))
            } else {
                None
            };
            let ghost old_r = r@;
            r.push(ShownLine { line: j, range: Range { start, end }, text: line, highlight });
            proof {
                assert forall|k: int| #![trigger r@[k]] 0 <= k < i + 1 implies {
                    let j = self.scroll + k;
                    let (a, b) = line_spans(cs)[j];
                    &&& r@[k].line == j
                    &&& r@[k].range.start == offset(cs, a)
                    &&& r@[k].range.end == offset(cs, b)
                    &&& r@[k].text@ == cs.subrange(a, b)
                    &&& r@[k].highlight == highlight_of(cs, self.selection, j, (a, b))
                } by {
                    if k < i {
                        assert(r@[k] == old_r[k]);
                    } else {
                        assert(lines@[j as int].1 == line);
                    }
                }
            }
            i = i + 1;
        }
        r
    }

    /// Whether both ends of the selection lie on character boundaries of the content
    pub fn selection_valid(&self) -> (r: bool)
        ensures
            r == sel_valid(self.content@, self.selection),
    {
        boundary_at(self.content.as_str(), self.selection.head) && boundary_at(
            self.content.as_str(),
            self.selection.tail,
        )
    }

    /// Access the cached copy of the most recently calculated number of lines that can fit in the display area
    pub fn fittable_lines(&self) -> (r: usize)
        ensures
            r == self.fittable_lines,
    {
        self.fittable_lines
    }
}

/// Typing a character at a collapsed selection and pressing Backspace gives
/// back the text and the selection.
pub proof fn law_type_then_backspace(cs: Seq<char>, t: usize, c: char, ctrl: bool)
    requires
        is_boundary(cs, t as int),
        t + char_width(c) <= usize::MAX,
    ensures
        key_ok(cs, caret(t as int), KeyInput::Char(c), false, ctrl),
        ({
            let (c1, s1) = key_step(cs, caret(t as int), KeyInput::Char(c), false, ctrl);
            &&& key_ok(c1, s1, KeyInput::Backspace, false, ctrl)
            &&& key_step(c1, s1, KeyInput::Backspace, false, ctrl) == (cs, caret(t as int))
        }),
{
    let w = seq![c];
    lemma_encode_single(c);
    assert(byte_len(w) == char_width(c));
    law_insert_then_erase(cs, t as int, w);
    lemma_spliced(cs, t as int, t as int, w);
    let c1 = spliced(cs, t as int, t as int, w);
    let k = index_at(cs, t as int);
    lemma_boundary_index(cs, t as int);
    let e = t + char_width(c);
    assert(index_at(c1, e) == k + 1);
    lemma_boundary_index(c1, e);
    lemma_boundary_index(c1, t as int);
    assert(prev_pos(c1, e) == t);
}

/// With both ends of the selection on character boundaries, every key can be
/// applied and keeps both ends on boundaries of the new text (the text being
/// short enough that a character can be added).
pub proof fn law_keys_keep_selection_valid(
    cs: Seq<char>,
    sel: Selection,
    input: KeyInput,
    shift: bool,
    ctrl: bool,
)
    requires
        sel_valid(cs, sel),
        byte_len(cs) + 4 <= usize::MAX,
    ensures
        key_ok(cs, sel, input, shift, ctrl),
        sel_valid(
            key_step(cs, sel, input, shift, ctrl).0,
            key_step(cs, sel, input, shift, ctrl).1,
        ),
        byte_len(key_step(cs, sel, input, shift, ctrl).0) <= byte_len(cs) + 4,
{
    match input {
        KeyInput::Char(c) => lemma_typing_keeps_selection_valid(cs, sel, c, shift, ctrl),
        KeyInput::Backspace => lemma_backspace_keeps_selection_valid(cs, sel, shift, ctrl),
        KeyInput::Delete => lemma_delete_keeps_selection_valid(cs, sel, shift, ctrl),
        _ => lemma_moves_keep_selection_valid(cs, sel, input, shift, ctrl),
    }
}

/// From a selection on character boundaries, a run of key inputs applies
/// every one of them and leaves the selection on character boundaries of the
/// new text (the text being short enough that each typed character can be
/// added).
pub proof fn law_key_run_keeps_selection_valid(
    cs: Seq<char>,
    sel: Selection,
    keys: Seq<KeyInput>,
    shift: bool,
    ctrl: bool,
)
    requires
        sel_valid(cs, sel),
        byte_len(cs) + 4 * keys.len() <= usize::MAX,
    ensures
        run_keys(cs, sel, keys, shift, ctrl).2 == keys.len(),
        sel_valid(run_keys(cs, sel, keys, shift, ctrl).0, run_keys(cs, sel, keys, shift, ctrl).1),
    decreases keys.len(),
{
    if keys.len() > 0 {
        law_keys_keep_selection_valid(cs, sel, keys[0], shift, ctrl);
        let (c1, s1) = key_step(cs, sel, keys[0], shift, ctrl);
        law_key_run_keeps_selection_valid(c1, s1, keys.drop_first(), shift, ctrl);
    }
}

proof fn lemma_backspace_keeps_selection_valid(cs: Seq<char>, sel: Selection, shift: bool, ctrl: bool)
    requires
        sel_valid(cs, sel),
    ensures
        key_ok(cs, sel, KeyInput::Backspace, shift, ctrl),
        sel_valid(
            key_step(cs, sel, KeyInput::Backspace, shift, ctrl).0,
            key_step(cs, sel, KeyInput::Backspace, shift, ctrl).1,
        ),
        byte_len(key_step(cs, sel, KeyInput::Backspace, shift, ctrl).0) <= byte_len(cs) + 4,
{
    lemma_boundary_index(cs, sel.head as int);
    lemma_boundary_index(cs, sel.tail as int);
    let s1 = if sel.head == sel.tail {
        lemma_prev_pos(cs, sel.tail as int);
        with_tail(sel, prev_pos(cs, sel.tail as int))
    } else {
        sel
    };
    lemma_boundary_index(cs, s1.low() as int);
    lemma_boundary_index(cs, s1.high() as int);
    lemma_spliced(cs, s1.low() as int, s1.high() as int, Seq::empty());
    let c1 = spliced(cs, s1.low() as int, s1.high() as int, Seq::empty());
    lemma_boundary_index(c1, s1.low() as int);
}

proof fn lemma_delete_keeps_selection_valid(cs: Seq<char>, sel: Selection, shift: bool, ctrl: bool)
    requires
        sel_valid(cs, sel),
        byte_len(cs) <= usize::MAX,
    ensures
        key_ok(cs, sel, KeyInput::Delete, shift, ctrl),
        sel_valid(
            key_step(cs, sel, KeyInput::Delete, shift, ctrl).0,
            key_step(cs, sel, KeyInput::Delete, shift, ctrl).1,
        ),
        byte_len(key_step(cs, sel, KeyInput::Delete, shift, ctrl).0) <= byte_len(cs) + 4,
{
    lemma_boundary_index(cs, sel.head as int);
    lemma_boundary_index(cs, sel.tail as int);
    let s1 = if sel.head == sel.tail {
        lemma_next_pos(cs, sel.tail as int);
        with_tail(sel, next_pos(cs, sel.tail as int))
    } else {
        sel
    };
    lemma_boundary_index(cs, s1.low() as int);
    lemma_boundary_index(cs, s1.high() as int);
    if s1.low() < byte_len(cs) {
        lemma_spliced(cs, s1.low() as int, s1.high() as int, Seq::empty());
        let c1 = spliced(cs, s1.low() as int, s1.high() as int, Seq::empty());
        lemma_boundary_index(c1, s1.low() as int);
    }
}

proof fn lemma_moves_keep_selection_valid(
    cs: Seq<char>,
    sel: Selection,
    input: KeyInput,
    shift: bool,
    ctrl: bool,
)
    requires
        sel_valid(cs, sel),
        byte_len(cs) + 4 <= usize::MAX,
        match input {
            KeyInput::Char(_) | KeyInput::Backspace | KeyInput::Delete => false,
            _ => true,
        },
    ensures
        key_ok(cs, sel, input, shift, ctrl),
        sel_valid(
            key_step(cs, sel, input, shift, ctrl).0,
            key_step(cs, sel, input, shift, ctrl).1,
        ),
        byte_len(key_step(cs, sel, input, shift, ctrl).0) <= byte_len(cs) + 4,
{
    lemma_boundary_index(cs, sel.head as int);
    lemma_boundary_index(cs, sel.tail as int);
    lemma_offset_ends(cs);
    lemma_index_at(cs, 0);
    lemma_index_at(cs, cs.len() as int);
    lemma_prev_pos(cs, sel.tail as int);
    lemma_next_pos(cs, sel.tail as int);
    lemma_after_last(cs, sel.tail as int, is_char('\n'));
    lemma_first_at(cs, sel.tail as int, is_char('\n'));
    lemma_after_last(cs, prev_pos(cs, sel.tail as int), word_break());
    lemma_first_at(cs, next_pos(cs, sel.tail as int), word_break());
    lemma_prev_pos(cs, after_last(cs, sel.tail as int, is_char('\n')));
    lemma_next_pos(cs, first_at(cs, sel.tail as int, is_char('\n')));
    let p = prev_pos(cs, sel.tail as int);
    let n = next_pos(cs, sel.tail as int);
    let ls = after_last(cs, sel.tail as int, is_char('\n'));
    let le = first_at(cs, sel.tail as int, is_char('\n'));
    lemma_boundary_index(cs, after_last(cs, p, word_break()));
    lemma_boundary_index(cs, first_at(cs, n, word_break()));
    lemma_boundary_index(cs, prev_pos(cs, ls));
    lemma_boundary_index(cs, next_pos(cs, le));
    lemma_boundary_index(cs, ls);
    lemma_boundary_index(cs, le);
    lemma_boundary_index(cs, p);
    lemma_boundary_index(cs, n);
}

proof fn lemma_typing_keeps_selection_valid(
    cs: Seq<char>,
    sel: Selection,
    c: char,
    shift: bool,
    ctrl: bool,
)
    requires
        sel_valid(cs, sel),
        byte_len(cs) + 4 <= usize::MAX,
    ensures
        key_ok(cs, sel, KeyInput::Char(c), shift, ctrl),
        sel_valid(
            key_step(cs, sel, KeyInput::Char(c), shift, ctrl).0,
            key_step(cs, sel, KeyInput::Char(c), shift, ctrl).1,
        ),
        byte_len(key_step(cs, sel, KeyInput::Char(c), shift, ctrl).0) <= byte_len(cs) + 4,
{
    let low = sel.low() as int;
    let high = sel.high() as int;
    lemma_boundary_index(cs, sel.head as int);
    lemma_boundary_index(cs, sel.tail as int);
    lemma_width(c);
    lemma_encode_single(c);
    assert(byte_len(seq![c]) == char_width(c));
    lemma_spliced(cs, low, high, seq![c]);
    let c1 = spliced(cs, low, high, seq![c]);
    let t = low + char_width(c);
    let ki = index_at(c1, t);
    lemma_boundary_index(c1, t);
    assert(caret(t).head as int == t);
}

/// Typing a character, shift held or not, replaces the selected characters
/// with it and leaves the selection collapsed just after it.
pub proof fn law_typing_collapses_after_the_character(
    cs: Seq<char>,
    sel: Selection,
    c: char,
    shift: bool,
    ctrl: bool,
)
    requires
        key_ok(cs, sel, KeyInput::Char(c), shift, ctrl),
    ensures
        key_step(cs, sel, KeyInput::Char(c), shift, ctrl).0 == cs.take(index_at(cs, sel.low() as int))
            + seq![c] + cs.skip(index_at(cs, sel.high() as int)),
        key_step(cs, sel, KeyInput::Char(c), shift, ctrl).1.head == sel.low() + char_width(c),
        key_step(cs, sel, KeyInput::Char(c), shift, ctrl).1.tail == sel.low() + char_width(c),
{
}

/// With shift held, Left and Right move the tail by one character and keep
/// the head, whether or not something is selected; with ctrl also held they
/// go on to the start or end of the word.
pub proof fn law_shift_arrows_extend_the_selection(cs: Seq<char>, sel: Selection, ctrl: bool)
    ensures
        key_step(cs, sel, KeyInput::Left, true, ctrl).0 == cs,
        key_step(cs, sel, KeyInput::Left, true, ctrl).1.head == sel.head,
        key_step(cs, sel, KeyInput::Left, true, ctrl).1.tail == if ctrl {
            after_last(cs, prev_pos(cs, sel.tail as int), word_break()) as usize
        } else {
            prev_pos(cs, sel.tail as int) as usize
        },
        key_step(cs, sel, KeyInput::Right, true, ctrl).0 == cs,
        key_step(cs, sel, KeyInput::Right, true, ctrl).1.head == sel.head,
        key_step(cs, sel, KeyInput::Right, true, ctrl).1.tail == if ctrl {
            first_at(cs, next_pos(cs, sel.tail as int), word_break()) as usize
        } else {
            next_pos(cs, sel.tail as int) as usize
        },
{
}

/// A click or drag on visual row `row` with the view scrolled by `scroll`
/// lines puts the tail of the selection inside the document line `row +
/// scroll` (the last line when there are fewer): scrolling moves the line
/// picked down by as many lines.
pub proof fn law_click_lands_in_the_line_shown<F: Fn(&str) -> bool>(
    cs: Seq<char>,
    sel: Selection,
    scroll: usize,
    tick: Tick,
    reaches: F,
    sel1: Selection,
)
    requires
        pointed(cs, sel, scroll, tick, reaches, sel1),
        tick.mouse_down,
        line_spans(cs).len() > 0,
    ensures
        ({
            let n = line_spans(cs).len() as int;
            let want = if tick.mouse_row + scroll > usize::MAX {
                usize::MAX as int
            } else {
                tick.mouse_row + scroll
            };
            let i = if want < n - 1 {
                want
            } else {
                n - 1
            };
            offset(cs, line_spans(cs)[i].0) <= sel1.tail <= offset(cs, line_spans(cs)[i].1)
        }),
        sel1.head == if tick.mouse_pressed && !tick.is_shifting {
            sel1.tail
        } else {
            sel.head
        },
{
    let (a, b) = chosen_span(cs, tick.mouse_row as int, scroll as int);
    lemma_chosen_span(cs, tick.mouse_row as int, scroll as int);
    let r = choose|r: int|
        #[trigger] found_pos(reaches, cs.subrange(a, b), r) && sel1.tail == offset(cs, a) + r
            && sel1.head == if tick.mouse_pressed && !tick.is_shifting {
            sel1.tail
        } else {
            sel.head
        };
    let line = cs.subrange(a, b);
    let jj = index_at(line, r);
    lemma_boundary_index(line, r);
    lemma_offset_subrange(cs, a, b, jj);
    if jj > 0 {
        lemma_offset_lt(cs, a, a + jj);
    }
    if a + jj < b {
        lemma_offset_lt(cs, a + jj, b);
    }
}

/// Every line strictly between the lines of the two ends of the selection
/// is highlighted whole.
pub proof fn law_middle_lines_highlighted_whole(cs: Seq<char>, sel: Selection, j: int)
    requires
        sel_valid(cs, sel),
        0 <= j < line_spans(cs).len(),
        line_of(cs, sel.low() as int) < j < line_of(cs, sel.high() as int),
    ensures
        ({
            let (a, b) = line_spans(cs)[j];
            highlight_of(cs, sel, j, (a, b)) == Some(
                (0usize, (offset(cs, b) - offset(cs, a)) as usize),
            )
        }),
{
    let nl = is_char('\n');
    lemma_spans_count(cs, 0);
    lemma_spans_from_wf(cs, 0);
    let (a, b) = line_spans(cs)[j];
    assert(spans_from(cs, 0)[j] == line_spans(cs)[j]);
    let il = index_at(cs, sel.low() as int);
    let ih = index_at(cs, sel.high() as int);
    lemma_boundary_index(cs, sel.low() as int);
    lemma_boundary_index(cs, sel.high() as int);
    if il > a {
        lemma_count_mono(cs, a, il, nl);
    }
    if ih < b {
        lemma_count_mono(cs, ih, b, nl);
    }
    assert(il <= a && b <= ih);
    if il < a {
        lemma_offset_lt(cs, il, a);
    }
    if b < ih {
        lemma_offset_lt(cs, b, ih);
    }
    if a < b {
        lemma_offset_lt(cs, a, b);
    }
}

/// Moving the cursor never changes the text.
pub proof fn law_moves_keep_text(
    cs: Seq<char>,
    sel: Selection,
    input: KeyInput,
    shift: bool,
    ctrl: bool,
)
    requires
        match input {
            KeyInput::Char(_) | KeyInput::Backspace | KeyInput::Delete => false,
            _ => true,
        },
    ensures
        key_step(cs, sel, input, shift, ctrl).0 == cs,
{
}

/// A click or drag puts the tail of the selection on a character boundary of
/// the text, and keeps the head on one.
pub proof fn law_pointer_lands_on_boundary<F: Fn(&str) -> bool>(
    cs: Seq<char>,
    sel: Selection,
    scroll: usize,
    tick: Tick,
    reaches: F,
    sel1: Selection,
)
    requires
        sel_valid(cs, sel),
        pointed(cs, sel, scroll, tick, reaches, sel1),
    ensures
        sel_valid(cs, sel1),
{
    if tick.mouse_down {
        let (a, b) = chosen_span(cs, tick.mouse_row as int, scroll as int);
        lemma_chosen_span(cs, tick.mouse_row as int, scroll as int);
        let r = choose|r: int|
            #[trigger] found_pos(reaches, cs.subrange(a, b), r) && sel1.tail == offset(cs, a) + r
                && sel1.head == if tick.mouse_pressed && !tick.is_shifting {
                sel1.tail
            } else {
                sel.head
            };
        let line = cs.subrange(a, b);
        let j = index_at(line, r);
        lemma_boundary_index(line, r);
        lemma_offset_subrange(cs, a, b, j);
        lemma_index_at(cs, a + j);
    }
}

} // verus!
