//! Wrapping lines of text that are too wide to show.

use crate::text::model::{
    index_at, is_boundary, is_char, last_match, lemma_after_last, lemma_index_at,
    lemma_last_match_range, lemma_no_match_after, lemma_offset_lt, lemma_offset_range, lemma_offset_step,
    lemma_offset_ends, lemma_spans_from_wf, line_spans, offset, spans_from, byte_len,
};
use crate::text::{answered, char_len, line_bounds, substr, Document};
use vstd::prelude::*;
use vstd::std_specs::iter::IteratorSpec;

verus! {
/// `k` is the index of the first character of a line with the characters
/// `cs` that does not fit, given the answers of `too_wide` on its prefixes:
/// every prefix that ends with a character before `k` was answered `false`,
/// and the one that ends with the character at `k`, if there is one, `true`.
pub open spec fn split_found<F: Fn(&str) -> bool>(too_wide: F, cs: Seq<char>, k: int) -> bool {
    &&& 0 <= k <= cs.len()
    &&& forall|m: int| 0 <= m < k ==> #[trigger] answered(too_wide, cs.take(m + 1), false)
    &&& k < cs.len() ==> answered(too_wide, cs.take(k + 1), true)
}

/// What is left of a line: nothing when it is empty.
pub open spec fn left(cs: Seq<char>) -> Option<Seq<char>> {
    if cs.len() == 0 {
        None
    } else {
        Some(cs)
    }
}

/// The piece of a line with the characters `cs` that wrapping before the
/// character at index `k` (the first that does not fit) yields, and what is
/// left of the line.
///
/// Wraps by word: the line breaks at the last space at or before `k`, and
/// that space is dropped. With no such space, by character: the piece is the
/// text before `k`, or the first character alone when even that does not fit.
/// At `k == cs.len()` the whole line is the piece and nothing is left.
pub open spec fn wrap_split(cs: Seq<char>, k: int) -> (Seq<char>, Option<Seq<char>>) {
    if k >= cs.len() {
        (cs, None)
    } else {
        let sp = last_match(cs, k + 1, is_char(' '));
        if sp >= 0 {
            (cs.take(sp), left(cs.skip(sp + 1)))
        } else if k > 0 {
            (cs.take(k), left(cs.skip(k)))
        } else {
            (cs.take(1), left(cs.skip(1)))
        }
    }
}

/// The line to wrap next and the lines left pending after taking it: the
/// line being wrapped, if any, else the first pending line, if any.
pub open spec fn line_to_wrap(current: Option<Seq<char>>, pending: Seq<Seq<char>>) -> (
    Option<Seq<char>>,
    Seq<Seq<char>>,
) {
    match current {
        Some(l) => (Some(l), pending),
        None => if pending.len() > 0 {
            (Some(pending[0]), pending.drop_first())
        } else {
            (None, pending)
        },
    }
}

/// One call of [`WrappedLines::next`] on the line being wrapped `current`
/// and the lines `pending`, wrapping at `k`: the piece given, what is left of
/// the line and the lines left pending.
pub open spec fn wrap_step(current: Option<Seq<char>>, pending: Seq<Seq<char>>, k: int) -> (
    Option<Seq<char>>,
    Option<Seq<char>>,
    Seq<Seq<char>>,
) {
    let (line, rest) = line_to_wrap(current, pending);
    match line {
        None => (None, None, rest),
        Some(l) => if l.len() == 0 {
            (Some(l), None, rest)
        } else {
            (Some(wrap_split(l, k).0), wrap_split(l, k).1, rest)
        },
    }
}

/// `k` is where `too_wide` says the line that a call of
/// [`WrappedLines::next`] takes is split, when that line is not empty.
pub open spec fn step_found<F: Fn(&str) -> bool>(
    too_wide: F,
    current: Option<Seq<char>>,
    pending: Seq<Seq<char>>,
    k: int,
) -> bool {
    match line_to_wrap(current, pending).0 {
        Some(l) => l.len() > 0 ==> split_found(too_wide, l, k),
        None => true,
    }
}

/// The pieces that calls of [`WrappedLines::next`] give in turn, starting on
/// the line being wrapped `current` and the lines `pending`, the calls
/// wrapping at the indices `ks`.
pub open spec fn wrap_run(current: Option<Seq<char>>, pending: Seq<Seq<char>>, ks: Seq<int>) -> Seq<
    Option<Seq<char>>,
>
    decreases ks.len(),
{
    if ks.len() == 0 {
        Seq::empty()
    } else {
        let (piece, cur, rest) = wrap_step(current, pending, ks[0]);
        seq![piece] + wrap_run(cur, rest, ks.drop_first())
    }
}

/// Lines that fit are not wrapped: when every prefix of every pending line
/// was answered as fitting and no line is being wrapped, calls in turn give
/// the pending lines one by one, empty lines included, and then `None`.
pub proof fn law_fitting_lines_pass_through<F: Fn(&str) -> bool>(
    too_wide: F,
    pending: Seq<Seq<char>>,
    ks: Seq<int>,
)
    requires
        ks.len() == pending.len() + 1,
        forall|i: int, m: int|
            0 <= i < pending.len() && 0 < m <= pending[i].len() ==> !#[trigger] answered(
                too_wide,
                pending[i].take(m),
                true,
            ),
        forall|i: int|
            0 <= i < ks.len() ==> #[trigger] step_found(
                too_wide,
                None,
                pending.skip(i),
                ks[i],
            ),
    ensures
        wrap_run(None, pending, ks) == pending.map_values(|l: Seq<char>| Some(l)) + seq![
            None::<Seq<char>>,
        ],
    decreases pending.len(),
{
    assert(step_found(too_wide, None, pending.skip(0), ks[0]));
    assert(pending.skip(0) =~= pending);
    if pending.len() == 0 {
        assert(wrap_run(None, pending, ks.drop_first()) =~= Seq::<Option<Seq<char>>>::empty());
        assert(wrap_run(None, pending, ks) =~= pending.map_values(|l: Seq<char>| Some(l)) + seq![
            None::<Seq<char>>,
        ]);
    } else {
        let l = pending[0];
        let rest = pending.drop_first();
        if l.len() > 0 {
            assert forall|m: int| 0 < m <= l.len() implies !#[trigger] answered(
                too_wide,
                l.take(m),
                true,
            ) by {
                assert(!answered(too_wide, pending[0].take(m), true));
            }
            law_fitting_line_kept(too_wide, l, ks[0]);
        }
        assert forall|i: int, m: int|
            0 <= i < rest.len() && 0 < m <= rest[i].len() implies !#[trigger] answered(
                too_wide,
                rest[i].take(m),
                true,
            ) by {
            assert(rest[i] == pending[i + 1]);
        }
        let ks1 = ks.drop_first();
        assert forall|i: int| 0 <= i < ks1.len() implies #[trigger] step_found(
            too_wide,
            None,
            rest.skip(i),
            ks1[i],
        ) by {
            assert(step_found(too_wide, None, pending.skip(i + 1), ks[i + 1]));
            assert(rest.skip(i) =~= pending.skip(i + 1));
        }
        law_fitting_lines_pass_through(too_wide, rest, ks1);
        assert(wrap_step(None, pending, ks[0]) == (Some(l), None::<Seq<char>>, rest));
        assert(wrap_run(None, pending, ks) =~= pending.map_values(|l: Seq<char>| Some(l)) + seq![
            None::<Seq<char>>,
        ]);
    }
}

/// The characters of a piece, if any.
pub open spec fn opt_view(r: Option<&str>) -> Option<Seq<char>> {
    match r {
        Some(t) => Some(t@),
        None => None,
    }
}

/// Wrapping a line loses nothing but the space it breaks at: the line is the
/// piece, then at most one space, then what is left; what is left is shorter
/// than the line. Every piece was answered as fitting, but for a first
/// character that does not fit on its own.
pub proof fn law_wrap_split<F: Fn(&str) -> bool>(too_wide: F, cs: Seq<char>, k: int)
    requires
        cs.len() > 0,
        split_found(too_wide, cs, k),
    ensures
        ({
            let (piece, rest) = wrap_split(cs, k);
            let r = match rest {
                Some(r) => r,
                None => Seq::empty(),
            };
            &&& cs == piece + cs.subrange(piece.len() as int, cs.len() - r.len()) + r
            &&& cs.len() - r.len() - piece.len() <= 1
            &&& cs.len() - r.len() - piece.len() == 1 ==> cs[piece.len() as int] == ' '
            &&& r.len() < cs.len()
            &&& rest matches Some(x) ==> x.len() > 0
            &&& k > 0 && piece.len() > 0 ==> answered(too_wide, piece, false)
            &&& k == 0 ==> piece.len() <= 1
        }),
{
    if k < cs.len() {
        let sp = last_match(cs, k + 1, is_char(' '));
        lemma_last_match_range(cs, k + 1, is_char(' '));
        if sp >= 0 {
            assert(cs =~= cs.take(sp) + cs.subrange(sp, sp + 1) + cs.skip(sp + 1));
            if sp > 0 && k > 0 {
                assert(answered(too_wide, cs.take((sp - 1) + 1), false));
            }
        } else if k > 0 {
            assert(cs =~= cs.take(k) + cs.subrange(k, k) + cs.skip(k));
            assert(answered(too_wide, cs.take((k - 1) + 1), false));
        } else {
            assert(cs =~= cs.take(1) + cs.subrange(1, 1) + cs.skip(1));
        }
    } else {
        assert(cs =~= cs + cs.subrange(cs.len() as int, cs.len() as int) + Seq::<char>::empty());
        assert(answered(too_wide, cs.take((k - 1) + 1), false));
        assert(cs.take(k) =~= cs);
    }
}

/// Wrapping before the character at `k` breaks at the last space at or
/// before it, dropping that space; with no space there, it breaks before `k`
/// (after the first character when `k` is 0) and drops nothing. In particular,
/// when the character that does not fit is a space, the line breaks there.
pub proof fn law_wrap_breaks_at_the_last_space(cs: Seq<char>, k: int)
    requires
        0 <= k < cs.len(),
    ensures
        cs[k] == ' ' ==> wrap_split(cs, k) == (cs.take(k), left(cs.skip(k + 1))),
        (exists|sp: int|
            0 <= sp <= k && cs[sp] == ' ' && (forall|j: int| sp < j <= k ==> cs[j] != ' ')
                && wrap_split(cs, k) == (cs.take(sp), left(cs.skip(sp + 1))))
            || ((forall|j: int| 0 <= j <= k ==> cs[j] != ' ') && wrap_split(cs, k) == (
            cs.take(if k > 0 { k } else { 1 }),
            left(cs.skip(if k > 0 { k } else { 1 })),
        )),
{
    let sp = last_match(cs, k + 1, is_char(' '));
    lemma_last_match_range(cs, k + 1, is_char(' '));
    lemma_no_match_after(cs, k + 1, is_char(' '));
    if sp >= 0 {
        assert(cs[sp] == ' ');
        assert forall|j: int| sp < j <= k implies cs[j] != ' ' by {
            assert(!is_char(' ')(cs[j]));
        }
    } else {
        assert forall|j: int| 0 <= j <= k implies cs[j] != ' ' by {
            assert(!is_char(' ')(cs[j]));
        }
    }
}

/// A line that fits, every prefix of it having been answered as fitting, is
/// given whole, and nothing of it is left.
pub proof fn law_fitting_line_kept<F: Fn(&str) -> bool>(too_wide: F, cs: Seq<char>, k: int)
    requires
        forall|m: int| 0 < m <= cs.len() ==> !#[trigger] answered(too_wide, cs.take(m), true),
        split_found(too_wide, cs, k),
    ensures
        k == cs.len(),
        wrap_split(cs, k) == (cs, None::<Seq<char>>),
{
    if k < cs.len() {
        assert(!answered(too_wide, cs.take(k + 1), true));
    }
}

/// Splits the non-empty `line` where `too_wide` first says that a prefix of
/// it is wider than the wrap width ([`split_found`], [`wrap_split`]).
fn split_line<'a, F: Fn(&str) -> bool>(line: &'a str, too_wide: F) -> (r: (&'a str, Option<&'a str>))
    requires
        line@.len() > 0,
        forall|t: &str| #[trigger] too_wide.requires((t,)),
    ensures
        exists|k: int|
            #[trigger] split_found(too_wide, line@, k) && wrap_split(line@, k) == (
                r.0@,
                opt_view(r.1),
            ),
{
    let ghost cs = line@;
    proof {
        lemma_offset_ends(cs);
        lemma_index_at(cs, 0);
        lemma_index_at(cs, cs.len() as int);
    }
    let n = Document::len(line);
    let mut it = line.chars();
    let mut b: usize = 0;
    let ghost mut k: int = 0;
    loop
        invariant
            cs == line@,
            cs.len() > 0,
            n == byte_len(cs),
            0 <= k <= cs.len(),
            b == offset(cs, k),
            it.remaining() == cs.skip(k),
            forall|t: &str| #[trigger] too_wide.requires((t,)),
            forall|m: int| 0 <= m < k ==> #[trigger] answered(too_wide, cs.take(m + 1), false),
        decreases cs.len() - k,
    {
        let c = match it.next() {
            Some(c) => c,
            None => {
                proof {
                    assert(cs.skip(k).len() == 0);
                    assert(split_found(too_wide, cs, k));
                    assert(wrap_split(cs, k) == (line@, opt_view(None)));
                }
                return (line, None);
            },
        };
        proof {
            assert(c == cs[k]);
            lemma_offset_ends(cs);
            lemma_index_at(cs, 0);
            lemma_index_at(cs, cs.len() as int);
            lemma_offset_step(cs, k);
            lemma_offset_range(cs, k);
            lemma_offset_range(cs, k + 1);
            lemma_index_at(cs, k);
            lemma_index_at(cs, k + 1);
            assert(cs.subrange(0, k + 1) =~= cs.take(k + 1));
        }
        let end = b + char_len(c);
        let prefix = substr(line, 0, end);
        if too_wide(prefix) {
            proof {
                assert(answered(too_wide, cs.take(k + 1), true));
                assert(split_found(too_wide, cs, k));
                lemma_after_last(cs, end as int, is_char(' '));
                lemma_last_match_range(cs, k + 1, is_char(' '));
            }
            let after = line.start_of(end, ' ');
            let (piece, rest) = if after > 0 {
                proof {
                    let sp = last_match(cs, k + 1, is_char(' '));
                    lemma_offset_step(cs, sp);
                    lemma_index_at(cs, sp);
                    lemma_index_at(cs, sp + 1);
                    lemma_offset_range(cs, sp);
                    assert(is_char(' ')(cs[sp]));
                    assert((' ' as u32) == 32);
                    assert(cs.subrange(0, sp) =~= cs.take(sp));
                    assert(cs.subrange(sp + 1, cs.len() as int) =~= cs.skip(sp + 1));
                }
                (substr(line, 0, after - 1), substr(line, after, n))
            } else if b > 0 {
                proof {
                    assert(cs.subrange(0, k) =~= cs.take(k));
                    assert(cs.subrange(k, cs.len() as int) =~= cs.skip(k));
                }
                (substr(line, 0, b), substr(line, b, n))
            } else {
                proof {
                    assert(k == 0) by {
                        if k > 0 {
                            lemma_offset_lt(cs, 0, k);
                        }
                    }
                    assert(cs.subrange(0, 1) =~= cs.take(1));
                    assert(cs.subrange(1, cs.len() as int) =~= cs.skip(1));
                }
                (substr(line, 0, end), substr(line, end, n))
            };
            proof {
                assert(wrap_split(cs, k).0 == piece@);
                assert(wrap_split(cs, k).1 == left(rest@));
            }
            if rest.is_empty() {
                return (piece, None);
            } else {
                return (piece, Some(rest));
            }
        }
        b = end;
        proof {
            k = k + 1;
            assert(cs.skip(k - 1).drop_first() =~= cs.skip(k));
        }
    }
}

/// Splits one line into pieces that fit the wrap width
#[derive(Debug, Clone, Copy)]
pub struct WrapLine<'a> {
    /// The line currently being split into wrapping
    line: &'a str,
}

impl<'a> WrapLine<'a> {
    /// What is left of the line.
    pub closed spec fn rest(self) -> Seq<char> {
        self.line@
    }

    /// Start splitting `line`
    pub fn new(line: &'a str) -> (r: Self)
        ensures
            r.rest() == line@,
    {
        Self { line }
    }

    /// Gives the next piece of the line, wrapped where `too_wide` first says
    /// that a prefix of it is wider than the wrap width ([`split_found`],
    /// [`wrap_split`]), or `None` when nothing is left.
    pub fn next<F: Fn(&str) -> bool>(&mut self, too_wide: F) -> (r: Option<&'a str>)
        requires
            forall|t: &str| #[trigger] too_wide.requires((t,)),
        ensures
            old(self).rest().len() == 0 ==> r is None && final(self).rest() == old(self).rest(),
            old(self).rest().len() > 0 ==> exists|k: int|
                #[trigger] split_found(too_wide, old(self).rest(), k) && opt_view(r) == Some(
                    wrap_split(old(self).rest(), k).0,
                ) && left(final(self).rest()) == wrap_split(old(self).rest(), k).1,
    {
        let line = self.line;
        if line.is_empty() {
            return None;
        }
        let (piece, rest) = split_line(line, too_wide);
        proof {
            lemma_offset_ends(line@);
            lemma_index_at(line@, 0);
        }
        self.line = match rest {
            Some(r) => r,
            None => substr(line, 0, 0),
        };
        proof {
            let k = choose|k: int| #[trigger] split_found(too_wide, line@, k) && wrap_split(line@, k) == (
                piece@,
                opt_view(rest),
            );
            if rest is None {
                assert(self.rest().len() == 0);
            }
            assert(left(self.rest()) == opt_view(rest));
            assert(split_found(too_wide, old(self).rest(), k));
        }
        Some(piece)
    }
}

/// Iterator over lines in a string, including virtual lines created by wrapping.
///
/// Tries to wrap by word, then by character if a single word is wider than an entire line
#[derive(Debug)]
pub struct WrappedLines<'a> {
    /// The lines to wrap
    lines: Vec<&'a str>,
    /// How many of `lines` have been taken
    taken: usize,
    /// The line currently being split into wrapping
    curr_line: Option<&'a str>,
}

impl<'a> WrappedLines<'a> {
    #[verifier::type_invariant]
    spec fn inv(self) -> bool {
        self.taken <= self.lines.len()
    }

    /// The lines not yet taken.
    pub closed spec fn pending(self) -> Seq<Seq<char>> {
        self.lines@.skip(self.taken as int).map_values(|l: &str| l@)
    }

    /// What is left of the line being wrapped, if any.
    pub closed spec fn current(self) -> Option<Seq<char>> {
        match self.curr_line {
            Some(l) => Some(l@),
            None => None,
        }
    }

    /// Construct a new [`WrappedLines`] over `lines`
    pub fn new(lines: Vec<&'a str>) -> (r: Self)
        ensures
            r.pending() == lines@.map_values(|l: &str| l@),
            r.current() is None,
    {
        let r = WrappedLines { lines, taken: 0, curr_line: None };
        proof {
            assert(r.lines@.skip(0) =~= r.lines@);
        }
        r
    }

    /// Gives the next line, wrapped where `too_wide` first says that a
    /// prefix of it is wider than the wrap width.
    ///
    /// Takes the next pending line when no line is being wrapped; gives `None`
    /// when there is none. An empty line is given as it is; any other is
    /// wrapped by word, then by character ([`split_found`], [`wrap_split`]).
    pub fn next<F: Fn(&str) -> bool>(&mut self, too_wide: F) -> (r: Option<&'a str>)
        requires
            forall|t: &str| #[trigger] too_wide.requires((t,)),
        ensures
            final(self).pending() == line_to_wrap(old(self).current(), old(self).pending()).1,
            line_to_wrap(old(self).current(), old(self).pending()).0 is None ==> r is None
                && final(self).current() is None,
            line_to_wrap(old(self).current(), old(self).pending()).0 matches Some(l) ==> {
                &&& l.len() == 0 ==> opt_view(r) == Some(l) && final(self).current() is None
                &&& l.len() > 0 ==> exists|k: int|
                    #[trigger] split_found(too_wide, l, k) && wrap_split(l, k) == (
                        r->0@,
                        final(self).current(),
                    ) && r is Some
            },
            exists|k: int|
                #[trigger] step_found(too_wide, old(self).current(), old(self).pending(), k)
                    && wrap_step(old(self).current(), old(self).pending(), k) == (
                    opt_view(r),
                    final(self).current(),
                    final(self).pending(),
                ),
    {
        proof {
            use_type_invariant(&*self);
        }
        let ghost old_pending = self.pending();
        let ghost (line_spec, pending_spec) = line_to_wrap(self.current(), old_pending);
        if self.curr_line.is_none() && self.taken < self.lines.len() {
            let l = self.lines[self.taken];
            proof {
                assert(self.lines@.skip(self.taken as int).drop_first() =~= self.lines@.skip(
                    self.taken + 1,
                ));
                assert(self.lines@.skip(self.taken as int)[0] == l);
            }
            self.curr_line = Some(l);
            self.taken = self.taken + 1;
            proof {
                assert(self.pending() =~= old_pending.drop_first());
            }
        }
        proof {
            assert(self.pending() == pending_spec);
        }
        let line = match self.curr_line {
            Some(l) => l,
            None => {
                proof {
                    assert(step_found(too_wide, old(self).current(), old(self).pending(), 0));
                }
                return None;
            },
        };
        self.curr_line = None;
        proof {
            assert(line_spec == Some(line@));
        }
        if line.is_empty() {
            proof {
                assert(step_found(too_wide, old(self).current(), old(self).pending(), 0));
            }
            return Some(line);
        }
        let (piece, rest) = split_line(line, too_wide);
        self.curr_line = rest;
        proof {
            assert(self.current() == opt_view(rest));
            let k = choose|k: int|
                #[trigger] split_found(too_wide, line@, k) && wrap_split(line@, k) == (
                    piece@,
                    opt_view(rest),
                );
            assert(step_found(too_wide, old(self).current(), old(self).pending(), k));
        }
        Some(piece)
    }
}

/// Wrappable text
pub trait WrappedLinesExt {
    /// Returns an iterator over wrapped lines of text
    fn wrapped_lines(&self) -> (r: WrappedLines<'_>);
}

impl WrappedLinesExt for str {
    /// The lines of `self` ([`line_spans`]), none of them being wrapped yet.
    #[inline]
    fn wrapped_lines(&self) -> (r: WrappedLines<'_>)
        ensures
            r.pending() == line_spans(self@).map_values(|s: (int, int)| self@.subrange(s.0, s.1)),
            r.current() is None,
    {
        let ghost cs = self@;
        let bounds = line_bounds(self);
        let mut lines: Vec<&str> = Vec::new();
        let mut i: usize = 0;
        proof {
            lemma_spans_from_wf(cs, 0);
        }
        while i < bounds.len()
            invariant
                cs == self@,
                bounds.len() == line_spans(cs).len(),
                forall|k: int|
                    #![trigger bounds@[k]]
                    0 <= k < bounds.len() ==> bounds@[k].0 == offset(cs, line_spans(cs)[k].0)
                        && bounds@[k].1 == offset(cs, line_spans(cs)[k].1),
                forall|k: int|
                    0 <= k < spans_from(cs, 0).len() ==> {
                        let (a, b) = #[trigger] spans_from(cs, 0)[k];
                        &&& 0 <= a <= b <= cs.len()
                    },
                0 <= i <= bounds.len(),
                lines.len() == i,
                forall|k: int|
                    #![trigger lines@[k]]
                    0 <= k < i ==> lines@[k]@ == cs.subrange(line_spans(cs)[k].0, line_spans(cs)[k].1),
            decreases bounds.len() - i,
        {
            let (a, b) = bounds[i];
            proof {
                let (x, y) = line_spans(cs)[i as int];
                assert(spans_from(cs, 0)[i as int] == line_spans(cs)[i as int]);
                lemma_index_at(cs, x);
                lemma_index_at(cs, y);
                if x < y {
                    lemma_offset_lt(cs, x, y);
                }
            }
            let line = substr(self, a, b);
            let ghost old_lines = lines@;
            lines.push(line);
            proof {
                assert forall|k: int| #![trigger lines@[k]] 0 <= k < i + 1 implies lines@[k]@
                    == cs.subrange(line_spans(cs)[k].0, line_spans(cs)[k].1) by {
                    if k < i {
                        assert(lines@[k] == old_lines[k]);
                    }
                }
            }
            i = i + 1;
        }
        let r = WrappedLines::new(lines);
        proof {
            assert(lines@.map_values(|l: &str| l@) =~= line_spans(cs).map_values(
                |s: (int, int)| cs.subrange(s.0, s.1),
            ));
        }
        r
    }
}

} // verus!
