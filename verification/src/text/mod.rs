//! Text documents and the positions within them.
//!
//! Positions are byte offsets into the UTF-8 encoding of the text, as in
//! `str` slicing; the model of a document is its sequence of characters
//! (see [`model`]).

pub mod edit;
pub mod model;
pub mod wrap;

use model::{
    after_last, byte_len, char_width, count_before, first_at, first_match, index_at, is_boundary,
    is_char, is_word_break, last_match, lemma_after_last, lemma_boundary_before, lemma_boundary_index,
    lemma_byte_len_zero, lemma_char_boundary, lemma_count_before_le, lemma_first_at,
    lemma_first_match_range, lemma_first_match_skip_over, lemma_index_at, lemma_last_match_range,
    lemma_offset_ends, lemma_offset_ge_index, lemma_offset_index_prev, lemma_offset_lt,
    lemma_offset_range, lemma_offset_skip, lemma_offset_step, lemma_spans_from_wf,
    lemma_split_views, lemma_width, line_choice, line_spans, next_pos, offset, prev_pos,
    spans_from, word_break,
};
use crate::select::Selection;
use std::ops::{Range, RangeInclusive};
use vstd::prelude::*;
use vstd::std_specs::iter::IteratorSpec;
use vstd::utf8::*;

verus! {

/// The number of bytes in the UTF-8 encoding of `c`.
pub fn char_len(c: char) -> (n: usize)
    ensures
        n == char_width(c),
{
    let u = c as u32;
    proof {
        char_is_scalar(c);
    }
    if u < 0x80 {
        1
    } else if u < 0x800 {
        2
    } else if u < 0x10000 {
        3
    } else {
        4
    }
}

/// The number of bytes in `s`.
fn byte_length(s: &str) -> (n: usize)
    ensures
        n == byte_len(s@),
{
    s.as_bytes().len()
}

/// Whether `pos` is a character boundary of `s`.
pub fn boundary_at(s: &str, pos: usize) -> (r: bool)
    ensures
        r == is_boundary(s@, pos as int),
{
    proof {
        lemma_char_boundary(s@, pos as int);
    }
    s.is_char_boundary(pos)
}

/// Splits `s` at the character boundary `pos`.
fn split_at_boundary(s: &str, pos: usize) -> (r: (&str, &str))
    requires
        is_boundary(s@, pos as int),
    ensures
        r.0@ == s@.take(index_at(s@, pos as int)),
        r.1@ == s@.skip(index_at(s@, pos as int)),
{
    proof {
        lemma_char_boundary(s@, pos as int);
        lemma_boundary_index(s@, pos as int);
    }
    let r = s.split_at(pos);
    proof {
        lemma_split_views(s@, index_at(s@, pos as int), r.0@, r.1@);
    }
    r
}

/// What a search looks for.
#[derive(Clone, Copy)]
enum Pattern {
    /// One given character
    Char(char),
    /// A space or a newline
    WordBreak,
}

impl Pattern {
    spec fn holds(self, c: char) -> bool {
        match self {
            Pattern::Char(d) => c == d,
            Pattern::WordBreak => is_word_break(c),
        }
    }

    fn matches(&self, c: char) -> (r: bool)
        ensures
            r == self.holds(c),
    {
        match self {
            Pattern::Char(d) => c == *d,
            Pattern::WordBreak => c == ' ' || c == '\n',
        }
    }
}

/// The position just after the last match of `pat` before `pos`, or 0.
fn scan_after_last(s: &str, pos: usize, pat: Pattern, Ghost(p): Ghost<spec_fn(char) -> bool>) -> (r:
    usize)
    requires
        is_boundary(s@, pos as int),
        forall|c: char| #[trigger] p(c) == pat.holds(c),
    ensures
        r == after_last(s@, pos as int, p),
{
    let ghost cs = s@;
    let ghost kp = index_at(cs, pos as int);
    proof {
        lemma_boundary_index(cs, pos as int);
        lemma_offset_ends(cs);
    }
    let n = byte_length(s);
    let mut it = s.chars();
    let mut b: usize = 0;
    let mut r: usize = 0;
    let ghost mut k: int = 0;
    while b < pos
        invariant
            cs == s@,
            n == byte_len(cs),
            0 <= kp <= cs.len(),
            offset(cs, kp) == pos,
            0 <= k <= kp,
            b == offset(cs, k),
            it.remaining() == cs.skip(k),
            r == offset(cs, last_match(cs, k, p) + 1),
            forall|c: char| #[trigger] p(c) == pat.holds(c),
        decreases kp - k,
    {
        proof {
            if k == kp {
                assert(false);
            }
        }
        let c = match it.next() {
            Some(c) => c,
            None => {
                proof {
                    assert(cs.skip(k).len() > 0);
                }
                return r;
            },
        };
        proof {
            lemma_offset_step(cs, k);
            lemma_offset_range(cs, k + 1);
            assert(c == cs[k]);
        }
        b = b + char_len(c);
        proof {
            k = k + 1;
            assert(cs.skip(k - 1).drop_first() =~= cs.skip(k));
        }
        if pat.matches(c) {
            r = b;
        }
    }
    proof {
        if k < kp {
            lemma_offset_lt(cs, k, kp);
        }
    }
    r
}

/// The position of the first match of `pat` at or after `pos`, or the byte length.
fn scan_first_at(s: &str, pos: usize, pat: Pattern, Ghost(p): Ghost<spec_fn(char) -> bool>) -> (r:
    usize)
    requires
        is_boundary(s@, pos as int),
        forall|c: char| #[trigger] p(c) == pat.holds(c),
    ensures
        r == first_at(s@, pos as int, p),
{
    let ghost cs = s@;
    let ghost kp = index_at(cs, pos as int);
    proof {
        lemma_boundary_index(cs, pos as int);
        lemma_offset_ends(cs);
    }
    let n = byte_length(s);
    let (_, rest) = split_at_boundary(s, pos);
    let mut it = rest.chars();
    let mut b: usize = pos;
    let ghost mut k: int = kp;
    loop
        invariant
            cs == s@,
            n == byte_len(cs),
            0 <= kp <= k <= cs.len(),
            kp == index_at(cs, pos as int),
            b == offset(cs, k),
            it.remaining() == cs.skip(k),
            forall|j: int| kp <= j < k ==> !p(#[trigger] cs[j]),
            forall|c: char| #[trigger] p(c) == pat.holds(c),
        decreases cs.len() - k,
    {
        let c = match it.next() {
            Some(c) => c,
            None => {
                proof {
                    lemma_offset_ends(cs);
                    assert(cs.skip(k).len() == 0);
                    lemma_first_match_skip_over(cs, kp, k, p);
                    assert(first_match(cs, k, p) == k);
                }
                return b;
            },
        };
        proof {
            assert(c == cs[k]);
            lemma_offset_step(cs, k);
            lemma_offset_range(cs, k + 1);
        }
        if pat.matches(c) {
            proof {
                assert(p(cs[k]));
                lemma_first_match_skip_over(cs, kp, k, p);
                assert(first_match(cs, k, p) == k);
            }
            return b;
        }
        b = b + char_len(c);
        proof {
            k = k + 1;
            assert(cs.skip(k - 1).drop_first() =~= cs.skip(k));
        }
    }
}

/// The number of matches of `pat` before `pos`.
fn scan_count(s: &str, pos: usize, pat: Pattern, Ghost(p): Ghost<spec_fn(char) -> bool>) -> (r:
    usize)
    requires
        is_boundary(s@, pos as int),
        forall|c: char| #[trigger] p(c) == pat.holds(c),
    ensures
        r == count_before(s@, index_at(s@, pos as int), p),
{
    let ghost cs = s@;
    let ghost kp = index_at(cs, pos as int);
    proof {
        lemma_boundary_index(cs, pos as int);
        lemma_offset_ends(cs);
    }
    let n = byte_length(s);
    let mut it = s.chars();
    let mut b: usize = 0;
    let mut r: usize = 0;
    let ghost mut k: int = 0;
    while b < pos
        invariant
            cs == s@,
            n == byte_len(cs),
            0 <= kp <= cs.len(),
            offset(cs, kp) == pos,
            0 <= k <= kp,
            b == offset(cs, k),
            it.remaining() == cs.skip(k),
            r == count_before(cs, k, p),
            forall|c: char| #[trigger] p(c) == pat.holds(c),
        decreases kp - k,
    {
        proof {
            if k == kp {
                assert(false);
            }
            lemma_count_before_le(cs, k, p);
            lemma_offset_ge_index(cs, k);
        }
        let c = match it.next() {
            Some(c) => c,
            None => {
                proof {
                    assert(cs.skip(k).len() > 0);
                }
                return r;
            },
        };
        proof {
            lemma_offset_step(cs, k);
            lemma_offset_range(cs, k + 1);
            lemma_width(c);
            assert(c == cs[k]);
        }
        b = b + char_len(c);
        if pat.matches(c) {
            r = r + 1;
        }
        proof {
            k = k + 1;
            assert(cs.skip(k - 1).drop_first() =~= cs.skip(k));
        }
    }
    proof {
        if k < kp {
            lemma_offset_lt(cs, k, kp);
        }
    }
    r
}

/// The byte ranges of the lines of `s`, in order.
pub(crate) fn line_bounds(s: &str) -> (v: Vec<(usize, usize)>)
    ensures
        v.len() == line_spans(s@).len(),
        forall|i: int|
            #![trigger v@[i]]
            0 <= i < v.len() ==> v@[i].0 == offset(s@, line_spans(s@)[i].0) && v@[i].1 == offset(
                s@,
                line_spans(s@)[i].1,
            ),
{
    let ghost cs = s@;
    proof {
        lemma_offset_ends(cs);
    }
    let n = byte_length(s);
    let mut v: Vec<(usize, usize)> = Vec::new();
    let ghost mut g: Seq<(int, int)> = seq![];
    let mut it = s.chars();
    let mut b: usize = 0;
    let mut ls: usize = 0;
    let ghost mut kls: int = 0;
    let mut prev_cr = false;
    let ghost mut k: int = 0;
    loop
        invariant
            cs == s@,
            n == byte_len(cs),
            0 <= kls <= k <= cs.len(),
            b == offset(cs, k),
            ls == offset(cs, kls),
            it.remaining() == cs.skip(k),
            forall|j: int| kls <= j < k ==> cs[j] != '\n',
            prev_cr == (k > kls && cs[k - 1] == '\r'),
            line_spans(cs) == g + spans_from(cs, kls),
            v.len() == g.len(),
            forall|i: int|
                #![trigger v@[i]]
                0 <= i < v.len() ==> v@[i].0 == offset(cs, g[i].0) && v@[i].1 == offset(cs, g[i].1),
        decreases cs.len() - k,
    {
        match it.next() {
            None => {
                proof {
                    lemma_offset_ends(cs);
                    assert(cs.skip(k).len() == 0);
                    assert(forall|j: int| kls <= j < k ==> !is_char('\n')(#[trigger] cs[j]));
                    lemma_first_match_skip_over(cs, kls, k, is_char('\n'));
                    if kls < k {
                        lemma_offset_lt(cs, kls, k);
                    }
                }
                if ls < n {
                    let ghost old_v = v@;
                    v.push((ls, n));
                    proof {
                        let old_g = g;
                        g = g.push((kls, cs.len() as int));
                        assert(first_match(cs, kls, is_char('\n')) == cs.len());
                        assert(spans_from(cs, kls) =~= seq![(kls, cs.len() as int)]);
                        assert(old_g + spans_from(cs, kls) =~= g);
                        assert forall|i: int| #![trigger v@[i]] 0 <= i < v.len() implies v@[i].0
                            == offset(cs, g[i].0) && v@[i].1 == offset(cs, g[i].1) by {
                            if i < old_v.len() {
                                assert(v@[i] == old_v[i]);
                                assert(g[i] == old_g[i]);
                            }
                        }
                    }
                } else {
                    proof {
                        assert(g + spans_from(cs, kls) =~= g);
                    }
                }
                proof {
                    assert(line_spans(cs) =~= g);
                }
                return v;
            },
            Some(c) => {
                proof {
                    assert(c == cs[k]);
                    lemma_offset_step(cs, k);
                    lemma_offset_range(cs, k + 1);
                    assert(cs.skip(k).drop_first() =~= cs.skip(k + 1));
                }
                let w = char_len(c);
                if c == '\n' {
                    proof {
                        assert(forall|j: int| kls <= j < k ==> !is_char('\n')(#[trigger] cs[j]));
                        lemma_first_match_skip_over(cs, kls, k, is_char('\n'));
                        assert(first_match(cs, k, is_char('\n')) == k);
                        if prev_cr {
                            lemma_offset_step(cs, k - 1);
                            assert(('\r' as u32) == 13);
                            assert(char_width(cs[k - 1]) == 1);
                        }
                    }
                    let end = if prev_cr {
                        b - 1
                    } else {
                        b
                    };
                    let ghost old_v = v@;
                    v.push((ls, end));
                    proof {
                        let ghost ke = if prev_cr {
                            k - 1
                        } else {
                            k
                        };
                        let old_g = g;
                        g = g.push((kls, ke));
                        assert(spans_from(cs, kls) =~= seq![(kls, ke)] + spans_from(cs, k + 1));
                        assert(old_g + (seq![(kls, ke)] + spans_from(cs, k + 1)) =~= g
                            + spans_from(cs, k + 1));
                        assert forall|i: int| #![trigger v@[i]] 0 <= i < v.len() implies v@[i].0
                            == offset(cs, g[i].0) && v@[i].1 == offset(cs, g[i].1) by {
                            if i < old_v.len() {
                                assert(v@[i] == old_v[i]);
                                assert(g[i] == old_g[i]);
                            }
                        }
                    }
                    b = b + w;
                    ls = b;
                    prev_cr = false;
                    proof {
                        k = k + 1;
                        kls = k;
                    }
                } else {
                    prev_cr = c == '\r';
                    b = b + w;
                    proof {
                        k = k + 1;
                    }
                }
            },
        }
    }
}

/// The part of `s` between the boundaries `start` and `end`.
pub(crate) fn substr(s: &str, start: usize, end: usize) -> (r: &str)
    requires
        is_boundary(s@, start as int),
        is_boundary(s@, end as int),
        start <= end,
    ensures
        r@ == s@.subrange(index_at(s@, start as int), index_at(s@, end as int)),
{
    let ghost cs = s@;
    let ghost ka = index_at(cs, start as int);
    let ghost kb = index_at(cs, end as int);
    proof {
        lemma_boundary_index(cs, start as int);
        lemma_boundary_index(cs, end as int);
        if kb < ka {
            lemma_offset_lt(cs, kb, ka);
        }
        lemma_offset_skip(cs, ka, kb);
        lemma_index_at(cs.skip(ka), kb - ka);
    }
    let (_, rest) = split_at_boundary(s, start);
    let (mid, _) = split_at_boundary(rest, end - start);
    proof {
        assert(cs.skip(ka).take(kb - ka) =~= cs.subrange(ka, kb));
    }
    mid
}

/// Any form of text that can be selected and edited like a Word document
///
/// Positions are byte offsets into the text; a position is valid when a
/// character starts there or it is the end of the text
/// ([`model::is_boundary`]).
pub trait Document {
    /// The characters of the document.
    spec fn text(&self) -> Seq<char>;

    /// The range of values that are safe to index into
    fn len(&self) -> (r: usize)
        ensures
            r == byte_len(self.text()),
    ;

    /// Whether the document or slice contains no elements
    fn is_empty(&self) -> (r: bool)
        ensures
            r == (self.text().len() == 0),
    {
        proof {
            lemma_byte_len_zero(self.text());
        }
        self.len() == 0
    }

    /// Returns the number of lines in the document
    fn line_count(&self) -> (r: usize)
        ensures
            r == line_spans(self.text()).len(),
    ;

    /// Gives a slice covering the entire document, which can then be range-indexed
    fn as_slice(&self) -> (r: &str)
        ensures
            r@ == self.text(),
    ;

    /// Returns the start position of the character following the one starting at `pos`, clamped to the document bounds
    fn next_char(&self, pos: usize) -> (r: usize)
        requires
            is_boundary(self.text(), pos as int),
        ensures
            r == next_pos(self.text(), pos as int),
    ;

    /// Returns the start position of the character preceeding the one starting at `pos`, clamped to the document bounds
    fn prev_char(&self, pos: usize) -> (r: usize)
        requires
            is_boundary(self.text(), pos as int),
        ensures
            r == prev_pos(self.text(), pos as int),
    ;

    /// Gives the position following the last instance of `delim` at or before `pos`.
    fn start_of(&self, pos: usize, delim: char) -> (r: usize)
        requires
            is_boundary(self.text(), pos as int),
        ensures
            r == after_last(self.text(), pos as int, is_char(delim)),
    ;

    /// Gives the position of the first instance of `delim` at or after `pos`.
    fn end_of(&self, pos: usize, delim: char) -> (r: usize)
        requires
            is_boundary(self.text(), pos as int),
        ensures
            r == first_at(self.text(), pos as int, is_char(delim)),
    ;

    /// Counts the number of newlines before `pos`.
    fn line_index(&self, pos: usize) -> (r: usize)
        requires
            is_boundary(self.text(), pos as int),
        ensures
            r == count_before(self.text(), index_at(self.text(), pos as int), is_char('\n')),
    ;

    /// Gives the position following the last space or newline at or before `pos`.
    fn word_start(&self, pos: usize) -> (r: usize)
        requires
            is_boundary(self.text(), pos as int),
        ensures
            is_boundary(self.text(), r as int),
            r <= pos,
        default_ensures
            r == max_int(
                after_last(self.text(), pos as int, is_char(' ')),
                after_last(self.text(), pos as int, is_char('\n')),
            ),
    {
        proof {
            lemma_after_last(self.text(), pos as int, is_char(' '));
            lemma_after_last(self.text(), pos as int, is_char('\n'));
        }
        let a = self.start_of(pos, ' ');
        let b = self.line_start(pos);
        if a < b {
            b
        } else {
            a
        }
    }

    /// Gives the position of the first space or newline at or after `pos`.
    fn word_end(&self, pos: usize) -> (r: usize)
        requires
            is_boundary(self.text(), pos as int),
        ensures
            is_boundary(self.text(), r as int),
            pos <= r,
        default_ensures
            r == min_int(
                first_at(self.text(), pos as int, is_char(' ')),
                first_at(self.text(), pos as int, is_char('\n')),
            ),
    {
        proof {
            lemma_first_at(self.text(), pos as int, is_char(' '));
            lemma_first_at(self.text(), pos as int, is_char('\n'));
        }
        let a = self.end_of(pos, ' ');
        let b = self.line_end(pos);
        if a < b {
            a
        } else {
            b
        }
    }

    /// Gives the position following the last newline at or before `pos`.
    fn line_start(&self, pos: usize) -> (r: usize)
        requires
            is_boundary(self.text(), pos as int),
        ensures
            r == after_last(self.text(), pos as int, is_char('\n')),
    {
        self.start_of(pos, '\n')
    }

    /// Gives the position of the first newline at or after `pos`.
    fn line_end(&self, pos: usize) -> (r: usize)
        requires
            is_boundary(self.text(), pos as int),
        ensures
            r == first_at(self.text(), pos as int, is_char('\n')),
    {
        self.end_of(pos, '\n')
    }

    /// Snaps `range` to the tightest line boundaries that fully contain it.
    fn line_range(&self, range: Range<usize>) -> (r: Range<usize>)
        requires
            is_boundary(self.text(), range.start as int),
            is_boundary(self.text(), range.end as int),
        ensures
            r.start == after_last(self.text(), range.start as int, is_char('\n')),
            r.end == first_at(self.text(), range.end as int, is_char('\n')),
    {
        Range { start: self.line_start(range.start), end: self.line_end(range.end) }
    }

    /// Gives the range of every [`Self::line_index`] that overlaps `range`.
    fn line_indices(&self, range: Range<usize>) -> (r: RangeInclusive<usize>)
        requires
            is_boundary(self.text(), range.start as int),
            is_boundary(self.text(), range.end as int),
        ensures
            r@.start == count_before(
                self.text(),
                index_at(self.text(), range.start as int),
                is_char('\n'),
            ),
            r@.end == count_before(
                self.text(),
                index_at(self.text(), range.end as int),
                is_char('\n'),
            ),
            !r@.exhausted,
    {
        RangeInclusive::new(self.line_index(range.start), self.line_index(range.end))
    }

    /// Given the visual row of a point within the document (the point's
    /// distance from the top divided by the line height, rounded down) and
    /// the number of lines scrolled past, identifies the index of the last
    /// line that is not further in the document than the point.
    ///
    /// # Warning
    /// Assumes there is no line wrapping in the document.
    fn find_line(&self, row: usize, offset: usize) -> (r: usize)
        ensures
            r == line_choice(row as int, offset as int, line_spans(self.text()).len() as int),
    {
        let count = self.line_count();
        let last = if count == 0 {
            0
        } else {
            count - 1
        };
        let want = row.saturating_add(offset);
        if want < last {
            want
        } else {
            last
        }
    }

    /// Finds the range between newline characters on the line found with [`Self::find_line`]
    fn find_line_slice(&self, row: usize, offset: usize) -> (r: &str)
        ensures
            ({
                let spans = line_spans(self.text());
                let i = line_choice(row as int, offset as int, spans.len() as int);
                r@ == if i < spans.len() {
                    self.text().subrange(spans[i].0, spans[i].1)
                } else {
                    Seq::<char>::empty()
                }
            }),
    ;

    /// Given a way to tell whether a horizontal point within a line is
    /// reached by the end of a prefix of the line, locates the start of the
    /// first character whose end reaches the point, or the end of the line.
    ///
    /// `reaches` is called on the prefixes ending after each character in
    /// turn, until it returns `true`.
    ///
    /// # Warning
    /// Assumes `self` is single-line slice and is not wrapped.
    fn find_pos<F: Fn(&str) -> bool>(&self, reaches: F) -> (r: usize)
        requires
            forall|t: &str| #[trigger] reaches.requires((t,)),
        ensures
            found_pos(reaches, self.text(), r as int),
    ;
}

impl Document for str {
    open spec fn text(&self) -> Seq<char> {
        self@
    }

    #[inline]
    fn len(&self) -> (r: usize) {
        byte_length(self)
    }

    #[inline]
    fn is_empty(&self) -> (r: bool) {
        self.is_empty()
    }

    #[inline]
    fn line_count(&self) -> (r: usize) {
        line_bounds(self).len()
    }

    #[inline]
    fn as_slice(&self) -> (r: &str) {
        self
    }

    fn next_char(&self, pos: usize) -> (r: usize) {
        let ghost cs = self@;
        let ghost k = index_at(cs, pos as int);
        proof {
            lemma_boundary_index(cs, pos as int);
        }
        let n = byte_length(self);
        let (_, rest) = split_at_boundary(self, pos);
        let mut it = rest.chars();
        match it.next() {
            Some(c) => {
                proof {
                    assert(c == cs[k]);
                    lemma_offset_step(cs, k);
                    lemma_offset_range(cs, k + 1);
                    lemma_offset_ends(cs);
                }
                pos + char_len(c)
            },
            None => {
                proof {
                    assert(cs.skip(k).len() == 0);
                }
                pos
            },
        }
    }

    fn prev_char(&self, pos: usize) -> (r: usize) {
        let ghost cs = self@;
        let ghost k = index_at(cs, pos as int);
        let ghost bytes = encode_utf8(cs);
        proof {
            lemma_boundary_index(cs, pos as int);
            lemma_offset_ends(cs);
            encode_utf8_valid_utf8(cs);
        }
        if pos == 0 {
            return 0;
        }
        proof {
            if k == 0 {
                assert(false);
            }
            lemma_offset_index_prev(cs, k);
        }
        let bytes_exec = self.as_bytes();
        let mut i: usize = pos - 1;
        while i > 0 && 0x80 <= bytes_exec[i] && bytes_exec[i] <= 0xbf
            invariant
                bytes_exec@ == bytes,
                bytes == encode_utf8(cs),
                valid_utf8(bytes),
                0 <= i < pos <= bytes.len(),
                offset(cs, k) == pos,
                0 < k <= cs.len(),
                is_boundary(cs, offset(cs, k - 1)),
                offset(cs, k - 1) < pos,
                forall|j: int| i < j < pos ==> !is_boundary(cs, j),
            decreases i,
        {
            proof {
                is_char_boundary_iff_not_is_continuation_byte(bytes, i as int);
                lemma_char_boundary(cs, i as int);
            }
            i = i - 1;
        }
        proof {
            if i > 0 {
                is_char_boundary_iff_not_is_continuation_byte(bytes, i as int);
            }
            lemma_char_boundary(cs, i as int);
            lemma_offset_ends(cs);
            assert(is_boundary(cs, i as int));
            lemma_boundary_before(cs, k, i as int);
            if (i as int) < offset(cs, k - 1) {
                assert(!is_boundary(cs, offset(cs, k - 1)));
            }
        }
        i
    }

    fn start_of(&self, pos: usize, delim: char) -> (r: usize) {
        scan_after_last(self, pos, Pattern::Char(delim), Ghost(is_char(delim)))
    }

    fn end_of(&self, pos: usize, delim: char) -> (r: usize) {
        scan_first_at(self, pos, Pattern::Char(delim), Ghost(is_char(delim)))
    }

    fn line_index(&self, pos: usize) -> (r: usize) {
        scan_count(self, pos, Pattern::Char('\n'), Ghost(is_char('\n')))
    }

    /// Gives the position following the last space or newline before `pos`.
    fn word_start(&self, pos: usize) -> (r: usize)
        ensures
            r == after_last(self@, pos as int, word_break()),
    {
        proof {
            lemma_after_last(self@, pos as int, word_break());
        }
        scan_after_last(self, pos, Pattern::WordBreak, Ghost(word_break()))
    }

    /// Gives the position of the first space or newline at or after `pos`.
    fn word_end(&self, pos: usize) -> (r: usize)
        ensures
            r == first_at(self@, pos as int, word_break()),
    {
        proof {
            lemma_first_at(self@, pos as int, word_break());
        }
        scan_first_at(self, pos, Pattern::WordBreak, Ghost(word_break()))
    }

    fn find_line_slice(&self, row: usize, offset: usize) -> (r: &str) {
        let ghost cs = self@;
        let range = find_line_range(self, row, offset);
        proof {
            let (x, y) = chosen_span(cs, row as int, offset as int);
            lemma_spans_from_wf(cs, 0);
            lemma_index_at(cs, x);
            lemma_index_at(cs, y);
            assert(cs.subrange(cs.len() as int, cs.len() as int) =~= Seq::<char>::empty());
        }
        substr(self, range.start, range.end)
    }

    fn find_pos<F: Fn(&str) -> bool>(&self, reaches: F) -> (r: usize) {
        let ghost cs = self@;
        proof {
            lemma_offset_ends(cs);
        }
        let n = byte_length(self);
        let mut it = self.chars();
        let mut b: usize = 0;
        let ghost mut k: int = 0;
        loop
            invariant
                cs == self@,
                n == byte_len(cs),
                0 <= k <= cs.len(),
                b == offset(cs, k),
                it.remaining() == cs.skip(k),
                forall|t: &str| #[trigger] reaches.requires((t,)),
                forall|m: int| 0 < m <= k ==> #[trigger] answered(reaches, cs.take(m), false),
            decreases cs.len() - k,
        {
            let c = match it.next() {
                Some(c) => c,
                None => {
                    proof {
                        assert(cs.skip(k).len() == 0);
                        lemma_index_at(cs, k);
                    }
                    return b;
                },
            };
            proof {
                assert(c == cs[k]);
                lemma_offset_step(cs, k);
                lemma_offset_range(cs, k + 1);
                lemma_index_at(cs, k + 1);
                lemma_index_at(cs, 0);
                lemma_index_at(cs, k);
            }
            let next = b + char_len(c);
            let prefix = substr(self, 0, next);
            proof {
                assert(cs.subrange(0, k + 1) =~= cs.take(k + 1));
            }
            let reached = reaches(prefix);
            if reached {
                return b;
            }
            b = next;
            proof {
                k = k + 1;
                assert(cs.skip(k - 1).drop_first() =~= cs.skip(k));
            }
        }
    }
}

impl std::ops::Index<Selection> for str {
    type Output = str;

    /// The selected part of the text
    #[inline]
    fn index(&self, index: Selection) -> (r: &str)
        ensures
            r@ == self@.subrange(
                index_at(self@, index.low() as int),
                index_at(self@, index.high() as int),
            ),
    {
        substr(self, *index.start(), *index.end())
    }
}

impl vstd::std_specs::core::IndexSpecImpl<Selection> for str {
    /// Both ends of the selection lie on character boundaries.
    open spec fn index_req(&self, index: &Selection) -> bool {
        is_boundary(self@, index.low() as int) && is_boundary(self@, index.high() as int)
    }
}

/// `r` is a position where [`Document::find_pos`] stops in `cs` given the
/// answers of `f`: a boundary such that `f` answered `false` for every prefix
/// ending after a character before `r`, and `true` for the prefix ending after
/// the character at `r`, if there is one.
pub open spec fn found_pos<F: Fn(&str) -> bool>(f: F, cs: Seq<char>, r: int) -> bool {
    &&& is_boundary(cs, r)
    &&& forall|n: int| 0 < n <= index_at(cs, r) ==> #[trigger] answered(f, cs.take(n), false)
    &&& index_at(cs, r) < cs.len() ==> answered(f, cs.take(index_at(cs, r) + 1), true)
}

/// The character range of the line that [`Document::find_line`] picks, or the
/// empty range at the end when there are no lines.
pub open spec fn chosen_span(cs: Seq<char>, row: int, scroll: int) -> (int, int) {
    let spans = line_spans(cs);
    let i = line_choice(row, scroll, spans.len() as int);
    if i < spans.len() {
        spans[i]
    } else {
        (cs.len() as int, cs.len() as int)
    }
}

/// The range that [`Document::line_range`] snaps to contains the given range,
/// starts just after a newline or at the start of the text, and ends at a
/// newline or at the end of the text.
pub proof fn law_line_range_contains(cs: Seq<char>, start: int, end: int)
    requires
        start <= end,
        is_boundary(cs, start),
        is_boundary(cs, end),
    ensures
        after_last(cs, start, is_char('\n')) <= start,
        end <= first_at(cs, end, is_char('\n')),
        after_last(cs, start, is_char('\n')) == 0 || cs[index_at(
            cs,
            after_last(cs, start, is_char('\n')),
        ) - 1] == '\n',
        first_at(cs, end, is_char('\n')) == byte_len(cs) || cs[index_at(
            cs,
            first_at(cs, end, is_char('\n')),
        )] == '\n',
{
    let nl = is_char('\n');
    lemma_after_last(cs, start, nl);
    lemma_first_at(cs, end, nl);
    lemma_boundary_index(cs, start);
    lemma_boundary_index(cs, end);
    lemma_last_match_range(cs, index_at(cs, start), nl);
    lemma_first_match_range(cs, index_at(cs, end), nl);
    lemma_offset_ends(cs);
}

/// The chosen line lies within the text.
pub proof fn lemma_chosen_span(cs: Seq<char>, row: int, scroll: int)
    requires
        0 <= row,
        0 <= scroll,
    ensures
        0 <= chosen_span(cs, row, scroll).0 <= chosen_span(cs, row, scroll).1 <= cs.len(),
{
    lemma_spans_from_wf(cs, 0);
    let spans = line_spans(cs);
    let i = line_choice(row, scroll, spans.len() as int);
    if i < spans.len() {
        assert(spans_from(cs, 0)[i] == spans[i]);
    }
}

/// The byte range of the line that [`Document::find_line_slice`] gives.
pub fn find_line_range(s: &str, row: usize, scroll: usize) -> (r: Range<usize>)
    ensures
        r.start == offset(s@, chosen_span(s@, row as int, scroll as int).0),
        r.end == offset(s@, chosen_span(s@, row as int, scroll as int).1),
        r.start <= r.end,
        is_boundary(s@, r.start as int),
        is_boundary(s@, r.end as int),
{
    let ghost cs = s@;
    let bounds = line_bounds(s);
    let i = s.find_line(row, scroll);
    proof {
        lemma_spans_from_wf(cs, 0);
        lemma_offset_ends(cs);
    }
    if i < bounds.len() {
        let (a, b) = bounds[i];
        proof {
            let (x, y) = line_spans(cs)[i as int];
            lemma_index_at(cs, x);
            lemma_index_at(cs, y);
            if x < y {
                lemma_offset_lt(cs, x, y);
            }
        }
        Range { start: a, end: b }
    } else {
        let n = byte_length(s);
        proof {
            lemma_index_at(cs, cs.len() as int);
        }
        Range { start: n, end: n }
    }
}

/// `f` gave the answer `b` for a string holding the characters `cs`.
pub open spec fn answered<F: Fn(&str) -> bool>(f: F, cs: Seq<char>, b: bool) -> bool {
    exists|t: &str| #[trigger] f.ensures((t,), b) && t@ == cs
}

/// The larger of two integers.
pub open spec fn max_int(a: int, b: int) -> int {
    if a < b {
        b
    } else {
        a
    }
}

/// The smaller of two integers.
pub open spec fn min_int(a: int, b: int) -> int {
    if a < b {
        a
    } else {
        b
    }
}

} // verus!
