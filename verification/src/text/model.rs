//! The mathematical model of a document: a sequence of characters whose
//! positions are byte offsets into its UTF-8 encoding.

use vstd::prelude::*;
use vstd::utf8::*;

verus! {

/// The number of bytes in the UTF-8 encoding of `c`.
pub open spec fn char_width(c: char) -> int {
    encode_scalar(c as u32).len() as int
}

/// The byte at which the `k`-th character of `cs` starts
/// (the total byte length when `k == cs.len()`).
pub open spec fn offset(cs: Seq<char>, k: int) -> int {
    encode_utf8(cs.take(k)).len() as int
}

/// The number of bytes in the UTF-8 encoding of `cs`.
pub open spec fn byte_len(cs: Seq<char>) -> int {
    encode_utf8(cs).len() as int
}

/// `pos` is a byte position at which a character of `cs` starts, or the end of `cs`.
pub open spec fn is_boundary(cs: Seq<char>, pos: int) -> bool {
    exists|k: int| 0 <= k <= cs.len() && #[trigger] offset(cs, k) == pos
}

/// The index of the character that starts at byte position `pos`.
pub open spec fn index_at(cs: Seq<char>, pos: int) -> int {
    choose|k: int| 0 <= k <= cs.len() && #[trigger] offset(cs, k) == pos
}

/// Every character is encoded in one to four bytes.
pub proof fn lemma_width(c: char)
    ensures
        1 <= char_width(c) <= 4,
{
}

/// Encoding distributes over concatenation.
pub proof fn lemma_encode_append(a: Seq<char>, b: Seq<char>)
    ensures
        encode_utf8(a + b) == encode_utf8(a) + encode_utf8(b),
    decreases a.len(),
{
    if a.len() == 0 {
        assert(a + b =~= b);
        assert(encode_utf8(a) + encode_utf8(b) =~= encode_utf8(b));
    } else {
        assert((a + b).drop_first() =~= a.drop_first() + b);
        lemma_encode_append(a.drop_first(), b);
        assert((a + b)[0] == a[0]);
        assert(encode_utf8(a + b) =~= encode_utf8(a) + encode_utf8(b));
    }
}

/// The encoding of a single character.
pub proof fn lemma_encode_single(c: char)
    ensures
        encode_utf8(seq![c]) == encode_scalar(c as u32),
{
    reveal_with_fuel(encode_utf8, 2);
    assert(seq![c].drop_first() =~= Seq::<char>::empty());
    assert(encode_utf8(seq![c]) =~= encode_scalar(c as u32));
}

/// Two character sequences with the same encoding are equal.
pub proof fn lemma_encode_injective(a: Seq<char>, b: Seq<char>)
    requires
        encode_utf8(a) == encode_utf8(b),
    ensures
        a == b,
{
    encode_utf8_decode_utf8(a);
    encode_utf8_decode_utf8(b);
}

/// Offsets at the ends of the sequence.
pub proof fn lemma_offset_ends(cs: Seq<char>)
    ensures
        offset(cs, 0) == 0,
        offset(cs, cs.len() as int) == byte_len(cs),
{
    assert(cs.take(0) =~= Seq::<char>::empty());
    assert(cs.take(cs.len() as int) =~= cs);
}

/// Moving over one character advances the byte offset by its width.
pub proof fn lemma_offset_step(cs: Seq<char>, k: int)
    requires
        0 <= k < cs.len(),
    ensures
        offset(cs, k + 1) == offset(cs, k) + char_width(cs[k]),
{
    assert(cs.take(k + 1) =~= cs.take(k) + seq![cs[k]]);
    lemma_encode_append(cs.take(k), seq![cs[k]]);
    lemma_encode_single(cs[k]);
}

/// Byte offsets strictly increase with the character index.
pub proof fn lemma_offset_lt(cs: Seq<char>, i: int, j: int)
    requires
        0 <= i < j <= cs.len(),
    ensures
        offset(cs, i) < offset(cs, j),
    decreases j - i,
{
    lemma_offset_step(cs, j - 1);
    lemma_width(cs[j - 1]);
    if i < j - 1 {
        lemma_offset_lt(cs, i, j - 1);
    }
}

/// Byte offsets lie between zero and the byte length.
pub proof fn lemma_offset_range(cs: Seq<char>, k: int)
    requires
        0 <= k <= cs.len(),
    ensures
        0 <= offset(cs, k) <= byte_len(cs),
{
    lemma_offset_ends(cs);
    if k < cs.len() {
        lemma_offset_lt(cs, k, cs.len() as int);
    }
}

/// The offset of index `k` is the byte position of the character index `k`.
pub proof fn lemma_index_at(cs: Seq<char>, k: int)
    requires
        0 <= k <= cs.len(),
    ensures
        is_boundary(cs, offset(cs, k)),
        index_at(cs, offset(cs, k)) == k,
{
    assert(is_boundary(cs, offset(cs, k)));
    let j = index_at(cs, offset(cs, k));
    if j < k {
        lemma_offset_lt(cs, j, k);
    } else if k < j {
        lemma_offset_lt(cs, k, j);
    }
}

/// A boundary position names the offset of its index.
pub proof fn lemma_boundary_index(cs: Seq<char>, pos: int)
    requires
        is_boundary(cs, pos),
    ensures
        0 <= index_at(cs, pos) <= cs.len(),
        offset(cs, index_at(cs, pos)) == pos,
        0 <= pos <= byte_len(cs),
{
    let k = index_at(cs, pos);
    lemma_offset_range(cs, k);
}

/// Offsets within a suffix are offsets within the whole minus the suffix's start.
pub proof fn lemma_offset_skip(cs: Seq<char>, i: int, j: int)
    requires
        0 <= i <= j <= cs.len(),
    ensures
        offset(cs.skip(i), j - i) == offset(cs, j) - offset(cs, i),
{
    assert(cs.take(j) =~= cs.take(i) + cs.skip(i).take(j - i));
    lemma_encode_append(cs.take(i), cs.skip(i).take(j - i));
}

/// The encoding of a sequence splits at the offset of any index.
pub proof fn lemma_encode_split(cs: Seq<char>, k: int)
    requires
        0 <= k <= cs.len(),
    ensures
        encode_utf8(cs) == encode_utf8(cs.take(k)) + encode_utf8(cs.skip(k)),
        encode_utf8(cs).subrange(0, offset(cs, k)) == encode_utf8(cs.take(k)),
        encode_utf8(cs).subrange(offset(cs, k), byte_len(cs)) == encode_utf8(cs.skip(k)),
{
    assert(cs =~= cs.take(k) + cs.skip(k));
    lemma_encode_append(cs.take(k), cs.skip(k));
    let e = encode_utf8(cs);
    assert(e.subrange(0, offset(cs, k)) =~= encode_utf8(cs.take(k)));
    assert(e.subrange(offset(cs, k), byte_len(cs)) =~= encode_utf8(cs.skip(k)));
}

/// Dropping the first character shifts every later offset by its width.
proof fn lemma_offset_drop_first(cs: Seq<char>, k: int)
    requires
        0 <= k < cs.len(),
    ensures
        offset(cs, k + 1) == char_width(cs[0]) + offset(cs.drop_first(), k),
{
    assert(cs.take(k + 1) =~= seq![cs[0]] + cs.drop_first().take(k));
    lemma_encode_append(seq![cs[0]], cs.drop_first().take(k));
    lemma_encode_single(cs[0]);
}

/// The character boundaries of the UTF-8 encoding of `cs` are exactly the
/// offsets of its characters.
pub proof fn lemma_char_boundary(cs: Seq<char>, pos: int)
    ensures
        is_char_boundary(encode_utf8(cs), pos) <==> is_boundary(cs, pos),
    decreases cs.len(),
{
    let bytes = encode_utf8(cs);
    encode_utf8_valid_utf8(cs);
    lemma_offset_ends(cs);
    if pos == 0 {
        assert(offset(cs, 0) == 0);
    } else if pos < 0 || bytes.len() < pos {
        if is_boundary(cs, pos) {
            let k = choose|k: int| 0 <= k <= cs.len() && #[trigger] offset(cs, k) == pos;
            lemma_offset_range(cs, k);
        }
    } else {
        let rest = cs.drop_first();
        encode_utf8_first_scalar(cs);
        assert(pop_first_scalar(bytes) =~= encode_utf8(rest));
        let w = char_width(cs[0]);
        lemma_char_boundary(rest, pos - w);
        if is_boundary(rest, pos - w) {
            let k = choose|k: int| 0 <= k <= rest.len() && #[trigger] offset(rest, k) == pos - w;
            lemma_offset_drop_first(cs, k);
            assert(offset(cs, k + 1) == pos);
        }
        if is_boundary(cs, pos) {
            let k = choose|k: int| 0 <= k <= cs.len() && #[trigger] offset(cs, k) == pos;
            assert(k > 0);
            lemma_offset_drop_first(cs, k - 1);
            assert(offset(rest, k - 1) == pos - w);
        }
    }
}


/// Splitting the encoding of `cs` at the offset of index `k` yields the
/// encodings of the characters before and after `k`.
pub proof fn lemma_split_views(cs: Seq<char>, k: int, a: Seq<char>, b: Seq<char>)
    requires
        0 <= k <= cs.len(),
        encode_utf8(a) == encode_utf8(cs).subrange(0, offset(cs, k)),
        encode_utf8(b) == encode_utf8(cs).subrange(offset(cs, k), byte_len(cs)),
    ensures
        a == cs.take(k),
        b == cs.skip(k),
{
    lemma_encode_split(cs, k);
    lemma_encode_injective(a, cs.take(k));
    lemma_encode_injective(b, cs.skip(k));
}

/// The byte position of the character after the one starting at `pos`
/// (`pos` itself at the end).
pub open spec fn next_pos(cs: Seq<char>, pos: int) -> int {
    let k = index_at(cs, pos);
    if k < cs.len() {
        offset(cs, k + 1)
    } else {
        pos
    }
}

/// The byte position of the character before the one starting at `pos`
/// (`0` at the start).
pub open spec fn prev_pos(cs: Seq<char>, pos: int) -> int {
    let k = index_at(cs, pos);
    if k > 0 {
        offset(cs, k - 1)
    } else {
        0
    }
}

/// The index of the last character before index `k` that satisfies `p`, or `-1`.
pub open spec fn last_match(cs: Seq<char>, k: int, p: spec_fn(char) -> bool) -> int
    decreases k,
{
    if k <= 0 {
        -1
    } else if p(cs[k - 1]) {
        k - 1
    } else {
        last_match(cs, k - 1, p)
    }
}

/// The index of the first character at or after index `k` that satisfies `p`,
/// or `cs.len()`.
pub open spec fn first_match(cs: Seq<char>, k: int, p: spec_fn(char) -> bool) -> int
    decreases cs.len() - k,
{
    if k >= cs.len() {
        cs.len() as int
    } else if p(cs[k]) {
        k
    } else {
        first_match(cs, k + 1, p)
    }
}

/// The number of characters before index `k` that satisfy `p`.
pub open spec fn count_before(cs: Seq<char>, k: int, p: spec_fn(char) -> bool) -> nat
    decreases k,
{
    if k <= 0 {
        0
    } else {
        count_before(cs, k - 1, p) + if p(cs[k - 1]) {
            1nat
        } else {
            0nat
        }
    }
}

/// The byte position just after the last character before `pos` that
/// satisfies `p`, or `0` when there is none.
pub open spec fn after_last(cs: Seq<char>, pos: int, p: spec_fn(char) -> bool) -> int {
    offset(cs, last_match(cs, index_at(cs, pos), p) + 1)
}

/// The byte position of the first character at or after `pos` that satisfies
/// `p`, or the byte length when there is none.
pub open spec fn first_at(cs: Seq<char>, pos: int, p: spec_fn(char) -> bool) -> int {
    offset(cs, first_match(cs, index_at(cs, pos), p))
}

/// The character is a newline.
pub open spec fn is_newline(c: char) -> bool {
    c == '\n'
}

/// The character ends a word: a space or a newline.
pub open spec fn is_word_break(c: char) -> bool {
    c == ' ' || is_newline(c)
}

pub proof fn lemma_last_match_range(cs: Seq<char>, k: int, p: spec_fn(char) -> bool)
    requires
        0 <= k <= cs.len(),
    ensures
        -1 <= last_match(cs, k, p) < k,
        last_match(cs, k, p) >= 0 ==> p(cs[last_match(cs, k, p)]),
    decreases k,
{
    if k > 0 && !p(cs[k - 1]) {
        lemma_last_match_range(cs, k - 1, p);
    }
}

pub proof fn lemma_first_match_range(cs: Seq<char>, k: int, p: spec_fn(char) -> bool)
    requires
        0 <= k <= cs.len(),
    ensures
        k <= first_match(cs, k, p) <= cs.len(),
        first_match(cs, k, p) < cs.len() ==> p(cs[first_match(cs, k, p)]),
    decreases cs.len() - k,
{
    if k < cs.len() && !p(cs[k]) {
        lemma_first_match_range(cs, k + 1, p);
    }
}

pub proof fn lemma_count_before_le(cs: Seq<char>, k: int, p: spec_fn(char) -> bool)
    requires
        0 <= k <= cs.len(),
    ensures
        count_before(cs, k, p) <= k,
    decreases k,
{
    if k > 0 {
        lemma_count_before_le(cs, k - 1, p);
    }
}


/// Skipping over characters that do not satisfy `p` does not change the first match.
pub proof fn lemma_first_match_skip_over(cs: Seq<char>, i: int, k: int, p: spec_fn(char) -> bool)
    requires
        0 <= i <= k <= cs.len(),
        forall|j: int| i <= j < k ==> !p(#[trigger] cs[j]),
    ensures
        first_match(cs, i, p) == first_match(cs, k, p),
    decreases k - i,
{
    if i < k {
        lemma_first_match_skip_over(cs, i + 1, k, p);
    }
}

/// The last match before the character after a match is that match.
pub proof fn lemma_offset_index_prev(cs: Seq<char>, k: int)
    requires
        0 < k <= cs.len(),
    ensures
        offset(cs, k - 1) < offset(cs, k),
        is_boundary(cs, offset(cs, k - 1)),
        index_at(cs, offset(cs, k - 1)) == k - 1,
{
    lemma_offset_lt(cs, k - 1, k);
    lemma_index_at(cs, k - 1);
}

/// A boundary strictly before the offset of index `k` is at most the offset of index `k - 1`.
pub proof fn lemma_boundary_before(cs: Seq<char>, k: int, pos: int)
    requires
        0 < k <= cs.len(),
        is_boundary(cs, pos),
        pos < offset(cs, k),
    ensures
        pos <= offset(cs, k - 1),
{
    let j = index_at(cs, pos);
    lemma_boundary_index(cs, pos);
    if j > k - 1 {
        if j > k {
            lemma_offset_lt(cs, k, j);
        }
    } else if j < k - 1 {
        lemma_offset_lt(cs, j, k - 1);
    }
}


/// Every character takes at least one byte.
pub proof fn lemma_offset_ge_index(cs: Seq<char>, k: int)
    requires
        0 <= k <= cs.len(),
    ensures
        offset(cs, k) >= k,
    decreases k,
{
    lemma_offset_ends(cs);
    if k > 0 {
        lemma_offset_ge_index(cs, k - 1);
        lemma_offset_step(cs, k - 1);
        lemma_width(cs[k - 1]);
    }
}


/// The predicate of being the character `d`.
pub open spec fn is_char(d: char) -> spec_fn(char) -> bool {
    |c: char| c == d
}

/// The predicate of ending a word.
pub open spec fn word_break() -> spec_fn(char) -> bool {
    |c: char| is_word_break(c)
}

/// The character ranges `(start, end)` of the lines of `cs` that begin at or
/// after index `k`, as `str::lines` yields them: a line ends at a `'\n'`, a
/// `"\r\n"` ending is removed whole, and a final empty line is not counted.
pub open spec fn spans_from(cs: Seq<char>, k: int) -> Seq<(int, int)>
    decreases cs.len() - k,
{
    if k < 0 || k >= cs.len() {
        seq![]
    } else {
        let e = first_match(cs, k, is_char('\n'));
        let end = if e < cs.len() && e > k && cs[e - 1] == '\r' {
            e - 1
        } else {
            e
        };
        proof {
            lemma_first_match_range(cs, k, is_char('\n'));
        }
        if e >= cs.len() {
            seq![(k, end)]
        } else {
            seq![(k, end)] + spans_from(cs, e + 1)
        }
    }
}

/// The character ranges of the lines of `cs`.
pub open spec fn line_spans(cs: Seq<char>) -> Seq<(int, int)> {
    spans_from(cs, 0)
}

/// Every line lies within the text, in order, and holds no newline.
pub proof fn lemma_spans_from_wf(cs: Seq<char>, k: int)
    requires
        0 <= k,
    ensures
        forall|i: int|
            0 <= i < spans_from(cs, k).len() ==> {
                let (a, b) = #[trigger] spans_from(cs, k)[i];
                &&& k <= a <= b <= cs.len()
                &&& forall|j: int| a <= j < b ==> cs[j] != '\n'
            },
    decreases cs.len() - k,
{
    if k < cs.len() {
        let e = first_match(cs, k, is_char('\n'));
        lemma_first_match_range(cs, k, is_char('\n'));
        lemma_no_match_before(cs, k, is_char('\n'));
        let sp = spans_from(cs, k);
        if e < cs.len() {
            lemma_spans_from_wf(cs, e + 1);
            assert forall|i: int| 1 <= i < sp.len() implies sp[i] == spans_from(cs, e + 1)[i
                - 1] by {}
        }
        assert forall|j: int| k <= j < sp[0].1 implies cs[j] != '\n' by {
            assert(!is_char('\n')(cs[j]));
        }
    }
}

/// Counting matches is monotone in the index.
pub proof fn lemma_count_mono(cs: Seq<char>, i: int, k: int, p: spec_fn(char) -> bool)
    requires
        i <= k,
    ensures
        count_before(cs, i, p) <= count_before(cs, k, p),
    decreases k - i,
{
    if i < k {
        lemma_count_mono(cs, i, k - 1, p);
    }
}

/// Each line of `spans_from(cs, k)` starts and ends after as many newlines
/// as come before `k`, plus its place among those lines.
pub proof fn lemma_spans_count(cs: Seq<char>, k: int)
    requires
        0 <= k <= cs.len(),
    ensures
        forall|i: int|
            0 <= i < spans_from(cs, k).len() ==> {
                let (a, b) = #[trigger] spans_from(cs, k)[i];
                &&& count_before(cs, a, is_char('\n')) == count_before(cs, k, is_char('\n')) + i
                &&& count_before(cs, b, is_char('\n')) == count_before(cs, k, is_char('\n')) + i
            },
    decreases cs.len() - k,
{
    if k < cs.len() {
        let nl = is_char('\n');
        let e = first_match(cs, k, nl);
        lemma_first_match_range(cs, k, nl);
        lemma_no_match_before(cs, k, nl);
        let sp = spans_from(cs, k);
        let end = sp[0].1;
        assert(k <= end <= e);
        assert forall|j: int| k <= j < end implies !nl(#[trigger] cs[j]) by {}
        lemma_count_skip_over(cs, k, end, nl);
        if e < cs.len() {
            lemma_count_skip_over(cs, k, e, nl);
            assert(count_before(cs, e + 1, nl) == count_before(cs, e, nl) + 1);
            lemma_spans_count(cs, e + 1);
            assert forall|i: int| 1 <= i < sp.len() implies sp[i] == spans_from(cs, e + 1)[i
                - 1] by {}
        }
    }
}

/// No character before the first match satisfies the predicate.
pub proof fn lemma_no_match_before(cs: Seq<char>, k: int, p: spec_fn(char) -> bool)
    requires
        0 <= k <= cs.len(),
    ensures
        forall|j: int| k <= j < first_match(cs, k, p) ==> !p(#[trigger] cs[j]),
    decreases cs.len() - k,
{
    if k < cs.len() && !p(cs[k]) {
        lemma_no_match_before(cs, k + 1, p);
    }
}


/// A text has no bytes exactly when it has no characters.
pub proof fn lemma_byte_len_zero(cs: Seq<char>)
    ensures
        (byte_len(cs) == 0) == (cs.len() == 0),
{
    lemma_offset_ends(cs);
    lemma_offset_ge_index(cs, cs.len() as int);
}

/// What `after_last` gives: a boundary at or before `pos`, just after the last match.
pub proof fn lemma_after_last(cs: Seq<char>, pos: int, p: spec_fn(char) -> bool)
    requires
        is_boundary(cs, pos),
    ensures
        is_boundary(cs, after_last(cs, pos, p)),
        after_last(cs, pos, p) <= pos,
        index_at(cs, after_last(cs, pos, p)) == last_match(cs, index_at(cs, pos), p) + 1,
{
    let k = index_at(cs, pos);
    lemma_boundary_index(cs, pos);
    lemma_last_match_range(cs, k, p);
    let m = last_match(cs, k, p) + 1;
    lemma_index_at(cs, m);
    if m < k {
        lemma_offset_lt(cs, m, k);
    }
}

/// What `first_at` gives: a boundary at or after `pos`, at the first match.
pub proof fn lemma_first_at(cs: Seq<char>, pos: int, p: spec_fn(char) -> bool)
    requires
        is_boundary(cs, pos),
    ensures
        is_boundary(cs, first_at(cs, pos, p)),
        pos <= first_at(cs, pos, p),
        index_at(cs, first_at(cs, pos, p)) == first_match(cs, index_at(cs, pos), p),
{
    let k = index_at(cs, pos);
    lemma_boundary_index(cs, pos);
    lemma_first_match_range(cs, k, p);
    let m = first_match(cs, k, p);
    lemma_index_at(cs, m);
    if k < m {
        lemma_offset_lt(cs, k, m);
    }
}

/// The line picked for the visual row `row` scrolled down by `scroll` lines
/// among `count` lines: the sum, saturated at `usize::MAX`, clamped to the last line.
pub open spec fn line_choice(row: int, scroll: int, count: int) -> int {
    let want = if row + scroll > usize::MAX {
        usize::MAX as int
    } else {
        row + scroll
    };
    let last = if count == 0 {
        0
    } else {
        count - 1
    };
    if want < last {
        want
    } else {
        last
    }
}


/// The character before a boundary starts at a boundary at or before it.
pub proof fn lemma_prev_pos(cs: Seq<char>, pos: int)
    requires
        is_boundary(cs, pos),
    ensures
        is_boundary(cs, prev_pos(cs, pos)),
        0 <= prev_pos(cs, pos) <= pos,
{
    let k = index_at(cs, pos);
    lemma_boundary_index(cs, pos);
    lemma_offset_ends(cs);
    lemma_index_at(cs, 0);
    if k > 0 {
        lemma_offset_index_prev(cs, k);
    }
}

/// The character after a boundary starts at a boundary at or after it.
pub proof fn lemma_next_pos(cs: Seq<char>, pos: int)
    requires
        is_boundary(cs, pos),
    ensures
        is_boundary(cs, next_pos(cs, pos)),
        pos <= next_pos(cs, pos) <= byte_len(cs),
{
    let k = index_at(cs, pos);
    lemma_boundary_index(cs, pos);
    if k < cs.len() {
        lemma_offset_lt(cs, k, k + 1);
        lemma_index_at(cs, k + 1);
        lemma_offset_range(cs, k + 1);
    }
}


/// The bytes of the characters between indices `a` and `b` span the
/// difference of their offsets.
pub proof fn lemma_byte_len_subrange(cs: Seq<char>, a: int, b: int)
    requires
        0 <= a <= b <= cs.len(),
    ensures
        byte_len(cs.subrange(a, b)) == offset(cs, b) - offset(cs, a),
{
    lemma_offset_skip(cs, a, b);
    assert(cs.skip(a).take(b - a) =~= cs.subrange(a, b));
}


/// Offsets into a concatenation past its first part.
pub proof fn lemma_offset_concat(a: Seq<char>, b: Seq<char>, j: int)
    requires
        0 <= j <= b.len(),
    ensures
        offset(a + b, a.len() + j) == byte_len(a) + offset(b, j),
        offset(a + b, j) == offset(a, j) || j > a.len(),
{
    assert((a + b).take(a.len() + j) =~= a + b.take(j));
    lemma_encode_append(a, b.take(j));
    if j <= a.len() {
        assert((a + b).take(j) =~= a.take(j));
    }
}

/// Offsets within a subrange are offsets within the whole, less the subrange's start.
pub proof fn lemma_offset_subrange(cs: Seq<char>, a: int, b: int, j: int)
    requires
        0 <= a <= b <= cs.len(),
        0 <= j <= b - a,
    ensures
        offset(cs.subrange(a, b), j) == offset(cs, a + j) - offset(cs, a),
{
    lemma_offset_skip(cs, a, a + j);
    assert(cs.subrange(a, b).take(j) =~= cs.skip(a).take(j));
}

/// No character strictly between the last match before `k` and `k` matches.
pub proof fn lemma_no_match_after(cs: Seq<char>, k: int, p: spec_fn(char) -> bool)
    requires
        0 <= k <= cs.len(),
    ensures
        forall|j: int| last_match(cs, k, p) < j < k ==> !p(#[trigger] cs[j]),
    decreases k,
{
    if k > 0 && !p(cs[k - 1]) {
        lemma_no_match_after(cs, k - 1, p);
    }
}

/// Counting over characters that do not match adds nothing.
pub proof fn lemma_count_skip_over(cs: Seq<char>, i: int, k: int, p: spec_fn(char) -> bool)
    requires
        0 <= i <= k <= cs.len(),
        forall|j: int| i <= j < k ==> !p(#[trigger] cs[j]),
    ensures
        count_before(cs, i, p) == count_before(cs, k, p),
    decreases k - i,
{
    if i < k {
        lemma_count_skip_over(cs, i, k - 1, p);
    }
}

/// Stepping forward one character and back again returns to the start.
pub proof fn law_next_then_prev(cs: Seq<char>, pos: int)
    requires
        is_boundary(cs, pos),
        pos < byte_len(cs),
    ensures
        prev_pos(cs, next_pos(cs, pos)) == pos,
{
    let k = index_at(cs, pos);
    lemma_boundary_index(cs, pos);
    lemma_offset_ends(cs);
    if k == cs.len() {
        assert(false);
    }
    lemma_index_at(cs, k + 1);
}

/// Stepping back one character and forward again returns to the start.
pub proof fn law_prev_then_next(cs: Seq<char>, pos: int)
    requires
        is_boundary(cs, pos),
        pos > 0,
    ensures
        next_pos(cs, prev_pos(cs, pos)) == pos,
{
    let k = index_at(cs, pos);
    lemma_boundary_index(cs, pos);
    lemma_offset_ends(cs);
    if k == 0 {
        assert(false);
    }
    lemma_index_at(cs, k - 1);
}

/// A position lies within its line: the line starts at or before it, ends at
/// or after it, holds no newline in between, and the start of the line is on
/// the same line as the position.
pub proof fn law_position_within_line(cs: Seq<char>, pos: int)
    requires
        is_boundary(cs, pos),
    ensures
        after_last(cs, pos, is_char('\n')) <= pos <= first_at(cs, pos, is_char('\n')),
        forall|j: int|
            index_at(cs, after_last(cs, pos, is_char('\n'))) <= j < index_at(
                cs,
                first_at(cs, pos, is_char('\n')),
            ) ==> #[trigger] cs[j] != '\n',
        count_before(cs, index_at(cs, after_last(cs, pos, is_char('\n'))), is_char('\n'))
            == count_before(cs, index_at(cs, pos), is_char('\n')),
{
    let nl = is_char('\n');
    let k = index_at(cs, pos);
    lemma_boundary_index(cs, pos);
    lemma_after_last(cs, pos, nl);
    lemma_first_at(cs, pos, nl);
    lemma_no_match_after(cs, k, nl);
    lemma_no_match_before(cs, k, nl);
    lemma_last_match_range(cs, k, nl);
    let s = last_match(cs, k, nl) + 1;
    assert forall|j: int| s <= j < k implies !nl(#[trigger] cs[j]) by {}
    lemma_count_skip_over(cs, s, k, nl);
    assert forall|j: int| s <= j < first_match(cs, k, nl) implies #[trigger] cs[j] != '\n' by {
        if j < k {
            assert(!nl(cs[j]));
        } else {
            assert(!nl(cs[j]));
        }
    }
}

/// A position lies within its word: the word starts at or before it, ends at
/// or after it, and holds no space or newline in between.
pub proof fn law_position_within_word(cs: Seq<char>, pos: int)
    requires
        is_boundary(cs, pos),
    ensures
        after_last(cs, pos, word_break()) <= pos <= first_at(cs, pos, word_break()),
        forall|j: int|
            index_at(cs, after_last(cs, pos, word_break())) <= j < index_at(
                cs,
                first_at(cs, pos, word_break()),
            ) ==> !is_word_break(#[trigger] cs[j]),
{
    let w = word_break();
    let k = index_at(cs, pos);
    lemma_boundary_index(cs, pos);
    lemma_after_last(cs, pos, w);
    lemma_first_at(cs, pos, w);
    lemma_no_match_after(cs, k, w);
    lemma_no_match_before(cs, k, w);
    lemma_last_match_range(cs, k, w);
    let s = last_match(cs, k, w) + 1;
    assert forall|j: int| s <= j < first_match(cs, k, w) implies !is_word_break(#[trigger] cs[j]) by {
        assert(!w(cs[j]));
    }
}

} // verus!
