//! Documents that can be edited in place.

use crate::text::model::{
    byte_len, index_at, is_boundary, lemma_boundary_index, lemma_char_boundary,
    lemma_encode_append, lemma_encode_injective, lemma_encode_split, lemma_index_at,
    lemma_offset_concat, lemma_offset_ends, lemma_offset_lt, lemma_offset_range, offset,
};
use std::ops::Range;
use vstd::prelude::*;
use vstd::utf8::{encode_utf8, is_char_boundary};

verus! {

/// `String::replace_range` from std: std documents that it removes the bytes
/// `start..end` of `s` and puts the bytes of `with` in their place, and that
/// it panics unless both ends lie on character boundaries within `s`.
#[verifier::external_body]
fn string_replace_range(s: &mut String, start: usize, end: usize, with: &str)
    requires
        start <= end,
        is_char_boundary(encode_utf8(old(s)@), start as int),
        is_char_boundary(encode_utf8(old(s)@), end as int),
    ensures
        encode_utf8(final(s)@) == encode_utf8(old(s)@).subrange(0, start as int) + encode_utf8(
            with@,
        ) + encode_utf8(old(s)@).subrange(end as int, encode_utf8(old(s)@).len() as int),
{
    s.replace_range(start..end, with)
}

/// The characters of `cs` with those between the boundaries `start` and `end`
/// replaced by `with`.
pub open spec fn spliced(cs: Seq<char>, start: int, end: int, with: Seq<char>) -> Seq<char> {
    cs.take(index_at(cs, start)) + with + cs.skip(index_at(cs, end))
}

/// Where the edit lands: replacing the bytes between the boundaries `start`
/// and `end` with `with` leaves `start` a boundary, puts the end of `with` at
/// `start + byte_len(with)`, and changes the byte length by the difference.
pub proof fn lemma_spliced(cs: Seq<char>, start: int, end: int, with: Seq<char>)
    requires
        start <= end,
        is_boundary(cs, start),
        is_boundary(cs, end),
    ensures
        index_at(spliced(cs, start, end, with), start) == index_at(cs, start),
        is_boundary(spliced(cs, start, end, with), start),
        index_at(spliced(cs, start, end, with), start + byte_len(with)) == index_at(cs, start)
            + with.len(),
        is_boundary(spliced(cs, start, end, with), start + byte_len(with)),
        byte_len(spliced(cs, start, end, with)) == byte_len(cs) - (end - start) + byte_len(with),
        spliced(cs, start, end, with).len() == cs.len() - (index_at(cs, end) - index_at(
            cs,
            start,
        )) + with.len(),
{
    let ks = index_at(cs, start);
    let ke = index_at(cs, end);
    lemma_boundary_index(cs, start);
    lemma_boundary_index(cs, end);
    if ke < ks {
        lemma_offset_lt(cs, ke, ks);
    }
    let a = cs.take(ks);
    let t = a + with + cs.skip(ke);
    assert(t =~= a + (with + cs.skip(ke)));
    lemma_offset_concat(a, with + cs.skip(ke), 0);
    lemma_offset_concat(a, with + cs.skip(ke), with.len() as int);
    lemma_offset_concat(with, cs.skip(ke), 0);
    lemma_offset_ends(with);
    lemma_offset_ends(cs.skip(ke));
    lemma_offset_ends(a);
    lemma_offset_ends(with + cs.skip(ke));
    lemma_encode_split(cs, ks);
    lemma_encode_split(cs, ke);
    assert(byte_len(a) == start);
    lemma_offset_ends(t);
    lemma_index_at(t, ks);
    lemma_index_at(t, ks + with.len());
    lemma_encode_append(a, with + cs.skip(ke));
    lemma_encode_append(with, cs.skip(ke));
}

/// Erasing what was just inserted gives back the text as it was.
pub proof fn law_insert_then_erase(cs: Seq<char>, pos: int, with: Seq<char>)
    requires
        is_boundary(cs, pos),
    ensures
        ({
            let t = spliced(cs, pos, pos, with);
            &&& is_boundary(t, pos)
            &&& is_boundary(t, pos + byte_len(with))
            &&& spliced(t, pos, pos + byte_len(with), Seq::empty()) == cs
        }),
{
    lemma_spliced(cs, pos, pos, with);
    let k = index_at(cs, pos);
    lemma_boundary_index(cs, pos);
    let t = spliced(cs, pos, pos, with);
    assert(t.take(k) =~= cs.take(k));
    assert(t.skip(k + with.len()) =~= cs.skip(k));
    assert(cs.take(k) + Seq::<char>::empty() + cs.skip(k) =~= cs);
}

/// Putting back what was just erased gives back the text as it was.
pub proof fn law_erase_then_insert(cs: Seq<char>, start: int, end: int)
    requires
        start <= end,
        is_boundary(cs, start),
        is_boundary(cs, end),
    ensures
        ({
            let t = spliced(cs, start, end, Seq::empty());
            &&& is_boundary(t, start)
            &&& spliced(t, start, start, cs.subrange(index_at(cs, start), index_at(cs, end)))
                == cs
        }),
{
    lemma_spliced(cs, start, end, Seq::empty());
    let ks = index_at(cs, start);
    let ke = index_at(cs, end);
    lemma_boundary_index(cs, start);
    lemma_boundary_index(cs, end);
    if ke < ks {
        lemma_offset_lt(cs, ke, ks);
    }
    let t = spliced(cs, start, end, Seq::empty());
    assert(t.take(ks) =~= cs.take(ks));
    assert(t.skip(ks) =~= cs.skip(ke));
    assert(cs.take(ks) + cs.subrange(ks, ke) + cs.skip(ke) =~= cs);
}

/// A document that can be edited
pub trait EditableDocument {
    /// The characters of the document.
    spec fn doc(&self) -> Seq<char>;

    /// Replace a slice of a document with another slice of possibly different size
    ///
    /// Replacing a non-empty range with an empty slice erases the range
    ///
    /// Replacing an empty range with a non-empty slice inserts the range
    fn replace_range(&mut self, range: Range<usize>, replace_with: &str)
        requires
            range.start <= range.end,
            is_boundary(old(self).doc(), range.start as int),
            is_boundary(old(self).doc(), range.end as int),
        ensures
            final(self).doc() == spliced(
                old(self).doc(),
                range.start as int,
                range.end as int,
                replace_with@,
            ),
    ;

    /// Equivalent to replacing the range with an empty slice
    #[inline]
    fn erase_range(&mut self, range: Range<usize>)
        requires
            range.start <= range.end,
            is_boundary(old(self).doc(), range.start as int),
            is_boundary(old(self).doc(), range.end as int),
        ensures
            final(self).doc() == spliced(
                old(self).doc(),
                range.start as int,
                range.end as int,
                Seq::empty(),
            ),
    {
        proof {
            reveal_strlit("");
        }
        self.replace_range(range, "");
    }

    /// Equivalent to replacing an empty range at `index` with `what`
    #[inline]
    fn insert_at(&mut self, index: usize, what: &str)
        requires
            is_boundary(old(self).doc(), index as int),
        ensures
            final(self).doc() == spliced(old(self).doc(), index as int, index as int, what@),
    {
        self.replace_range(Range { start: index, end: index }, what);
    }
}

impl EditableDocument for String {
    open spec fn doc(&self) -> Seq<char> {
        self@
    }

    #[inline]
    fn replace_range(&mut self, range: Range<usize>, replace_with: &str) {
        let ghost cs = self@;
        let ghost ks = index_at(cs, range.start as int);
        let ghost ke = index_at(cs, range.end as int);
        proof {
            lemma_char_boundary(cs, range.start as int);
            lemma_char_boundary(cs, range.end as int);
            lemma_boundary_index(cs, range.start as int);
            lemma_boundary_index(cs, range.end as int);
        }
        string_replace_range(self, range.start, range.end, replace_with);
        proof {
            lemma_encode_split(cs, ks);
            lemma_encode_split(cs, ke);
            let t = cs.take(ks) + replace_with@ + cs.skip(ke);
            lemma_encode_append(cs.take(ks), replace_with@);
            lemma_encode_append(cs.take(ks) + replace_with@, cs.skip(ke));
            assert(byte_len(cs) == encode_utf8(cs).len());
            lemma_encode_injective(self@, t);
        }
    }
}

} // verus!
