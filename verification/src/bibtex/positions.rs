//! Laws of positions: what the columns of a trace count.

use vstd::prelude::*;
use vstd::utf8::{
    decode_utf8, is_char_boundary_iff_not_is_continuation_byte, is_char_boundary_start_end_of_seq,
    is_continuation_byte, length_of_first_scalar, pop_first_scalar, valid_utf8,
};
use super::grammar::LINE_FEED;
use super::model::{count_chars, line_start, trace_at, InputView};
use super::text::{is_boundary, lemma_boundary_after_ascii, lemma_text_between_boundaries};

verus! {

/// The first place at or after `i` where the buffer may be cut.
pub open spec fn next_boundary(s: Seq<u8>, i: int) -> int
    decreases s.len() - i,
{
    if i < 0 || i >= s.len() {
        s.len() as int
    } else if is_continuation_byte(s[i]) {
        next_boundary(s, i + 1)
    } else {
        i
    }
}

/// The characters that begin in a range are those that begin in its two
/// parts.
proof fn lemma_count_chars_split(s: Seq<u8>, from: int, mid: int, to: int)
    requires
        from <= mid <= to,
    ensures
        count_chars(s, from, to) == count_chars(s, from, mid) + count_chars(s, mid, to),
    decreases to - mid,
{
    if mid < to {
        lemma_count_chars_split(s, from, mid, to - 1);
    }
}

/// The characters that begin in a range of a buffer are those that begin in
/// the range taken by itself.
proof fn lemma_count_chars_of_subrange(s: Seq<u8>, from: int, to: int, n: int)
    requires
        0 <= from <= to <= s.len(),
        0 <= n <= to - from,
    ensures
        count_chars(s, from, from + n) == count_chars(s.subrange(from, to), 0, n),
    decreases n,
{
    if n > 0 {
        lemma_count_chars_of_subrange(s, from, to, n - 1);
    }
}

/// As many characters begin in a text as the text decodes to.
proof fn lemma_count_chars_of_text(text: Seq<u8>)
    requires
        valid_utf8(text),
    ensures
        count_chars(text, 0, text.len() as int) == decode_utf8(text).len(),
    decreases text.len(),
{
    if text.len() > 0 {
        let n = length_of_first_scalar(text);
        let rest = pop_first_scalar(text);
        assert(count_chars(text, 0, n) == 1) by {
            reveal_with_fuel(count_chars, 5);
        }
        lemma_count_chars_split(text, 0, n, text.len() as int);
        lemma_count_chars_of_subrange(text, n, text.len() as int, text.len() - n);
        lemma_count_chars_of_text(rest);
    }
}

/// No character begins between a position and the next place where the
/// buffer may be cut.
proof fn lemma_count_chars_to_boundary(s: Seq<u8>, from: int, to: int)
    requires
        0 <= from <= to <= s.len(),
    ensures
        to <= next_boundary(s, to) <= s.len(),
        is_boundary(s, next_boundary(s, to)),
        count_chars(s, from, next_boundary(s, to)) == count_chars(s, from, to),
    decreases s.len() - to,
{
    if to < s.len() && is_continuation_byte(s[to]) {
        lemma_count_chars_to_boundary(s, from, to + 1);
    }
}

/// A line begins where the buffer may be cut, at or before the byte that the
/// line was sought for.
proof fn lemma_line_start_boundary(s: Seq<u8>, upto: int)
    requires
        valid_utf8(s),
        0 <= upto <= s.len(),
    ensures
        0 <= line_start(s, upto) <= upto,
        is_boundary(s, line_start(s, upto)),
    decreases upto,
{
    if upto > 0 {
        if s[upto - 1] == LINE_FEED {
            lemma_boundary_after_ascii(s, upto - 1);
        } else {
            lemma_line_start_boundary(s, upto - 1);
        }
    } else if s.len() > 0 {
        is_char_boundary_start_end_of_seq(s);
        is_char_boundary_iff_not_is_continuation_byte(s, 0);
    }
}

/// Columns count characters, not bytes: in a buffer of UTF-8 text, the
/// column of the byte at `offset` is the number of characters that the text
/// decodes to from the start of the line through the character that the byte
/// belongs to.
pub proof fn law_columns_count_characters(src: InputView, offset: int)
    requires
        valid_utf8(src.content),
        0 <= offset < src.content.len(),
    ensures
        ({
            let start = line_start(src.content, offset + 1);
            let end = next_boundary(src.content, offset + 1);
            &&& 0 <= start <= offset + 1 <= end <= src.content.len()
            &&& valid_utf8(src.content.subrange(start, end))
            &&& trace_at(src, offset).col == decode_utf8(src.content.subrange(start, end)).len()
        }),
{
    let s = src.content;
    let start = line_start(s, offset + 1);
    let end = next_boundary(s, offset + 1);
    lemma_line_start_boundary(s, offset + 1);
    lemma_count_chars_to_boundary(s, start, offset + 1);
    lemma_text_between_boundaries(s, start, end);
    lemma_count_chars_of_subrange(s, start, end, end - start);
    lemma_count_chars_of_text(s.subrange(start, end));
}

} // verus!
