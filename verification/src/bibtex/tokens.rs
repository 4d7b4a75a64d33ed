//! Laws of the tokens: where identifiers and numbers end, which braces and
//! quotes close a value, and what a comment passes over.

use vstd::prelude::*;
use vstd::utf8::is_continuation_byte;
use super::grammar::{
    after_blank, after_token, brace_close, digits_end, ident_end, is_delimiter, is_digit, is_space,
    lemma_after_blank_bounds, lemma_brace_close_bounds, lemma_quote_close_bounds, line_end,
    quote_close, scan_atom, scan_braced, scan_name, scan_quoted, skip_blank, BACKSLASH, CLOSE_BRACE,
    HASH, LINE_FEED, OPEN_BRACE, PERCENT, QUOTE,
};
use super::model::{slice_of, InputView, SliceView, ValueView};

verus! {

/// A word that can stand as a name: no byte of it is a delimiter or
/// whitespace.
pub open spec fn is_plain(word: Seq<u8>) -> bool {
    forall|i: int| 0 <= i < word.len() ==> !is_delimiter(#[trigger] word[i]) && !is_space(word[i])
}

/// Whether `word` stands in `s` at `i`.
pub open spec fn stands_at(s: Seq<u8>, i: int, word: Seq<u8>) -> bool {
    0 <= i && i + word.len() <= s.len() && s.subrange(i, i + word.len()) == word
}

/// An identifier is as long as the plain word that stands there, if a
/// delimiter, whitespace or the end of the buffer follows the word.
pub proof fn lemma_ident_end_of_plain_word(s: Seq<u8>, i: int, word: Seq<u8>)
    requires
        stands_at(s, i, word),
        is_plain(word),
        i + word.len() == s.len() || is_delimiter(s[i + word.len()]) || is_space(
            s[i + word.len()],
        ),
    ensures
        ident_end(s, i) == i + word.len(),
    decreases word.len(),
{
    if word.len() > 0 {
        assert(s[i] == s.subrange(i, i + word.len())[0]);
        assert(s[i] == word[0]);
        let rest = word.subrange(1, word.len() as int);
        assert(s.subrange(i + 1, i + 1 + rest.len()) =~= rest);
        assert forall|j: int| 0 <= j < rest.len() implies !is_delimiter(#[trigger] rest[j])
            && !is_space(rest[j]) by {
            assert(rest[j] == word[j + 1]);
        }
        lemma_ident_end_of_plain_word(s, i + 1, rest);
    }
}

/// An identifier ends at the first delimiter or whitespace: no byte of it is
/// one, and the byte at its end is one unless the buffer ends there.
pub proof fn law_identifier_ends_at_first_delimiter(s: Seq<u8>, i: int)
    requires
        0 <= i <= s.len(),
    ensures
        i <= ident_end(s, i) <= s.len(),
        forall|j: int|
            i <= j < ident_end(s, i) ==> !is_delimiter(#[trigger] s[j]) && !is_space(s[j]),
        ident_end(s, i) < s.len() ==> is_delimiter(s[ident_end(s, i)]) || is_space(
            s[ident_end(s, i)],
        ),
    decreases s.len() - i,
{
    if i < s.len() && !(is_delimiter(s[i]) || is_space(s[i])) {
        law_identifier_ends_at_first_delimiter(s, i + 1);
    }
}

/// A run of digits ends at the first byte that is no digit.
pub proof fn law_digits_end_at_first_other_byte(s: Seq<u8>, i: int)
    requires
        0 <= i <= s.len(),
    ensures
        i <= digits_end(s, i) <= s.len(),
        forall|j: int| i <= j < digits_end(s, i) ==> is_digit(#[trigger] s[j]),
        digits_end(s, i) < s.len() ==> !is_digit(s[digits_end(s, i)]),
    decreases s.len() - i,
{
    if i < s.len() && is_digit(s[i]) {
        law_digits_end_at_first_other_byte(s, i + 1);
    }
}

/// Whether a bare word is the value that begins at the first significant
/// position at or after `i`: the byte there begins a character, and it is no
/// digit, `{` or `"`; and no `#` joins another value to the word.
pub open spec fn is_bare_word_at(s: Seq<u8>, i: int) -> bool {
    let p = skip_blank(s, i);
    &&& p < s.len()
    &&& !is_continuation_byte(s[p])
    &&& !is_digit(s[p])
    &&& s[p] != OPEN_BRACE
    &&& s[p] != QUOTE
    &&& scan_name(s, p).next != Some(HASH)
}

/// The bare word that begins at the first significant position at or after
/// `i`: the bytes from there up to the first delimiter or whitespace.
pub open spec fn bare_word_at(src: InputView, i: int) -> SliceView {
    let p = skip_blank(src.content, i);
    slice_of(src, p, ident_end(src.content, p))
}

/// A bare word is the name of a macro, and the value read is a reference to
/// that name: nothing is looked up, so it does not matter whether a macro of
/// that name is, or ever will be, defined.
pub proof fn law_bare_word_is_macro_reference(src: InputView, i: int, word: Seq<u8>)
    requires
        stands_at(src.content, i, word),
        is_plain(word),
        word.len() > 0,
        !is_digit(word[0]),
        word[0] != QUOTE,
        i + word.len() == src.content.len() || is_delimiter(src.content[i + word.len()])
            || is_space(src.content[i + word.len()]),
    ensures
        scan_atom(src, i) matches Some(v) && v.value == ValueView::MacroRef(
            slice_of(src, i, i + word.len()),
        ) && slice_of(src, i, i + word.len()).text == word,
{
    let s = src.content;
    assert(s[i] == s.subrange(i, i + word.len())[0]);
    assert(s[i] == word[0]);
    lemma_ident_end_of_plain_word(s, i, word);
    reveal(scan_atom);
}

/// The number of braces that stand open after the first `n` bytes of
/// `text`: those opened less those closed.
pub open spec fn open_braces(text: Seq<u8>, n: int) -> int
    decreases n,
{
    if n <= 0 {
        0
    } else if text[n - 1] == OPEN_BRACE {
        open_braces(text, n - 1) + 1
    } else if text[n - 1] == CLOSE_BRACE {
        open_braces(text, n - 1) - 1
    } else {
        open_braces(text, n - 1)
    }
}

/// Text whose braces match: none is closed that was not opened, and none is
/// left open.
pub open spec fn is_balanced(text: Seq<u8>) -> bool {
    &&& forall|n: int| 0 <= n <= text.len() ==> #[trigger] open_braces(text, n) >= 0
    &&& open_braces(text, text.len() as int) == 0
}

/// Inside balanced text that a `}` follows, the closing brace sought is that
/// `}`, whatever the depth that the text has reached.
proof fn lemma_brace_close_in_balanced(s: Seq<u8>, i: int, text: Seq<u8>, n: int)
    requires
        stands_at(s, i, text),
        i + text.len() < s.len(),
        s[i + text.len()] == CLOSE_BRACE,
        is_balanced(text),
        0 <= n <= text.len(),
    ensures
        brace_close(s, i + n, (1 + open_braces(text, n)) as nat) == Some(i + text.len()),
    decreases text.len() - n,
{
    assert(open_braces(text, n) >= 0);
    if n < text.len() {
        assert(s[i + n] == s.subrange(i, i + text.len())[n]);
        assert(s[i + n] == text[n]);
        assert(open_braces(text, n + 1) >= 0);
        lemma_brace_close_in_balanced(s, i, text, n + 1);
    }
}

/// Braces nest to any depth: where `{`, balanced text and `}` stand in a
/// buffer, the braced value read there has that text, whatever else the text
/// holds.
pub proof fn law_braces_nest(src: InputView, i: int, text: Seq<u8>)
    requires
        0 <= i < src.content.len(),
        src.content[i] == OPEN_BRACE,
        stands_at(src.content, i + 1, text),
        i + 1 + text.len() < src.content.len(),
        src.content[i + 1 + text.len()] == CLOSE_BRACE,
        is_balanced(text),
    ensures
        scan_braced(src.content, i) matches Some(t) && t.start == i + 1 && t.end == i + 1
            + text.len(),
        scan_atom(src, i) matches Some(v) && v.value == ValueView::Literal(
            slice_of(src, i + 1, i + 1 + text.len()),
        ),
        slice_of(src, i + 1, i + 1 + text.len()).text == text,
{
    lemma_brace_close_in_balanced(src.content, i + 1, text, 0);
    reveal(scan_atom);
}

/// On the way to the closing brace the depth follows the braces met: where
/// the closing brace sought from `k` at depth `depth` stands at `j`, the text
/// from `i` to `j` is read from `k` on with no brace closed that was not
/// opened, and it ends with none left open.
proof fn lemma_braced_text_is_balanced(s: Seq<u8>, i: int, k: int, j: int, depth: nat)
    requires
        0 <= i <= k <= j < s.len(),
        depth >= 1,
        depth == 1 + open_braces(s.subrange(i, j), k - i),
        brace_close(s, k, depth) == Some(j),
    ensures
        s[j] == CLOSE_BRACE,
        forall|n: int| k - i <= n <= j - i ==> #[trigger] open_braces(s.subrange(i, j), n) >= 0,
        open_braces(s.subrange(i, j), j - i) == 0,
    decreases j - k,
{
    let text = s.subrange(i, j);
    if k < j {
        assert(text[k - i] == s[k]);
        if s[k] == OPEN_BRACE {
            lemma_braced_text_is_balanced(s, i, k + 1, j, depth + 1);
        } else if s[k] == CLOSE_BRACE {
            lemma_braced_text_is_balanced(s, i, k + 1, j, (depth - 1) as nat);
        } else {
            lemma_braced_text_is_balanced(s, i, k + 1, j, depth);
        }
        assert forall|n: int| k - i <= n <= j - i implies #[trigger] open_braces(text, n) >= 0 by {
            if n > k - i {
                assert(k + 1 - i <= n);
            }
        }
    } else {
        lemma_brace_close_bounds(s, j + 1, depth + 1);
        lemma_brace_close_bounds(s, j + 1, depth);
        lemma_brace_close_bounds(s, j + 1, (depth - 1) as nat);
    }
}

/// The text of a braced value is balanced, and the `}` that closes the value
/// is the first that leaves it so.
pub proof fn law_braced_text_is_balanced(s: Seq<u8>, i: int)
    requires
        0 <= i,
    ensures
        brace_close(s, i, 1) matches Some(j) ==> i <= j < s.len() && s[j] == CLOSE_BRACE
            && is_balanced(s.subrange(i, j)),
{
    match brace_close(s, i, 1) {
        Some(j) => {
            lemma_brace_close_bounds(s, i, 1);
            lemma_braced_text_is_balanced(s, i, i, j, 1);
        },
        None => {},
    }
}

/// The number of backslashes that stand directly before position `n`.
pub open spec fn backslashes_before(text: Seq<u8>, n: int) -> nat
    decreases n,
{
    if 0 < n <= text.len() && text[n - 1] == BACKSLASH {
        backslashes_before(text, n - 1) + 1
    } else {
        0
    }
}

/// Whether the byte at `n` is escaped: an odd number of backslashes stands
/// directly before it.
pub open spec fn is_escaped(text: Seq<u8>, n: int) -> bool {
    backslashes_before(text, n) % 2 == 1
}

/// Text that can stand between quotes: every quote in it is escaped, and it
/// does not end in a backslash that would escape the closing quote.
pub open spec fn is_quotable(text: Seq<u8>) -> bool {
    &&& forall|n: int| 0 <= n < text.len() && #[trigger] text[n] == QUOTE ==> is_escaped(text, n)
    &&& !is_escaped(text, text.len() as int)
}

/// From a byte of quotable text that is not escaped, the closing quote
/// sought is the one after the text.
proof fn lemma_quote_close_in_quotable(s: Seq<u8>, i: int, text: Seq<u8>, n: int)
    requires
        stands_at(s, i, text),
        i + text.len() < s.len(),
        s[i + text.len()] == QUOTE,
        is_quotable(text),
        0 <= n <= text.len(),
        !is_escaped(text, n),
    ensures
        quote_close(s, i + n) == Some(i + text.len()),
    decreases text.len() - n,
{
    if n < text.len() {
        assert(s[i + n] == s.subrange(i, i + text.len())[n]);
        assert(s[i + n] == text[n]);
        if text[n] == BACKSLASH {
            assert(is_escaped(text, n + 1));
            assert(n + 1 < text.len());
            lemma_quote_close_in_quotable(s, i, text, n + 2);
        } else {
            lemma_quote_close_in_quotable(s, i, text, n + 1);
        }
    }
}

/// Escaped quotes do not close a quoted value: where `"`, quotable text and
/// `"` stand in a buffer, the quoted value read there has that text, with
/// its backslashes as they stand.
pub proof fn law_escaped_quotes(src: InputView, i: int, text: Seq<u8>)
    requires
        0 <= i < src.content.len(),
        src.content[i] == QUOTE,
        stands_at(src.content, i + 1, text),
        i + 1 + text.len() < src.content.len(),
        src.content[i + 1 + text.len()] == QUOTE,
        is_quotable(text),
    ensures
        scan_quoted(src.content, i) matches Some(t) && t.start == i + 1 && t.end == i + 1
            + text.len(),
        scan_atom(src, i) matches Some(v) && v.value == ValueView::Literal(
            slice_of(src, i + 1, i + 1 + text.len()),
        ),
        slice_of(src, i + 1, i + 1 + text.len()).text == text,
{
    lemma_quote_close_in_quotable(src.content, i + 1, text, 0);
    reveal(scan_atom);
}

/// On the way to the closing quote no byte that is not escaped is a quote:
/// where the closing quote sought from `k` stands at `j`, and the byte at `k`
/// is not escaped in the text from `i` to `j`, every quote of the text from
/// `k` on is escaped, and the text does not end in an escape.
proof fn lemma_quoted_text_is_quotable(s: Seq<u8>, i: int, k: int, j: int)
    requires
        0 <= i <= k <= j < s.len(),
        !is_escaped(s.subrange(i, j), k - i),
        quote_close(s, k) == Some(j),
    ensures
        s[j] == QUOTE,
        forall|n: int|
            k - i <= n < j - i && #[trigger] s.subrange(i, j)[n] == QUOTE ==> is_escaped(
                s.subrange(i, j),
                n,
            ),
        !is_escaped(s.subrange(i, j), j - i),
    decreases j - k,
{
    let text = s.subrange(i, j);
    if k < j {
        assert(text[k - i] == s[k]);
        if s[k] == BACKSLASH {
            lemma_quote_close_bounds(s, k + 2);
            assert(k + 2 <= j);
            assert(text[k + 1 - i] == s[k + 1]);
            assert(is_escaped(text, k + 1 - i));
            assert(!is_escaped(text, k + 2 - i));
            lemma_quoted_text_is_quotable(s, i, k + 2, j);
            assert forall|n: int|
                k - i <= n < j - i && #[trigger] text[n] == QUOTE implies is_escaped(text, n) by {
                if n >= k + 2 - i {
                } else if n == k + 1 - i {
                }
            }
        } else {
            assert(!is_escaped(text, k + 1 - i));
            lemma_quoted_text_is_quotable(s, i, k + 1, j);
            assert forall|n: int|
                k - i <= n < j - i && #[trigger] text[n] == QUOTE implies is_escaped(text, n) by {
                if n >= k + 1 - i {
                }
            }
        }
    } else {
        lemma_quote_close_bounds(s, j + 1);
        lemma_quote_close_bounds(s, j + 2);
    }
}

/// The text of a quoted value is quotable: every quote in it is escaped, and
/// the `"` that closes the value is not.
pub proof fn law_quoted_text_is_quotable(s: Seq<u8>, i: int)
    requires
        0 <= i,
    ensures
        quote_close(s, i) matches Some(j) ==> i <= j < s.len() && s[j] == QUOTE && is_quotable(
            s.subrange(i, j),
        ),
{
    match quote_close(s, i) {
        Some(j) => {
            lemma_quote_close_bounds(s, i);
            lemma_quoted_text_is_quotable(s, i, i, j);
        },
        None => {},
    }
}

/// A line comment ends after the first line feed in it, or at the end of
/// the buffer if there is none.
proof fn lemma_line_end_is_first_line_feed(s: Seq<u8>, i: int)
    requires
        0 <= i <= s.len(),
    ensures
        i <= line_end(s, i) <= s.len(),
        i < s.len() ==> i < line_end(s, i),
        line_end(s, i) < s.len() ==> i < s.len() && s[line_end(s, i) - 1]
            == LINE_FEED,
        forall|j: int|
            i <= j < line_end(s, i) - 1 ==> s[j] != LINE_FEED,
    decreases s.len() - i,
{
    if i < s.len() && s[i] != LINE_FEED {
        lemma_line_end_is_first_line_feed(s, i + 1);
    }
}

/// A `%` between tokens begins a comment that runs through the next line
/// feed: what is significant after the `%` is what is significant after
/// the end of its line.
pub proof fn law_line_comment(s: Seq<u8>, i: int)
    requires
        0 <= i < s.len(),
        s[i] == PERCENT,
    ensures
        skip_blank(s, i) == skip_blank(s, line_end(s, i + 1)),
        i < line_end(s, i + 1) <= s.len(),
        line_end(s, i + 1) < s.len() ==> s[line_end(s, i + 1) - 1]
            == LINE_FEED,
        forall|j: int|
            i < j < line_end(s, i + 1) - 1 ==> s[j] != LINE_FEED,
{
    lemma_line_end_is_first_line_feed(s, i + 1);
}

/// A `%` that stands directly after a name or a number begins a line comment
/// like any other: the byte taken after the token is the first significant
/// byte after the end of that line.
pub proof fn law_comment_after_token(s: Seq<u8>, e: int)
    requires
        0 <= e < s.len(),
        s[e] == PERCENT,
    ensures
        after_token(s, e) == after_blank(s, line_end(s, e + 1)),
        after_token(s, e).next != Some(PERCENT),
{
    lemma_after_blank_bounds(s, line_end(s, e + 1));
}

/// Text without a line feed.
pub open spec fn is_one_line(text: Seq<u8>) -> bool {
    forall|i: int| 0 <= i < text.len() ==> #[trigger] text[i] != LINE_FEED
}

/// A line comment whose text is one line ends after the line feed that
/// follows the text.
pub proof fn lemma_line_end_of_one_line(s: Seq<u8>, i: int, text: Seq<u8>)
    requires
        stands_at(s, i, text),
        is_one_line(text),
        i + text.len() < s.len(),
        s[i + text.len()] == LINE_FEED,
    ensures
        line_end(s, i) == i + text.len() + 1,
    decreases text.len(),
{
    if text.len() > 0 {
        assert(s[i] == s.subrange(i, i + text.len())[0]);
        assert(s[i] == text[0]);
        let rest = text.subrange(1, text.len() as int);
        assert(s.subrange(i + 1, i + 1 + rest.len()) =~= rest);
        assert forall|j: int| 0 <= j < rest.len() implies #[trigger] rest[j] != LINE_FEED by {
            assert(rest[j] == text[j + 1]);
        }
        lemma_line_end_of_one_line(s, i + 1, rest);
    }
}

/// Whether a line comment begins at `k` and runs at least to `j`: a `%`
/// stands at `k`, and no line feed stands from there up to `j`.
pub open spec fn is_comment_from(s: Seq<u8>, k: int, j: int) -> bool {
    &&& 0 <= k <= j < s.len()
    &&& s[k] == PERCENT
    &&& forall|m: int| k <= m < j ==> #[trigger] s[m] != LINE_FEED
}

/// Whether the byte at `j` stands in a line comment that begins at or after
/// `i`.
pub open spec fn is_in_comment(s: Seq<u8>, i: int, j: int) -> bool {
    exists|k: int| i <= k && #[trigger] is_comment_from(s, k, j)
}

/// Nothing but whitespace and line comments is passed over: every byte
/// between a position and the first significant position after it is
/// whitespace or stands in a line comment, and the byte at that position, if
/// the buffer has not ended, is neither whitespace nor `%`.
pub proof fn law_only_blank_is_passed_over(s: Seq<u8>, i: int)
    requires
        0 <= i <= s.len(),
    ensures
        i <= skip_blank(s, i) <= s.len(),
        forall|j: int|
            i <= j < skip_blank(s, i) ==> is_space(#[trigger] s[j]) || is_in_comment(s, i, j),
        skip_blank(s, i) < s.len() ==> !is_space(s[skip_blank(s, i)]) && s[skip_blank(s, i)]
            != PERCENT,
    decreases s.len() - i,
{
    if i < s.len() {
        if is_space(s[i]) {
            law_only_blank_is_passed_over(s, i + 1);
            assert forall|j: int| i <= j < skip_blank(s, i) implies is_space(#[trigger] s[j])
                || is_in_comment(s, i, j) by {
                if j > i && !is_space(s[j]) {
                    let k = choose|k: int| i + 1 <= k && #[trigger] is_comment_from(s, k, j);
                    assert(i <= k && is_comment_from(s, k, j));
                }
            }
        } else if s[i] == PERCENT {
            let e = line_end(s, i + 1);
            lemma_line_end_is_first_line_feed(s, i + 1);
            law_only_blank_is_passed_over(s, e);
            assert forall|j: int| i <= j < skip_blank(s, i) implies is_space(#[trigger] s[j])
                || is_in_comment(s, i, j) by {
                if j < e {
                    assert(is_comment_from(s, i, j));
                } else if !is_space(s[j]) {
                    let k = choose|k: int| e <= k && #[trigger] is_comment_from(s, k, j);
                    assert(i <= k && is_comment_from(s, k, j));
                }
            }
        }
    }
}

} // verus!
