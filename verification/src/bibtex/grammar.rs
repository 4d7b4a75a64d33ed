//! The grammar of bibliography source text, stated on the bytes of a buffer.
//!
//! Every function here takes a position in the buffer and says, without
//! looking back, what stands there and where reading goes on. Positions are
//! byte offsets; a position equal to the buffer's length is its end.

use vstd::prelude::*;
use super::model::{
    slice_of, trace_at, trace_of, BibView, ContextView, EntryView, ErrorView, FieldView, InputView,
    SliceView, TraceView, ValueView,
};

verus! {

pub const TAB: u8 = 9;
pub const LINE_FEED: u8 = 10;
pub const CARRIAGE_RETURN: u8 = 13;
pub const BLANK: u8 = 32;
pub const QUOTE: u8 = 34;
pub const HASH: u8 = 35;
pub const PERCENT: u8 = 37;
pub const OPEN_PAREN: u8 = 40;
pub const CLOSE_PAREN: u8 = 41;
pub const COMMA: u8 = 44;
pub const DIGIT_ZERO: u8 = 48;
pub const DIGIT_NINE: u8 = 57;
pub const EQUALS: u8 = 61;
pub const AT: u8 = 64;
pub const BACKSLASH: u8 = 92;
pub const OPEN_BRACE: u8 = 123;
pub const CLOSE_BRACE: u8 = 125;

/// Insignificant whitespace: tab, line feed, vertical tab, form feed,
/// carriage return and the blank.
pub open spec fn is_space(b: u8) -> bool {
    (TAB <= b && b <= CARRIAGE_RETURN) || b == BLANK
}

/// An ASCII digit.
pub open spec fn is_digit(b: u8) -> bool {
    DIGIT_ZERO <= b && b <= DIGIT_NINE
}

/// A byte that ends an identifier without being whitespace.
pub open spec fn is_delimiter(b: u8) -> bool {
    b == OPEN_BRACE || b == CLOSE_BRACE || b == COMMA || b == HASH || b == PERCENT || b
        == OPEN_PAREN || b == CLOSE_PAREN || b == EQUALS
}

/// The byte at a position, if the position is inside the buffer.
pub open spec fn byte_at(s: Seq<u8>, i: int) -> Option<u8> {
    if 0 <= i < s.len() {
        Some(s[i])
    } else {
        None
    }
}

/// Where reading goes on once the byte at `i` is taken: after it, or at `i`
/// itself where the buffer has ended.
pub open spec fn after_byte(s: Seq<u8>, i: int) -> int {
    if 0 <= i < s.len() {
        i + 1
    } else {
        i
    }
}

/// Where a line comment whose text begins at `i` ends: just after the next
/// line feed, or at the end of the buffer if there is none.
pub open spec fn line_end(s: Seq<u8>, i: int) -> int
    decreases s.len() - i,
{
    if i < 0 || i >= s.len() {
        s.len() as int
    } else if s[i] == LINE_FEED {
        i + 1
    } else {
        line_end(s, i + 1)
    }
}

/// A line comment ends after where its text begins, and inside the buffer.
pub proof fn lemma_line_end_bounds(s: Seq<u8>, i: int)
    requires
        0 <= i <= s.len(),
    ensures
        i <= line_end(s, i) <= s.len(),
        i < s.len() ==> i < line_end(s, i),
    decreases s.len() - i,
{
    if i < s.len() && s[i] != LINE_FEED {
        lemma_line_end_bounds(s, i + 1);
    }
}

/// The first significant position at or after `i`: whitespace is passed over,
/// and so is every line comment, from its `%` through its line feed. The
/// result is the end of the buffer if nothing significant is left.
pub open spec fn skip_blank(s: Seq<u8>, i: int) -> int
    decreases s.len() - i,
{
    if i < 0 || i >= s.len() {
        s.len() as int
    } else if is_space(s[i]) {
        skip_blank(s, i + 1)
    } else if s[i] == PERCENT {
        proof {
            lemma_line_end_bounds(s, i + 1);
        }
        skip_blank(s, line_end(s, i + 1))
    } else {
        i
    }
}

/// A byte taken from the buffer, or the end of input, and where reading goes
/// on after it.
pub struct Lookahead {
    pub next: Option<u8>,
    pub pos: int,
}

/// The first significant byte at or after `i`, taken from the buffer.
pub open spec fn after_blank(s: Seq<u8>, i: int) -> Lookahead {
    let p = skip_blank(s, i);
    if p < s.len() {
        Lookahead { next: Some(s[p]), pos: p + 1 }
    } else {
        Lookahead { next: None, pos: s.len() as int }
    }
}

/// What follows a span that a bare token ended at `e`: where whitespace or
/// the `%` of a line comment ended it, these are passed over and the first
/// significant byte is taken; any other byte is taken as it is; the end of
/// the buffer gives the end of input.
pub open spec fn after_token(s: Seq<u8>, e: int) -> Lookahead {
    if e < 0 || e >= s.len() {
        Lookahead { next: None, pos: s.len() as int }
    } else if is_space(s[e]) || s[e] == PERCENT {
        after_blank(s, e)
    } else {
        Lookahead { next: Some(s[e]), pos: e + 1 }
    }
}

/// Where an identifier that begins at `i` ends: at the first delimiter or
/// whitespace, or at the end of the buffer.
pub open spec fn ident_end(s: Seq<u8>, i: int) -> int
    decreases s.len() - i,
{
    if i < 0 || i >= s.len() {
        s.len() as int
    } else if is_delimiter(s[i]) || is_space(s[i]) {
        i
    } else {
        ident_end(s, i + 1)
    }
}

/// Where a run of digits that begins at `i` ends.
pub open spec fn digits_end(s: Seq<u8>, i: int) -> int
    decreases s.len() - i,
{
    if i < 0 || i >= s.len() {
        s.len() as int
    } else if is_digit(s[i]) {
        digits_end(s, i + 1)
    } else {
        i
    }
}

/// The brace that closes a block entered `depth` levels deep, sought from `i`
/// on; `None` if the buffer ends first. Every `{` on the way opens a level,
/// every `}` closes one.
pub open spec fn brace_close(s: Seq<u8>, i: int, depth: nat) -> Option<int>
    decreases s.len() - i,
{
    if i < 0 || i >= s.len() {
        None
    } else if s[i] == OPEN_BRACE {
        brace_close(s, i + 1, depth + 1)
    } else if s[i] == CLOSE_BRACE {
        if depth <= 1 {
            Some(i)
        } else {
            brace_close(s, i + 1, (depth - 1) as nat)
        }
    } else {
        brace_close(s, i + 1, depth)
    }
}

/// A closing brace stands inside the buffer, at or after where it was sought.
pub proof fn lemma_brace_close_bounds(s: Seq<u8>, i: int, depth: nat)
    requires
        0 <= i,
    ensures
        match brace_close(s, i, depth) {
            Some(j) => i <= j < s.len() && s[j] == CLOSE_BRACE,
            None => true,
        },
    decreases s.len() - i,
{
    if i < s.len() {
        if s[i] == OPEN_BRACE {
            lemma_brace_close_bounds(s, i + 1, depth + 1);
        } else if s[i] == CLOSE_BRACE {
            if depth > 1 {
                lemma_brace_close_bounds(s, i + 1, (depth - 1) as nat);
            }
        } else {
            lemma_brace_close_bounds(s, i + 1, depth);
        }
    }
}

/// The parenthesis that closes a block, sought from `i` on; `None` if the
/// buffer ends first. A `{` on the way opens a braced group that is passed
/// over whole, whatever it holds.
pub open spec fn paren_close(s: Seq<u8>, i: int) -> Option<int>
    decreases s.len() - i,
{
    if i < 0 || i >= s.len() {
        None
    } else if s[i] == OPEN_BRACE {
        match brace_close(s, i + 1, 1) {
            Some(j) => {
                proof {
                    lemma_brace_close_bounds(s, i + 1, 1);
                }
                paren_close(s, j + 1)
            },
            None => None,
        }
    } else if s[i] == CLOSE_PAREN {
        Some(i)
    } else {
        paren_close(s, i + 1)
    }
}

/// The quote that closes a quoted value whose text begins at `i`; `None` if
/// the buffer ends first. A backslash takes the byte after it along, so an
/// escaped quote does not close.
pub open spec fn quote_close(s: Seq<u8>, i: int) -> Option<int>
    decreases s.len() - i,
{
    if i < 0 || i >= s.len() {
        None
    } else if s[i] == QUOTE {
        Some(i)
    } else if s[i] == BACKSLASH {
        if i + 1 < s.len() {
            quote_close(s, i + 2)
        } else {
            None
        }
    } else {
        quote_close(s, i + 1)
    }
}

/// The delimiter that closes a block opened by `open`, if `open` opens one.
pub open spec fn closing_of(open: u8) -> Option<u8> {
    if open == OPEN_BRACE {
        Some(CLOSE_BRACE)
    } else if open == OPEN_PAREN {
        Some(CLOSE_PAREN)
    } else {
        None
    }
}

/// The end of a block whose contents are thrown away.
pub open spec fn block_close(s: Seq<u8>, i: int, closing: u8) -> Option<int> {
    if closing == CLOSE_BRACE {
        brace_close(s, i, 1)
    } else {
        paren_close(s, i)
    }
}

/// An ASCII letter in lower case; any other byte unchanged.
pub open spec fn ascii_lower(b: u8) -> u8 {
    if 65 <= b && b <= 90 {
        (b + 32) as u8
    } else {
        b
    }
}

/// Whether two byte strings are equal once ASCII letters are in lower case.
pub open spec fn same_word(a: Seq<u8>, b: Seq<u8>) -> bool {
    a.len() == b.len() && forall|i: int|
        0 <= i < a.len() ==> ascii_lower(#[trigger] a[i]) == ascii_lower(b[i])
}

/// The word `comment`.
pub open spec fn word_comment() -> Seq<u8> {
    seq![99u8, 111u8, 109u8, 109u8, 101u8, 110u8, 116u8]
}

/// The word `preface`.
pub open spec fn word_preface() -> Seq<u8> {
    seq![112u8, 114u8, 101u8, 102u8, 97u8, 99u8, 101u8]
}

/// The word `string`.
pub open spec fn word_string() -> Seq<u8> {
    seq![115u8, 116u8, 114u8, 105u8, 110u8, 103u8]
}

/// The three kinds of block, told apart by the word after the `@`.
pub enum BlockKind {
    /// `@comment` and `@preface`: the contents are thrown away.
    Discard,
    /// `@string`: the contents define macros.
    Macros,
    /// Any other word: the block is an entry of that type.
    Entry,
}

/// The kind of block that a word introduces. The three reserved words are
/// known in any mix of upper and lower case.
pub open spec fn block_kind(word: Seq<u8>) -> BlockKind {
    if same_word(word, word_comment()) || same_word(word, word_preface()) {
        BlockKind::Discard
    } else if same_word(word, word_string()) {
        BlockKind::Macros
    } else {
        BlockKind::Entry
    }
}

/// A span read from the buffer, the byte taken after it, and where reading
/// goes on.
pub struct SpanScan {
    pub start: int,
    pub end: int,
    pub next: Option<u8>,
    pub pos: int,
}

/// The identifier that begins at `i`, with what follows it.
pub open spec fn scan_name(s: Seq<u8>, i: int) -> SpanScan {
    let e = ident_end(s, i);
    let t = after_token(s, e);
    SpanScan { start: i, end: e, next: t.next, pos: t.pos }
}

/// The run of digits that begins at `i`, with what follows it.
pub open spec fn scan_number(s: Seq<u8>, i: int) -> SpanScan {
    let e = digits_end(s, i);
    let t = after_token(s, e);
    SpanScan { start: i, end: e, next: t.next, pos: t.pos }
}

/// The text between the `{` at `i` and the `}` that matches it, with the
/// first significant byte after that; `None` if the buffer ends first.
pub open spec fn scan_braced(s: Seq<u8>, i: int) -> Option<SpanScan> {
    match brace_close(s, i + 1, 1) {
        Some(e) => {
            let t = after_blank(s, e + 1);
            Some(SpanScan { start: i + 1, end: e, next: t.next, pos: t.pos })
        },
        None => None,
    }
}

/// The text between the `"` at `i` and the next `"` that no backslash
/// escapes, with the first significant byte after that; `None` if the buffer
/// ends first. The text keeps its backslashes.
pub open spec fn scan_quoted(s: Seq<u8>, i: int) -> Option<SpanScan> {
    match quote_close(s, i + 1) {
        Some(e) => {
            let t = after_blank(s, e + 1);
            Some(SpanScan { start: i + 1, end: e, next: t.next, pos: t.pos })
        },
        None => None,
    }
}

/// A value read from the buffer, the byte taken after it, and where reading
/// goes on.
pub struct ValueScan {
    pub value: ValueView,
    pub next: Option<u8>,
    pub pos: int,
}

/// The literal value whose text is a span.
pub open spec fn literal(src: InputView, t: SpanScan) -> ValueScan {
    ValueScan { value: ValueView::Literal(slice_of(src, t.start, t.end)), next: t.next, pos: t.pos }
}

/// The reference to the macro whose name is a span.
pub open spec fn macro_ref(src: InputView, t: SpanScan) -> ValueScan {
    ValueScan { value: ValueView::MacroRef(slice_of(src, t.start, t.end)), next: t.next, pos: t.pos }
}

/// One value that is not joined to another, read from the first significant
/// position at or after `i`. A digit begins a run of digits; `{` begins text
/// up to the matching `}`; `"` begins text up to the next quote that no
/// backslash escapes; anything else begins the name of a macro. `None` if the
/// buffer ends before the value is complete.
#[verifier::opaque]
pub open spec fn scan_atom(src: InputView, i: int) -> Option<ValueScan> {
    let s = src.content;
    let p = skip_blank(s, i);
    if p >= s.len() {
        None
    } else if is_digit(s[p]) {
        Some(literal(src, scan_number(s, p)))
    } else if s[p] == OPEN_BRACE {
        match scan_braced(s, p) {
            Some(t) => Some(literal(src, t)),
            None => None,
        }
    } else if s[p] == QUOTE {
        match scan_quoted(s, p) {
            Some(t) => Some(literal(src, t)),
            None => None,
        }
    } else {
        Some(macro_ref(src, scan_name(s, p)))
    }
}

/// A significant position is inside the buffer and not before where the
/// search for it began, and the byte there is neither whitespace nor `%`.
pub proof fn lemma_skip_blank_bounds(s: Seq<u8>, i: int)
    ensures
        skip_blank(s, i) <= s.len(),
        0 <= i <= s.len() ==> i <= skip_blank(s, i),
        skip_blank(s, i) < s.len() ==> 0 <= i <= skip_blank(s, i) && !is_space(
            s[skip_blank(s, i)],
        ) && s[skip_blank(s, i)] != PERCENT,
    decreases s.len() - i,
{
    if 0 <= i < s.len() {
        if is_space(s[i]) {
            lemma_skip_blank_bounds(s, i + 1);
        } else if s[i] == PERCENT {
            lemma_line_end_bounds(s, i + 1);
            lemma_skip_blank_bounds(s, line_end(s, i + 1));
        }
    }
}

/// A byte taken after whitespace was taken from inside the buffer, at or
/// after where the search began.
pub proof fn lemma_after_blank_bounds(s: Seq<u8>, i: int)
    ensures
        after_blank(s, i).pos <= s.len(),
        0 <= i <= s.len() ==> i <= after_blank(s, i).pos,
        after_blank(s, i).next is Some ==> 0 <= i < after_blank(s, i).pos,
        after_blank(s, i).next matches Some(b) ==> s[after_blank(s, i).pos - 1] == b && !is_space(
            b,
        ) && b != PERCENT,
{
    lemma_skip_blank_bounds(s, i);
}

/// A byte taken after a bare token was taken from the token's end or after
/// it, and it is neither whitespace nor `%`.
pub proof fn lemma_after_token_bounds(s: Seq<u8>, e: int)
    ensures
        after_token(s, e).pos <= s.len(),
        0 <= e <= s.len() ==> e <= after_token(s, e).pos,
        after_token(s, e).next is Some ==> 0 <= e < after_token(s, e).pos,
        after_token(s, e).next matches Some(b) ==> s[after_token(s, e).pos - 1] == b && !is_space(
            b,
        ) && b != PERCENT,
{
    lemma_after_blank_bounds(s, e);
}

/// An identifier ends inside the buffer, at or after where it begins, and no
/// byte of it is a delimiter or whitespace.
pub proof fn lemma_ident_end_bounds(s: Seq<u8>, i: int)
    ensures
        ident_end(s, i) <= s.len(),
        0 <= i <= s.len() ==> i <= ident_end(s, i),
        ident_end(s, i) < s.len() ==> 0 <= i <= ident_end(s, i) && (is_delimiter(
            s[ident_end(s, i)],
        ) || is_space(s[ident_end(s, i)])),
    decreases s.len() - i,
{
    if 0 <= i < s.len() && !(is_delimiter(s[i]) || is_space(s[i])) {
        lemma_ident_end_bounds(s, i + 1);
    }
}

/// A run of digits ends inside the buffer, at or after where it begins.
pub proof fn lemma_digits_end_bounds(s: Seq<u8>, i: int)
    ensures
        digits_end(s, i) <= s.len(),
        0 <= i <= s.len() ==> i <= digits_end(s, i),
        digits_end(s, i) < s.len() ==> 0 <= i <= digits_end(s, i) && !is_digit(
            s[digits_end(s, i)],
        ),
    decreases s.len() - i,
{
    if 0 <= i < s.len() && is_digit(s[i]) {
        lemma_digits_end_bounds(s, i + 1);
    }
}

/// A closing quote stands inside the buffer, at or after where it was sought.
pub proof fn lemma_quote_close_bounds(s: Seq<u8>, i: int)
    requires
        0 <= i,
    ensures
        match quote_close(s, i) {
            Some(j) => i <= j < s.len() && s[j] == QUOTE,
            None => true,
        },
    decreases s.len() - i,
{
    if i < s.len() && s[i] != QUOTE {
        if s[i] == BACKSLASH {
            if i + 1 < s.len() {
                lemma_quote_close_bounds(s, i + 2);
            }
        } else {
            lemma_quote_close_bounds(s, i + 1);
        }
    }
}

/// A closing parenthesis stands inside the buffer, at or after where it was
/// sought.
pub proof fn lemma_paren_close_bounds(s: Seq<u8>, i: int)
    requires
        0 <= i,
    ensures
        match paren_close(s, i) {
            Some(j) => i <= j < s.len() && s[j] == CLOSE_PAREN,
            None => true,
        },
    decreases s.len() - i,
{
    if i < s.len() {
        if s[i] == OPEN_BRACE {
            lemma_brace_close_bounds(s, i + 1, 1);
            match brace_close(s, i + 1, 1) {
                Some(j) => {
                    lemma_paren_close_bounds(s, j + 1);
                },
                None => {},
            }
        } else if s[i] != CLOSE_PAREN {
            lemma_paren_close_bounds(s, i + 1);
        }
    }
}

/// A value takes at least one byte, and reading goes on inside the buffer.
pub proof fn lemma_scan_atom_advances(src: InputView, i: int)
    ensures
        match scan_atom(src, i) {
            Some(a) => 0 <= i < a.pos <= src.content.len() && (a.next matches Some(b)
                ==> src.content[a.pos - 1] == b) && !(a.value is Compound),
            None => true,
        },
{
    reveal(scan_atom);
    let s = src.content;
    let p = skip_blank(s, i);
    lemma_skip_blank_bounds(s, i);
    if p < s.len() {
        if is_digit(s[p]) {
            lemma_digits_end_bounds(s, p);
            lemma_after_token_bounds(s, digits_end(s, p));
            assert(digits_end(s, p) > p) by {
                lemma_digits_end_bounds(s, p + 1);
            }
        } else if s[p] == OPEN_BRACE {
            lemma_brace_close_bounds(s, p + 1, 1);
            match brace_close(s, p + 1, 1) {
                Some(e) => {
                    lemma_after_blank_bounds(s, e + 1);
                },
                None => {},
            }
        } else if s[p] == QUOTE {
            lemma_quote_close_bounds(s, p + 1);
            match quote_close(s, p + 1) {
                Some(e) => {
                    lemma_after_blank_bounds(s, e + 1);
                },
                None => {},
            }
        } else {
            lemma_ident_end_bounds(s, p);
            lemma_after_token_bounds(s, ident_end(s, p));
            let e = ident_end(s, p);
        }
    }
}

/// The values after a `#`, joined to those before it: each one is read as a
/// value of its own, and the chain ends after the first that no `#` follows.
pub open spec fn scan_joined(src: InputView, i: int, parts: Seq<ValueView>) -> Option<ValueScan>
    decreases src.content.len() - i,
{
    match scan_atom(src, i) {
        Some(a) => {
            let all = parts.push(a.value);
            if a.next == Some(HASH) {
                proof {
                    lemma_scan_atom_advances(src, i);
                }
                scan_joined(src, a.pos, all)
            } else {
                Some(ValueScan { value: ValueView::Compound(all), next: a.next, pos: a.pos })
            }
        },
        None => None,
    }
}

/// A value, read from the first significant position at or after `i`: one
/// value alone, or, where a `#` follows it, the compound of it and all the
/// values joined to it. The members are kept as they were read; nothing is
/// looked up or concatenated.
#[verifier::opaque]
pub open spec fn scan_value(src: InputView, i: int) -> Option<ValueScan> {
    match scan_atom(src, i) {
        Some(a) => {
            if a.next == Some(HASH) {
                scan_joined(src, a.pos, seq![a.value])
            } else {
                Some(a)
            }
        },
        None => None,
    }
}

/// A chain of joined values ends after where it began.
pub proof fn lemma_scan_joined_advances(src: InputView, i: int, parts: Seq<ValueView>)
    ensures
        match scan_joined(src, i, parts) {
            Some(v) => 0 <= i < v.pos <= src.content.len() && v.value is Compound
                && v.value->Compound_0.len() > parts.len() && v.next != Some(HASH) && (
            v.next matches Some(b) ==> src.content[v.pos - 1] == b),
            None => true,
        },
    decreases src.content.len() - i,
{
    lemma_scan_atom_advances(src, i);
    match scan_atom(src, i) {
        Some(a) => {
            if a.next == Some(HASH) {
                lemma_scan_joined_advances(src, a.pos, parts.push(a.value));
            }
        },
        None => {},
    }
}

/// A value takes at least one byte; no `#` follows it; and a compound has at
/// least two members.
pub proof fn lemma_scan_value_advances(src: InputView, i: int)
    ensures
        match scan_value(src, i) {
            Some(v) => 0 <= i < v.pos <= src.content.len() && v.next != Some(HASH)
                && (v.value matches ValueView::Compound(parts) ==> parts.len() >= 2)
                && (v.next matches Some(b) ==> src.content[v.pos - 1] == b),
            None => true,
        },
{
    reveal(scan_value);
    lemma_scan_atom_advances(src, i);
    match scan_atom(src, i) {
        Some(a) => {
            if a.next == Some(HASH) {
                lemma_scan_joined_advances(src, a.pos, seq![a.value]);
            }
        },
        None => {},
    }
}

/// A name that a byte follows begins and ends inside the buffer, and the byte
/// was taken from after it.
pub proof fn lemma_scan_name_bounds(s: Seq<u8>, i: int)
    ensures
        scan_name(s, i).end <= s.len(),
        scan_name(s, i).pos <= s.len(),
        0 <= i <= s.len() ==> i <= scan_name(s, i).end <= scan_name(s, i).pos,
        scan_name(s, i).next is Some ==> 0 <= i <= scan_name(s, i).end < scan_name(s, i).pos,
        scan_name(s, i).next matches Some(b) ==> s[scan_name(s, i).pos - 1] == b && !is_space(b)
            && b != PERCENT,
{
    lemma_ident_end_bounds(s, i);
    lemma_after_token_bounds(s, ident_end(s, i));
}

/// The failure for a byte, or the end of input, met where something else was
/// required.
pub open spec fn unexpected(context: ContextView, found: Option<u8>, at: TraceView) -> ErrorView {
    match found {
        Some(byte) => ErrorView::InvalidToken(context, byte, at),
        None => ErrorView::InvalidEOF(context, at),
    }
}

/// The position of the byte last taken before reading stood at `pos`.
pub open spec fn trace_before(src: InputView, pos: int) -> TraceView {
    trace_at(src, pos - 1)
}

/// What stands where a `name = value` may begin.
pub enum NameStep {
    /// The closing delimiter: the block ends, and reading goes on at `pos`.
    Closed { pos: int },
    /// A name and its `=`: the value is read from `pos` on.
    Named { name: SliceView, pos: int },
    /// Neither.
    Failed(ErrorView),
}

/// The closing delimiter of the block, or a name and the `=` after it, read
/// from the first significant position at or after `pos`.
#[verifier::opaque]
pub open spec fn scan_binding_name(
    src: InputView,
    pos: int,
    closing: u8,
    context: ContextView,
) -> NameStep {
    let s = src.content;
    let q = skip_blank(s, pos);
    if byte_at(s, q) == Some(closing) {
        NameStep::Closed { pos: q + 1 }
    } else {
        let n = scan_name(s, q);
        if n.next == Some(EQUALS) {
            NameStep::Named { name: slice_of(src, q, n.end), pos: n.pos }
        } else {
            NameStep::Failed(unexpected(context, n.next, trace_before(src, n.pos)))
        }
    }
}

/// What reading one `name = value` leads to.
pub enum FieldStep {
    /// The closing delimiter stood there instead: the block ends, and reading
    /// goes on at `pos`.
    Closed { pos: int },
    /// A name was bound to a value; `next` was taken after the value, and
    /// reading goes on at `pos`.
    Read { field: FieldView, next: Option<u8>, pos: int },
    /// The binding is malformed, or its name is taken.
    Failed(ErrorView),
}

/// The value of a binding whose name and `=` have been read, with the failure
/// for a buffer that ends before the value is complete.
pub open spec fn scan_bound_value(
    src: InputView,
    name: SliceView,
    pos: int,
    context: ContextView,
) -> FieldStep {
    match scan_value(src, pos) {
        Some(v) => FieldStep::Read {
            field: FieldView { name, value: v.value },
            next: v.next,
            pos: v.pos,
        },
        None => FieldStep::Failed(
            ErrorView::InvalidEOF(context, trace_before(src, src.content.len() as int)),
        ),
    }
}

/// One field of an entry that has the fields `fields` already, read from
/// `pos` on. A name that the entry has already is a failure, met before the
/// value is read.
#[verifier::opaque]
pub open spec fn scan_field(
    src: InputView,
    pos: int,
    closing: u8,
    context: ContextView,
    fields: Map<Seq<u8>, FieldView>,
) -> FieldStep {
    match scan_binding_name(src, pos, closing, context) {
        NameStep::Closed { pos } => FieldStep::Closed { pos },
        NameStep::Failed(e) => FieldStep::Failed(e),
        NameStep::Named { name, pos } => {
            if fields.contains_key(name.text) {
                FieldStep::Failed(
                    ErrorView::DoubleField(name.text, trace_of(fields[name.text].name), trace_of(name)),
                )
            } else {
                scan_bound_value(src, name, pos, context)
            }
        },
    }
}

/// One definition of a macro block, where the macros `macros` are defined
/// already, read from `pos` on. A name that is defined already is a failure,
/// met before the value is read; a compound value is a failure.
#[verifier::opaque]
pub open spec fn scan_definition(
    src: InputView,
    pos: int,
    closing: u8,
    context: ContextView,
    macros: Map<Seq<u8>, FieldView>,
) -> FieldStep {
    match scan_binding_name(src, pos, closing, context) {
        NameStep::Closed { pos } => FieldStep::Closed { pos },
        NameStep::Failed(e) => FieldStep::Failed(e),
        NameStep::Named { name, pos } => {
            if macros.contains_key(name.text) {
                FieldStep::Failed(
                    ErrorView::DoubleMacro(name.text, trace_of(macros[name.text].name), trace_of(name)),
                )
            } else {
                match scan_bound_value(src, name, pos, context) {
                    FieldStep::Read { field, next, pos } => {
                        if field.value is Compound {
                            FieldStep::Failed(ErrorView::RecursiveMacro(name.text, trace_of(name)))
                        } else {
                            FieldStep::Read { field, next, pos }
                        }
                    },
                    other => other,
                }
            }
        },
    }
}

/// A binding that was read ends after where its reading began, inside the
/// buffer; the byte taken after it stands just before where reading goes
/// on; its name is cut from the buffer that is read.
pub proof fn lemma_scan_field_advances(
    src: InputView,
    pos: int,
    closing: u8,
    context: ContextView,
    known: Map<Seq<u8>, FieldView>,
)
    ensures
        match scan_field(src, pos, closing, context, known) {
            FieldStep::Closed { pos: p } => 0 <= pos < p <= src.content.len(),
            FieldStep::Read { field, next, pos: p } => 0 <= pos < p <= src.content.len() && (
            next matches Some(b) ==> src.content[p - 1] == b) && !known.contains_key(
                field.name.text,
            ),
            FieldStep::Failed(_) => true,
        },
        match scan_definition(src, pos, closing, context, known) {
            FieldStep::Closed { pos: p } => 0 <= pos < p <= src.content.len(),
            FieldStep::Read { field, next, pos: p } => 0 <= pos < p <= src.content.len() && (
            next matches Some(b) ==> src.content[p - 1] == b) && !known.contains_key(
                field.name.text,
            ) && !(field.value is Compound),
            FieldStep::Failed(_) => true,
        },
{
    reveal(scan_binding_name);
    reveal(scan_field);
    reveal(scan_definition);
    let s = src.content;
    let q = skip_blank(s, pos);
    lemma_skip_blank_bounds(s, pos);
    lemma_scan_name_bounds(s, q);
    lemma_scan_value_advances(src, scan_name(s, q).pos);
}

/// The fields of an entry and where reading goes on after its closing
/// delimiter.
pub struct FieldsScan {
    pub fields: Map<Seq<u8>, FieldView>,
    pub pos: int,
}

/// The fields of an entry, read after the byte `next` was taken just before
/// `pos`. A comma announces either the closing delimiter (a trailing comma)
/// or one more field; the closing delimiter ends the entry; anything else is
/// a failure.
pub open spec fn scan_fields(
    src: InputView,
    next: Option<u8>,
    pos: int,
    closing: u8,
    context: ContextView,
    fields: Map<Seq<u8>, FieldView>,
) -> Result<FieldsScan, ErrorView>
    decreases src.content.len() - pos,
{
    if next == Some(COMMA) {
        match scan_field(src, pos, closing, context, fields) {
            FieldStep::Closed { pos: p } => Ok(FieldsScan { fields, pos: p }),
            FieldStep::Read { field, next: then, pos: p } => {
                proof {
                    lemma_scan_field_advances(src, pos, closing, context, fields);
                }
                scan_fields(src, then, p, closing, context, fields.insert(field.name.text, field))
            },
            FieldStep::Failed(e) => Err(e),
        }
    } else if next == Some(closing) {
        Ok(FieldsScan { fields, pos })
    } else {
        Err(unexpected(context, next, trace_before(src, pos)))
    }
}

/// The macros known after a block of definitions was read, and either where
/// reading goes on after the block or the failure that ended it.
pub struct MacrosScan {
    pub macros: Map<Seq<u8>, FieldView>,
    pub end: Result<int, ErrorView>,
}

/// The definitions of a macro block, read from `pos` on. After each
/// definition a comma or the closing delimiter must follow; the closing
/// delimiter ends the block, also after a comma. Each definition is added
/// as soon as it is complete, so those before a failure stay.
pub open spec fn scan_macros(
    src: InputView,
    pos: int,
    closing: u8,
    context: ContextView,
    macros: Map<Seq<u8>, FieldView>,
) -> MacrosScan
    decreases src.content.len() - pos,
{
    match scan_definition(src, pos, closing, context, macros) {
        FieldStep::Closed { pos: p } => MacrosScan { macros, end: Ok(p) },
        FieldStep::Read { field, next, pos: p } => {
            let defined = macros.insert(field.name.text, field);
            if next == Some(COMMA) {
                proof {
                    lemma_scan_field_advances(src, pos, closing, context, macros);
                }
                scan_macros(src, p, closing, context, defined)
            } else if next == Some(closing) {
                MacrosScan { macros: defined, end: Ok(p) }
            } else {
                MacrosScan {
                    macros: defined,
                    end: Err(unexpected(context, next, trace_before(src, p))),
                }
            }
        },
        FieldStep::Failed(e) => MacrosScan { macros, end: Err(e) },
    }
}

/// The entries known after an entry block was read, and either where reading
/// goes on after the block or the failure that ended it.
pub struct EntryScan {
    pub entries: Map<Seq<u8>, EntryView>,
    pub end: Result<int, ErrorView>,
}

/// An entry of type `entrytype`, read from `pos` on, just after its opening
/// delimiter: the key, then the fields. The entry is added once it is
/// complete, unless its key is already there.
#[verifier::opaque]
pub open spec fn scan_entry(
    src: InputView,
    pos: int,
    closing: u8,
    entrytype: SliceView,
    entries: Map<Seq<u8>, EntryView>,
) -> EntryScan {
    let s = src.content;
    let q = skip_blank(s, pos);
    let k = scan_name(s, q);
    let key = slice_of(src, q, k.end);
    let context = ContextView::Entry(key.text, trace_of(key));
    match scan_fields(src, k.next, k.pos, closing, context, Map::empty()) {
        Ok(f) => {
            if entries.contains_key(key.text) {
                EntryScan {
                    entries,
                    end: Err(
                        ErrorView::DoubleKey(key.text, trace_of(entries[key.text].key), trace_of(key)),
                    ),
                }
            } else {
                EntryScan {
                    entries: entries.insert(key.text, EntryView { entrytype, key, fields: f.fields }),
                    end: Ok(f.pos),
                }
            }
        },
        Err(e) => EntryScan { entries, end: Err(e) },
    }
}

/// What a parse leaves: the bibliography, and the failure that ended
/// the parse if there was one.
pub struct Parsed {
    pub bib: BibView,
    pub error: Option<ErrorView>,
}

/// The bibliography after one block was read, and either where reading goes
/// on after the block or the failure that ended it.
pub struct BlockScan {
    pub bib: BibView,
    pub end: Result<int, ErrorView>,
}

/// One block, read from `pos` on, just after its `@`: the word that names
/// its kind, the opening delimiter, and the contents according to the kind.
#[verifier::opaque]
pub open spec fn scan_block(src: InputView, pos: int, bib: BibView) -> BlockScan {
    let s = src.content;
    let w = scan_name(s, pos);
    let word = slice_of(src, pos, w.end);
    match w.next {
        None => BlockScan {
            bib,
            end: Err(ErrorView::InvalidEOF(ContextView::Global, trace_before(src, w.pos))),
        },
        Some(open) => match closing_of(open) {
            None => BlockScan {
                bib,
                end: Err(
                    ErrorView::InvalidToken(ContextView::Global, open, trace_before(src, w.pos)),
                ),
            },
            Some(closing) => match block_kind(word.text) {
                BlockKind::Discard => match block_close(s, w.pos, closing) {
                    Some(j) => BlockScan { bib, end: Ok(j + 1) },
                    None => BlockScan {
                        bib,
                        end: Err(
                            ErrorView::InvalidEOF(
                                ContextView::Comment(trace_of(word)),
                                trace_before(src, s.len() as int),
                            ),
                        ),
                    },
                },
                BlockKind::Macros => {
                    let m = scan_macros(
                        src,
                        w.pos,
                        closing,
                        ContextView::MacroDef(trace_of(word)),
                        bib.macros,
                    );
                    BlockScan { bib: BibView { macros: m.macros, entries: bib.entries }, end: m.end }
                },
                BlockKind::Entry => {
                    let e = scan_entry(src, w.pos, closing, word, bib.entries);
                    BlockScan { bib: BibView { macros: bib.macros, entries: e.entries }, end: e.end }
                },
            },
        },
    }
}

/// The fields of an entry end after where their reading began.
pub proof fn lemma_scan_fields_advances(
    src: InputView,
    next: Option<u8>,
    pos: int,
    closing: u8,
    context: ContextView,
    fields: Map<Seq<u8>, FieldView>,
)
    requires
        0 <= pos <= src.content.len(),
    ensures
        match scan_fields(src, next, pos, closing, context, fields) {
            Ok(f) => pos <= f.pos <= src.content.len(),
            Err(_) => true,
        },
    decreases src.content.len() - pos,
{
    if next == Some(COMMA) {
        lemma_scan_field_advances(src, pos, closing, context, fields);
        match scan_field(src, pos, closing, context, fields) {
            FieldStep::Read { field, next: then, pos: p } => {
                lemma_scan_fields_advances(
                    src,
                    then,
                    p,
                    closing,
                    context,
                    fields.insert(field.name.text, field),
                );
            },
            _ => {},
        }
    }
}

/// A block of macro definitions ends after where its reading began.
pub proof fn lemma_scan_macros_advances(
    src: InputView,
    pos: int,
    closing: u8,
    context: ContextView,
    macros: Map<Seq<u8>, FieldView>,
)
    requires
        0 <= pos <= src.content.len(),
    ensures
        match scan_macros(src, pos, closing, context, macros).end {
            Ok(p) => pos < p <= src.content.len(),
            Err(_) => true,
        },
    decreases src.content.len() - pos,
{
    lemma_scan_field_advances(src, pos, closing, context, macros);
    match scan_definition(src, pos, closing, context, macros) {
        FieldStep::Read { field, next, pos: p } => {
            if next == Some(COMMA) {
                lemma_scan_macros_advances(
                    src,
                    p,
                    closing,
                    context,
                    macros.insert(field.name.text, field),
                );
            }
        },
        _ => {},
    }
}

/// A block ends after its opening delimiter, inside the buffer.
pub proof fn lemma_scan_block_advances(src: InputView, pos: int, bib: BibView)
    requires
        0 <= pos <= src.content.len(),
    ensures
        match scan_block(src, pos, bib).end {
            Ok(p) => pos < p <= src.content.len(),
            Err(_) => true,
        },
{
    reveal(scan_block);
    reveal(scan_entry);
    let s = src.content;
    let w = scan_name(s, pos);
    let word = slice_of(src, pos, w.end);
    lemma_scan_name_bounds(s, pos);
    match w.next {
        None => {},
        Some(open) => match closing_of(open) {
            None => {},
            Some(closing) => match block_kind(word.text) {
                BlockKind::Discard => {
                    lemma_brace_close_bounds(s, w.pos, 1);
                    lemma_paren_close_bounds(s, w.pos);
                },
                BlockKind::Macros => {
                    lemma_scan_macros_advances(
                        src,
                        w.pos,
                        closing,
                        ContextView::MacroDef(trace_of(word)),
                        bib.macros,
                    );
                },
                BlockKind::Entry => {
                    let q = skip_blank(s, w.pos);
                    lemma_skip_blank_bounds(s, w.pos);
                    let k = scan_name(s, q);
                    let key = slice_of(src, q, k.end);
                    lemma_scan_name_bounds(s, q);
                    lemma_scan_fields_advances(
                        src,
                        k.next,
                        k.pos,
                        closing,
                        ContextView::Entry(key.text, trace_of(key)),
                        Map::empty(),
                    );
                },
            },
        },
    }
}

/// A whole buffer, read from `pos` on into the bibliography `bib`. Between
/// blocks only whitespace and line comments may stand; each block begins with
/// `@`. Reading ends at the end of the buffer or at the first failure; what
/// was added before a failure stays.
pub open spec fn parse_from(src: InputView, pos: int, bib: BibView) -> Parsed
    decreases src.content.len() - pos,
{
    let s = src.content;
    let t = after_blank(s, pos);
    match t.next {
        None => Parsed { bib, error: None },
        Some(byte) => {
            if byte != AT {
                Parsed {
                    bib,
                    error: Some(
                        ErrorView::InvalidToken(ContextView::Global, byte, trace_before(src, t.pos)),
                    ),
                }
            } else {
                let b = scan_block(src, t.pos, bib);
                match b.end {
                    Ok(p) => {
                        proof {
                            lemma_after_blank_bounds(s, pos);
                            lemma_scan_block_advances(src, t.pos, bib);
                        }
                        parse_from(src, p, b.bib)
                    },
                    Err(e) => Parsed { bib: b.bib, error: Some(e) },
                }
            }
        },
    }
}

/// A whole buffer, read into the bibliography `bib`.
pub open spec fn parse(src: InputView, bib: BibView) -> Parsed {
    parse_from(src, 0, bib)
}

} // verus!
