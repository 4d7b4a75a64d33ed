//! The scanner, which walks a buffer byte by byte, and the parser that it
//! carries through the blocks of the buffer.

use vstd::prelude::*;
use vstd::string::StringSliceAdditionalSpecFns;
use vstd::utf8::{is_continuation_byte, valid_utf8};
use super::grammar::{
    after_blank, after_byte, ascii_lower, block_kind, brace_close, byte_at, digits_end, ident_end,
    is_delimiter, is_digit, is_space, lemma_after_blank_bounds, lemma_brace_close_bounds,
    lemma_line_end_bounds, lemma_scan_atom_advances, lemma_scan_block_advances,
    lemma_scan_field_advances, lemma_scan_name_bounds, lemma_scan_value_advances,
    lemma_skip_blank_bounds, line_end, paren_close, parse_from, quote_close, same_word, scan_atom,
    scan_binding_name, scan_block, scan_braced, scan_definition, scan_entry, scan_field,
    scan_fields, scan_joined, scan_macros, scan_name, scan_number, scan_quoted, scan_value,
    skip_blank, trace_before, unexpected, word_comment, word_preface, word_string, BlockKind,
    FieldStep, NameStep, AT, BACKSLASH, BLANK, CARRIAGE_RETURN, CLOSE_BRACE, CLOSE_PAREN, COMMA,
    DIGIT_NINE, DIGIT_ZERO, EQUALS, HASH, LINE_FEED, OPEN_BRACE, OPEN_PAREN, PERCENT, QUOTE, TAB,
};
use super::model::{
    is_kept, is_sound_bib, is_sound_value, slice_of, trace_at, trace_of, BibView, ContextView,
    EntryView, ErrorView, InputView, ValueView,
};
use super::sound::{law_parse_adds_and_keeps_sound, law_value_is_sound};
use super::text::{is_boundary, lemma_boundary_after_ascii};
use super::tokens::{
    bare_word_at, is_balanced, is_bare_word_at, is_in_comment, is_quotable,
    law_braced_text_is_balanced, law_only_blank_is_passed_over, law_quoted_text_is_quotable,
};
use super::{
    Error, FieldDef, Input, InputSlice, InputTrace, RawBibliography, RawEntry, RawValue,
    TokenContext, MAX_CONTENT_LEN,
};

verus! {

/// Whether a byte is insignificant whitespace.
fn is_space_byte(b: u8) -> (r: bool)
    ensures
        r == is_space(b),
{
    (TAB <= b && b <= CARRIAGE_RETURN) || b == BLANK
}

/// Whether a byte is an ASCII digit.
fn is_digit_byte(b: u8) -> (r: bool)
    ensures
        r == is_digit(b),
{
    DIGIT_ZERO <= b && b <= DIGIT_NINE
}

/// Whether a byte ends an identifier without being whitespace.
fn is_delimiter_byte(b: u8) -> (r: bool)
    ensures
        r == is_delimiter(b),
{
    b == OPEN_BRACE || b == CLOSE_BRACE || b == COMMA || b == HASH || b == PERCENT || b
        == OPEN_PAREN || b == CLOSE_PAREN || b == EQUALS
}

/// A line comment ends where the buffer may be cut.
proof fn lemma_line_end_boundary(s: Seq<u8>, i: int)
    requires
        valid_utf8(s),
        0 <= i <= s.len(),
    ensures
        is_boundary(s, line_end(s, i)),
    decreases s.len() - i,
{
    if i < s.len() {
        if s[i] == LINE_FEED {
            lemma_boundary_after_ascii(s, i);
        } else {
            lemma_line_end_boundary(s, i + 1);
        }
    }
}

/// The first significant position after a place where the buffer may be cut
/// is such a place too.
proof fn lemma_skip_blank_boundary(s: Seq<u8>, i: int)
    requires
        valid_utf8(s),
        0 <= i <= s.len(),
        is_boundary(s, i),
    ensures
        is_boundary(s, skip_blank(s, i)),
    decreases s.len() - i,
{
    if i < s.len() {
        if is_space(s[i]) {
            lemma_boundary_after_ascii(s, i);
            lemma_skip_blank_boundary(s, i + 1);
        } else if s[i] == PERCENT {
            lemma_line_end_bounds(s, i + 1);
            lemma_line_end_boundary(s, i + 1);
            lemma_skip_blank_boundary(s, line_end(s, i + 1));
        }
    }
}

/// Whether the first significant byte at or after `i` continues a character
/// that began before it. No value begins there.
pub open spec fn begins_inside_character(s: Seq<u8>, i: int) -> bool {
    skip_blank(s, i) < s.len() && is_continuation_byte(s[skip_blank(s, i)])
}

/// Whether a byte continues a character.
fn is_continuation(b: u8) -> (r: bool)
    ensures
        r == is_continuation_byte(b),
{
    0x80 <= b && b <= 0xbf
}

/// The members of a compound, each seen as a value.
pub open spec fn part_views<'de>(parts: Seq<RawValue<'de>>) -> Seq<ValueView> {
    Seq::new(parts.len(), |i: int| parts[i]@)
}

/// Whether the byte taken is the given one.
fn is_byte(found: Option<u8>, byte: u8) -> (r: bool)
    ensures
        r == (found == Some(byte)),
{
    match found {
        Some(b) => b == byte,
        None => false,
    }
}

/// An ASCII letter in lower case; any other byte unchanged.
fn lower_byte(b: u8) -> (r: u8)
    ensures
        r == ascii_lower(b),
{
    if 65 <= b && b <= 90 {
        b + 32
    } else {
        b
    }
}

/// Whether two byte strings are equal once ASCII letters are in lower case.
fn same_word_as(text: &[u8], word: &[u8]) -> (r: bool)
    ensures
        r == same_word(text@, word@),
{
    if text.len() != word.len() {
        return false;
    }
    let mut i: usize = 0;
    while i < text.len()
        invariant
            text@.len() == word@.len(),
            0 <= i <= text@.len(),
            forall|j: int| 0 <= j < i ==> ascii_lower(#[trigger] text@[j]) == ascii_lower(word@[j]),
        decreases text@.len() - i,
    {
        if lower_byte(text[i]) != lower_byte(word[i]) {
            return false;
        }
        i = i + 1;
    }
    true
}

/// The kind of block that a word introduces.
fn block_kind_of(word: &[u8]) -> (kind: BlockKind)
    ensures
        kind == block_kind(word@),
{
    let comment: [u8; 7] = [99, 111, 109, 109, 101, 110, 116];
    let preface: [u8; 7] = [112, 114, 101, 102, 97, 99, 101];
    let string: [u8; 6] = [115, 116, 114, 105, 110, 103];
    proof {
        assert(comment@ =~= word_comment());
        assert(preface@ =~= word_preface());
        assert(string@ =~= word_string());
    }
    if same_word_as(word, comment.as_slice()) || same_word_as(word, preface.as_slice()) {
        BlockKind::Discard
    } else if same_word_as(word, string.as_slice()) {
        BlockKind::Macros
    } else {
        BlockKind::Entry
    }
}

/// The failure for a byte, or the end of input, met where something else was
/// required.
fn unexpected_token(context: TokenContext, found: Option<u8>, at: InputTrace) -> (e: Error)
    ensures
        e@ == unexpected(context@, found, at@),
{
    match found {
        Some(byte) => Error::InvalidToken(context, byte, at),
        None => Error::InvalidEOF(context, at),
    }
}

/// The block whose contents are read: a block of macro definitions, known by
/// the word that opened it, or an entry, known by its key.
enum Opened<'a, 'de> {
    Macros(&'a InputSlice<'de>),
    Entry(&'a InputSlice<'de>),
}

impl<'a, 'de> Opened<'a, 'de> {
    /// The context that failures inside the block cite.
    spec fn view(&self) -> ContextView {
        match self {
            Opened::Macros(word) => ContextView::MacroDef(trace_of(word@)),
            Opened::Entry(key) => ContextView::Entry(key@.text, trace_of(key@)),
        }
    }

    /// The context that failures inside the block cite. It is made only when
    /// a failure is met.
    fn context(&self) -> (context: TokenContext)
        ensures
            context@ == self@,
    {
        match self {
            Opened::Macros(word) => TokenContext::MacroDef(word.trace()),
            Opened::Entry(key) => TokenContext::Entry(key.to_string(), key.trace()),
        }
    }
}

/// How the reading of one `name = value` ended, where it did not fail: with
/// the closing delimiter in its place, or with the byte taken after the
/// value.
enum Step {
    Closed,
    Read(Option<u8>),
}

/// A cursor in one buffer, with a mark where the current token began.
#[derive(Debug)]
pub struct Parser<'de> {
    input: &'de Input,
    index: usize,
    saved_index: usize,
}

impl<'de> Parser<'de> {
    #[verifier::type_invariant]
    spec fn inside(&self) -> bool {
        &&& self.saved_index <= self.index <= self.input@.content.len() <= MAX_CONTENT_LEN
        &&& valid_utf8(self.input@.content)
    }

    /// The buffer that is read.
    pub closed spec fn source(&self) -> InputView {
        self.input@
    }

    /// The bytes of the buffer that is read.
    pub open spec fn text(&self) -> Seq<u8> {
        self.source().content
    }

    /// The offset of the byte that is read next.
    pub closed spec fn position(&self) -> int {
        self.index as int
    }

    /// The offset at which the current token began.
    pub closed spec fn mark(&self) -> int {
        self.saved_index as int
    }

    /// A parser at the start of `input`.
    pub fn new(input: &'de Input) -> (r: Self)
        ensures
            r.source() == input@,
            r.position() == 0,
            r.mark() == 0,
    {
        let _ = input.bytes();
        Parser { input, index: 0, saved_index: 0 }
    }

    /// The byte at the cursor, if the buffer has not ended.
    pub fn peek(&self) -> (r: Option<u8>)
        ensures
            r == byte_at(self.text(), self.position()),
            0 <= self.mark() <= self.position() <= self.text().len(),
    {
        proof {
            use_type_invariant(self);
        }
        let bytes = self.input.bytes();
        if self.index < bytes.len() {
            Some(bytes[self.index])
        } else {
            None
        }
    }

    /// Takes the byte at the cursor, if the buffer has not ended.
    pub fn next(&mut self) -> (r: Option<u8>)
        ensures
            final(self).source() == old(self).source(),
            final(self).mark() == old(self).mark(),
            r == byte_at(old(self).text(), old(self).position()),
            final(self).position() == after_byte(old(self).text(), old(self).position()),
            0 <= old(self).mark() <= old(self).position() <= old(self).text().len(),
    {
        proof {
            use_type_invariant(&*self);
        }
        let bytes = self.input.bytes();
        if self.index < bytes.len() {
            let ch = bytes[self.index];
            self.index = self.index + 1;
            Some(ch)
        } else {
            None
        }
    }

    /// Passes over the byte at the cursor.
    fn discard_next(&mut self)
        requires
            old(self).position() < old(self).text().len(),
        ensures
            final(self).source() == old(self).source(),
            final(self).mark() == old(self).mark(),
            final(self).position() == old(self).position() + 1,
    {
        proof {
            use_type_invariant(&*self);
        }
        self.index = self.index + 1;
    }

    /// The position of the byte taken last.
    fn trace_last(&self) -> (t: InputTrace)
        requires
            self.position() >= 1,
        ensures
            t@ == trace_at(self.source(), self.position() - 1),
    {
        self.input.trace(self.index - 1)
    }

    /// Passes over the rest of a line comment, its line feed included.
    pub fn discard_line(&mut self)
        ensures
            final(self).source() == old(self).source(),
            final(self).mark() == old(self).mark(),
            final(self).position() == line_end(old(self).text(), old(self).position()),
    {
        proof {
            use_type_invariant(&*self);
        }
        loop
            invariant_except_break
                line_end(self.text(), self.position()) == line_end(
                    old(self).text(),
                    old(self).position(),
                ),
            invariant
                self.source() == old(self).source(),
                self.mark() == old(self).mark(),
                0 <= self.position() <= self.text().len(),
            ensures
                self.source() == old(self).source(),
                self.mark() == old(self).mark(),
                self.position() == line_end(old(self).text(), old(self).position()),
            decreases self.text().len() - self.position(),
        {
            match self.next() {
                Some(LINE_FEED) => {
                    break ;
                },
                Some(_) => {},
                None => {
                    break ;
                },
            }
        }
    }

    /// Moves the cursor to the first significant byte and shows it without
    /// taking it. Nothing but whitespace and line comments is passed over.
    pub fn peek_after_whitespace(&mut self) -> (r: Option<u8>)
        ensures
            final(self).source() == old(self).source(),
            final(self).mark() == old(self).mark(),
            final(self).position() == skip_blank(old(self).text(), old(self).position()),
            old(self).position() <= final(self).position() <= old(self).text().len(),
            forall|j: int|
                old(self).position() <= j < final(self).position() ==> is_space(
                    #[trigger] old(self).text()[j],
                ) || is_in_comment(old(self).text(), old(self).position(), j),
            r == byte_at(old(self).text(), final(self).position()),
            r matches Some(b) ==> !is_space(b) && b != PERCENT,
            r is None ==> final(self).position() == old(self).text().len(),
    {
        proof {
            use_type_invariant(&*self);
            law_only_blank_is_passed_over(self.text(), self.position());
        }
        loop
            invariant
                self.source() == old(self).source(),
                self.mark() == old(self).mark(),
                0 <= self.position() <= self.text().len(),
                old(self).position() <= skip_blank(old(self).text(), old(self).position()),
                forall|j: int|
                    old(self).position() <= j < skip_blank(
                        old(self).text(),
                        old(self).position(),
                    ) ==> is_space(#[trigger] old(self).text()[j]) || is_in_comment(
                        old(self).text(),
                        old(self).position(),
                        j,
                    ),
                skip_blank(self.text(), self.position()) == skip_blank(
                    old(self).text(),
                    old(self).position(),
                ),
            decreases self.text().len() - self.position(),
        {
            match self.peek() {
                Some(byte) => {
                    if is_space_byte(byte) {
                        self.discard_next();
                    } else if byte == PERCENT {
                        let ghost after = self.position() + 1;
                        self.discard_next();
                        self.discard_line();
                        proof {
                            lemma_line_end_bounds(self.text(), after);
                        }
                    } else {
                        return Some(byte);
                    }
                },
                None => {
                    return None;
                },
            }
        }
    }

    /// Takes the first significant byte.
    pub fn next_after_whitespace(&mut self) -> (r: Option<u8>)
        ensures
            final(self).source() == old(self).source(),
            final(self).mark() == old(self).mark(),
            r == after_blank(old(self).text(), old(self).position()).next,
            final(self).position() == after_blank(old(self).text(), old(self).position()).pos,
    {
        let found = self.peek_after_whitespace();
        proof {
            lemma_skip_blank_bounds(old(self).text(), old(self).position());
        }
        if found.is_some() {
            self.discard_next();
        }
        found
    }

    /// Passes over the rest of the line comment whose `%` was taken last, and
    /// takes the first significant byte after it.
    fn next_after_comment(&mut self) -> (r: Option<u8>)
        requires
            old(self).position() >= 1,
            old(self).text()[old(self).position() - 1] == PERCENT,
        ensures
            final(self).source() == old(self).source(),
            final(self).mark() == old(self).mark(),
            r == after_blank(old(self).text(), old(self).position() - 1).next,
            final(self).position() == after_blank(old(self).text(), old(self).position() - 1).pos,
    {
        proof {
            use_type_invariant(&*self);
            lemma_line_end_bounds(self.text(), self.position());
        }
        self.discard_line();
        self.next_after_whitespace()
    }

    /// Sets the mark at the cursor.
    pub fn save_index(&mut self)
        ensures
            final(self).source() == old(self).source(),
            final(self).position() == old(self).position(),
            final(self).mark() == old(self).position(),
    {
        proof {
            use_type_invariant(&*self);
        }
        self.saved_index = self.index;
    }

    /// The span from the mark up to the byte taken last, which it leaves out.
    fn saved_until_last(&self) -> (r: InputSlice<'de>)
        requires
            self.mark() < self.position(),
            is_boundary(self.text(), self.mark()),
            is_boundary(self.text(), self.position() - 1),
        ensures
            r@ == slice_of(self.source(), self.mark(), self.position() - 1),
    {
        proof {
            use_type_invariant(self);
        }
        self.input.slice(self.saved_index, self.index - 1)
    }

    /// The span from the mark to the cursor, once the buffer has ended.
    fn saved_until_end(&self) -> (r: InputSlice<'de>)
        requires
            self.position() == self.text().len(),
            is_boundary(self.text(), self.mark()),
        ensures
            r@ == slice_of(self.source(), self.mark(), self.position()),
    {
        proof {
            use_type_invariant(self);
        }
        self.input.slice(self.saved_index, self.index)
    }

    /// Reads an identifier from the cursor on, and takes the byte after it:
    /// the delimiter that ended it, or the first significant byte after the
    /// whitespace or the line comment that ended it.
    fn parse_identifier(&mut self) -> (r: (InputSlice<'de>, Option<u8>))
        requires
            is_boundary(old(self).text(), old(self).position()),
        ensures
            final(self).source() == old(self).source(),
            r.0@ == slice_of(
                old(self).source(),
                old(self).position(),
                scan_name(old(self).text(), old(self).position()).end,
            ),
            r.1 == scan_name(old(self).text(), old(self).position()).next,
            final(self).position() == scan_name(old(self).text(), old(self).position()).pos,
            final(self).mark() == old(self).position(),
    {
        self.save_index();
        loop
            invariant
                self.source() == old(self).source(),
                self.mark() == old(self).position(),
                self.mark() <= self.position() <= self.text().len(),
                is_boundary(self.text(), self.mark()),
                ident_end(self.text(), self.position()) == ident_end(
                    old(self).text(),
                    old(self).position(),
                ),
            decreases self.text().len() - self.position(),
        {
            match self.next() {
                Some(byte) => {
                    if byte == PERCENT {
                        let name = self.saved_until_last();
                        let next = self.next_after_comment();
                        return (name, next);
                    } else if is_delimiter_byte(byte) {
                        let name = self.saved_until_last();
                        return (name, Some(byte));
                    } else if is_space_byte(byte) {
                        let name = self.saved_until_last();
                        let next = self.next_after_whitespace();
                        return (name, next);
                    }
                },
                None => {
                    let name = self.saved_until_end();
                    return (name, None);
                },
            }
        }
    }

    /// Reads a run of digits from the cursor on, and takes the byte after it:
    /// the byte that ended the run, or the first significant byte after the
    /// whitespace or the line comment that ended it.
    fn parse_number(&mut self) -> (r: (InputSlice<'de>, Option<u8>))
        requires
            is_boundary(old(self).text(), old(self).position()),
        ensures
            final(self).source() == old(self).source(),
            r.0@ == slice_of(
                old(self).source(),
                old(self).position(),
                scan_number(old(self).text(), old(self).position()).end,
            ),
            r.1 == scan_number(old(self).text(), old(self).position()).next,
            final(self).position() == scan_number(old(self).text(), old(self).position()).pos,
            final(self).mark() == old(self).position(),
    {
        self.save_index();
        proof {
            use_type_invariant(&*self);
        }
        loop
            invariant
                valid_utf8(self.text()),
                self.source() == old(self).source(),
                self.mark() == old(self).position(),
                self.mark() <= self.position() <= self.text().len(),
                is_boundary(self.text(), self.mark()),
                is_boundary(self.text(), self.position()),
                digits_end(self.text(), self.position()) == digits_end(
                    old(self).text(),
                    old(self).position(),
                ),
            decreases self.text().len() - self.position(),
        {
            match self.next() {
                Some(byte) => {
                    if is_digit_byte(byte) {
                        proof {
                            lemma_boundary_after_ascii(self.text(), self.position() - 1);
                        }
                    } else if is_space_byte(byte) {
                        let digits = self.saved_until_last();
                        let next = self.next_after_whitespace();
                        return (digits, next);
                    } else if byte == PERCENT {
                        let digits = self.saved_until_last();
                        let next = self.next_after_comment();
                        return (digits, next);
                    } else {
                        let digits = self.saved_until_last();
                        return (digits, Some(byte));
                    }
                },
                None => {
                    let digits = self.saved_until_end();
                    return (digits, None);
                },
            }
        }
    }

    /// Reads a braced value whose `{` stands at the cursor, and takes the
    /// first significant byte after its `}`. Fails with the byte found if no
    /// `{` stands there, and with the end of input if the braces never close.
    pub fn parse_braced(&mut self) -> (r: Result<(InputSlice<'de>, Option<u8>), Option<u8>>)
        ensures
            final(self).source() == old(self).source(),
            byte_at(old(self).text(), old(self).position()) == Some(OPEN_BRACE) ==> match scan_braced(
                old(self).text(),
                old(self).position(),
            ) {
                Some(t) => r matches Ok(found) && found.0@ == slice_of(
                    old(self).source(),
                    t.start,
                    t.end,
                ) && found.1 == t.next && final(self).position() == t.pos && is_balanced(
                    found.0@.text,
                ),
                None => r matches Err(found) && found is None
                    && final(self).position() == old(self).text().len(),
            },
            byte_at(old(self).text(), old(self).position()) == Some(OPEN_BRACE) ==> final(self).mark()
                == old(self).position() + 1,
            byte_at(old(self).text(), old(self).position()) != Some(OPEN_BRACE) ==> (r matches Err(
                found,
            ) && found == byte_at(old(self).text(), old(self).position())
                && final(self).mark() == old(self).mark()
                && final(self).position() == after_byte(old(self).text(), old(self).position())),
    {
        proof {
            law_braced_text_is_balanced(self.text(), self.position() + 1);
        }
        match self.next() {
            Some(OPEN_BRACE) => {},
            other => {
                return Err(other);
            },
        }
        self.save_index();
        proof {
            use_type_invariant(&*self);
            lemma_boundary_after_ascii(self.text(), self.position() - 1);
        }
        let mut depth: usize = 1;
        loop
            invariant
                self.source() == old(self).source(),
                self.mark() == old(self).position() + 1,
                self.mark() <= self.position() <= self.text().len() <= MAX_CONTENT_LEN,
                is_boundary(self.text(), self.mark()),
                byte_at(old(self).text(), old(self).position()) == Some(OPEN_BRACE),
                brace_close(old(self).text(), old(self).position() + 1, 1) matches Some(j)
                    ==> is_balanced(old(self).text().subrange(old(self).position() + 1, j)),
                1 <= depth <= self.position() - self.mark() + 1,
                brace_close(self.text(), self.position(), depth as nat) == brace_close(
                    old(self).text(),
                    old(self).position() + 1,
                    1,
                ),
            decreases self.text().len() - self.position(),
        {
            match self.next() {
                Some(byte) => {
                    if byte == OPEN_BRACE {
                        depth = depth + 1;
                    } else if byte == CLOSE_BRACE {
                        depth = depth - 1;
                        if depth == 0 {
                            let text = self.saved_until_last();
                            let next = self.next_after_whitespace();
                            return Ok((text, next));
                        }
                    }
                },
                None => {
                    return Err(None);
                },
            }
        }
    }

    /// Reads a quoted value whose `"` stands at the cursor, and takes the
    /// first significant byte after its closing quote. Fails with the byte
    /// found if no `"` stands there, and with the end of input if the quote
    /// never closes.
    pub fn parse_string(&mut self) -> (r: Result<(InputSlice<'de>, Option<u8>), Option<u8>>)
        ensures
            final(self).source() == old(self).source(),
            byte_at(old(self).text(), old(self).position()) == Some(QUOTE) ==> match scan_quoted(
                old(self).text(),
                old(self).position(),
            ) {
                Some(t) => r matches Ok(found) && found.0@ == slice_of(
                    old(self).source(),
                    t.start,
                    t.end,
                ) && found.1 == t.next && final(self).position() == t.pos && is_quotable(
                    found.0@.text,
                ),
                None => r matches Err(found) && found is None
                    && final(self).position() == old(self).text().len(),
            },
            byte_at(old(self).text(), old(self).position()) == Some(QUOTE) ==> final(self).mark()
                == old(self).position() + 1,
            byte_at(old(self).text(), old(self).position()) != Some(QUOTE) ==> (r matches Err(
                found,
            ) && found == byte_at(old(self).text(), old(self).position())
                && final(self).mark() == old(self).mark()
                && final(self).position() == after_byte(old(self).text(), old(self).position())),
    {
        proof {
            law_quoted_text_is_quotable(self.text(), self.position() + 1);
        }
        match self.next() {
            Some(QUOTE) => {},
            other => {
                return Err(other);
            },
        }
        self.save_index();
        proof {
            use_type_invariant(&*self);
            lemma_boundary_after_ascii(self.text(), self.position() - 1);
        }
        loop
            invariant
                self.source() == old(self).source(),
                self.mark() == old(self).position() + 1,
                self.mark() <= self.position() <= self.text().len(),
                is_boundary(self.text(), self.mark()),
                byte_at(old(self).text(), old(self).position()) == Some(QUOTE),
                quote_close(old(self).text(), old(self).position() + 1) matches Some(j)
                    ==> is_quotable(old(self).text().subrange(old(self).position() + 1, j)),
                quote_close(self.text(), self.position()) == quote_close(
                    old(self).text(),
                    old(self).position() + 1,
                ),
            decreases self.text().len() - self.position(),
        {
            match self.next() {
                Some(byte) => {
                    if byte == QUOTE {
                        let text = self.saved_until_last();
                        let next = self.next_after_whitespace();
                        return Ok((text, next));
                    } else if byte == BACKSLASH {
                        if self.peek().is_some() {
                            self.discard_next();
                        } else {
                            return Err(None);
                        }
                    }
                },
                None => {
                    return Err(None);
                },
            }
        }
    }

    /// Reads one value that is not joined to another, from the first
    /// significant byte on, and takes the byte after it. Fails with the end
    /// of input if the buffer ends before the value is complete, and with the
    /// byte found if that byte continues a character.
    fn parse_atom(&mut self) -> (r: Result<(RawValue<'de>, Option<u8>), Option<u8>>)
        ensures
            final(self).source() == old(self).source(),
            begins_inside_character(old(self).text(), old(self).position()) ==> (r matches Err(
                found,
            ) && found == Some(old(self).text()[skip_blank(old(self).text(), old(self).position())])
                && final(self).position() == skip_blank(old(self).text(), old(self).position())
                + 1),
            !begins_inside_character(old(self).text(), old(self).position()) ==> match scan_atom(
                old(self).source(),
                old(self).position(),
            ) {
                Some(a) => r matches Ok(found) && found.0@ == a.value && found.1 == a.next
                    && final(self).position() == a.pos,
                None => r matches Err(found) && found is None
                    && final(self).position() == old(self).text().len(),
            },
    {
        proof {
            reveal(scan_atom);
        }
        proof {
            use_type_invariant(&*self);
            lemma_skip_blank_bounds(self.text(), self.position());
        }
        match self.peek_after_whitespace() {
            Some(byte) => {
                if is_continuation(byte) {
                    self.discard_next();
                    Err(Some(byte))
                } else if is_digit_byte(byte) {
                    let (text, next) = self.parse_number();
                    Ok((RawValue::Literal(text), next))
                } else if byte == OPEN_BRACE {
                    match self.parse_braced() {
                        Ok((text, next)) => Ok((RawValue::Literal(text), next)),
                        Err(found) => Err(found),
                    }
                } else if byte == QUOTE {
                    match self.parse_string() {
                        Ok((text, next)) => Ok((RawValue::Literal(text), next)),
                        Err(found) => Err(found),
                    }
                } else {
                    let (name, next) = self.parse_identifier();
                    Ok((RawValue::MacroRef(name), next))
                }
            },
            None => Err(None),
        }
    }

    /// Reads a value from the first significant byte on, and takes the byte
    /// after it. Where a `#` follows a value, the values joined by it are
    /// gathered, in their order, into a compound. A bare word is kept as the
    /// name of a macro, whatever macros there are. Fails with the end of input
    /// if the buffer ends before the value is complete, and with the byte
    /// found if the value would begin inside a character.
    pub fn parse_value(&mut self) -> (r: Result<(RawValue<'de>, Option<u8>), Option<u8>>)
        ensures
            final(self).source() == old(self).source(),
            begins_inside_character(old(self).text(), old(self).position()) ==> (r matches Err(
                found,
            ) && found == Some(old(self).text()[skip_blank(old(self).text(), old(self).position())])
                && final(self).position() == skip_blank(old(self).text(), old(self).position())
                + 1),
            !begins_inside_character(old(self).text(), old(self).position()) ==> match scan_value(
                old(self).source(),
                old(self).position(),
            ) {
                Some(v) => r matches Ok(found) && found.0@ == v.value && found.1 == v.next
                    && final(self).position() == v.pos && is_sound_value(found.0@),
                None => r matches Err(found) && found is None
                    && final(self).position() == old(self).text().len(),
            },
            is_bare_word_at(old(self).text(), old(self).position()) ==> (r matches Ok(found)
                && found.0@ == ValueView::MacroRef(
                bare_word_at(old(self).source(), old(self).position()),
            )),
    {
        proof {
            reveal(scan_value);
            reveal(scan_atom);
        }
        proof {
            lemma_scan_atom_advances(self.source(), self.position());
            law_value_is_sound(self.source(), self.position());
            lemma_scan_name_bounds(
                self.text(),
                skip_blank(self.text(), self.position()),
            );
        }
        let (first, next) = match self.parse_atom() {
            Ok(found) => found,
            Err(found) => {
                return Err(found);
            },
        };
        if !is_byte(next, HASH) {
            return Ok((first, next));
        }
        let ghost joined = scan_joined(self.source(), self.position(), seq![first@]);
        let mut parts: Vec<RawValue<'de>> = Vec::new();
        parts.push(first);
        proof {
            use_type_invariant(&*self);
            lemma_boundary_after_ascii(self.text(), self.position() - 1);
            assert(part_views(parts@) =~= seq![parts@[0]@]);
        }
        loop
            invariant
                self.source() == old(self).source(),
                valid_utf8(self.text()),
                0 <= self.position() <= self.text().len(),
                is_boundary(self.text(), self.position()),
                !begins_inside_character(old(self).text(), old(self).position()),
                !is_bare_word_at(old(self).text(), old(self).position()),
                scan_joined(self.source(), self.position(), part_views(parts@)) == joined,
                scan_value(old(self).source(), old(self).position()) == joined,
                joined matches Some(v) ==> is_sound_value(v.value),
            decreases self.text().len() - self.position(),
        {
            proof {
                lemma_scan_atom_advances(self.source(), self.position());
                lemma_skip_blank_bounds(self.text(), self.position());
                lemma_skip_blank_boundary(self.text(), self.position());
            }
            let ghost before = part_views(parts@);
            match self.parse_atom() {
                Ok((part, next)) => {
                    parts.push(part);
                    proof {
                        assert(part_views(parts@) =~= before.push(part@));
                    }
                    if !is_byte(next, HASH) {
                        let value = RawValue::Compound(parts);
                        proof {
                            assert(value@->Compound_0 =~= part_views(parts@));
                        }
                        return Ok((value, next));
                    }
                    proof {
                        lemma_boundary_after_ascii(self.text(), self.position() - 1);
                    }
                },
                Err(found) => {
                    return Err(found);
                },
            }
        }
    }

    /// Passes over a braced block from inside it, through the `}` that
    /// matches the `{` taken last. Fails with the end of input if the braces
    /// never close.
    pub fn close_brace(&mut self) -> (r: Result<(), Option<u8>>)
        ensures
            final(self).source() == old(self).source(),
            final(self).mark() == old(self).mark(),
            match brace_close(old(self).text(), old(self).position(), 1) {
                Some(j) => r is Ok && final(self).position() == j + 1,
                None => r matches Err(found) && found is None
                    && final(self).position() == old(self).text().len(),
            },
    {
        proof {
            use_type_invariant(&*self);
        }
        let mut depth: usize = 1;
        let ghost begun = self.position();
        loop
            invariant
                self.source() == old(self).source(),
                self.mark() == old(self).mark(),
                begun == old(self).position(),
                0 <= begun <= self.position() <= self.text().len() <= MAX_CONTENT_LEN,
                1 <= depth <= self.position() - begun + 1,
                brace_close(self.text(), self.position(), depth as nat) == brace_close(
                    old(self).text(),
                    old(self).position(),
                    1,
                ),
            decreases self.text().len() - self.position(),
        {
            match self.next() {
                Some(byte) => {
                    if byte == OPEN_BRACE {
                        depth = depth + 1;
                    } else if byte == CLOSE_BRACE {
                        depth = depth - 1;
                        if depth == 0 {
                            return Ok(());
                        }
                    }
                },
                None => {
                    return Err(None);
                },
            }
        }
    }

    /// Passes over a parenthesised block from inside it, through its `)`.
    /// Braced groups on the way are passed over whole. Fails with the end of
    /// input if the block never closes.
    pub fn close_parenthesis(&mut self) -> (r: Result<(), Option<u8>>)
        ensures
            final(self).source() == old(self).source(),
            final(self).mark() == old(self).mark(),
            match paren_close(old(self).text(), old(self).position()) {
                Some(j) => r is Ok && final(self).position() == j + 1,
                None => r matches Err(found) && found is None
                    && final(self).position() == old(self).text().len(),
            },
    {
        proof {
            use_type_invariant(&*self);
        }
        loop
            invariant
                self.source() == old(self).source(),
                self.mark() == old(self).mark(),
                0 <= self.position() <= self.text().len(),
                paren_close(self.text(), self.position()) == paren_close(
                    old(self).text(),
                    old(self).position(),
                ),
            decreases self.text().len() - self.position(),
        {
            match self.next() {
                Some(byte) => {
                    if byte == OPEN_BRACE {
                        proof {
                            lemma_brace_close_bounds(self.text(), self.position(), 1);
                        }
                        match self.close_brace() {
                            Ok(()) => {},
                            Err(found) => {
                                return Err(found);
                            },
                        }
                    } else if byte == CLOSE_PAREN {
                        return Ok(());
                    }
                },
                None => {
                    return Err(None);
                },
            }
        }
    }

    /// Reads, from the first significant byte on, either the closing
    /// delimiter of the block (`None`) or a name and the `=` after it.
    fn parse_binding_name(&mut self, closing: u8, opened: &Opened<'_, 'de>) -> (r: Result<
        Option<InputSlice<'de>>,
        Error,
    >)
        requires
            old(self).position() >= 1,
            is_boundary(old(self).text(), old(self).position()),
        ensures
            final(self).source() == old(self).source(),
            match scan_binding_name(old(self).source(), old(self).position(), closing, opened@) {
                NameStep::Closed { pos } => r matches Ok(found) && found is None
                    && final(self).position() == pos,
                NameStep::Named { name, pos } => r matches Ok(found) && found matches Some(n)
                    && n@ == name && final(self).position() == pos && pos >= 1
                    && old(self).text()[pos - 1] == EQUALS,
                NameStep::Failed(e) => r matches Err(failure) && failure@ == e,
            },
    {
        proof {
            reveal(scan_binding_name);
        }
        proof {
            use_type_invariant(&*self);
            lemma_skip_blank_bounds(self.text(), self.position());
            lemma_skip_blank_boundary(self.text(), self.position());
        }
        let ahead = self.peek_after_whitespace();
        if is_byte(ahead, closing) {
            self.discard_next();
            return Ok(None);
        }
        proof {
            lemma_scan_name_bounds(self.text(), self.position());
        }
        let (name, found) = self.parse_identifier();
        if is_byte(found, EQUALS) {
            Ok(Some(name))
        } else {
            Err(unexpected_token(opened.context(), found, self.trace_last()))
        }
    }

    /// Reads the value of a binding from after its `=`, and takes the byte
    /// after the value.
    fn parse_bound_value(&mut self, opened: &Opened<'_, 'de>) -> (r: Result<
        (RawValue<'de>, Option<u8>),
        Error,
    >)
        requires
            old(self).position() >= 1,
            old(self).text()[old(self).position() - 1] == EQUALS,
        ensures
            final(self).source() == old(self).source(),
            final(self).position() >= 1,
            match scan_value(old(self).source(), old(self).position()) {
                Some(v) => r matches Ok(found) && found.0@ == v.value && found.1 == v.next
                    && final(self).position() == v.pos && is_sound_value(found.0@),
                None => r matches Err(failure) && failure@ == ErrorView::InvalidEOF(
                    opened@,
                    trace_before(old(self).source(), old(self).text().len() as int),
                ),
            },
    {
        proof {
            use_type_invariant(&*self);
            lemma_boundary_after_ascii(self.text(), self.position() - 1);
            lemma_skip_blank_bounds(self.text(), self.position());
            lemma_skip_blank_boundary(self.text(), self.position());
            lemma_scan_value_advances(self.source(), self.position());
        }
        match self.parse_value() {
            Ok(found) => Ok(found),
            Err(found) => Err(unexpected_token(opened.context(), found, self.trace_last())),
        }
    }

    /// Reads one field of an entry into `entry`, or the closing delimiter in
    /// its place.
    fn parse_field(
        &mut self,
        closing: u8,
        key: &InputSlice<'de>,
        entry: &mut RawEntry<'de>,
    ) -> (r: Result<Step, Error>)
        requires
            old(self).position() >= 1,
            is_boundary(old(self).text(), old(self).position()),
        ensures
            final(self).source() == old(self).source(),
            match scan_field(
                old(self).source(),
                old(self).position(),
                closing,
                ContextView::Entry(key@.text, trace_of(key@)),
                old(entry)@.fields,
            ) {
                FieldStep::Closed { pos } => r matches Ok(step) && step is Closed
                    && final(self).position() == pos && final(entry)@ == old(entry)@,
                FieldStep::Read { field, next, pos } => r matches Ok(step) && step matches Step::Read(
                    then,
                ) && then == next && final(self).position() == pos && final(entry)@ == (EntryView {
                    entrytype: old(entry)@.entrytype,
                    key: old(entry)@.key,
                    fields: old(entry)@.fields.insert(field.name.text, field),
                }),
                FieldStep::Failed(e) => r matches Err(failure) && failure@ == e,
            },
    {
        proof {
            reveal(scan_field);
        }
        let opened = Opened::Entry(key);
        let name = match self.parse_binding_name(closing, &opened) {
            Ok(Some(name)) => name,
            Ok(None) => {
                return Ok(Step::Closed);
            },
            Err(failure) => {
                return Err(failure);
            },
        };
        match entry.field(name.as_str()) {
            Some(other) => {
                return Err(Error::DoubleField(name.to_string(), other.name().trace(), name.trace()));
            },
            None => {},
        }
        match self.parse_bound_value(&opened) {
            Ok((value, next)) => {
                entry.insert_field(FieldDef::new(name, value));
                Ok(Step::Read(next))
            },
            Err(failure) => Err(failure),
        }
    }

    /// Reads one definition of a macro block into `bib`, or the closing
    /// delimiter in its place.
    fn parse_definition(
        &mut self,
        closing: u8,
        entrytype: &InputSlice<'de>,
        bib: &mut RawBibliography<'de>,
    ) -> (r: Result<Step, Error>)
        requires
            old(self).position() >= 1,
            is_boundary(old(self).text(), old(self).position()),
        ensures
            final(self).source() == old(self).source(),
            match scan_definition(
                old(self).source(),
                old(self).position(),
                closing,
                ContextView::MacroDef(trace_of(entrytype@)),
                old(bib)@.macros,
            ) {
                FieldStep::Closed { pos } => r matches Ok(step) && step is Closed
                    && final(self).position() == pos && final(bib)@ == old(bib)@,
                FieldStep::Read { field, next, pos } => r matches Ok(step) && step matches Step::Read(
                    then,
                ) && then == next && final(self).position() == pos && final(bib)@ == (BibView {
                    macros: old(bib)@.macros.insert(field.name.text, field),
                    entries: old(bib)@.entries,
                }),
                FieldStep::Failed(e) => r matches Err(failure) && failure@ == e && final(bib)@
                    == old(bib)@,
            },
    {
        proof {
            reveal(scan_definition);
        }
        let opened = Opened::Macros(entrytype);
        let name = match self.parse_binding_name(closing, &opened) {
            Ok(Some(name)) => name,
            Ok(None) => {
                return Ok(Step::Closed);
            },
            Err(failure) => {
                return Err(failure);
            },
        };
        match bib.macro_def(name.as_str()) {
            Some(other) => {
                return Err(Error::DoubleMacro(name.to_string(), other.name().trace(), name.trace()));
            },
            None => {},
        }
        let (value, next) = match self.parse_bound_value(&opened) {
            Ok(found) => found,
            Err(failure) => {
                return Err(failure);
            },
        };
        match value {
            RawValue::Compound(_) => Err(Error::RecursiveMacro(name.to_string(), name.trace())),
            _ => {
                bib.insert_macro(FieldDef::new(name, value));
                Ok(Step::Read(next))
            },
        }
    }

    /// Reads the fields of an entry into `entry`, after the byte `next` was
    /// taken after the key, through the closing delimiter.
    fn parse_fields(
        &mut self,
        first: Option<u8>,
        closing: u8,
        key: &InputSlice<'de>,
        entry: &mut RawEntry<'de>,
    ) -> (r: Result<(), Error>)
        requires
            old(self).position() >= 1,
            first matches Some(b) ==> old(self).text()[old(self).position() - 1] == b,
        ensures
            final(self).source() == old(self).source(),
            match scan_fields(
                old(self).source(),
                first,
                old(self).position(),
                closing,
                ContextView::Entry(key@.text, trace_of(key@)),
                old(entry)@.fields,
            ) {
                Ok(f) => r is Ok && final(self).position() == f.pos && final(entry)@ == (EntryView {
                    entrytype: old(entry)@.entrytype,
                    key: old(entry)@.key,
                    fields: f.fields,
                }),
                Err(e) => r matches Err(failure) && failure@ == e,
            },
    {
        let ghost context = ContextView::Entry(key@.text, trace_of(key@));
        let ghost goal = scan_fields(
            self.source(),
            first,
            self.position(),
            closing,
            context,
            entry@.fields,
        );
        let mut next = first;
        proof {
            use_type_invariant(&*self);
        }
        while is_byte(next, COMMA)
            invariant
                self.source() == old(self).source(),
                valid_utf8(self.text()),
                1 <= self.position() <= self.text().len(),
                next matches Some(b) ==> self.text()[self.position() - 1] == b,
                context == ContextView::Entry(key@.text, trace_of(key@)),
                entry@.entrytype == old(entry)@.entrytype,
                entry@.key == old(entry)@.key,
                scan_fields(self.source(), next, self.position(), closing, context, entry@.fields)
                    == goal,
                goal == scan_fields(
                    old(self).source(),
                    first,
                    old(self).position(),
                    closing,
                    context,
                    old(entry)@.fields,
                ),
            decreases self.text().len() - self.position(),
        {
            proof {
                lemma_boundary_after_ascii(self.text(), self.position() - 1);
                lemma_scan_field_advances(
                    self.source(),
                    self.position(),
                    closing,
                    context,
                    entry@.fields,
                );
            }
            match self.parse_field(closing, key, entry) {
                Ok(Step::Closed) => {
                    return Ok(());
                },
                Ok(Step::Read(then)) => {
                    next = then;
                },
                Err(failure) => {
                    return Err(failure);
                },
            }
        }
        if is_byte(next, closing) {
            Ok(())
        } else {
            Err(unexpected_token(Opened::Entry(key).context(), next, self.trace_last()))
        }
    }

    /// Reads an entry of the given type from after its opening delimiter
    /// through its closing one, and adds it to `bib` unless its key is there
    /// already.
    fn parse_entry(
        &mut self,
        closing: u8,
        entrytype: InputSlice<'de>,
        bib: &mut RawBibliography<'de>,
    ) -> (r: Result<(), Error>)
        requires
            old(self).position() >= 1,
            is_boundary(old(self).text(), old(self).position()),
        ensures
            final(self).source() == old(self).source(),
            final(bib)@ == (BibView {
                macros: old(bib)@.macros,
                entries: scan_entry(
                    old(self).source(),
                    old(self).position(),
                    closing,
                    entrytype@,
                    old(bib)@.entries,
                ).entries,
            }),
            match scan_entry(
                old(self).source(),
                old(self).position(),
                closing,
                entrytype@,
                old(bib)@.entries,
            ).end {
                Ok(p) => r is Ok && final(self).position() == p,
                Err(e) => r matches Err(failure) && failure@ == e,
            },
    {
        proof {
            reveal(scan_entry);
            use_type_invariant(&*self);
            lemma_skip_blank_bounds(self.text(), self.position());
            lemma_skip_blank_boundary(self.text(), self.position());
        }
        let _ = self.peek_after_whitespace();
        proof {
            lemma_scan_name_bounds(self.text(), self.position());
        }
        let (key, next) = self.parse_identifier();
        let mut entry = RawEntry::new(entrytype, key);
        match self.parse_fields(next, closing, &key, &mut entry) {
            Ok(()) => {},
            Err(failure) => {
                return Err(failure);
            },
        }
        match bib.entry(key.as_str()) {
            Some(other) => {
                return Err(Error::DoubleKey(key.to_string(), other.key().trace(), key.trace()));
            },
            None => {},
        }
        bib.insert_entry(entry);
        Ok(())
    }

    /// Reads a block of macro definitions from after its opening delimiter
    /// through its closing one, and adds each definition to `bib` as soon as
    /// it is complete.
    fn parse_macros(
        &mut self,
        closing: u8,
        entrytype: &InputSlice<'de>,
        bib: &mut RawBibliography<'de>,
    ) -> (r: Result<(), Error>)
        requires
            old(self).position() >= 1,
            is_boundary(old(self).text(), old(self).position()),
        ensures
            final(self).source() == old(self).source(),
            final(bib)@ == (BibView {
                macros: scan_macros(
                    old(self).source(),
                    old(self).position(),
                    closing,
                    ContextView::MacroDef(trace_of(entrytype@)),
                    old(bib)@.macros,
                ).macros,
                entries: old(bib)@.entries,
            }),
            match scan_macros(
                old(self).source(),
                old(self).position(),
                closing,
                ContextView::MacroDef(trace_of(entrytype@)),
                old(bib)@.macros,
            ).end {
                Ok(p) => r is Ok && final(self).position() == p,
                Err(e) => r matches Err(failure) && failure@ == e,
            },
    {
        let ghost context = ContextView::MacroDef(trace_of(entrytype@));
        let ghost goal = scan_macros(
            self.source(),
            self.position(),
            closing,
            context,
            bib@.macros,
        );
        proof {
            use_type_invariant(&*self);
        }
        loop
            invariant
                self.source() == old(self).source(),
                valid_utf8(self.text()),
                1 <= self.position() <= self.text().len(),
                is_boundary(self.text(), self.position()),
                context == ContextView::MacroDef(trace_of(entrytype@)),
                bib@.entries == old(bib)@.entries,
                scan_macros(self.source(), self.position(), closing, context, bib@.macros) == goal,
                goal == scan_macros(
                    old(self).source(),
                    old(self).position(),
                    closing,
                    context,
                    old(bib)@.macros,
                ),
            decreases self.text().len() - self.position(),
        {
            proof {
                lemma_scan_field_advances(
                    self.source(),
                    self.position(),
                    closing,
                    context,
                    bib@.macros,
                );
            }
            let next = match self.parse_definition(closing, entrytype, bib) {
                Ok(Step::Closed) => {
                    return Ok(());
                },
                Ok(Step::Read(next)) => next,
                Err(failure) => {
                    return Err(failure);
                },
            };
            if is_byte(next, COMMA) {
                proof {
                    lemma_boundary_after_ascii(self.text(), self.position() - 1);
                }
            } else if is_byte(next, closing) {
                return Ok(());
            } else {
                return Err(
                    unexpected_token(Opened::Macros(entrytype).context(), next, self.trace_last()),
                );
            }
        }
    }

    /// Reads one block from after its `@`: the word that names its kind, the
    /// opening delimiter, and the contents according to the kind.
    fn parse_block(&mut self, bib: &mut RawBibliography<'de>) -> (r: Result<(), Error>)
        requires
            old(self).position() >= 1,
            old(self).text()[old(self).position() - 1] == AT,
        ensures
            final(self).source() == old(self).source(),
            final(bib)@ == scan_block(old(self).source(), old(self).position(), old(bib)@).bib,
            match scan_block(old(self).source(), old(self).position(), old(bib)@).end {
                Ok(p) => r is Ok && final(self).position() == p,
                Err(e) => r matches Err(failure) && failure@ == e,
            },
    {
        proof {
            reveal(scan_block);
            use_type_invariant(&*self);
            lemma_boundary_after_ascii(self.text(), self.position() - 1);
            lemma_scan_name_bounds(self.text(), self.position());
        }
        let (entrytype, opening) = self.parse_identifier();
        let closing: u8 = if is_byte(opening, OPEN_BRACE) {
            CLOSE_BRACE
        } else if is_byte(opening, OPEN_PAREN) {
            CLOSE_PAREN
        } else {
            return Err(unexpected_token(TokenContext::Global, opening, self.trace_last()));
        };
        proof {
            lemma_boundary_after_ascii(self.text(), self.position() - 1);
        }
        match block_kind_of(entrytype.as_str().as_bytes()) {
            BlockKind::Discard => {
                let closed = if closing == CLOSE_BRACE {
                    self.close_brace()
                } else {
                    self.close_parenthesis()
                };
                match closed {
                    Ok(()) => Ok(()),
                    Err(found) => Err(
                        unexpected_token(
                            TokenContext::Comment(entrytype.trace()),
                            found,
                            self.trace_last(),
                        ),
                    ),
                }
            },
            BlockKind::Macros => self.parse_macros(closing, &entrytype, bib),
            BlockKind::Entry => self.parse_entry(closing, entrytype, bib),
        }
    }

    /// Reads the buffer from the cursor to its end into `bib`. Reading stops
    /// at the first failure; what was added before it stays in `bib`.
    pub fn parse(&mut self, bib: &mut RawBibliography<'de>) -> (r: Result<(), Error>)
        ensures
            final(self).source() == old(self).source(),
            final(bib)@ == parse_from(old(self).source(), old(self).position(), old(bib)@).bib,
            match r {
                Ok(()) => parse_from(old(self).source(), old(self).position(), old(bib)@).error
                    is None && final(self).position() == old(self).text().len(),
                Err(e) => parse_from(old(self).source(), old(self).position(), old(bib)@).error
                    == Some(e@),
            },
            is_kept(old(bib)@.entries, final(bib)@.entries),
            is_kept(old(bib)@.macros, final(bib)@.macros),
            is_sound_bib(final(bib)@),
    {
        let ghost goal = parse_from(self.source(), self.position(), bib@);
        proof {
            use_type_invariant(&*self);
            use_type_invariant(&*bib);
            law_parse_adds_and_keeps_sound(self.source(), self.position(), bib@);
        }
        loop
            invariant
                self.source() == old(self).source(),
                0 <= self.position() <= self.text().len(),
                parse_from(self.source(), self.position(), bib@) == goal,
                goal == parse_from(old(self).source(), old(self).position(), old(bib)@),
                is_kept(old(bib)@.entries, goal.bib.entries),
                is_kept(old(bib)@.macros, goal.bib.macros),
                is_sound_bib(goal.bib),
            decreases self.text().len() - self.position(),
        {
            proof {
                lemma_after_blank_bounds(self.text(), self.position());
            }
            match self.next_after_whitespace() {
                Some(byte) => {
                    if byte != AT {
                        return Err(
                            Error::InvalidToken(TokenContext::Global, byte, self.trace_last()),
                        );
                    }
                    proof {
                        lemma_scan_block_advances(self.source(), self.position(), bib@);
                    }
                    match self.parse_block(bib) {
                        Ok(()) => {},
                        Err(failure) => {
                            return Err(failure);
                        },
                    }
                },
                None => {
                    return Ok(());
                },
            }
        }
    }
}

} // verus!
