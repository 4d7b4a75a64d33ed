//! The mathematical model of buffers, spans, values and bibliographies, and
//! of the positions that diagnostics report.

use vstd::prelude::*;
use vstd::utf8::is_continuation_byte;
use super::grammar::LINE_FEED;

verus! {

/// A named buffer: the name that diagnostics cite and the bytes of its text.
pub struct InputView {
    pub name: Seq<char>,
    pub content: Seq<u8>,
}

/// A span of a buffer: its bytes, the buffer, and where its first byte stands.
pub struct SliceView {
    pub text: Seq<u8>,
    pub source: InputView,
    pub offset: int,
}

/// A position as a reader sees it: the buffer's name, the line, counted from
/// one, and the column, which for the first character of a line is one.
pub struct TraceView {
    pub name: Seq<char>,
    pub line: int,
    pub col: int,
}

/// A value: literal text, the name of a macro, or two or more of these joined.
pub enum ValueView {
    Literal(SliceView),
    MacroRef(SliceView),
    Compound(Seq<ValueView>),
}

/// A name bound to a value, inside an entry or a block of macro definitions.
pub struct FieldView {
    pub name: SliceView,
    pub value: ValueView,
}

/// One record: its type, its citation key and its fields by name.
pub struct EntryView {
    pub entrytype: SliceView,
    pub key: SliceView,
    pub fields: Map<Seq<u8>, FieldView>,
}

/// All that has been read so far: macros by name and entries by key.
pub struct BibView {
    pub macros: Map<Seq<u8>, FieldView>,
    pub entries: Map<Seq<u8>, EntryView>,
}

/// The syntactic position in which a failure was met.
pub enum ContextView {
    Global,
    Comment(TraceView),
    MacroDef(TraceView),
    Entry(Seq<u8>, TraceView),
}

/// The failures of a parse.
pub enum ErrorView {
    InvalidEOF(ContextView, TraceView),
    InvalidToken(ContextView, u8, TraceView),
    DoubleKey(Seq<u8>, TraceView, TraceView),
    DoubleField(Seq<u8>, TraceView, TraceView),
    DoubleMacro(Seq<u8>, TraceView, TraceView),
    RecursiveMacro(Seq<u8>, TraceView),
}

/// The bibliography that holds nothing.
pub open spec fn empty_bib() -> BibView {
    BibView { macros: Map::empty(), entries: Map::empty() }
}

/// The span `[start, end)` of a buffer.
pub open spec fn slice_of(src: InputView, start: int, end: int) -> SliceView {
    SliceView { text: src.content.subrange(start, end), source: src, offset: start }
}

/// Whether a span lies inside its buffer and holds what the buffer holds
/// there.
pub open spec fn in_source(slice: SliceView) -> bool {
    &&& 0 <= slice.offset
    &&& slice.offset + slice.text.len() <= slice.source.content.len()
    &&& slice.text == slice.source.content.subrange(
        slice.offset,
        slice.offset + slice.text.len(),
    )
}

/// Whether a value is one value alone, with its span inside its buffer.
pub open spec fn is_sound_atom(value: ValueView) -> bool {
    match value {
        ValueView::Literal(text) => in_source(text),
        ValueView::MacroRef(name) => in_source(name),
        ValueView::Compound(_) => false,
    }
}

/// Whether a value is as a parse makes it: one value alone, or a compound of
/// at least two, each of which is one value alone.
pub open spec fn is_sound_value(value: ValueView) -> bool {
    match value {
        ValueView::Compound(parts) => parts.len() >= 2 && forall|i: int|
            0 <= i < parts.len() ==> is_sound_atom(#[trigger] parts[i]),
        atom => is_sound_atom(atom),
    }
}

/// Whether a field that is kept under `name` has that name and a sound value.
pub open spec fn is_sound_field(name: Seq<u8>, field: FieldView) -> bool {
    field.name.text == name && in_source(field.name) && is_sound_value(field.value)
}

/// Whether an entry that is kept under `key` has that key, and each of its
/// fields is kept under its name.
pub open spec fn is_sound_entry(key: Seq<u8>, entry: EntryView) -> bool {
    &&& entry.key.text == key
    &&& in_source(entry.key)
    &&& in_source(entry.entrytype)
    &&& forall|name: Seq<u8>| #[trigger]
        entry.fields.contains_key(name) ==> is_sound_field(name, entry.fields[name])
}

/// Whether a bibliography is as parses make it: every entry is kept under
/// its key and every macro under its name, no macro is a compound, and every
/// span lies inside its buffer.
pub open spec fn is_sound_bib(bib: BibView) -> bool {
    &&& forall|key: Seq<u8>| #[trigger]
        bib.entries.contains_key(key) ==> is_sound_entry(key, bib.entries[key])
    &&& forall|name: Seq<u8>| #[trigger]
        bib.macros.contains_key(name) ==> is_sound_field(name, bib.macros[name]) && !(
        bib.macros[name].value is Compound)
}

/// Whether every binding of `before` is a binding of `after`.
pub open spec fn is_kept<V>(before: Map<Seq<u8>, V>, after: Map<Seq<u8>, V>) -> bool {
    forall|k: Seq<u8>| #[trigger]
        before.contains_key(k) ==> after.contains_key(k) && after[k] == before[k]
}

/// The number of line feeds among the first `upto` bytes.
pub open spec fn count_newlines(s: Seq<u8>, upto: int) -> int
    decreases upto,
{
    if upto <= 0 {
        0
    } else if s[upto - 1] == LINE_FEED {
        count_newlines(s, upto - 1) + 1
    } else {
        count_newlines(s, upto - 1)
    }
}

/// Where the line that holds byte `upto - 1` begins: just after the last line
/// feed among the first `upto` bytes, or at the start of the buffer.
pub open spec fn line_start(s: Seq<u8>, upto: int) -> int
    decreases upto,
{
    if upto <= 0 {
        0
    } else if s[upto - 1] == LINE_FEED {
        upto
    } else {
        line_start(s, upto - 1)
    }
}

/// The number of characters that begin in `[from, to)`: the bytes there that
/// do not continue a character begun earlier.
pub open spec fn count_chars(s: Seq<u8>, from: int, to: int) -> int
    decreases to - from,
{
    if to <= from {
        0
    } else if is_continuation_byte(s[to - 1]) {
        count_chars(s, from, to - 1)
    } else {
        count_chars(s, from, to - 1) + 1
    }
}

/// The number of bytes that a position at `offset` looks back on: the byte at
/// `offset` and all before it, or the whole buffer where `offset` is its end.
pub open spec fn covered(s: Seq<u8>, offset: int) -> int {
    if offset < s.len() {
        offset + 1
    } else {
        s.len() as int
    }
}

/// The position of the byte at `offset`. The line is one more than the number
/// of line feeds at or before `offset`; the column is the number of characters
/// from the start of that line up to and including the one at `offset`. The
/// end of the buffer has the position of the buffer's last byte.
pub open spec fn trace_at(src: InputView, offset: int) -> TraceView {
    let upto = covered(src.content, offset);
    TraceView {
        name: src.name,
        line: 1 + count_newlines(src.content, upto),
        col: count_chars(src.content, line_start(src.content, upto), upto),
    }
}

/// The position of a span's first byte.
pub open spec fn trace_of(slice: SliceView) -> TraceView {
    trace_at(slice.source, slice.offset)
}

} // verus!
