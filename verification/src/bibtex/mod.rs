//! Raw bibliographies: the buffers they are read from, the spans cut out of
//! those buffers, and the macros and entries that the spans make up.

pub mod grammar;
pub mod laws;
pub mod model;
pub mod parse;
pub mod positions;
pub mod shape;
pub mod sound;
pub mod text;
pub mod tokens;

use vstd::prelude::*;
use vstd::string::StringSliceAdditionalSpecFns;
use vstd::hash_map::StringHashMap;
use vstd::std_specs::cmp::PartialEqSpecImpl;
use vstd::utf8::{encode_utf8, encode_utf8_valid_utf8, valid_utf8};
use model::{
    count_chars, count_newlines, empty_bib, in_source, is_kept, is_sound_bib, is_sound_entry,
    is_sound_field, is_sound_value, line_start, slice_of, trace_at, trace_of, BibView, ContextView,
    EntryView, ErrorView, FieldView, InputView, SliceView, TraceView, ValueView,
};
use grammar::LINE_FEED;
use parse::Parser;
use text::{
    by_bytes, cut, is_boundary, lemma_by_bytes_empty, lemma_by_bytes_insert, lemma_by_bytes_len,
    lemma_by_bytes_lookup, same_bytes,
};

verus! {

/// The longest text a buffer may hold, in bytes: lines and columns are
/// reported as 32-bit numbers.
pub const MAX_CONTENT_LEN: usize = 0xffff_fffe;

/// A named text buffer. It is never changed once made, and every span read
/// from it borrows it.
#[derive(Debug)]
pub struct Input {
    name: String,
    content: String,
}

impl View for Input {
    type V = InputView;

    closed spec fn view(&self) -> InputView {
        InputView { name: self.name@, content: encode_utf8(self.content@) }
    }
}

impl Input {
    #[verifier::type_invariant]
    spec fn fits(&self) -> bool {
        encode_utf8(self.content@).len() <= MAX_CONTENT_LEN
    }

    /// A buffer of the given name and text; `None` if the text is longer than
    /// `MAX_CONTENT_LEN` bytes.
    pub fn new(name: String, content: String) -> (r: Option<Input>)
        ensures
            r is Some <==> encode_utf8(content@).len() <= MAX_CONTENT_LEN,
            r matches Some(input) ==> input@ == (InputView {
                name: name@,
                content: encode_utf8(content@),
            }),
    {
        if content.as_str().as_bytes().len() <= MAX_CONTENT_LEN {
            Some(Input { name, content })
        } else {
            None
        }
    }

    /// The name that diagnostics cite.
    pub fn name(&self) -> (r: &str)
        ensures
            r@ == self@.name,
    {
        self.name.as_str()
    }

    /// The text.
    pub fn content(&self) -> (r: &str)
        ensures
            r.spec_bytes() == self@.content,
    {
        self.content.as_str()
    }

    /// The bytes of the text: valid UTF-8, and no more than `MAX_CONTENT_LEN`.
    pub fn bytes(&self) -> (r: &[u8])
        ensures
            r@ == self@.content,
            r@.len() <= MAX_CONTENT_LEN,
            valid_utf8(r@),
    {
        proof {
            use_type_invariant(self);
            encode_utf8_valid_utf8(self.content@);
        }
        self.content.as_str().as_bytes()
    }

    /// The position of the byte at `offset`, as a reader sees it.
    pub fn trace(&self, offset: usize) -> (t: InputTrace)
        ensures
            t@ == trace_at(self@, offset as int),
    {
        let bytes = self.bytes();
        let upto: usize = if offset < bytes.len() {
            offset + 1
        } else {
            bytes.len()
        };
        let mut line: u32 = 1;
        let mut start: usize = 0;
        let mut pos: usize = 0;
        while pos < upto
            invariant
                pos <= upto <= bytes@.len() <= MAX_CONTENT_LEN,
                line == 1 + count_newlines(bytes@, pos as int),
                line <= 1 + pos,
                start == line_start(bytes@, pos as int),
                start <= pos,
            decreases upto - pos,
        {
            if bytes[pos] == LINE_FEED {
                line = line + 1;
                start = pos + 1;
            }
            pos = pos + 1;
        }
        let mut col: u32 = 0;
        let mut at: usize = start;
        while at < upto
            invariant
                start <= at <= upto <= bytes@.len() <= MAX_CONTENT_LEN,
                col == count_chars(bytes@, start as int, at as int),
                col <= at - start,
            decreases upto - at,
        {
            if !(0x80 <= bytes[at] && bytes[at] <= 0xbf) {
                col = col + 1;
            }
            at = at + 1;
        }
        InputTrace { name: self.name.clone(), line, col }
    }

    /// The span `[start, end)` of this buffer.
    pub(crate) fn slice<'de>(&'de self, start: usize, end: usize) -> (r: InputSlice<'de>)
        requires
            start <= end <= self@.content.len(),
            is_boundary(self@.content, start as int),
            is_boundary(self@.content, end as int),
        ensures
            r@ == slice_of(self@, start as int, end as int),
    {
        let text = cut(self.content.as_str(), start, end);
        InputSlice { text, input: self, offset: start }
    }
}

/// A position as a reader sees it: the name of the buffer, the line, counted
/// from one, and the column, which for the first character of a line is one.
#[derive(Debug, PartialEq, Eq)]
pub struct InputTrace {
    pub name: String,
    pub line: u32,
    pub col: u32,
}

impl View for InputTrace {
    type V = TraceView;

    open spec fn view(&self) -> TraceView {
        TraceView { name: self.name@, line: self.line as int, col: self.col as int }
    }
}

/// A span of a buffer: the text, the buffer it was cut from, and the offset of
/// its first byte. Two spans are told apart by their text alone when they
/// serve as names.
#[derive(Debug, Clone, Copy)]
pub struct InputSlice<'de> {
    text: &'de str,
    input: &'de Input,
    offset: usize,
}

impl<'de> View for InputSlice<'de> {
    type V = SliceView;

    closed spec fn view(&self) -> SliceView {
        SliceView { text: self.text.spec_bytes(), source: self.input@, offset: self.offset as int }
    }
}

impl<'de> PartialEq for InputSlice<'de> {
    /// Whether two spans hold the same text, wherever they stand.
    fn eq(&self, other: &Self) -> (r: bool) {
        same_bytes(self.text.as_bytes(), other.text.as_bytes())
    }
}

impl<'de> Eq for InputSlice<'de> {}

impl<'de> PartialEqSpecImpl for InputSlice<'de> {
    open spec fn obeys_eq_spec() -> bool {
        true
    }

    open spec fn eq_spec(&self, other: &Self) -> bool {
        self@.text == other@.text
    }
}

impl<'de> InputSlice<'de> {
    #[verifier::type_invariant]
    spec fn in_source(&self) -> bool {
        &&& self.offset + self.text.spec_bytes().len() <= self.input@.content.len()
        &&& self.text.spec_bytes() == self.input@.content.subrange(
            self.offset as int,
            self.offset + self.text.spec_bytes().len(),
        )
    }

    /// The text of the span.
    pub fn as_str(&self) -> (r: &'de str)
        ensures
            r.spec_bytes() == self@.text,
    {
        self.text
    }

    /// The text of the span, copied.
    pub fn to_string(&self) -> (r: String)
        ensures
            encode_utf8(r@) == self@.text,
    {
        self.text.to_owned()
    }

    /// The buffer that the span was cut from.
    pub fn source(&self) -> (r: &'de Input)
        ensures
            r@ == self@.source,
    {
        self.input
    }

    /// The offset of the span's first byte in its buffer. The span lies inside
    /// the buffer, and its text is what the buffer holds there.
    pub fn offset(&self) -> (r: usize)
        ensures
            r == self@.offset,
            in_source(self@),
    {
        proof {
            use_type_invariant(self);
        }
        self.offset
    }

    /// The position of the span's first byte, as a reader sees it.
    pub fn trace(&self) -> (t: InputTrace)
        ensures
            t@ == trace_of(self@),
    {
        self.input.trace(self.offset)
    }
}

/// The syntactic position in which a failure was met: between blocks, inside
/// a block that is thrown away, inside a block of macro definitions, or
/// inside the entry of the given key. Each block is cited by the position of
/// the word that opens it, the entry by that of its key.
#[derive(Debug, PartialEq, Eq)]
pub enum TokenContext {
    Global,
    Comment(InputTrace),
    MacroDef(InputTrace),
    Entry(String, InputTrace),
}

impl View for TokenContext {
    type V = ContextView;

    open spec fn view(&self) -> ContextView {
        match self {
            TokenContext::Global => ContextView::Global,
            TokenContext::Comment(at) => ContextView::Comment(at@),
            TokenContext::MacroDef(at) => ContextView::MacroDef(at@),
            TokenContext::Entry(key, at) => ContextView::Entry(encode_utf8(key@), at@),
        }
    }
}

/// The failures of a parse. Each one ends the parse of its buffer.
#[derive(Debug, PartialEq, Eq)]
pub enum Error {
    /// The buffer ended inside a block or a value.
    InvalidEOF(TokenContext, InputTrace),
    /// A byte stands where another was required.
    InvalidToken(TokenContext, u8, InputTrace),
    /// An entry has the key of an earlier one; both keys are cited.
    DoubleKey(String, InputTrace, InputTrace),
    /// An entry names a field twice; both names are cited.
    DoubleField(String, InputTrace, InputTrace),
    /// A macro is defined twice; both names are cited.
    DoubleMacro(String, InputTrace, InputTrace),
    /// A macro is defined as a compound value.
    RecursiveMacro(String, InputTrace),
}

impl View for Error {
    type V = ErrorView;

    open spec fn view(&self) -> ErrorView {
        match self {
            Error::InvalidEOF(context, at) => ErrorView::InvalidEOF(context@, at@),
            Error::InvalidToken(context, byte, at) => ErrorView::InvalidToken(context@, *byte, at@),
            Error::DoubleKey(key, first, second) => ErrorView::DoubleKey(
                encode_utf8(key@),
                first@,
                second@,
            ),
            Error::DoubleField(name, first, second) => ErrorView::DoubleField(
                encode_utf8(name@),
                first@,
                second@,
            ),
            Error::DoubleMacro(name, first, second) => ErrorView::DoubleMacro(
                encode_utf8(name@),
                first@,
                second@,
            ),
            Error::RecursiveMacro(name, at) => ErrorView::RecursiveMacro(encode_utf8(name@), at@),
        }
    }
}

/// A value as it was read: literal text, the name of a macro that is not
/// looked up, or the members of a concatenation that is not carried out.
#[derive(Debug)]
pub enum RawValue<'de> {
    Literal(InputSlice<'de>),
    MacroRef(InputSlice<'de>),
    Compound(Vec<RawValue<'de>>),
}

impl<'de> View for RawValue<'de> {
    type V = ValueView;

    open spec fn view(&self) -> ValueView
        decreases self,
    {
        match self {
            RawValue::Literal(text) => ValueView::Literal(text@),
            RawValue::MacroRef(name) => ValueView::MacroRef(name@),
            RawValue::Compound(parts) => ValueView::Compound(
                Seq::new(
                    parts@.len(),
                    |i: int|
                        if 0 <= i < parts@.len() {
                            parts@[i].view()
                        } else {
                            ValueView::Compound(Seq::empty())
                        },
                ),
            ),
        }
    }
}

/// A name bound to a value.
#[derive(Debug)]
pub struct FieldDef<'de> {
    name: InputSlice<'de>,
    value: RawValue<'de>,
}

impl<'de> View for FieldDef<'de> {
    type V = FieldView;

    closed spec fn view(&self) -> FieldView {
        FieldView { name: self.name@, value: self.value@ }
    }
}

impl<'de> FieldDef<'de> {
    #[verifier::type_invariant]
    spec fn sound(&self) -> bool {
        is_sound_field(self.name@.text, self@)
    }

    /// The binding of `name` to `value`.
    pub(crate) fn new(name: InputSlice<'de>, value: RawValue<'de>) -> (r: FieldDef<'de>)
        requires
            is_sound_value(value@),
        ensures
            r@ == (FieldView { name: name@, value: value@ }),
    {
        proof {
            use_type_invariant(&name);
        }
        FieldDef { name, value }
    }

    /// The name.
    pub fn name(&self) -> (r: &InputSlice<'de>)
        ensures
            r@ == self@.name,
    {
        &self.name
    }

    /// The value: one value alone, or a compound of at least two, each of
    /// which is one value alone.
    pub fn value(&self) -> (r: &RawValue<'de>)
        ensures
            r@ == self@.value,
            is_sound_value(r@),
    {
        proof {
            use_type_invariant(self);
        }
        &self.value
    }
}

/// The view of a field, as a function.
pub open spec fn field_view<'de>() -> spec_fn(FieldDef<'de>) -> FieldView {
    |f: FieldDef<'de>| f@
}

/// The view of an entry, as a function.
pub open spec fn entry_view<'de>() -> spec_fn(RawEntry<'de>) -> EntryView {
    |e: RawEntry<'de>| e@
}

/// One record: its type, its citation key, and its fields by name.
pub struct RawEntry<'de> {
    entrytype: InputSlice<'de>,
    key: InputSlice<'de>,
    fields: StringHashMap<FieldDef<'de>>,
}

impl<'de> View for RawEntry<'de> {
    type V = EntryView;

    closed spec fn view(&self) -> EntryView {
        EntryView {
            entrytype: self.entrytype@,
            key: self.key@,
            fields: by_bytes(self.fields@, field_view()),
        }
    }
}

impl<'de> RawEntry<'de> {
    #[verifier::type_invariant]
    spec fn sound(&self) -> bool {
        self.fields@.dom().finite() && is_sound_entry(self.key@.text, self@)
    }

    /// An entry of the given type and key that has no fields yet.
    pub(crate) fn new(entrytype: InputSlice<'de>, key: InputSlice<'de>) -> (r: RawEntry<'de>)
        ensures
            r@ == (EntryView { entrytype: entrytype@, key: key@, fields: Map::empty() }),
    {
        proof {
            lemma_by_bytes_empty::<FieldDef<'de>, FieldView>(field_view());
            use_type_invariant(&entrytype);
            use_type_invariant(&key);
        }
        RawEntry { entrytype, key, fields: StringHashMap::new() }
    }

    /// The type: the word after the `@`.
    pub fn entrytype(&self) -> (r: &InputSlice<'de>)
        ensures
            r@ == self@.entrytype,
    {
        &self.entrytype
    }

    /// The citation key.
    pub fn key(&self) -> (r: &InputSlice<'de>)
        ensures
            r@ == self@.key,
    {
        &self.key
    }

    /// The number of fields.
    pub fn field_count(&self) -> (n: usize)
        ensures
            self@.fields.dom().finite(),
            n == self@.fields.len(),
    {
        proof {
            use_type_invariant(self);
            lemma_by_bytes_len(self.fields@, field_view());
        }
        self.fields.len()
    }

    /// The field of the given name, if the entry has one. The entry is kept
    /// under its key, and each of its fields under its name.
    pub fn field(&self, name: &str) -> (r: Option<&FieldDef<'de>>)
        ensures
            r is Some <==> self@.fields.contains_key(name.spec_bytes()),
            r matches Some(f) ==> f@ == self@.fields[name.spec_bytes()],
            is_sound_entry(self@.key.text, self@),
    {
        proof {
            use_type_invariant(self);
            lemma_by_bytes_lookup(self.fields@, field_view(), name@);
        }
        self.fields.get(name)
    }

    /// Adds a field under its name, in place of any the entry had under it.
    pub(crate) fn insert_field(&mut self, field: FieldDef<'de>)
        ensures
            final(self)@ == (EntryView {
                entrytype: old(self)@.entrytype,
                key: old(self)@.key,
                fields: old(self)@.fields.insert(field@.name.text, field@),
            }),
    {
        proof {
            use_type_invariant(&*self);
            use_type_invariant(&field);
            lemma_by_bytes_insert(self.fields@, field_view(), field.name.text@, field);
            lemma_by_bytes_empty::<FieldDef<'de>, FieldView>(field_view());
        }
        let name = field.name.text.to_owned();
        // The table is taken out while it grows and put back afterwards.
        let mut fields = StringHashMap::new();
        core::mem::swap(&mut self.fields, &mut fields);
        fields.insert(name, field);
        core::mem::swap(&mut self.fields, &mut fields);
    }
}

/// All that has been read so far: macros by name and entries by key. It only
/// grows, one buffer after another.
pub struct RawBibliography<'de> {
    macros: StringHashMap<FieldDef<'de>>,
    entries: StringHashMap<RawEntry<'de>>,
}

impl<'de> View for RawBibliography<'de> {
    type V = BibView;

    closed spec fn view(&self) -> BibView {
        BibView {
            macros: by_bytes(self.macros@, field_view()),
            entries: by_bytes(self.entries@, entry_view()),
        }
    }
}

impl<'de> RawBibliography<'de> {
    #[verifier::type_invariant]
    spec fn sound(&self) -> bool {
        self.macros@.dom().finite() && self.entries@.dom().finite() && is_sound_bib(self@)
    }

    /// The bibliography that holds nothing.
    #[inline]
    pub fn new() -> (r: RawBibliography<'de>)
        ensures
            r@ == empty_bib(),
    {
        proof {
            lemma_by_bytes_empty::<FieldDef<'de>, FieldView>(field_view());
            lemma_by_bytes_empty::<RawEntry<'de>, EntryView>(entry_view());
        }
        RawBibliography { macros: StringHashMap::new(), entries: StringHashMap::new() }
    }

    /// Reads the whole of `input` into this bibliography. Macros and entries
    /// are added as they are read; a name or key that is there already, from
    /// this buffer or an earlier one, is a failure. Nothing is taken away by a
    /// failure: what was added before it stays.
    #[inline]
    pub fn add_bibtex_resource(&mut self, input: &'de Input) -> (r: Result<(), Error>)
        ensures
            final(self)@ == grammar::parse(input@, old(self)@).bib,
            match r {
                Ok(()) => grammar::parse(input@, old(self)@).error is None,
                Err(e) => grammar::parse(input@, old(self)@).error == Some(e@),
            },
            is_kept(old(self)@.entries, final(self)@.entries),
            is_kept(old(self)@.macros, final(self)@.macros),
            is_sound_bib(final(self)@),
    {
        let mut parser = Parser::new(input);
        parser.parse(self)
    }

    /// The number of entries.
    pub fn entry_count(&self) -> (n: usize)
        ensures
            self@.entries.dom().finite(),
            n == self@.entries.len(),
    {
        proof {
            use_type_invariant(self);
            lemma_by_bytes_len(self.entries@, entry_view());
        }
        self.entries.len()
    }

    /// The number of macros.
    pub fn macro_count(&self) -> (n: usize)
        ensures
            self@.macros.dom().finite(),
            n == self@.macros.len(),
    {
        proof {
            use_type_invariant(self);
            lemma_by_bytes_len(self.macros@, field_view());
        }
        self.macros.len()
    }

    /// The entry of the given key, if there is one. Every entry is kept under
    /// its own key.
    pub fn entry(&self, key: &str) -> (r: Option<&RawEntry<'de>>)
        ensures
            r is Some <==> self@.entries.contains_key(key.spec_bytes()),
            r matches Some(e) ==> e@ == self@.entries[key.spec_bytes()],
            is_sound_bib(self@),
    {
        proof {
            use_type_invariant(self);
            lemma_by_bytes_lookup(self.entries@, entry_view(), key@);
        }
        self.entries.get(key)
    }

    /// The definition of the macro of the given name, if there is one. Every
    /// macro is kept under its own name, and none is a compound.
    pub fn macro_def(&self, name: &str) -> (r: Option<&FieldDef<'de>>)
        ensures
            r is Some <==> self@.macros.contains_key(name.spec_bytes()),
            r matches Some(f) ==> f@ == self@.macros[name.spec_bytes()],
            is_sound_bib(self@),
    {
        proof {
            use_type_invariant(self);
            lemma_by_bytes_lookup(self.macros@, field_view(), name@);
        }
        self.macros.get(name)
    }

    /// Adds an entry under its key, in place of any that was there under it.
    pub(crate) fn insert_entry(&mut self, entry: RawEntry<'de>)
        ensures
            final(self)@ == (BibView {
                macros: old(self)@.macros,
                entries: old(self)@.entries.insert(entry@.key.text, entry@),
            }),
    {
        proof {
            use_type_invariant(&*self);
            use_type_invariant(&entry);
            lemma_by_bytes_insert(self.entries@, entry_view(), entry.key.text@, entry);
            lemma_by_bytes_empty::<RawEntry<'de>, EntryView>(entry_view());
        }
        let key = entry.key.text.to_owned();
        // The table is taken out while it grows and put back afterwards.
        let mut entries = StringHashMap::new();
        core::mem::swap(&mut self.entries, &mut entries);
        entries.insert(key, entry);
        core::mem::swap(&mut self.entries, &mut entries);
    }

    /// Adds a macro under its name, in place of any that was there under it.
    pub(crate) fn insert_macro(&mut self, definition: FieldDef<'de>)
        requires
            !(definition@.value is Compound),
        ensures
            final(self)@ == (BibView {
                macros: old(self)@.macros.insert(definition@.name.text, definition@),
                entries: old(self)@.entries,
            }),
    {
        proof {
            use_type_invariant(&*self);
            use_type_invariant(&definition);
            lemma_by_bytes_insert(self.macros@, field_view(), definition.name.text@, definition);
            lemma_by_bytes_empty::<FieldDef<'de>, FieldView>(field_view());
        }
        let name = definition.name.text.to_owned();
        // The table is taken out while it grows and put back afterwards.
        let mut macros = StringHashMap::new();
        core::mem::swap(&mut self.macros, &mut macros);
        macros.insert(name, definition);
        core::mem::swap(&mut self.macros, &mut macros);
    }
}

} // verus!
