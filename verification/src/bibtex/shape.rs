//! The shape of what was read: what two results have in common when they
//! were read from buffers that hold the same text under different names.

use vstd::prelude::*;
use super::grammar::{
    after_blank, block_kind, closing_of, lemma_after_blank_bounds, lemma_scan_atom_advances,
    lemma_scan_block_advances, lemma_scan_field_advances, parse_from, scan_atom, scan_binding_name,
    scan_block, scan_definition, scan_entry, scan_field, scan_fields, scan_joined, scan_macros,
    scan_name, scan_value, skip_blank, BlockKind, FieldStep, NameStep, AT, COMMA, HASH,
};
use super::model::{
    slice_of, trace_of, BibView, ContextView, EntryView, ErrorView, FieldView, InputView, SliceView,
    TraceView, ValueView,
};

verus! {

/// Two spans of the same shape: the same text at the same offset, in buffers
/// that hold the same.
pub open spec fn same_slice(a: SliceView, b: SliceView) -> bool {
    a.text == b.text && a.offset == b.offset && a.source.content == b.source.content
}

/// Two values of the same shape, neither of them a compound.
pub open spec fn same_atom(a: ValueView, b: ValueView) -> bool {
    match (a, b) {
        (ValueView::Literal(x), ValueView::Literal(y)) => same_slice(x, y),
        (ValueView::MacroRef(x), ValueView::MacroRef(y)) => same_slice(x, y),
        _ => false,
    }
}

/// Two sequences of values, of the same shape one by one.
pub open spec fn same_parts(a: Seq<ValueView>, b: Seq<ValueView>) -> bool {
    a.len() == b.len() && forall|i: int| 0 <= i < a.len() ==> same_atom(#[trigger] a[i], b[i])
}

/// Two values of the same shape: the same tag, and spans of the same shape.
pub open spec fn same_value(a: ValueView, b: ValueView) -> bool {
    match (a, b) {
        (ValueView::Compound(x), ValueView::Compound(y)) => same_parts(x, y),
        _ => same_atom(a, b),
    }
}

/// Two fields of the same shape.
pub open spec fn same_field(a: FieldView, b: FieldView) -> bool {
    same_slice(a.name, b.name) && same_value(a.value, b.value)
}

/// Two tables of fields of the same shape: the same names, and under each
/// name fields of the same shape.
pub open spec fn same_fields(a: Map<Seq<u8>, FieldView>, b: Map<Seq<u8>, FieldView>) -> bool {
    &&& forall|name: Seq<u8>| #[trigger] a.contains_key(name) == b.contains_key(name)
    &&& forall|name: Seq<u8>| #[trigger] a.contains_key(name) ==> same_field(a[name], b[name])
}

/// Two entries of the same shape.
pub open spec fn same_entry(a: EntryView, b: EntryView) -> bool {
    same_slice(a.entrytype, b.entrytype) && same_slice(a.key, b.key) && same_fields(
        a.fields,
        b.fields,
    )
}

/// Two tables of entries of the same shape: the same keys, and under each
/// key entries of the same shape.
pub open spec fn same_entries(a: Map<Seq<u8>, EntryView>, b: Map<Seq<u8>, EntryView>) -> bool {
    &&& forall|key: Seq<u8>| #[trigger] a.contains_key(key) == b.contains_key(key)
    &&& forall|key: Seq<u8>| #[trigger] a.contains_key(key) ==> same_entry(a[key], b[key])
}

/// Two bibliographies of the same shape: the same keys, the same names, the
/// same tags, texts and offsets.
pub open spec fn same_bib(a: BibView, b: BibView) -> bool {
    same_fields(a.macros, b.macros) && same_entries(a.entries, b.entries)
}

/// Two positions that differ at most in the name of the buffer.
pub open spec fn same_trace(a: TraceView, b: TraceView) -> bool {
    a.line == b.line && a.col == b.col
}

/// Two contexts that differ at most in the names of buffers.
pub open spec fn same_context(a: ContextView, b: ContextView) -> bool {
    match (a, b) {
        (ContextView::Global, ContextView::Global) => true,
        (ContextView::Comment(x), ContextView::Comment(y)) => same_trace(x, y),
        (ContextView::MacroDef(x), ContextView::MacroDef(y)) => same_trace(x, y),
        (ContextView::Entry(j, x), ContextView::Entry(k, y)) => j == k && same_trace(x, y),
        _ => false,
    }
}

/// Two failures that differ at most in the names of buffers.
pub open spec fn same_error(a: ErrorView, b: ErrorView) -> bool {
    match (a, b) {
        (ErrorView::InvalidEOF(c, x), ErrorView::InvalidEOF(d, y)) => same_context(c, d)
            && same_trace(x, y),
        (ErrorView::InvalidToken(c, j, x), ErrorView::InvalidToken(d, k, y)) => same_context(c, d)
            && j == k && same_trace(x, y),
        (ErrorView::DoubleKey(j, x, v), ErrorView::DoubleKey(k, y, w)) => j == k && same_trace(x, y)
            && same_trace(v, w),
        (ErrorView::DoubleField(j, x, v), ErrorView::DoubleField(k, y, w)) => j == k
            && same_trace(x, y) && same_trace(v, w),
        (ErrorView::DoubleMacro(j, x, v), ErrorView::DoubleMacro(k, y, w)) => j == k
            && same_trace(x, y) && same_trace(v, w),
        (ErrorView::RecursiveMacro(j, x), ErrorView::RecursiveMacro(k, y)) => j == k
            && same_trace(x, y),
        _ => false,
    }
}

/// Two ends of a parse that differ at most in the names of buffers: both
/// without failure, or both with the same failure.
pub open spec fn same_failure(a: Option<ErrorView>, b: Option<ErrorView>) -> bool {
    match (a, b) {
        (None, None) => true,
        (Some(x), Some(y)) => same_error(x, y),
        _ => false,
    }
}

/// Two ends of a block that differ at most in the names of buffers.
pub open spec fn same_end(a: Result<int, ErrorView>, b: Result<int, ErrorView>) -> bool {
    match (a, b) {
        (Ok(p), Ok(q)) => p == q,
        (Err(x), Err(y)) => same_error(x, y),
        _ => false,
    }
}

/// What two steps of reading have in common when they differ at most in the
/// names of buffers.
pub open spec fn same_step(a: FieldStep, b: FieldStep) -> bool {
    match (a, b) {
        (FieldStep::Closed { pos: p }, FieldStep::Closed { pos: q }) => p == q,
        (
            FieldStep::Read { field: f, next: m, pos: p },
            FieldStep::Read { field: g, next: n, pos: q },
        ) => same_field(f, g) && m == n && p == q,
        (FieldStep::Failed(x), FieldStep::Failed(y)) => same_error(x, y),
        _ => false,
    }
}

/// One value alone has the same shape in both buffers.
proof fn lemma_same_atom(a: InputView, b: InputView, i: int)
    requires
        a.content == b.content,
    ensures
        match (scan_atom(a, i), scan_atom(b, i)) {
            (Some(x), Some(y)) => same_atom(x.value, y.value) && x.next == y.next && x.pos == y.pos,
            (None, None) => true,
            _ => false,
        },
{
    reveal(scan_atom);
}

/// Joined values have the same shape in both buffers.
proof fn lemma_same_joined(
    a: InputView,
    b: InputView,
    i: int,
    first: Seq<ValueView>,
    second: Seq<ValueView>,
)
    requires
        a.content == b.content,
        same_parts(first, second),
    ensures
        match (scan_joined(a, i, first), scan_joined(b, i, second)) {
            (Some(x), Some(y)) => same_value(x.value, y.value) && x.value is Compound
                && x.next == y.next && x.pos == y.pos,
            (None, None) => true,
            _ => false,
        },
    decreases a.content.len() - i,
{
    lemma_same_atom(a, b, i);
    lemma_scan_atom_advances(a, i);
    match (scan_atom(a, i), scan_atom(b, i)) {
        (Some(x), Some(y)) => {
            let more = first.push(x.value);
            let other = second.push(y.value);
            assert(same_parts(more, other)) by {
                assert forall|j: int| 0 <= j < more.len() implies same_atom(
                    #[trigger] more[j],
                    other[j],
                ) by {
                    if j < first.len() {
                        assert(more[j] == first[j]);
                        assert(other[j] == second[j]);
                    }
                }
            }
            if x.next == Some(HASH) {
                lemma_same_joined(a, b, x.pos, more, other);
            }
        },
        _ => {},
    }
}

/// A value has the same shape in both buffers.
proof fn lemma_same_value(a: InputView, b: InputView, i: int)
    requires
        a.content == b.content,
    ensures
        match (scan_value(a, i), scan_value(b, i)) {
            (Some(x), Some(y)) => same_value(x.value, y.value) && x.next == y.next && x.pos
                == y.pos && (x.value is Compound <==> y.value is Compound),
            (None, None) => true,
            _ => false,
        },
{
    reveal(scan_value);
    lemma_same_atom(a, b, i);
    match (scan_atom(a, i), scan_atom(b, i)) {
        (Some(x), Some(y)) => {
            if x.next == Some(HASH) {
                assert(same_parts(seq![x.value], seq![y.value])) by {
                    assert(seq![x.value][0] == x.value);
                    assert(seq![y.value][0] == y.value);
                }
                lemma_same_joined(a, b, x.pos, seq![x.value], seq![y.value]);
            }
        },
        _ => {},
    }
}

/// What stands where a binding may begin is the same in both buffers.
proof fn lemma_same_binding_name(
    a: InputView,
    b: InputView,
    pos: int,
    closing: u8,
    first: ContextView,
    second: ContextView,
)
    requires
        a.content == b.content,
        same_context(first, second),
    ensures
        match (
            scan_binding_name(a, pos, closing, first),
            scan_binding_name(b, pos, closing, second),
        ) {
            (NameStep::Closed { pos: p }, NameStep::Closed { pos: q }) => p == q,
            (NameStep::Named { name: m, pos: p }, NameStep::Named { name: n, pos: q }) => same_slice(
                m,
                n,
            ) && p == q,
            (NameStep::Failed(x), NameStep::Failed(y)) => same_error(x, y),
            _ => false,
        },
{
    reveal(scan_binding_name);
}

/// One binding is read alike in both buffers, into tables of the same
/// shape.
proof fn lemma_same_binding(
    a: InputView,
    b: InputView,
    pos: int,
    closing: u8,
    first: ContextView,
    second: ContextView,
    known: Map<Seq<u8>, FieldView>,
    other: Map<Seq<u8>, FieldView>,
)
    requires
        a.content == b.content,
        same_context(first, second),
        same_fields(known, other),
    ensures
        same_step(
            scan_field(a, pos, closing, first, known),
            scan_field(b, pos, closing, second, other),
        ),
        same_step(
            scan_definition(a, pos, closing, first, known),
            scan_definition(b, pos, closing, second, other),
        ),
{
    reveal(scan_field);
    reveal(scan_definition);
    lemma_same_binding_name(a, b, pos, closing, first, second);
    match (scan_binding_name(a, pos, closing, first), scan_binding_name(b, pos, closing, second)) {
        (NameStep::Named { name: m, pos: p }, NameStep::Named { name: n, pos: q }) => {
            lemma_same_value(a, b, p);
            if known.contains_key(m.text) {
                assert(other.contains_key(n.text));
                assert(same_field(known[m.text], other[n.text]));
            }
        },
        _ => {},
    }
}

/// Adding fields of the same shape under one name keeps two tables of the
/// same shape.
proof fn lemma_same_fields_insert(
    known: Map<Seq<u8>, FieldView>,
    other: Map<Seq<u8>, FieldView>,
    name: Seq<u8>,
    f: FieldView,
    g: FieldView,
)
    requires
        same_fields(known, other),
        same_field(f, g),
    ensures
        same_fields(known.insert(name, f), other.insert(name, g)),
{
    let more = known.insert(name, f);
    let rest = other.insert(name, g);
    assert forall|k: Seq<u8>| #[trigger] more.contains_key(k) == rest.contains_key(k) by {
        assert(known.contains_key(k) == other.contains_key(k));
    }
    assert forall|k: Seq<u8>| #[trigger] more.contains_key(k) implies same_field(more[k], rest[k]) by {
        if k != name {
            assert(known.contains_key(k));
        }
    }
}

/// The fields of an entry are read alike in both buffers.
proof fn lemma_same_scan_fields(
    a: InputView,
    b: InputView,
    next: Option<u8>,
    pos: int,
    closing: u8,
    first: ContextView,
    second: ContextView,
    known: Map<Seq<u8>, FieldView>,
    other: Map<Seq<u8>, FieldView>,
)
    requires
        a.content == b.content,
        same_context(first, second),
        same_fields(known, other),
    ensures
        match (
            scan_fields(a, next, pos, closing, first, known),
            scan_fields(b, next, pos, closing, second, other),
        ) {
            (Ok(f), Ok(g)) => same_fields(f.fields, g.fields) && f.pos == g.pos,
            (Err(x), Err(y)) => same_error(x, y),
            _ => false,
        },
    decreases a.content.len() - pos,
{
    if next == Some(COMMA) {
        lemma_same_binding(a, b, pos, closing, first, second, known, other);
        lemma_scan_field_advances(a, pos, closing, first, known);
        match (
            scan_field(a, pos, closing, first, known),
            scan_field(b, pos, closing, second, other),
        ) {
            (
                FieldStep::Read { field: f, next: m, pos: p },
                FieldStep::Read { field: g, next: n, pos: q },
            ) => {
                lemma_same_fields_insert(known, other, f.name.text, f, g);
                lemma_same_scan_fields(
                    a,
                    b,
                    m,
                    p,
                    closing,
                    first,
                    second,
                    known.insert(f.name.text, f),
                    other.insert(g.name.text, g),
                );
            },
            _ => {},
        }
    }
}

/// A block of macro definitions is read alike in both buffers.
proof fn lemma_same_scan_macros(
    a: InputView,
    b: InputView,
    pos: int,
    closing: u8,
    first: ContextView,
    second: ContextView,
    known: Map<Seq<u8>, FieldView>,
    other: Map<Seq<u8>, FieldView>,
)
    requires
        a.content == b.content,
        same_context(first, second),
        same_fields(known, other),
    ensures
        same_fields(
            scan_macros(a, pos, closing, first, known).macros,
            scan_macros(b, pos, closing, second, other).macros,
        ),
        same_end(
            scan_macros(a, pos, closing, first, known).end,
            scan_macros(b, pos, closing, second, other).end,
        ),
    decreases a.content.len() - pos,
{
    lemma_same_binding(a, b, pos, closing, first, second, known, other);
    lemma_scan_field_advances(a, pos, closing, first, known);
    match (
        scan_definition(a, pos, closing, first, known),
        scan_definition(b, pos, closing, second, other),
    ) {
        (
            FieldStep::Read { field: f, next: m, pos: p },
            FieldStep::Read { field: g, next: n, pos: q },
        ) => {
            lemma_same_fields_insert(known, other, f.name.text, f, g);
            if m == Some(COMMA) {
                lemma_same_scan_macros(
                    a,
                    b,
                    p,
                    closing,
                    first,
                    second,
                    known.insert(f.name.text, f),
                    other.insert(g.name.text, g),
                );
            }
        },
        _ => {},
    }
}

/// One block is read alike in both buffers, into bibliographies of the same
/// shape.
proof fn lemma_same_block(a: InputView, b: InputView, pos: int, first: BibView, second: BibView)
    requires
        a.content == b.content,
        same_bib(first, second),
    ensures
        same_bib(scan_block(a, pos, first).bib, scan_block(b, pos, second).bib),
        same_end(scan_block(a, pos, first).end, scan_block(b, pos, second).end),
{
    reveal(scan_block);
    reveal(scan_entry);
    let s = a.content;
    let w = scan_name(s, pos);
    let word = slice_of(a, pos, w.end);
    let other = slice_of(b, pos, w.end);
    match w.next {
        None => {},
        Some(open) => match closing_of(open) {
            None => {},
            Some(closing) => match block_kind(word.text) {
                BlockKind::Discard => {},
                BlockKind::Macros => {
                    lemma_same_scan_macros(
                        a,
                        b,
                        w.pos,
                        closing,
                        ContextView::MacroDef(trace_of(word)),
                        ContextView::MacroDef(trace_of(other)),
                        first.macros,
                        second.macros,
                    );
                },
                BlockKind::Entry => {
                    let q = skip_blank(s, w.pos);
                    let k = scan_name(s, q);
                    let key = slice_of(a, q, k.end);
                    let same = slice_of(b, q, k.end);
                    lemma_same_scan_fields(
                        a,
                        b,
                        k.next,
                        k.pos,
                        closing,
                        ContextView::Entry(key.text, trace_of(key)),
                        ContextView::Entry(same.text, trace_of(same)),
                        Map::empty(),
                        Map::empty(),
                    );
                    match (
                        scan_fields(
                            a,
                            k.next,
                            k.pos,
                            closing,
                            ContextView::Entry(key.text, trace_of(key)),
                            Map::empty(),
                        ),
                        scan_fields(
                            b,
                            k.next,
                            k.pos,
                            closing,
                            ContextView::Entry(same.text, trace_of(same)),
                            Map::empty(),
                        ),
                    ) {
                        (Ok(f), Ok(g)) => {
                            if first.entries.contains_key(key.text) {
                                assert(second.entries.contains_key(same.text));
                                assert(same_entry(first.entries[key.text], second.entries[same.text]));
                            } else {
                                let x = EntryView { entrytype: word, key, fields: f.fields };
                                let y = EntryView { entrytype: other, key: same, fields: g.fields };
                                let more = first.entries.insert(key.text, x);
                                let rest = second.entries.insert(same.text, y);
                                assert forall|j: Seq<u8>| #[trigger]
                                    more.contains_key(j) == rest.contains_key(j) by {
                                    assert(first.entries.contains_key(j)
                                        == second.entries.contains_key(j));
                                }
                                assert forall|j: Seq<u8>| #[trigger]
                                    more.contains_key(j) implies same_entry(more[j], rest[j]) by {
                                    if j != key.text {
                                        assert(first.entries.contains_key(j));
                                    }
                                }
                            }
                        },
                        _ => {},
                    }
                },
            },
        },
    }
}

/// What was read does not depend on the name of the buffer, only on its
/// text. Two buffers that hold the same text, read into two bibliographies
/// of the same shape, leave bibliographies of the same shape: the same keys,
/// the same names under each key, the same tags, texts and offsets. And both
/// parses end without failure, or both end with the same failure at the same
/// line and column.
pub proof fn law_shape_depends_on_text_alone(
    a: InputView,
    b: InputView,
    pos: int,
    first: BibView,
    second: BibView,
)
    requires
        a.content == b.content,
        same_bib(first, second),
        0 <= pos <= a.content.len(),
    ensures
        same_bib(parse_from(a, pos, first).bib, parse_from(b, pos, second).bib),
        same_failure(parse_from(a, pos, first).error, parse_from(b, pos, second).error),
    decreases a.content.len() - pos,
{
    let s = a.content;
    let t = after_blank(s, pos);
    lemma_after_blank_bounds(s, pos);
    match t.next {
        None => {},
        Some(byte) => {
            if byte == AT {
                lemma_same_block(a, b, t.pos, first, second);
                lemma_scan_block_advances(a, t.pos, first);
                let x = scan_block(a, t.pos, first);
                let y = scan_block(b, t.pos, second);
                match (x.end, y.end) {
                    (Ok(p), Ok(q)) => {
                        law_shape_depends_on_text_alone(a, b, p, x.bib, y.bib);
                    },
                    _ => {},
                }
            }
        },
    }
}

} // verus!
