//! The soundness of what was read: a parse only adds, and it keeps every
//! entry under its key, every field and macro under its name, and every span
//! inside its buffer.

use vstd::prelude::*;
use super::grammar::{
    after_blank, block_kind, brace_close, closing_of, digits_end, ident_end, is_digit,
    lemma_after_blank_bounds, lemma_brace_close_bounds, lemma_digits_end_bounds,
    lemma_ident_end_bounds, lemma_quote_close_bounds, lemma_scan_atom_advances,
    lemma_scan_block_advances, lemma_scan_field_advances, lemma_scan_name_bounds,
    lemma_skip_blank_bounds, parse, parse_from, quote_close, scan_atom, scan_binding_name,
    scan_block, scan_definition, scan_entry, scan_field, scan_fields, scan_joined, scan_macros,
    scan_name, scan_value, skip_blank, BlockKind, FieldStep, AT, COMMA, EQUALS, HASH, OPEN_BRACE,
    QUOTE,
};
use super::model::{
    in_source, is_kept, is_sound_atom, is_sound_bib, is_sound_field, is_sound_value, slice_of,
    trace_of, BibView, ContextView, FieldView, InputView, ValueView,
};

verus! {

/// A span cut between two positions of a buffer lies inside the buffer.
proof fn lemma_slice_in_source(src: InputView, start: int, end: int)
    requires
        0 <= start <= end <= src.content.len(),
    ensures
        in_source(slice_of(src, start, end)),
{
}

/// One value alone, as it is read, is sound.
proof fn lemma_atom_is_sound(src: InputView, i: int)
    ensures
        scan_atom(src, i) matches Some(a) ==> is_sound_atom(a.value),
{
    reveal(scan_atom);
    let s = src.content;
    let p = skip_blank(s, i);
    lemma_skip_blank_bounds(s, i);
    if p < s.len() {
        lemma_digits_end_bounds(s, p);
        lemma_ident_end_bounds(s, p);
        lemma_brace_close_bounds(s, p + 1, 1);
        lemma_quote_close_bounds(s, p + 1);
        if is_digit(s[p]) {
            lemma_slice_in_source(src, p, digits_end(s, p));
        } else if s[p] == OPEN_BRACE {
            match brace_close(s, p + 1, 1) {
                Some(e) => {
                    lemma_slice_in_source(src, p + 1, e);
                },
                None => {},
            }
        } else if s[p] == QUOTE {
            match quote_close(s, p + 1) {
                Some(e) => {
                    lemma_slice_in_source(src, p + 1, e);
                },
                None => {},
            }
        } else {
            lemma_slice_in_source(src, p, ident_end(s, p));
        }
    }
}

/// Values joined to sound ones make a sound compound.
proof fn lemma_joined_is_sound(src: InputView, i: int, parts: Seq<ValueView>)
    requires
        parts.len() >= 1,
        forall|j: int| 0 <= j < parts.len() ==> is_sound_atom(#[trigger] parts[j]),
    ensures
        scan_joined(src, i, parts) matches Some(v) ==> is_sound_value(v.value) && v.value
            is Compound,
    decreases src.content.len() - i,
{
    lemma_atom_is_sound(src, i);
    lemma_scan_atom_advances(src, i);
    match scan_atom(src, i) {
        Some(a) => {
            let all = parts.push(a.value);
            assert forall|j: int| 0 <= j < all.len() implies is_sound_atom(#[trigger] all[j]) by {
                if j < parts.len() {
                    assert(all[j] == parts[j]);
                }
            }
            if a.next == Some(HASH) {
                lemma_joined_is_sound(src, a.pos, all);
            }
        },
        None => {},
    }
}

/// A value, as it is read, is sound: a compound has at least two members,
/// and each of them is one value alone.
pub proof fn law_value_is_sound(src: InputView, i: int)
    ensures
        scan_value(src, i) matches Some(v) ==> is_sound_value(v.value),
{
    reveal(scan_value);
    lemma_atom_is_sound(src, i);
    match scan_atom(src, i) {
        Some(a) => {
            if a.next == Some(HASH) {
                assert(seq![a.value][0] == a.value);
                lemma_joined_is_sound(src, a.pos, seq![a.value]);
            }
        },
        None => {},
    }
}

/// A binding that was read is sound under its name, and the name was not
/// taken; a macro's value is one value alone.
proof fn lemma_binding_is_sound(
    src: InputView,
    pos: int,
    closing: u8,
    context: ContextView,
    known: Map<Seq<u8>, FieldView>,
)
    ensures
        scan_field(src, pos, closing, context, known) matches FieldStep::Read { field, .. }
            ==> is_sound_field(field.name.text, field) && !known.contains_key(field.name.text),
        scan_definition(src, pos, closing, context, known) matches FieldStep::Read { field, .. }
            ==> is_sound_field(field.name.text, field) && !known.contains_key(field.name.text)
            && !(field.value is Compound),
{
    reveal(scan_binding_name);
    reveal(scan_field);
    reveal(scan_definition);
    let s = src.content;
    let q = skip_blank(s, pos);
    lemma_skip_blank_bounds(s, pos);
    lemma_scan_name_bounds(s, q);
    let n = scan_name(s, q);
    if n.next == Some(EQUALS) {
        lemma_slice_in_source(src, q, n.end);
        law_value_is_sound(src, n.pos);
    }
}

/// Whether every field of the table is kept under its name and is sound.
pub open spec fn are_sound_fields(fields: Map<Seq<u8>, FieldView>) -> bool {
    forall|name: Seq<u8>| #[trigger]
        fields.contains_key(name) ==> is_sound_field(name, fields[name])
}

/// Whether every macro of the table is kept under its name, is sound, and is
/// one value alone.
pub open spec fn are_sound_macros(macros: Map<Seq<u8>, FieldView>) -> bool {
    forall|name: Seq<u8>| #[trigger]
        macros.contains_key(name) ==> is_sound_field(name, macros[name]) && !(macros[name].value
            is Compound)
}

/// The fields of an entry, as they are read, keep those read before them,
/// and are sound if those were.
proof fn lemma_fields_are_sound(
    src: InputView,
    next: Option<u8>,
    pos: int,
    closing: u8,
    context: ContextView,
    fields: Map<Seq<u8>, FieldView>,
)
    requires
        are_sound_fields(fields),
    ensures
        scan_fields(src, next, pos, closing, context, fields) matches Ok(f) ==> are_sound_fields(
            f.fields,
        ) && is_kept(fields, f.fields),
    decreases src.content.len() - pos,
{
    if next == Some(COMMA) {
        lemma_scan_field_advances(src, pos, closing, context, fields);
        lemma_binding_is_sound(src, pos, closing, context, fields);
        match scan_field(src, pos, closing, context, fields) {
            FieldStep::Read { field, next: then, pos: p } => {
                let more = fields.insert(field.name.text, field);
                lemma_fields_are_sound(src, then, p, closing, context, more);
                match scan_fields(src, then, p, closing, context, more) {
                    Ok(f) => {
                        assert forall|k: Seq<u8>| #[trigger] fields.contains_key(k) implies f.fields.contains_key(
                            k,
                        ) && f.fields[k] == fields[k] by {
                            assert(more.contains_key(k));
                        }
                    },
                    Err(_) => {},
                }
            },
            _ => {},
        }
    }
}

/// The macros of a block, as they are read, keep those defined before them,
/// failure or not, and are sound if those were.
proof fn lemma_macros_are_sound(
    src: InputView,
    pos: int,
    closing: u8,
    context: ContextView,
    macros: Map<Seq<u8>, FieldView>,
)
    requires
        are_sound_macros(macros),
    ensures
        are_sound_macros(scan_macros(src, pos, closing, context, macros).macros),
        is_kept(macros, scan_macros(src, pos, closing, context, macros).macros),
    decreases src.content.len() - pos,
{
    lemma_scan_field_advances(src, pos, closing, context, macros);
    lemma_binding_is_sound(src, pos, closing, context, macros);
    match scan_definition(src, pos, closing, context, macros) {
        FieldStep::Read { field, next, pos: p } => {
            let defined = macros.insert(field.name.text, field);
            if next == Some(COMMA) {
                lemma_macros_are_sound(src, p, closing, context, defined);
                let last = scan_macros(src, p, closing, context, defined).macros;
                assert forall|k: Seq<u8>| #[trigger] macros.contains_key(k) implies last.contains_key(
                    k,
                ) && last[k] == macros[k] by {
                    assert(defined.contains_key(k));
                }
            }
        },
        _ => {},
    }
}

/// One block keeps what the bibliography held, failure or not, and leaves it
/// sound if it was.
proof fn lemma_block_is_sound(src: InputView, pos: int, bib: BibView)
    requires
        is_sound_bib(bib),
        0 <= pos <= src.content.len(),
    ensures
        is_sound_bib(scan_block(src, pos, bib).bib),
        is_kept(bib.entries, scan_block(src, pos, bib).bib.entries),
        is_kept(bib.macros, scan_block(src, pos, bib).bib.macros),
{
    reveal(scan_block);
    reveal(scan_entry);
    let s = src.content;
    let w = scan_name(s, pos);
    let word = slice_of(src, pos, w.end);
    lemma_scan_name_bounds(s, pos);
    match w.next {
        None => {},
        Some(open) => match closing_of(open) {
            None => {},
            Some(closing) => match block_kind(word.text) {
                BlockKind::Discard => {},
                BlockKind::Macros => {
                    lemma_macros_are_sound(
                        src,
                        w.pos,
                        closing,
                        ContextView::MacroDef(trace_of(word)),
                        bib.macros,
                    );
                },
                BlockKind::Entry => {
                    let q = skip_blank(s, w.pos);
                    lemma_skip_blank_bounds(s, w.pos);
                    let k = scan_name(s, q);
                    lemma_scan_name_bounds(s, q);
                    let key = slice_of(src, q, k.end);
                    lemma_slice_in_source(src, pos, w.end);
                    lemma_slice_in_source(src, q, k.end);
                    lemma_fields_are_sound(
                        src,
                        k.next,
                        k.pos,
                        closing,
                        ContextView::Entry(key.text, trace_of(key)),
                        Map::empty(),
                    );
                },
            },
        },
    }
}

/// A parse only adds: every entry and every macro that the bibliography held
/// before is there afterwards, unchanged, whether the parse failed or not.
/// And a parse leaves a sound bibliography sound: every entry is kept under
/// its own key and every field and macro under its own name, every compound
/// has at least two members, no macro is a compound, and every span lies
/// inside the buffer that it was cut from.
pub proof fn law_parse_adds_and_keeps_sound(src: InputView, pos: int, bib: BibView)
    requires
        is_sound_bib(bib),
        0 <= pos <= src.content.len(),
    ensures
        is_sound_bib(parse_from(src, pos, bib).bib),
        is_kept(bib.entries, parse_from(src, pos, bib).bib.entries),
        is_kept(bib.macros, parse_from(src, pos, bib).bib.macros),
    decreases src.content.len() - pos,
{
    let s = src.content;
    let t = after_blank(s, pos);
    lemma_after_blank_bounds(s, pos);
    match t.next {
        None => {},
        Some(byte) => {
            if byte == AT {
                lemma_block_is_sound(src, t.pos, bib);
                lemma_scan_block_advances(src, t.pos, bib);
                let b = scan_block(src, t.pos, bib);
                match b.end {
                    Ok(p) => {
                        law_parse_adds_and_keeps_sound(src, p, b.bib);
                    },
                    Err(_) => {},
                }
            }
        },
    }
}

} // verus!
