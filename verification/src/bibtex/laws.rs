//! Laws of blocks and of whole parses: which entries are added, which keys
//! and names are refused, and where a comma may stand.

use vstd::prelude::*;
use super::grammar::{
    after_blank, block_kind, byte_at, closing_of, is_digit, lemma_after_blank_bounds,
    lemma_scan_block_advances, lemma_scan_field_advances, parse, parse_from, scan_atom,
    scan_binding_name, scan_block, scan_definition, scan_entry, scan_field, scan_fields,
    scan_macros, scan_name, scan_value, skip_blank, BlockKind, EntryScan, FieldStep, FieldsScan,
    NameStep, Parsed, AT, CLOSE_BRACE, COMMA, EQUALS, LINE_FEED, OPEN_BRACE, PERCENT, QUOTE,
};
use super::model::{
    empty_bib, is_kept, slice_of, trace_at, trace_of, BibView, ContextView, EntryView, ErrorView,
    FieldView, InputView, SliceView, ValueView,
};
use super::tokens::{
    is_balanced, is_one_line, is_plain, law_bare_word_is_macro_reference, law_braces_nest,
    law_comment_after_token, lemma_ident_end_of_plain_word, lemma_line_end_of_one_line,
};

verus! {

/// The text `@T{k}`.
pub open spec fn single_entry_text(entrytype: Seq<u8>, key: Seq<u8>) -> Seq<u8> {
    seq![AT] + entrytype + seq![OPEN_BRACE] + key + seq![CLOSE_BRACE]
}

/// A buffer that holds nothing but `@T{k}`, with `T` and `k` plain words and
/// `T` none of the reserved words, parses without failure, and the result
/// holds exactly one entry: its key is `k`, its type is `T`, and it has no
/// fields.
pub proof fn law_single_entry(name: Seq<char>, entrytype: Seq<u8>, key: Seq<u8>)
    requires
        is_plain(entrytype),
        is_plain(key),
        block_kind(entrytype) is Entry,
    ensures
        ({
            let src = InputView { name, content: single_entry_text(entrytype, key) };
            let parsed = parse(src, empty_bib());
            &&& parsed.error is None
            &&& parsed.bib.macros == Map::<Seq<u8>, FieldView>::empty()
            &&& parsed.bib.entries.dom() == set![key]
            &&& parsed.bib.entries[key] == (EntryView {
                entrytype: slice_of(src, 1, 1 + entrytype.len() as int),
                key: slice_of(
                    src,
                    2 + entrytype.len() as int,
                    2 + entrytype.len() as int + key.len() as int,
                ),
                fields: Map::empty(),
            })
            &&& parsed.bib.entries[key].entrytype.text == entrytype
            &&& parsed.bib.entries[key].key.text == key
        }),
{
    let s = single_entry_text(entrytype, key);
    let src = InputView { name, content: s };
    let t = entrytype.len() as int;
    let k = key.len() as int;
    assert(s.len() == 3 + t + k);
    assert(s[0] == AT);
    assert(s[1 + t] == OPEN_BRACE);
    assert(s[2 + t + k] == CLOSE_BRACE);
    assert(s.subrange(1, 1 + t) =~= entrytype);
    assert(s.subrange(2 + t, 2 + t + k) =~= key);

    // Between blocks: the `@` is the first significant byte.
    assert(skip_blank(s, 0) == 0);
    assert(after_blank(s, 0).next == Some(AT) && after_blank(s, 0).pos == 1);

    // The word after the `@`, and the opening brace.
    lemma_ident_end_of_plain_word(s, 1, entrytype);
    let w = scan_name(s, 1);
    assert(w.end == 1 + t && w.next == Some(OPEN_BRACE) && w.pos == 2 + t);
    let word = slice_of(src, 1, w.end);

    // The key, and the closing brace after it.
    let q = skip_blank(s, 2 + t);
    assert(q == 2 + t) by {
        if k > 0 {
            assert(s[2 + t] == s.subrange(2 + t, 2 + t + k)[0]);
            assert(s[2 + t] == key[0]);
        }
    }
    lemma_ident_end_of_plain_word(s, 2 + t, key);
    let n = scan_name(s, q);
    assert(n.end == 2 + t + k && n.next == Some(CLOSE_BRACE) && n.pos == 3 + t + k);
    let key_slice = slice_of(src, q, n.end);
    let context = ContextView::Entry(key_slice.text, trace_of(key_slice));
    let fields = scan_fields(src, n.next, n.pos, CLOSE_BRACE, context, Map::empty());
    assert(fields == Ok::<FieldsScan, ErrorView>(
        FieldsScan { fields: Map::empty(), pos: 3 + t + k },
    ));

    // The entry is added.
    reveal(scan_entry);
    let e = scan_entry(src, 2 + t, CLOSE_BRACE, word, Map::empty());
    assert(e.end == Ok::<int, ErrorView>(3 + t + k));
    reveal(scan_block);
    let b = scan_block(src, 1, empty_bib());
    assert(b.end == Ok::<int, ErrorView>(3 + t + k));
    let after = b.bib;
    assert(after.entries =~= Map::<Seq<u8>, EntryView>::empty().insert(
        key,
        EntryView { entrytype: word, key: key_slice, fields: Map::empty() },
    ));

    // Nothing is left after the block.
    assert(skip_blank(s, 3 + t + k) == 3 + t + k);
    assert(parse_from(src, 3 + t + k, after).error is None);
    assert(parse_from(src, 3 + t + k, after).bib == after);
    assert(parse_from(src, 0, empty_bib()) == parse_from(src, 3 + t + k, after));
    assert(after.entries.dom() =~= set![key]);
}

/// The key of the entry whose contents begin at `pos`.
pub open spec fn entry_key(src: InputView, pos: int) -> SliceView {
    let q = skip_blank(src.content, pos);
    slice_of(src, q, scan_name(src.content, q).end)
}

/// An entry that would be added to a bibliography without entries is refused
/// by one that has an entry of its key: the failure cites the key of the
/// entry that is there and the key of the entry that was read, and nothing
/// is added.
pub proof fn law_duplicate_key(
    src: InputView,
    pos: int,
    closing: u8,
    entrytype: SliceView,
    entries: Map<Seq<u8>, EntryView>,
)
    requires
        scan_entry(src, pos, closing, entrytype, Map::empty()).end is Ok,
        entries.contains_key(entry_key(src, pos).text),
    ensures
        scan_entry(src, pos, closing, entrytype, entries) == (EntryScan {
            entries,
            end: Err(
                ErrorView::DoubleKey(
                    entry_key(src, pos).text,
                    trace_of(entries[entry_key(src, pos).text].key),
                    trace_of(entry_key(src, pos)),
                ),
            ),
        }),
{
    reveal(scan_entry);
}

/// An entry whose key is not yet there is added just as it would be to a
/// bibliography without entries, and the entries that are there stay.
pub proof fn law_fresh_key(
    src: InputView,
    pos: int,
    closing: u8,
    entrytype: SliceView,
    entries: Map<Seq<u8>, EntryView>,
)
    requires
        scan_entry(src, pos, closing, entrytype, Map::empty()).end is Ok,
        !entries.contains_key(entry_key(src, pos).text),
    ensures
        ({
            let alone = scan_entry(src, pos, closing, entrytype, Map::empty());
            let key = entry_key(src, pos).text;
            &&& alone.entries.dom() == set![key]
            &&& alone.entries[key].key == entry_key(src, pos)
            &&& scan_entry(src, pos, closing, entrytype, entries) == (EntryScan {
                entries: entries.insert(key, alone.entries[key]),
                end: alone.end,
            })
        }),
{
    reveal(scan_entry);
    let alone = scan_entry(src, pos, closing, entrytype, Map::empty());
    assert(alone.entries.dom() =~= set![entry_key(src, pos).text]);
}

/// Whether the first significant byte at or after `pos` is the `@` of an
/// entry block of the given key that, read into a bibliography without
/// entries, is added.
pub open spec fn is_entry_block(src: InputView, pos: int, key: Seq<u8>) -> bool {
    let s = src.content;
    let t = after_blank(s, pos);
    let w = scan_name(s, t.pos);
    &&& t.next == Some(AT)
    &&& w.next matches Some(open) && closing_of(open) is Some
    &&& block_kind(slice_of(src, t.pos, w.end).text) is Entry
    &&& entry_key(src, w.pos).text == key
    &&& scan_entry(
        src,
        w.pos,
        closing_of(w.next->0)->0,
        slice_of(src, t.pos, w.end),
        Map::empty(),
    ).end is Ok
}

/// The key of the entry block whose `@` is the first significant byte at or
/// after `pos`.
pub open spec fn key_of_block(src: InputView, pos: int) -> SliceView {
    let t = after_blank(src.content, pos);
    entry_key(src, scan_name(src.content, t.pos).pos)
}

/// The entry that the entry block whose `@` is the first significant byte at
/// or after `pos` adds, and where reading goes on after the block.
pub open spec fn entry_of_block(src: InputView, pos: int) -> (EntryView, int) {
    let s = src.content;
    let t = after_blank(s, pos);
    let w = scan_name(s, t.pos);
    let alone = scan_entry(
        src,
        w.pos,
        closing_of(w.next->0)->0,
        slice_of(src, t.pos, w.end),
        Map::empty(),
    );
    (alone.entries[key_of_block(src, pos).text], alone.end->Ok_0)
}

/// A parse that comes to an entry block whose key is in the bibliography
/// ends there: it fails with the duplicate key, citing the key that is there
/// and the key that was read, and leaves the bibliography as it was.
pub proof fn law_known_key_is_refused(src: InputView, pos: int, bib: BibView, key: Seq<u8>)
    requires
        is_entry_block(src, pos, key),
        bib.entries.contains_key(key),
    ensures
        parse_from(src, pos, bib) == (Parsed {
            bib,
            error: Some(
                ErrorView::DoubleKey(
                    key,
                    trace_of(bib.entries[key].key),
                    trace_of(key_of_block(src, pos)),
                ),
            ),
        }),
{
    let s = src.content;
    let t = after_blank(s, pos);
    let w = scan_name(s, t.pos);
    let closing = closing_of(w.next->0)->0;
    law_duplicate_key(src, w.pos, closing, slice_of(src, t.pos, w.end), bib.entries);
    reveal(scan_block);
}

/// A parse that comes to an entry block whose key is not in the bibliography
/// adds the entry under its key and goes on after the block.
pub proof fn law_fresh_key_is_added(src: InputView, pos: int, bib: BibView, key: Seq<u8>)
    requires
        is_entry_block(src, pos, key),
        !bib.entries.contains_key(key),
    ensures
        entry_of_block(src, pos).0.key == key_of_block(src, pos),
        parse_from(src, pos, bib) == parse_from(
            src,
            entry_of_block(src, pos).1,
            BibView {
                macros: bib.macros,
                entries: bib.entries.insert(key, entry_of_block(src, pos).0),
            },
        ),
{
    let s = src.content;
    let t = after_blank(s, pos);
    let w = scan_name(s, t.pos);
    let closing = closing_of(w.next->0)->0;
    law_fresh_key(src, w.pos, closing, slice_of(src, t.pos, w.end), bib.entries);
    reveal(scan_block);
}

/// Two entry blocks of one key, one after the other: the parse fails at the
/// second with the duplicate key, citing the key of the first block and the
/// key of the second, and the entry of the first block stays added.
pub proof fn law_same_key_in_two_blocks(src: InputView, pos: int, bib: BibView, key: Seq<u8>)
    requires
        !bib.entries.contains_key(key),
        is_entry_block(src, pos, key),
        is_entry_block(src, entry_of_block(src, pos).1, key),
    ensures
        parse_from(src, pos, bib) == (Parsed {
            bib: BibView {
                macros: bib.macros,
                entries: bib.entries.insert(key, entry_of_block(src, pos).0),
            },
            error: Some(
                ErrorView::DoubleKey(
                    key,
                    trace_of(key_of_block(src, pos)),
                    trace_of(key_of_block(src, entry_of_block(src, pos).1)),
                ),
            ),
        }),
{
    law_fresh_key_is_added(src, pos, bib, key);
    let after = BibView {
        macros: bib.macros,
        entries: bib.entries.insert(key, entry_of_block(src, pos).0),
    };
    law_known_key_is_refused(src, entry_of_block(src, pos).1, after, key);
}

/// A definition whose name is defined already is refused before its value is
/// read: the failure cites the name that is there and the name that was read.
pub proof fn law_duplicate_macro(
    src: InputView,
    pos: int,
    closing: u8,
    context: ContextView,
    macros: Map<Seq<u8>, FieldView>,
)
    requires
        scan_binding_name(src, pos, closing, context) is Named,
        macros.contains_key(scan_binding_name(src, pos, closing, context)->name.text),
    ensures
        ({
            let name = scan_binding_name(src, pos, closing, context)->name;
            let failure = ErrorView::DoubleMacro(
                name.text,
                trace_of(macros[name.text].name),
                trace_of(name),
            );
            &&& scan_definition(src, pos, closing, context, macros) == FieldStep::Failed(failure)
            &&& scan_macros(src, pos, closing, context, macros).end == Err::<int, ErrorView>(failure)
            &&& scan_macros(src, pos, closing, context, macros).macros == macros
        }),
{
    reveal(scan_definition);
}

/// A definition that was read defines its name from then on: a second
/// definition of that name in the same block, directly after the first, is
/// refused, and the failure cites the first.
pub proof fn law_macro_defined_twice(
    src: InputView,
    pos: int,
    closing: u8,
    context: ContextView,
    macros: Map<Seq<u8>, FieldView>,
)
    requires
        scan_definition(src, pos, closing, context, macros) matches FieldStep::Read {
            field,
            next,
            pos: then,
        } && next == Some(COMMA) && (scan_binding_name(
            src,
            then,
            closing,
            context,
        ) matches NameStep::Named { name, .. } && name.text == field.name.text),
    ensures
        ({
            let first = scan_definition(src, pos, closing, context, macros)->Read_field;
            let then = scan_definition(src, pos, closing, context, macros)->Read_pos;
            let second = scan_binding_name(src, then, closing, context)->name;
            &&& scan_macros(src, pos, closing, context, macros).end == Err::<int, ErrorView>(
                ErrorView::DoubleMacro(first.name.text, trace_of(first.name), trace_of(second)),
            )
            &&& scan_macros(src, pos, closing, context, macros).macros == macros.insert(
                first.name.text,
                first,
            )
        }),
{
    let first = scan_definition(src, pos, closing, context, macros)->Read_field;
    let then = scan_definition(src, pos, closing, context, macros)->Read_pos;
    lemma_scan_field_advances(src, pos, closing, context, macros);
    law_duplicate_macro(src, then, closing, context, macros.insert(first.name.text, first));
}

/// A trailing comma is accepted: where the closing delimiter is the first
/// significant byte after a comma, the entry ends there with the fields
/// that it has.
pub proof fn law_trailing_comma(
    src: InputView,
    pos: int,
    closing: u8,
    context: ContextView,
    fields: Map<Seq<u8>, FieldView>,
)
    requires
        byte_at(src.content, skip_blank(src.content, pos)) == Some(closing),
    ensures
        scan_fields(src, Some(COMMA), pos, closing, context, fields) == Ok::<
            FieldsScan,
            ErrorView,
        >(FieldsScan { fields, pos: skip_blank(src.content, pos) + 1 }),
{
    reveal(scan_field);
    reveal(scan_binding_name);
}

/// A comma is accepted nowhere else: where a comma is the first significant
/// byte after a comma, the entry is refused for that byte.
pub proof fn law_comma_after_comma(
    src: InputView,
    pos: int,
    closing: u8,
    context: ContextView,
    fields: Map<Seq<u8>, FieldView>,
)
    requires
        closing != COMMA,
        byte_at(src.content, skip_blank(src.content, pos)) == Some(COMMA),
    ensures
        scan_fields(src, Some(COMMA), pos, closing, context, fields) == Err::<
            FieldsScan,
            ErrorView,
        >(
            ErrorView::InvalidToken(
                context,
                COMMA,
                trace_at(src, skip_blank(src.content, pos)),
            ),
        ),
{
    reveal(scan_field);
    reveal(scan_binding_name);
}

/// What an entry block leads to does not depend on the macros that are
/// defined: its values are kept as they were read.
pub proof fn law_entry_ignores_macros(
    src: InputView,
    pos: int,
    entries: Map<Seq<u8>, EntryView>,
    some: Map<Seq<u8>, FieldView>,
    other: Map<Seq<u8>, FieldView>,
)
    requires
        block_kind(slice_of(src, pos, scan_name(src.content, pos).end).text) is Entry,
    ensures
        scan_block(src, pos, BibView { macros: some, entries }).end == scan_block(
            src,
            pos,
            BibView { macros: other, entries },
        ).end,
        scan_block(src, pos, BibView { macros: some, entries }).bib.entries == scan_block(
            src,
            pos,
            BibView { macros: other, entries },
        ).bib.entries,
        scan_block(src, pos, BibView { macros: some, entries }).bib.macros == some,
{
    reveal(scan_block);
}

/// Whether a parse of `src` into a bibliography that held `before` leaves
/// `after`, and ends with `failure` if it fails.
pub open spec fn is_parse_of(
    src: InputView,
    before: BibView,
    after: BibView,
    failure: Option<ErrorView>,
) -> bool {
    parse(src, before) == (Parsed { bib: after, error: failure })
}

/// Parsing one buffer twice, each time into a bibliography of its own that
/// holds nothing, leaves the same twice, failure included.
pub proof fn law_same_buffer_same_result(
    src: InputView,
    first: BibView,
    first_failure: Option<ErrorView>,
    second: BibView,
    second_failure: Option<ErrorView>,
)
    requires
        is_parse_of(src, empty_bib(), first, first_failure),
        is_parse_of(src, empty_bib(), second, second_failure),
    ensures
        first == second,
        first_failure == second_failure,
{
}

/// One block keeps every entry and every macro that the bibliography held,
/// whether the block fails or not.
pub proof fn lemma_block_keeps(src: InputView, pos: int, bib: BibView)
    ensures
        is_kept(bib.entries, scan_block(src, pos, bib).bib.entries),
        is_kept(bib.macros, scan_block(src, pos, bib).bib.macros),
{
    reveal(scan_block);
    reveal(scan_entry);
    let s = src.content;
    let w = scan_name(s, pos);
    let word = slice_of(src, pos, w.end);
    match w.next {
        None => {},
        Some(open) => match closing_of(open) {
            None => {},
            Some(closing) => match block_kind(word.text) {
                BlockKind::Macros => {
                    lemma_definitions_keep(
                        src,
                        w.pos,
                        closing,
                        ContextView::MacroDef(trace_of(word)),
                        bib.macros,
                    );
                },
                _ => {},
            },
        },
    }
}

/// The definitions of a block keep every macro that was defined before
/// them, whether the block fails or not.
pub proof fn lemma_definitions_keep(
    src: InputView,
    pos: int,
    closing: u8,
    context: ContextView,
    macros: Map<Seq<u8>, FieldView>,
)
    ensures
        is_kept(macros, scan_macros(src, pos, closing, context, macros).macros),
    decreases src.content.len() - pos,
{
    lemma_scan_field_advances(src, pos, closing, context, macros);
    match scan_definition(src, pos, closing, context, macros) {
        FieldStep::Read { field, next, pos: p } => {
            let defined = macros.insert(field.name.text, field);
            if next == Some(COMMA) {
                lemma_definitions_keep(src, p, closing, context, defined);
                let last = scan_macros(src, p, closing, context, defined).macros;
                assert forall|k: Seq<u8>| #[trigger] macros.contains_key(k) implies last.contains_key(
                    k,
                ) && last[k] == macros[k] by {
                    assert(defined.contains_key(k));
                }
            }
        },
        _ => {},
    }
}

/// The bibliography with which a parse that began at `pos` with `bib` comes
/// to stand at `to`, between two blocks: every block from `pos` up to `to`
/// was read without failure. `None` if the parse fails before `to`, or
/// never stands there.
pub open spec fn state_at(src: InputView, pos: int, bib: BibView, to: int) -> Option<BibView>
    decreases src.content.len() - pos,
{
    if pos == to {
        Some(bib)
    } else {
        let t = after_blank(src.content, pos);
        if t.next == Some(AT) {
            let b = scan_block(src, t.pos, bib);
            match b.end {
                Ok(p) => {
                    proof {
                        lemma_after_blank_bounds(src.content, pos);
                        lemma_scan_block_advances(src, t.pos, bib);
                    }
                    if p <= to {
                        state_at(src, p, b.bib, to)
                    } else {
                        None
                    }
                },
                Err(_) => None,
            }
        } else {
            None
        }
    }
}

/// Where a parse comes to stand between two blocks, it goes on as a parse
/// that begins there; and what the bibliography held when it began is still
/// there.
pub proof fn lemma_parse_goes_on(src: InputView, pos: int, bib: BibView, to: int)
    requires
        state_at(src, pos, bib, to) is Some,
    ensures
        parse_from(src, pos, bib) == parse_from(src, to, state_at(src, pos, bib, to)->0),
        is_kept(bib.entries, state_at(src, pos, bib, to)->0.entries),
        is_kept(bib.macros, state_at(src, pos, bib, to)->0.macros),
    decreases src.content.len() - pos,
{
    if pos != to {
        let t = after_blank(src.content, pos);
        let b = scan_block(src, t.pos, bib);
        lemma_after_blank_bounds(src.content, pos);
        lemma_scan_block_advances(src, t.pos, bib);
        lemma_block_keeps(src, t.pos, bib);
        let p = b.end->Ok_0;
        lemma_parse_goes_on(src, p, b.bib, to);
        let last = state_at(src, p, b.bib, to)->0;
        assert forall|k: Seq<u8>| #[trigger] bib.entries.contains_key(k) implies last.entries.contains_key(
            k,
        ) && last.entries[k] == bib.entries[k] by {
            assert(b.bib.entries.contains_key(k));
        }
        assert forall|k: Seq<u8>| #[trigger] bib.macros.contains_key(k) implies last.macros.contains_key(
            k,
        ) && last.macros[k] == bib.macros[k] by {
            assert(b.bib.macros.contains_key(k));
        }
    }
}

/// Two entry blocks of one key, wherever they stand in the buffer: if every
/// block between them is read without failure, the parse fails at the second
/// with the duplicate key, citing the key of the first block and the key of
/// the second. What was added before the second block stays.
pub proof fn law_same_key_in_any_two_blocks(
    src: InputView,
    pos: int,
    bib: BibView,
    key: Seq<u8>,
    later: int,
)
    requires
        !bib.entries.contains_key(key),
        is_entry_block(src, pos, key),
        state_at(
            src,
            entry_of_block(src, pos).1,
            BibView {
                macros: bib.macros,
                entries: bib.entries.insert(key, entry_of_block(src, pos).0),
            },
            later,
        ) is Some,
        is_entry_block(src, later, key),
    ensures
        parse_from(src, pos, bib) == (Parsed {
            bib: state_at(
                src,
                entry_of_block(src, pos).1,
                BibView {
                    macros: bib.macros,
                    entries: bib.entries.insert(key, entry_of_block(src, pos).0),
                },
                later,
            )->0,
            error: Some(
                ErrorView::DoubleKey(
                    key,
                    trace_of(key_of_block(src, pos)),
                    trace_of(key_of_block(src, later)),
                ),
            ),
        }),
{
    law_fresh_key_is_added(src, pos, bib, key);
    let first = BibView {
        macros: bib.macros,
        entries: bib.entries.insert(key, entry_of_block(src, pos).0),
    };
    lemma_parse_goes_on(src, entry_of_block(src, pos).1, first, later);
    let reached = state_at(src, entry_of_block(src, pos).1, first, later)->0;
    assert(first.entries.contains_key(key));
    assert(reached.entries.contains_key(key) && reached.entries[key] == first.entries[key]);
    law_known_key_is_refused(src, later, reached, key);
}

/// The macros with which the reading of a block's definitions, begun at
/// `pos` with `macros`, comes to stand at `to`, where a definition may begin:
/// every definition from `pos` up to `to` was read, and a comma followed it.
/// `None` if the block fails or ends before `to`, or reading never stands
/// there.
pub open spec fn definitions_at(
    src: InputView,
    pos: int,
    closing: u8,
    context: ContextView,
    macros: Map<Seq<u8>, FieldView>,
    to: int,
) -> Option<Map<Seq<u8>, FieldView>>
    decreases src.content.len() - pos,
{
    if pos == to {
        Some(macros)
    } else {
        match scan_definition(src, pos, closing, context, macros) {
            FieldStep::Read { field, next, pos: p } => {
                proof {
                    lemma_scan_field_advances(src, pos, closing, context, macros);
                }
                if next == Some(COMMA) && p <= to {
                    definitions_at(
                        src,
                        p,
                        closing,
                        context,
                        macros.insert(field.name.text, field),
                        to,
                    )
                } else {
                    None
                }
            },
            _ => None,
        }
    }
}

/// Where the reading of a block's definitions comes to stand, it goes on as
/// a reading that begins there; and the macros that were defined when it
/// began are still defined.
pub proof fn lemma_definitions_go_on(
    src: InputView,
    pos: int,
    closing: u8,
    context: ContextView,
    macros: Map<Seq<u8>, FieldView>,
    to: int,
)
    requires
        definitions_at(src, pos, closing, context, macros, to) is Some,
    ensures
        scan_macros(src, pos, closing, context, macros) == scan_macros(
            src,
            to,
            closing,
            context,
            definitions_at(src, pos, closing, context, macros, to)->0,
        ),
        is_kept(macros, definitions_at(src, pos, closing, context, macros, to)->0),
    decreases src.content.len() - pos,
{
    if pos != to {
        lemma_scan_field_advances(src, pos, closing, context, macros);
        match scan_definition(src, pos, closing, context, macros) {
            FieldStep::Read { field, next, pos: p } => {
                let defined = macros.insert(field.name.text, field);
                lemma_definitions_go_on(src, p, closing, context, defined, to);
                let last = definitions_at(src, p, closing, context, defined, to)->0;
                assert forall|k: Seq<u8>| #[trigger] macros.contains_key(k) implies last.contains_key(
                    k,
                ) && last[k] == macros[k] by {
                    assert(defined.contains_key(k));
                }
            },
            _ => {},
        }
    }
}

/// A name that is defined is refused wherever a block defines it again: if
/// every definition of the block before that one is read, the block fails
/// there with the duplicate macro, citing the name that was defined and the
/// name that was read.
pub proof fn law_known_macro_is_refused(
    src: InputView,
    pos: int,
    closing: u8,
    context: ContextView,
    macros: Map<Seq<u8>, FieldView>,
    later: int,
)
    requires
        definitions_at(src, pos, closing, context, macros, later) is Some,
        scan_binding_name(src, later, closing, context) is Named,
        macros.contains_key(scan_binding_name(src, later, closing, context)->name.text),
    ensures
        ({
            let name = scan_binding_name(src, later, closing, context)->name;
            scan_macros(src, pos, closing, context, macros).end == Err::<int, ErrorView>(
                ErrorView::DoubleMacro(name.text, trace_of(macros[name.text].name), trace_of(name)),
            )
        }),
{
    lemma_definitions_go_on(src, pos, closing, context, macros, later);
    let reached = definitions_at(src, pos, closing, context, macros, later)->0;
    let name = scan_binding_name(src, later, closing, context)->name;
    assert(reached.contains_key(name.text) && reached[name.text] == macros[name.text]);
    law_duplicate_macro(src, later, closing, context, reached);
}

/// A block that defines one name twice, wherever the two definitions stand
/// in it: if every definition between them is read, the block fails at the
/// second with the duplicate macro, citing the name of the first definition
/// and the name of the second.
pub proof fn law_macro_defined_twice_in_a_block(
    src: InputView,
    pos: int,
    closing: u8,
    context: ContextView,
    macros: Map<Seq<u8>, FieldView>,
    later: int,
)
    requires
        scan_definition(src, pos, closing, context, macros) matches FieldStep::Read {
            field,
            next,
            pos: then,
        } && next == Some(COMMA) && definitions_at(
            src,
            then,
            closing,
            context,
            macros.insert(field.name.text, field),
            later,
        ) is Some && (scan_binding_name(src, later, closing, context) matches NameStep::Named {
            name,
            ..
        } && name.text == field.name.text),
    ensures
        ({
            let first = scan_definition(src, pos, closing, context, macros)->Read_field;
            let second = scan_binding_name(src, later, closing, context)->name;
            scan_macros(src, pos, closing, context, macros).end == Err::<int, ErrorView>(
                ErrorView::DoubleMacro(first.name.text, trace_of(first.name), trace_of(second)),
            )
        }),
{
    let first = scan_definition(src, pos, closing, context, macros)->Read_field;
    let then = scan_definition(src, pos, closing, context, macros)->Read_pos;
    lemma_scan_field_advances(src, pos, closing, context, macros);
    law_known_macro_is_refused(
        src,
        then,
        closing,
        context,
        macros.insert(first.name.text, first),
        later,
    );
}

/// The text `@T{k,f=v}`.
pub open spec fn single_field_text(
    entrytype: Seq<u8>,
    key: Seq<u8>,
    field: Seq<u8>,
    value: Seq<u8>,
) -> Seq<u8> {
    seq![AT] + entrytype + seq![OPEN_BRACE] + key + seq![COMMA] + field + seq![EQUALS] + value
        + seq![CLOSE_BRACE]
}

/// Where the value begins in the text `@T{k,f=v}`.
pub open spec fn value_start(entrytype: Seq<u8>, key: Seq<u8>, field: Seq<u8>) -> int {
    4 + entrytype.len() as int + key.len() as int + field.len() as int
}

/// A buffer that holds nothing but `@T{k,f=v}`, with `T`, `k` and `f` plain
/// words, `T` none of the reserved words, and `v` a value that ends at the
/// closing brace, parses without failure, and the result holds exactly one
/// entry: its key is `k`, and its one field has the name `f` and the value
/// that is read at `v`.
pub proof fn law_single_field_entry(
    name: Seq<char>,
    entrytype: Seq<u8>,
    key: Seq<u8>,
    field: Seq<u8>,
    value: Seq<u8>,
)
    requires
        is_plain(entrytype),
        is_plain(key),
        is_plain(field),
        block_kind(entrytype) is Entry,
        ({
            let src = InputView { name, content: single_field_text(entrytype, key, field, value) };
            scan_value(src, value_start(entrytype, key, field)) matches Some(v) && v.next == Some(
                CLOSE_BRACE,
            ) && v.pos == src.content.len()
        }),
    ensures
        ({
            let src = InputView { name, content: single_field_text(entrytype, key, field, value) };
            let read = scan_value(src, value_start(entrytype, key, field))->0;
            let parsed = parse(src, empty_bib());
            &&& parsed.error is None
            &&& parsed.bib.macros == Map::<Seq<u8>, FieldView>::empty()
            &&& parsed.bib.entries.dom() == set![key]
            &&& parsed.bib.entries[key].key.text == key
            &&& parsed.bib.entries[key].entrytype.text == entrytype
            &&& parsed.bib.entries[key].fields.dom() == set![field]
            &&& parsed.bib.entries[key].fields[field].name.text == field
            &&& parsed.bib.entries[key].fields[field].value == read.value
        }),
{
    let s = single_field_text(entrytype, key, field, value);
    let src = InputView { name, content: s };
    let t = entrytype.len() as int;
    let k = key.len() as int;
    let f = field.len() as int;
    let v = value_start(entrytype, key, field);
    let len = s.len() as int;
    assert(len == 5 + t + k + f + value.len());
    assert(s[0] == AT);
    assert(s[1 + t] == OPEN_BRACE);
    assert(s[2 + t + k] == COMMA);
    assert(s[3 + t + k + f] == EQUALS);
    assert(s.subrange(1, 1 + t) =~= entrytype);
    assert(s.subrange(2 + t, 2 + t + k) =~= key);
    assert(s.subrange(3 + t + k, 3 + t + k + f) =~= field);

    assert(skip_blank(s, 0) == 0);
    assert(after_blank(s, 0).next == Some(AT) && after_blank(s, 0).pos == 1);

    // The word after the `@`, and the opening brace.
    lemma_ident_end_of_plain_word(s, 1, entrytype);
    let w = scan_name(s, 1);
    assert(w.end == 1 + t && w.next == Some(OPEN_BRACE) && w.pos == 2 + t);
    let word = slice_of(src, 1, w.end);

    // The key, and the comma after it.
    let q = skip_blank(s, 2 + t);
    assert(q == 2 + t) by {
        if k > 0 {
            assert(s[2 + t] == s.subrange(2 + t, 2 + t + k)[0]);
            assert(s[2 + t] == key[0]);
        }
    }
    lemma_ident_end_of_plain_word(s, 2 + t, key);
    let n = scan_name(s, q);
    assert(n.end == 2 + t + k && n.next == Some(COMMA) && n.pos == 3 + t + k);
    let key_slice = slice_of(src, q, n.end);
    let context = ContextView::Entry(key_slice.text, trace_of(key_slice));

    // The name of the field, and the `=` after it.
    let r = skip_blank(s, 3 + t + k);
    assert(r == 3 + t + k) by {
        if f > 0 {
            assert(s[3 + t + k] == s.subrange(3 + t + k, 3 + t + k + f)[0]);
            assert(s[3 + t + k] == field[0]);
        }
    }
    lemma_ident_end_of_plain_word(s, 3 + t + k, field);
    let m = scan_name(s, r);
    assert(m.end == 3 + t + k + f && m.next == Some(EQUALS) && m.pos == v);
    let name_slice = slice_of(src, r, m.end);
    assert(byte_at(s, r) != Some(CLOSE_BRACE)) by {
        if f > 0 {
            assert(s[r] == field[0]);
        }
    }
    reveal(scan_binding_name);
    assert(scan_binding_name(src, 3 + t + k, CLOSE_BRACE, context) == (NameStep::Named {
        name: name_slice,
        pos: v,
    }));

    // The value, and the closing brace after it.
    let read = scan_value(src, v)->0;
    let bound = FieldView { name: name_slice, value: read.value };
    reveal(scan_field);
    assert(scan_field(src, 3 + t + k, CLOSE_BRACE, context, Map::empty()) == (FieldStep::Read {
        field: bound,
        next: Some(CLOSE_BRACE),
        pos: len,
    }));
    let one = Map::<Seq<u8>, FieldView>::empty().insert(field, bound);
    assert(scan_fields(src, Some(CLOSE_BRACE), len, CLOSE_BRACE, context, one) == Ok::<
        FieldsScan,
        ErrorView,
    >(FieldsScan { fields: one, pos: len }));
    assert(scan_fields(src, n.next, n.pos, CLOSE_BRACE, context, Map::empty()) == Ok::<
        FieldsScan,
        ErrorView,
    >(FieldsScan { fields: one, pos: len }));

    // The entry is added.
    reveal(scan_entry);
    let e = scan_entry(src, 2 + t, CLOSE_BRACE, word, Map::empty());
    assert(e.end == Ok::<int, ErrorView>(len));
    reveal(scan_block);
    let b = scan_block(src, 1, empty_bib());
    assert(b.end == Ok::<int, ErrorView>(len));
    let after = b.bib;
    assert(after.entries =~= Map::<Seq<u8>, EntryView>::empty().insert(
        key,
        EntryView { entrytype: word, key: key_slice, fields: one },
    ));

    // Nothing is left after the block.
    assert(skip_blank(s, len) == len);
    assert(parse_from(src, len, after).error is None);
    assert(parse_from(src, len, after).bib == after);
    assert(parse_from(src, 0, empty_bib()) == parse_from(src, len, after));
    assert(after.entries.dom() =~= set![key]);
    assert(one.dom() =~= set![field]);
}

/// Macro references are kept as they are read, whatever macros there are: a
/// buffer that holds nothing but `@T{k,f=m}`, with `m` a bare word, parses
/// into a bibliography without macros, and the field `f` of its one entry
/// is a reference to the macro `m`.
pub proof fn law_macro_reference_in_entry(
    name: Seq<char>,
    entrytype: Seq<u8>,
    key: Seq<u8>,
    field: Seq<u8>,
    word: Seq<u8>,
)
    requires
        is_plain(entrytype),
        is_plain(key),
        is_plain(field),
        block_kind(entrytype) is Entry,
        is_plain(word),
        word.len() > 0,
        !is_digit(word[0]),
        word[0] != QUOTE,
    ensures
        ({
            let src = InputView { name, content: single_field_text(entrytype, key, field, word) };
            let v = value_start(entrytype, key, field);
            let parsed = parse(src, empty_bib());
            &&& parsed.error is None
            &&& parsed.bib.macros == Map::<Seq<u8>, FieldView>::empty()
            &&& parsed.bib.entries.dom() == set![key]
            &&& parsed.bib.entries[key].fields.dom() == set![field]
            &&& parsed.bib.entries[key].fields[field].value == ValueView::MacroRef(
                slice_of(src, v, v + word.len()),
            )
            &&& slice_of(src, v, v + word.len()).text == word
        }),
{
    let s = single_field_text(entrytype, key, field, word);
    let src = InputView { name, content: s };
    let v = value_start(entrytype, key, field);
    assert(s.len() == v + word.len() + 1);
    assert(s.subrange(v, v + word.len()) =~= word);
    assert(s[v + word.len()] == CLOSE_BRACE);
    assert(s[v] == s.subrange(v, v + word.len())[0]);
    assert(skip_blank(s, v) == v);
    lemma_ident_end_of_plain_word(s, v, word);
    law_bare_word_is_macro_reference(src, v, word);
    reveal(scan_atom);
    reveal(scan_value);
    law_single_field_entry(name, entrytype, key, field, word);
}

/// The text `{v}`.
pub open spec fn braced(text: Seq<u8>) -> Seq<u8> {
    seq![OPEN_BRACE] + text + seq![CLOSE_BRACE]
}

/// Braces nest to any depth: a buffer that holds nothing but `@T{k,f={v}}`,
/// with `v` any balanced text, parses without failure, and the field `f` of
/// its one entry is the literal `v`.
pub proof fn law_braced_value_in_entry(
    name: Seq<char>,
    entrytype: Seq<u8>,
    key: Seq<u8>,
    field: Seq<u8>,
    text: Seq<u8>,
)
    requires
        is_plain(entrytype),
        is_plain(key),
        is_plain(field),
        block_kind(entrytype) is Entry,
        is_balanced(text),
    ensures
        ({
            let src = InputView {
                name,
                content: single_field_text(entrytype, key, field, braced(text)),
            };
            let v = value_start(entrytype, key, field);
            let parsed = parse(src, empty_bib());
            &&& parsed.error is None
            &&& parsed.bib.entries.dom() == set![key]
            &&& parsed.bib.entries[key].fields.dom() == set![field]
            &&& parsed.bib.entries[key].fields[field].value == ValueView::Literal(
                slice_of(src, v + 1, v + 1 + text.len()),
            )
            &&& slice_of(src, v + 1, v + 1 + text.len()).text == text
        }),
{
    let s = single_field_text(entrytype, key, field, braced(text));
    let src = InputView { name, content: s };
    let v = value_start(entrytype, key, field);
    assert(braced(text).len() == text.len() + 2);
    assert(s.len() == v + text.len() + 3);
    assert(s[v] == OPEN_BRACE);
    assert(s.subrange(v + 1, v + 1 + text.len()) =~= text);
    assert(s[v + 1 + text.len()] == CLOSE_BRACE);
    assert(s[v + 2 + text.len()] == CLOSE_BRACE);
    assert(skip_blank(s, v) == v);
    law_braces_nest(src, v, text);
    assert(skip_blank(s, v + 2 + text.len()) == v + 2 + text.len());
    reveal(scan_atom);
    reveal(scan_value);
    law_single_field_entry(name, entrytype, key, field, braced(text));
}

/// The text `@T{k%c`, a line feed, and `}`.
pub open spec fn commented_entry_text(
    entrytype: Seq<u8>,
    key: Seq<u8>,
    comment: Seq<u8>,
) -> Seq<u8> {
    seq![AT] + entrytype + seq![OPEN_BRACE] + key + seq![PERCENT] + comment + seq![LINE_FEED]
        + seq![CLOSE_BRACE]
}

/// A `%` directly after a key begins a line comment: a buffer that holds
/// nothing but `@T{k%c`, a line feed, and `}`, with `T` and `k` plain words,
/// `k` not empty, `T` none of the reserved words, and `c` any text of one
/// line, parses
/// without failure, and the result holds exactly one entry: its key is `k`,
/// and it has no fields.
pub proof fn law_comment_after_key(
    name: Seq<char>,
    entrytype: Seq<u8>,
    key: Seq<u8>,
    comment: Seq<u8>,
)
    requires
        is_plain(entrytype),
        is_plain(key),
        key.len() > 0,
        block_kind(entrytype) is Entry,
        is_one_line(comment),
    ensures
        ({
            let src = InputView { name, content: commented_entry_text(entrytype, key, comment) };
            let parsed = parse(src, empty_bib());
            &&& parsed.error is None
            &&& parsed.bib.macros == Map::<Seq<u8>, FieldView>::empty()
            &&& parsed.bib.entries.dom() == set![key]
            &&& parsed.bib.entries[key].key.text == key
            &&& parsed.bib.entries[key].entrytype.text == entrytype
            &&& parsed.bib.entries[key].fields == Map::<Seq<u8>, FieldView>::empty()
        }),
{
    let s = commented_entry_text(entrytype, key, comment);
    let src = InputView { name, content: s };
    let t = entrytype.len() as int;
    let k = key.len() as int;
    let c = comment.len() as int;
    let len = s.len() as int;
    assert(len == 5 + t + k + c);
    assert(s[0] == AT);
    assert(s[1 + t] == OPEN_BRACE);
    assert(s[2 + t + k] == PERCENT);
    assert(s[3 + t + k + c] == LINE_FEED);
    assert(s[4 + t + k + c] == CLOSE_BRACE);
    assert(s.subrange(1, 1 + t) =~= entrytype);
    assert(s.subrange(2 + t, 2 + t + k) =~= key);
    assert(s.subrange(3 + t + k, 3 + t + k + c) =~= comment);

    assert(skip_blank(s, 0) == 0);
    assert(after_blank(s, 0).next == Some(AT) && after_blank(s, 0).pos == 1);

    // The word after the `@`, and the opening brace.
    lemma_ident_end_of_plain_word(s, 1, entrytype);
    let w = scan_name(s, 1);
    assert(w.end == 1 + t && w.next == Some(OPEN_BRACE) && w.pos == 2 + t);
    let word = slice_of(src, 1, w.end);

    // The key; the comment after it; and the closing brace after that.
    lemma_line_end_of_one_line(s, 3 + t + k, comment);
    assert(skip_blank(s, 4 + t + k + c) == 4 + t + k + c);
    assert(skip_blank(s, 2 + t + k) == 4 + t + k + c);
    let q = skip_blank(s, 2 + t);
    assert(q == 2 + t) by {
        if k > 0 {
            assert(s[2 + t] == s.subrange(2 + t, 2 + t + k)[0]);
            assert(s[2 + t] == key[0]);
        }
    }
    lemma_ident_end_of_plain_word(s, 2 + t, key);
    law_comment_after_token(s, 2 + t + k);
    let n = scan_name(s, q);
    assert(n.end == 2 + t + k && n.next == Some(CLOSE_BRACE) && n.pos == len);
    let key_slice = slice_of(src, q, n.end);
    let context = ContextView::Entry(key_slice.text, trace_of(key_slice));
    let fields = scan_fields(src, n.next, n.pos, CLOSE_BRACE, context, Map::empty());
    assert(fields == Ok::<FieldsScan, ErrorView>(FieldsScan { fields: Map::empty(), pos: len }));

    // The entry is added.
    reveal(scan_entry);
    let e = scan_entry(src, 2 + t, CLOSE_BRACE, word, Map::empty());
    assert(e.end == Ok::<int, ErrorView>(len));
    reveal(scan_block);
    let b = scan_block(src, 1, empty_bib());
    assert(b.end == Ok::<int, ErrorView>(len));
    let after = b.bib;
    assert(after.entries =~= Map::<Seq<u8>, EntryView>::empty().insert(
        key,
        EntryView { entrytype: word, key: key_slice, fields: Map::empty() },
    ));

    // Nothing is left after the block.
    assert(skip_blank(s, len) == len);
    assert(parse_from(src, len, after).error is None);
    assert(parse_from(src, len, after).bib == after);
    assert(parse_from(src, 0, empty_bib()) == parse_from(src, len, after));
    assert(after.entries.dom() =~= set![key]);
}

} // verus!
