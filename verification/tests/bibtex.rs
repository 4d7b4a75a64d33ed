use biblatex::bibtex::parse::Parser;
use biblatex::bibtex::{Error, Input, InputTrace, RawBibliography, RawValue, TokenContext};

/// A buffer that holds the given lines, each closed by a line feed.
fn lines(lines: &[&str]) -> Input {
    let mut text = String::new();
    for line in lines {
        text.push_str(line);
        text.push('\n');
    }
    Input::new(String::from("<internal test>"), text).unwrap()
}

/// A buffer that holds exactly the given text.
fn text(name: &str, content: &str) -> Input {
    Input::new(String::from(name), String::from(content)).unwrap()
}

/// Parses the given lines into a fresh bibliography.
fn parse(source: &[&str]) -> Result<(), Error> {
    let input = lines(source);
    let mut bib = RawBibliography::new();
    bib.add_bibtex_resource(&input)
}

/// Parses the given text into a fresh bibliography.
fn parse_text(content: &str) -> Result<(), Error> {
    let input = text("test.bib", content);
    let mut bib = RawBibliography::new();
    bib.add_bibtex_resource(&input)
}

fn at(name: &str, line: u32, col: u32) -> InputTrace {
    InputTrace { name: String::from(name), line, col }
}

fn literal_text<'a>(value: &RawValue<'a>) -> &'a str {
    match value {
        RawValue::Literal(text) => text.as_str(),
        other => panic!("not a literal: {:?}", other),
    }
}

fn macro_name<'a>(value: &RawValue<'a>) -> &'a str {
    match value {
        RawValue::MacroRef(name) => name.as_str(),
        other => panic!("not a macro reference: {:?}", other),
    }
}

// --------------------------

#[test]
fn line_comment() {
    parse(&["  % some content to be droped"]).unwrap();
}

#[test]
fn comment_block() {
    parse(&["@comment {", "   some content to be droped", "}"]).unwrap();
}

#[test]
fn preamble_block() {
    parse(&["@preface {", "   \\somethingingnored", "}"]).unwrap();
}

#[test]
fn macro_definition() {
    parse(&["@String { ", "   macro = {value}, ", "}"]).unwrap();
}

#[test]
fn minimal_entry() {
    parse(&["@entry{key}"]).unwrap();
}

#[test]
fn compact_entry() {
    parse(&["@type(key,field1={value},field2=\"value\",field3=macro,field4=123)"]).unwrap();
}

#[test]
fn sparse_entry() {
    parse(&[
        "@type   {   key,  % with comments ",
        "   field1 = { value }  , ",
        "   field2 = \" some other value \"  , %and more comments",
        "   field3 = macro , ",
        "   field4 = 1234  ,  ",
        "   field5 = {",
        "            an complete multiline abstract ",
        "            including \\\"umlauts in brackets % and some comment ",
        "       }  ,",
        "   field6 = \"{\\\"U}nic{\\\"o}de == Ünicöde\"",
        "}",
    ])
    .unwrap();
}

#[test]
fn compound_value_1() {
    parse(&["@string ( macro = \"value\")", "@entry (key, field = \"extended\" # macro )"])
        .unwrap();
}

#[test]
fn compound_value_2() {
    parse(&["@string ( macro = \"value\")", "@entry (key, field = macro # \" and more\")"])
        .unwrap();
}

#[test]
fn macro_use() {
    parse(&["@string ( macro = \"value\")", "@entry (key, field = macro )"]).unwrap();
}

// --------------------------

#[test]
fn empty_buffer_gives_empty_bibliography() {
    let input = text("empty.bib", "");
    let mut bib = RawBibliography::new();
    bib.add_bibtex_resource(&input).unwrap();
    assert_eq!(bib.entry_count(), 0);
    assert_eq!(bib.macro_count(), 0);
}

#[test]
fn single_entry_without_fields() {
    let input = text("one.bib", "@T{k}");
    let mut bib = RawBibliography::new();
    bib.add_bibtex_resource(&input).unwrap();
    assert_eq!(bib.entry_count(), 1);
    assert_eq!(bib.macro_count(), 0);
    let entry = bib.entry("k").unwrap();
    assert_eq!(entry.key().as_str(), "k");
    assert_eq!(entry.entrytype().as_str(), "T");
    assert_eq!(entry.field_count(), 0);
    assert!(bib.entry("T").is_none());
}

#[test]
fn single_entry_with_longer_names() {
    let input = text("one.bib", "@article{smith:2020}");
    let mut bib = RawBibliography::new();
    bib.add_bibtex_resource(&input).unwrap();
    assert_eq!(bib.entry_count(), 1);
    let entry = bib.entry("smith:2020").unwrap();
    assert_eq!(entry.entrytype().as_str(), "article");
    assert_eq!(entry.field_count(), 0);
}

#[test]
fn duplicate_key_cites_both_keys() {
    let failure = parse_text("@a{k}\n@b{k}").unwrap_err();
    assert_eq!(
        failure,
        Error::DoubleKey(String::from("k"), at("test.bib", 1, 4), at("test.bib", 2, 4))
    );
}

#[test]
fn duplicate_key_across_buffers_names_both_buffers() {
    let first = text("first.bib", "\n\n  @book{knuth, title = {TAOCP}}");
    let second = text("second.bib", "@misc{other}\n@article{knuth}");
    let mut bib = RawBibliography::new();
    bib.add_bibtex_resource(&first).unwrap();
    let failure = bib.add_bibtex_resource(&second).unwrap_err();
    assert_eq!(
        failure,
        Error::DoubleKey(String::from("knuth"), at("first.bib", 3, 9), at("second.bib", 2, 10))
    );
    assert_eq!(bib.entry_count(), 2);
    assert_eq!(bib.entry("knuth").unwrap().entrytype().as_str(), "book");
    assert!(bib.entry("other").is_some());
}

#[test]
fn duplicate_key_is_met_after_the_fields() {
    // The second block is malformed, and that is met before its key is looked up.
    let failure = parse_text("@a{k}@b{k, x}").unwrap_err();
    assert_eq!(
        failure,
        Error::InvalidToken(
            TokenContext::Entry(String::from("k"), at("test.bib", 1, 9)),
            b'}',
            at("test.bib", 1, 13)
        )
    );
}

#[test]
fn keys_differ_by_case() {
    let input = text("case.bib", "@a{Key}@a{key}@a{KEY}");
    let mut bib = RawBibliography::new();
    bib.add_bibtex_resource(&input).unwrap();
    assert_eq!(bib.entry_count(), 3);
}

#[test]
fn duplicate_macro_in_one_block() {
    let failure = parse_text("@string{m = {a}, m = {b}}").unwrap_err();
    assert_eq!(
        failure,
        Error::DoubleMacro(String::from("m"), at("test.bib", 1, 9), at("test.bib", 1, 18))
    );
}

#[test]
fn duplicate_macro_in_two_blocks() {
    let input = text("macros.bib", "@string{jan = \"January\"}\n@STRING(feb = {February}, jan = 1)");
    let mut bib = RawBibliography::new();
    let failure = bib.add_bibtex_resource(&input).unwrap_err();
    assert_eq!(
        failure,
        Error::DoubleMacro(String::from("jan"), at("macros.bib", 1, 9), at("macros.bib", 2, 27))
    );
    // Definitions that were complete before the failure stay.
    assert_eq!(bib.macro_count(), 2);
    assert_eq!(literal_text(bib.macro_def("jan").unwrap().value()), "January");
    assert_eq!(literal_text(bib.macro_def("feb").unwrap().value()), "February");
}

#[test]
fn duplicate_field() {
    let failure = parse_text("@a{k,\n f = 1,\n f = 2}").unwrap_err();
    assert_eq!(
        failure,
        Error::DoubleField(String::from("f"), at("test.bib", 2, 2), at("test.bib", 3, 2))
    );
}

#[test]
fn same_field_name_in_two_entries() {
    let input = text("two.bib", "@a{k1, f = 1}\n@a{k2, f = 2}");
    let mut bib = RawBibliography::new();
    bib.add_bibtex_resource(&input).unwrap();
    assert_eq!(literal_text(bib.entry("k1").unwrap().field("f").unwrap().value()), "1");
    assert_eq!(literal_text(bib.entry("k2").unwrap().field("f").unwrap().value()), "2");
}

#[test]
fn braces_nest() {
    let input = text("nest.bib", "@a{k, field = {a{b{c}d}e}}");
    let mut bib = RawBibliography::new();
    bib.add_bibtex_resource(&input).unwrap();
    let field = bib.entry("k").unwrap().field("field").unwrap();
    assert_eq!(field.name().as_str(), "field");
    assert_eq!(literal_text(field.value()), "a{b{c}d}e");
    assert_eq!(literal_text(field.value()).len(), 9);
}

#[test]
fn braces_nest_deep() {
    let mut body = String::new();
    for _ in 0..200 {
        body.push('{');
    }
    body.push('x');
    for _ in 0..200 {
        body.push('}');
    }
    let content = format!("@a{{k, f = {{{}}}}}", body);
    let input = text("deep.bib", &content);
    let mut bib = RawBibliography::new();
    bib.add_bibtex_resource(&input).unwrap();
    assert_eq!(literal_text(bib.entry("k").unwrap().field("f").unwrap().value()), body.as_str());
}

#[test]
fn empty_braces_and_quotes() {
    let input = text("empty.bib", "@a{k, a = {}, b = \"\"}");
    let mut bib = RawBibliography::new();
    bib.add_bibtex_resource(&input).unwrap();
    let entry = bib.entry("k").unwrap();
    assert_eq!(literal_text(entry.field("a").unwrap().value()), "");
    assert_eq!(literal_text(entry.field("b").unwrap().value()), "");
}

#[test]
fn trailing_comma_is_accepted() {
    let input = text("comma.bib", "@type{k, a=1,}");
    let mut bib = RawBibliography::new();
    bib.add_bibtex_resource(&input).unwrap();
    let entry = bib.entry("k").unwrap();
    assert_eq!(entry.field_count(), 1);
    assert_eq!(literal_text(entry.field("a").unwrap().value()), "1");
}

#[test]
fn trailing_comma_after_the_key() {
    let input = text("comma.bib", "@type(k , )");
    let mut bib = RawBibliography::new();
    bib.add_bibtex_resource(&input).unwrap();
    assert_eq!(bib.entry("k").unwrap().field_count(), 0);
}

#[test]
fn double_comma_is_refused() {
    let failure = parse_text("@type{k,, a=1}").unwrap_err();
    assert_eq!(
        failure,
        Error::InvalidToken(
            TokenContext::Entry(String::from("k"), at("test.bib", 1, 7)),
            b',',
            at("test.bib", 1, 9)
        )
    );
}

#[test]
fn double_trailing_comma_is_refused() {
    assert!(parse_text("@type{k, a=1,,}").is_err());
    assert!(parse_text("@string{a=1,,}").is_err());
    assert!(parse_text("@string{,}").is_err());
}

#[test]
fn trailing_comma_in_macro_block() {
    let input = text("comma.bib", "@string{a = 1, b = 2 , }");
    let mut bib = RawBibliography::new();
    bib.add_bibtex_resource(&input).unwrap();
    assert_eq!(bib.macro_count(), 2);
}

#[test]
fn empty_macro_block() {
    let input = text("none.bib", "@string{}@string( )");
    let mut bib = RawBibliography::new();
    bib.add_bibtex_resource(&input).unwrap();
    assert_eq!(bib.macro_count(), 0);
}

#[test]
fn quoted_value_keeps_escaped_quotes() {
    let input = text("quote.bib", "@a{k, f = \"a \\\"b\\\" c\"}");
    let mut bib = RawBibliography::new();
    bib.add_bibtex_resource(&input).unwrap();
    assert_eq!(
        literal_text(bib.entry("k").unwrap().field("f").unwrap().value()),
        "a \\\"b\\\" c"
    );
}

#[test]
fn quoted_value_escaped_backslash_then_quote() {
    // The first backslash escapes the second, so the quote after them closes.
    let input = text("quote.bib", "@a{k, f = \"a\\\\\", g = 1}");
    let mut bib = RawBibliography::new();
    bib.add_bibtex_resource(&input).unwrap();
    let entry = bib.entry("k").unwrap();
    assert_eq!(literal_text(entry.field("f").unwrap().value()), "a\\\\");
    assert_eq!(literal_text(entry.field("g").unwrap().value()), "1");
}

#[test]
fn quoted_value_that_ends_in_a_backslash() {
    let failure = parse_text("@a{k, f = \"a\\").unwrap_err();
    assert_eq!(
        failure,
        Error::InvalidEOF(
            TokenContext::Entry(String::from("k"), at("test.bib", 1, 4)),
            at("test.bib", 1, 13)
        )
    );
}

#[test]
fn percent_starts_a_comment_between_tokens() {
    let input = text(
        "comment.bib",
        "% about this file\n@a{ % the key follows\n k % }\n , f % = 2\n = % {\n 1 % ,\n }",
    );
    let mut bib = RawBibliography::new();
    bib.add_bibtex_resource(&input).unwrap();
    let entry = bib.entry("k").unwrap();
    assert_eq!(entry.field_count(), 1);
    assert_eq!(literal_text(entry.field("f").unwrap().value()), "1");
}

#[test]
fn percent_inside_braces_and_quotes_is_text() {
    let input = text("percent.bib", "@a{k, f = {50% of {all % }}, g = \"100%\"}");
    let mut bib = RawBibliography::new();
    bib.add_bibtex_resource(&input).unwrap();
    let entry = bib.entry("k").unwrap();
    assert_eq!(literal_text(entry.field("f").unwrap().value()), "50% of {all % }");
    assert_eq!(literal_text(entry.field("g").unwrap().value()), "100%");
}

#[test]
fn percent_directly_after_a_name_starts_a_comment() {
    let input = text("percent.bib", "@a{k, f% comment\n = 1}");
    let mut bib = RawBibliography::new();
    bib.add_bibtex_resource(&input).unwrap();
    let entry = bib.entry("k").unwrap();
    assert_eq!(entry.field_count(), 1);
    assert_eq!(entry.field("f").unwrap().name().as_str(), "f");
    assert_eq!(literal_text(entry.field("f").unwrap().value()), "1");
}

#[test]
fn percent_directly_after_a_key_starts_a_comment() {
    let input = text("percent.bib", "@e{k% c\n}");
    let mut bib = RawBibliography::new();
    bib.add_bibtex_resource(&input).unwrap();
    assert_eq!(bib.entry_count(), 1);
    let entry = bib.entry("k").unwrap();
    assert_eq!(entry.key().as_str(), "k");
    assert_eq!(entry.field_count(), 0);
}

#[test]
fn percent_directly_after_the_block_word_starts_a_comment() {
    let input = text("percent.bib", "@e% c\n{k}@string% {\n(m = 1)@comment% (\n{ x }");
    let mut bib = RawBibliography::new();
    bib.add_bibtex_resource(&input).unwrap();
    assert_eq!(bib.entry_count(), 1);
    assert_eq!(bib.entry("k").unwrap().entrytype().as_str(), "e");
    assert_eq!(bib.macro_count(), 1);
    assert_eq!(literal_text(bib.macro_def("m").unwrap().value()), "1");
}

#[test]
fn percent_directly_after_a_value_starts_a_comment() {
    let input = text(
        "percent.bib",
        "@e{k, a = 12% twelve\n, b = word% a macro\n, c = x% joined\n # 3% to this\n}",
    );
    let mut bib = RawBibliography::new();
    bib.add_bibtex_resource(&input).unwrap();
    let entry = bib.entry("k").unwrap();
    assert_eq!(entry.field_count(), 3);
    assert_eq!(literal_text(entry.field("a").unwrap().value()), "12");
    assert_eq!(macro_name(entry.field("b").unwrap().value()), "word");
    match entry.field("c").unwrap().value() {
        RawValue::Compound(parts) => {
            assert_eq!(parts.len(), 2);
            assert_eq!(macro_name(&parts[0]), "x");
            assert_eq!(literal_text(&parts[1]), "3");
        }
        other => panic!("not a compound: {:?}", other),
    }
}

#[test]
fn percent_after_a_name_hides_the_rest_of_the_line() {
    // The `=` stands inside the comment, so the name is followed by `1`.
    let failure = parse_text("@a{k, f% = 2\n 1}").unwrap_err();
    assert_eq!(
        failure,
        Error::InvalidToken(
            TokenContext::Entry(String::from("k"), at("test.bib", 1, 4)),
            b'1',
            at("test.bib", 2, 2)
        )
    );
    // Without a line feed the comment runs to the end of the buffer.
    assert_eq!(
        parse_text("@a{k% }").unwrap_err(),
        Error::InvalidEOF(
            TokenContext::Entry(String::from("k"), at("test.bib", 1, 4)),
            at("test.bib", 1, 7)
        )
    );
}

#[test]
fn comment_without_line_feed_ends_the_buffer() {
    parse_text("@a{k} % no line feed after this").unwrap();
    parse_text("%").unwrap();
    let failure = parse_text("@a{k, f = 1 % }").unwrap_err();
    assert_eq!(
        failure,
        Error::InvalidEOF(
            TokenContext::Entry(String::from("k"), at("test.bib", 1, 4)),
            at("test.bib", 1, 15)
        )
    );
}

#[test]
fn macro_reference_is_not_looked_up() {
    let input = text("macro.bib", "@a{k, field = somemacro}");
    let mut bib = RawBibliography::new();
    bib.add_bibtex_resource(&input).unwrap();
    assert_eq!(bib.macro_count(), 0);
    let field = bib.entry("k").unwrap().field("field").unwrap();
    assert_eq!(macro_name(field.value()), "somemacro");
}

#[test]
fn macro_reference_before_its_definition() {
    let input = text("macro.bib", "@a{k, f = later}\n@string{later = {value}}");
    let mut bib = RawBibliography::new();
    bib.add_bibtex_resource(&input).unwrap();
    assert_eq!(macro_name(bib.entry("k").unwrap().field("f").unwrap().value()), "later");
    assert_eq!(literal_text(bib.macro_def("later").unwrap().value()), "value");
}

#[test]
fn macro_and_entry_scenario() {
    let input = text("scenario.bib", "@string{M={v}}\n@entry{k,f=M}");
    let mut bib = RawBibliography::new();
    bib.add_bibtex_resource(&input).unwrap();
    assert_eq!(bib.macro_count(), 1);
    assert_eq!(bib.entry_count(), 1);
    let definition = bib.macro_def("M").unwrap();
    assert_eq!(definition.name().as_str(), "M");
    assert_eq!(literal_text(definition.value()), "v");
    let entry = bib.entry("k").unwrap();
    assert_eq!(entry.entrytype().as_str(), "entry");
    assert_eq!(entry.field_count(), 1);
    assert_eq!(macro_name(entry.field("f").unwrap().value()), "M");
    assert!(bib.macro_def("m").is_none());
}

#[test]
fn unbalanced_comment_scenario() {
    let failure = parse_text("@comment{ { unbalanced").unwrap_err();
    assert_eq!(
        failure,
        Error::InvalidEOF(TokenContext::Comment(at("test.bib", 1, 2)), at("test.bib", 1, 22))
    );
}

#[test]
fn parsing_twice_gives_the_same() {
    let content = "@string{m = {x}}\n@a{k1, f = m, g = \"q\" # m # 12}\n@b(k2)\n";
    let first = text("twice.bib", content);
    let second = text("twice.bib", content);
    let mut one = RawBibliography::new();
    let mut two = RawBibliography::new();
    one.add_bibtex_resource(&first).unwrap();
    two.add_bibtex_resource(&second).unwrap();
    assert_eq!(one.entry_count(), two.entry_count());
    assert_eq!(one.macro_count(), two.macro_count());
    for key in ["k1", "k2"] {
        let a = one.entry(key).unwrap();
        let b = two.entry(key).unwrap();
        assert_eq!(a.key().as_str(), b.key().as_str());
        assert_eq!(a.key().offset(), b.key().offset());
        assert_eq!(a.entrytype().as_str(), b.entrytype().as_str());
        assert_eq!(a.field_count(), b.field_count());
        for name in ["f", "g"] {
            match (a.field(name), b.field(name)) {
                (Some(x), Some(y)) => {
                    assert_eq!(format!("{:?}", x.value()), format!("{:?}", y.value()))
                }
                (None, None) => {}
                _ => panic!("field {} is in one result only", name),
            }
        }
    }
    assert_eq!(
        literal_text(one.macro_def("m").unwrap().value()),
        literal_text(two.macro_def("m").unwrap().value())
    );
}

#[test]
fn parsing_twice_fails_the_same() {
    let content = "@a{k}\n@b{k, f = {open";
    assert_eq!(parse_text(content).unwrap_err(), parse_text(content).unwrap_err());
}

// --------------------------

#[test]
fn compound_value_keeps_its_members() {
    let input = lines(&[
        "@string ( macro = \"value\")",
        "@entry (key, field = \"extended\" # macro # 12 # {b} )",
    ]);
    let mut bib = RawBibliography::new();
    bib.add_bibtex_resource(&input).unwrap();
    match bib.entry("key").unwrap().field("field").unwrap().value() {
        RawValue::Compound(parts) => {
            assert_eq!(parts.len(), 4);
            assert_eq!(literal_text(&parts[0]), "extended");
            assert_eq!(macro_name(&parts[1]), "macro");
            assert_eq!(literal_text(&parts[2]), "12");
            assert_eq!(literal_text(&parts[3]), "b");
        }
        other => panic!("not a compound: {:?}", other),
    }
}

#[test]
fn compound_value_of_two_macros() {
    let input = text("join.bib", "@a{k, f = first#second}");
    let mut bib = RawBibliography::new();
    bib.add_bibtex_resource(&input).unwrap();
    match bib.entry("k").unwrap().field("f").unwrap().value() {
        RawValue::Compound(parts) => {
            assert_eq!(parts.len(), 2);
            assert_eq!(macro_name(&parts[0]), "first");
            assert_eq!(macro_name(&parts[1]), "second");
        }
        other => panic!("not a compound: {:?}", other),
    }
}

#[test]
fn compound_value_cut_short() {
    let failure = parse_text("@a{k, f = \"a\" # ").unwrap_err();
    assert_eq!(
        failure,
        Error::InvalidEOF(
            TokenContext::Entry(String::from("k"), at("test.bib", 1, 4)),
            at("test.bib", 1, 16)
        )
    );
}

#[test]
fn compound_macro_is_refused() {
    let input = text("rec.bib", "@string{a = {x}, b = a # {y}, c = {z}}");
    let mut bib = RawBibliography::new();
    let failure = bib.add_bibtex_resource(&input).unwrap_err();
    assert_eq!(failure, Error::RecursiveMacro(String::from("b"), at("rec.bib", 1, 18)));
    assert_eq!(bib.macro_count(), 1);
    assert!(bib.macro_def("a").is_some());
    assert!(bib.macro_def("b").is_none());
    assert!(bib.macro_def("c").is_none());
}

#[test]
fn macro_may_name_another_macro() {
    let input = text("alias.bib", "@string{a = {x}, b = a}");
    let mut bib = RawBibliography::new();
    bib.add_bibtex_resource(&input).unwrap();
    assert_eq!(macro_name(bib.macro_def("b").unwrap().value()), "a");
}

#[test]
fn number_value() {
    let input = text("num.bib", "@a{k, year = 2024, pages = 12 }");
    let mut bib = RawBibliography::new();
    bib.add_bibtex_resource(&input).unwrap();
    let entry = bib.entry("k").unwrap();
    assert_eq!(literal_text(entry.field("year").unwrap().value()), "2024");
    assert_eq!(literal_text(entry.field("pages").unwrap().value()), "12");
}

#[test]
fn number_ends_at_the_first_other_byte() {
    let failure = parse_text("@a{k, year = 2024a}").unwrap_err();
    assert_eq!(
        failure,
        Error::InvalidToken(
            TokenContext::Entry(String::from("k"), at("test.bib", 1, 4)),
            b'a',
            at("test.bib", 1, 18)
        )
    );
}

#[test]
fn keywords_in_any_case() {
    let input = text(
        "case.bib",
        "@COMMENT{x}@Comment(y)@PREFACE{z}@preFace(w)@STRING{a = 1}@sTrInG(b = 2)@commentary{k}",
    );
    let mut bib = RawBibliography::new();
    bib.add_bibtex_resource(&input).unwrap();
    assert_eq!(bib.macro_count(), 2);
    assert_eq!(bib.entry_count(), 1);
    assert_eq!(bib.entry("k").unwrap().entrytype().as_str(), "commentary");
}

#[test]
fn comment_in_parentheses_with_braces() {
    let input = text("paren.bib", "@comment( a { ) } b } c ) @a{k}");
    let mut bib = RawBibliography::new();
    bib.add_bibtex_resource(&input).unwrap();
    assert_eq!(bib.entry_count(), 1);
}

#[test]
fn comment_in_braces_with_parentheses() {
    let input = text("brace.bib", "@comment{ ( { ) } ( } @a{k}");
    let mut bib = RawBibliography::new();
    bib.add_bibtex_resource(&input).unwrap();
    assert_eq!(bib.entry_count(), 1);
}

#[test]
fn comment_in_parentheses_never_closed() {
    let failure = parse_text("@comment( {)} ").unwrap_err();
    assert_eq!(
        failure,
        Error::InvalidEOF(TokenContext::Comment(at("test.bib", 1, 2)), at("test.bib", 1, 14))
    );
    assert!(parse_text("@comment( { ) ").is_err());
}

#[test]
fn entry_closes_with_its_own_delimiter() {
    let failure = parse_text("@a(k}").unwrap_err();
    assert_eq!(
        failure,
        Error::InvalidToken(
            TokenContext::Entry(String::from("k"), at("test.bib", 1, 4)),
            b'}',
            at("test.bib", 1, 5)
        )
    );
    assert!(parse_text("@a{k)").is_err());
    parse_text("@a(k)").unwrap();
}

#[test]
fn text_between_blocks_is_refused() {
    assert_eq!(
        parse_text("  junk").unwrap_err(),
        Error::InvalidToken(TokenContext::Global, b'j', at("test.bib", 1, 3))
    );
    let input = text("junk.bib", "@a{k1}\n}\n@a{k2}");
    let mut bib = RawBibliography::new();
    let failure = bib.add_bibtex_resource(&input).unwrap_err();
    assert_eq!(failure, Error::InvalidToken(TokenContext::Global, b'}', at("junk.bib", 2, 1)));
    assert_eq!(bib.entry_count(), 1);
    assert!(bib.entry("k1").is_some());
}

#[test]
fn block_without_opening_delimiter() {
    assert_eq!(
        parse_text("@").unwrap_err(),
        Error::InvalidEOF(TokenContext::Global, at("test.bib", 1, 1))
    );
    assert_eq!(
        parse_text("@entry").unwrap_err(),
        Error::InvalidEOF(TokenContext::Global, at("test.bib", 1, 6))
    );
    assert_eq!(
        parse_text("@entry key").unwrap_err(),
        Error::InvalidToken(TokenContext::Global, b'k', at("test.bib", 1, 8))
    );
    assert_eq!(
        parse_text("@entry,").unwrap_err(),
        Error::InvalidToken(TokenContext::Global, b',', at("test.bib", 1, 7))
    );
}

#[test]
fn entry_cut_short() {
    assert_eq!(
        parse_text("@entry{key").unwrap_err(),
        Error::InvalidEOF(
            TokenContext::Entry(String::from("key"), at("test.bib", 1, 8)),
            at("test.bib", 1, 10)
        )
    );
    assert_eq!(
        parse_text("@entry{key, f").unwrap_err(),
        Error::InvalidEOF(
            TokenContext::Entry(String::from("key"), at("test.bib", 1, 8)),
            at("test.bib", 1, 13)
        )
    );
    assert_eq!(
        parse_text("@entry{key, f = {a").unwrap_err(),
        Error::InvalidEOF(
            TokenContext::Entry(String::from("key"), at("test.bib", 1, 8)),
            at("test.bib", 1, 18)
        )
    );
}

#[test]
fn macro_block_failures() {
    assert_eq!(
        parse_text("@string{a = ").unwrap_err(),
        Error::InvalidEOF(TokenContext::MacroDef(at("test.bib", 1, 2)), at("test.bib", 1, 12))
    );
    assert_eq!(
        parse_text("@string{a {x}}").unwrap_err(),
        Error::InvalidToken(TokenContext::MacroDef(at("test.bib", 1, 2)), b'{', at("test.bib", 1, 11))
    );
    assert_eq!(
        parse_text("@string{a = {x} b = {y}}").unwrap_err(),
        Error::InvalidToken(TokenContext::MacroDef(at("test.bib", 1, 2)), b'b', at("test.bib", 1, 17))
    );
    assert_eq!(
        parse_text("@string(a = \"x").unwrap_err(),
        Error::InvalidEOF(TokenContext::MacroDef(at("test.bib", 1, 2)), at("test.bib", 1, 14))
    );
}

#[test]
fn macro_stays_when_its_block_fails_after_it() {
    let input = text("stay.bib", "@string{a = {x} b}");
    let mut bib = RawBibliography::new();
    assert!(bib.add_bibtex_resource(&input).is_err());
    assert_eq!(bib.macro_count(), 1);
    assert_eq!(literal_text(bib.macro_def("a").unwrap().value()), "x");
}

#[test]
fn failed_entry_is_not_added() {
    let input = text("fail.bib", "@a{k1, f = 1}\n@a{k2, f = 1, f = 2}\n@a{k3}");
    let mut bib = RawBibliography::new();
    assert!(bib.add_bibtex_resource(&input).is_err());
    assert_eq!(bib.entry_count(), 1);
    assert!(bib.entry("k1").is_some());
    assert!(bib.entry("k2").is_none());
    assert!(bib.entry("k3").is_none());
}

#[test]
fn empty_names_are_names() {
    let input = text("empty.bib", "@{}@a{k, f = }");
    let mut bib = RawBibliography::new();
    bib.add_bibtex_resource(&input).unwrap();
    assert_eq!(bib.entry_count(), 2);
    assert_eq!(bib.entry("").unwrap().entrytype().as_str(), "");
    assert_eq!(macro_name(bib.entry("k").unwrap().field("f").unwrap().value()), "");
}

#[test]
fn whitespace_bytes() {
    let input = text("space.bib", "\t\n\x0b\x0c\r @a\t{\x0bk\x0c,\rf\n=\t1 }");
    let mut bib = RawBibliography::new();
    bib.add_bibtex_resource(&input).unwrap();
    assert_eq!(literal_text(bib.entry("k").unwrap().field("f").unwrap().value()), "1");
}

#[test]
fn other_control_bytes_are_not_whitespace() {
    assert_eq!(
        parse_text("\x08@a{k}").unwrap_err(),
        Error::InvalidToken(TokenContext::Global, 8, at("test.bib", 1, 1))
    );
    assert_eq!(
        parse_text("\x0e@a{k}").unwrap_err(),
        Error::InvalidToken(TokenContext::Global, 14, at("test.bib", 1, 1))
    );
}

#[test]
fn names_may_hold_any_other_text() {
    let input = text("uni.bib", "@Bücher{Müller:2020, straße = {Größe}, \"q = Ünicöde}");
    let mut bib = RawBibliography::new();
    bib.add_bibtex_resource(&input).unwrap();
    let entry = bib.entry("Müller:2020").unwrap();
    assert_eq!(entry.entrytype().as_str(), "Bücher");
    assert_eq!(literal_text(entry.field("straße").unwrap().value()), "Größe");
    assert_eq!(macro_name(entry.field("\"q").unwrap().value()), "Ünicöde");
}

#[test]
fn columns_count_characters() {
    let input = text("col.bib", "@a{ä, ö = {ü}, ö = 1}");
    let mut bib = RawBibliography::new();
    let failure = bib.add_bibtex_resource(&input).unwrap_err();
    assert_eq!(
        failure,
        Error::DoubleField(String::from("ö"), at("col.bib", 1, 7), at("col.bib", 1, 16))
    );
}

#[test]
fn trace_of_offsets() {
    let input = text("trace.bib", "ab\ncdé\n\nf");
    assert_eq!(input.trace(0), at("trace.bib", 1, 1));
    assert_eq!(input.trace(1), at("trace.bib", 1, 2));
    // A line feed is counted with the line that it opens.
    assert_eq!(input.trace(2), at("trace.bib", 2, 0));
    assert_eq!(input.trace(3), at("trace.bib", 2, 1));
    assert_eq!(input.trace(5), at("trace.bib", 2, 3));
    // The second byte of a character has the column of the character.
    assert_eq!(input.trace(6), at("trace.bib", 2, 3));
    assert_eq!(input.trace(7), at("trace.bib", 3, 0));
    assert_eq!(input.trace(8), at("trace.bib", 4, 0));
    assert_eq!(input.trace(9), at("trace.bib", 4, 1));
    // The end of the buffer, and all after it, has the position of the last byte.
    assert_eq!(input.trace(10), at("trace.bib", 4, 1));
    assert_eq!(input.trace(1000), at("trace.bib", 4, 1));
}

#[test]
fn trace_in_empty_buffer() {
    let input = text("empty.bib", "");
    assert_eq!(input.trace(0), at("empty.bib", 1, 0));
}

#[test]
fn span_knows_where_it_stands() {
    let input = text("span.bib", "\n@book{knuth,\n  title = {The Art}\n}");
    let mut bib = RawBibliography::new();
    bib.add_bibtex_resource(&input).unwrap();
    let entry = bib.entry("knuth").unwrap();
    assert_eq!(entry.entrytype().offset(), 2);
    assert_eq!(entry.entrytype().trace(), at("span.bib", 2, 2));
    assert_eq!(entry.key().offset(), 7);
    assert_eq!(entry.key().trace(), at("span.bib", 2, 7));
    assert_eq!(entry.key().to_string(), String::from("knuth"));
    assert_eq!(entry.key().source().name(), "span.bib");
    let title = entry.field("title").unwrap();
    assert_eq!(title.name().offset(), 16);
    assert_eq!(title.name().trace(), at("span.bib", 3, 3));
    match title.value() {
        RawValue::Literal(text) => {
            assert_eq!(text.offset(), 25);
            assert_eq!(text.trace(), at("span.bib", 3, 12));
            assert_eq!(&input.content()[text.offset()..text.offset() + text.as_str().len()], "The Art");
        }
        other => panic!("not a literal: {:?}", other),
    }
}

#[test]
fn input_keeps_name_and_content() {
    let input = text("some name", "some content");
    assert_eq!(input.name(), "some name");
    assert_eq!(input.content(), "some content");
    assert_eq!(input.bytes(), b"some content");
}

#[test]
fn parser_reads_from_the_start() {
    let input = text("parser.bib", "@a{k1} @b{k2, f = 1}");
    let mut bib = RawBibliography::new();
    let mut parser = Parser::new(&input);
    parser.parse(&mut bib).unwrap();
    assert_eq!(bib.entry_count(), 2);
    // The buffer has been read: reading on finds nothing more.
    parser.parse(&mut bib).unwrap();
    assert_eq!(bib.entry_count(), 2);
}

#[test]
fn parser_goes_on_after_a_failure() {
    let input = text("parser.bib", "@a{k1} x @b{k2}");
    let mut bib = RawBibliography::new();
    let mut parser = Parser::new(&input);
    assert_eq!(
        parser.parse(&mut bib).unwrap_err(),
        Error::InvalidToken(TokenContext::Global, b'x', at("parser.bib", 1, 8))
    );
    parser.parse(&mut bib).unwrap();
    assert_eq!(bib.entry_count(), 2);
}

#[test]
fn many_entries() {
    let mut content = String::new();
    for i in 0..500 {
        content.push_str(&format!("@article{{key{}, number = {}, title = {{Title {}}}}}\n", i, i, i));
    }
    let input = text("many.bib", &content);
    let mut bib = RawBibliography::new();
    bib.add_bibtex_resource(&input).unwrap();
    assert_eq!(bib.entry_count(), 500);
    assert_eq!(literal_text(bib.entry("key499").unwrap().field("title").unwrap().value()), "Title 499");
    assert_eq!(literal_text(bib.entry("key17").unwrap().field("number").unwrap().value()), "17");
}

#[test]
fn spans_are_equal_by_text_alone() {
    let first = text("first.bib", "@a{same, x = {text}}");
    let second = text("second.bib", "\n\n@b{ other, same = {text}, y = {Text} }");
    let mut bib = RawBibliography::new();
    bib.add_bibtex_resource(&first).unwrap();
    bib.add_bibtex_resource(&second).unwrap();
    let one = bib.entry("same").unwrap();
    let two = bib.entry("other").unwrap();
    // The same text at another offset of another buffer.
    assert_eq!(one.key(), two.field("same").unwrap().name());
    assert_ne!(one.key().offset(), two.field("same").unwrap().name().offset());
    assert_ne!(one.key(), two.key());
    match (one.field("x").unwrap().value(), two.field("same").unwrap().value()) {
        (RawValue::Literal(x), RawValue::Literal(y)) => assert_eq!(x, y),
        _ => panic!("not literals"),
    }
    match (one.field("x").unwrap().value(), two.field("y").unwrap().value()) {
        (RawValue::Literal(x), RawValue::Literal(y)) => assert_ne!(x, y),
        _ => panic!("not literals"),
    }
}

#[test]
fn scanner_passes_over_whitespace_and_comments() {
    let input = text("scan.bib", " \t% one\n % two\n\r x% three\ny");
    let mut parser = Parser::new(&input);
    assert_eq!(parser.peek(), Some(b' '));
    assert_eq!(parser.peek_after_whitespace(), Some(b'x'));
    // Looking does not take the byte.
    assert_eq!(parser.peek_after_whitespace(), Some(b'x'));
    assert_eq!(parser.next(), Some(b'x'));
    assert_eq!(parser.next_after_whitespace(), Some(b'y'));
    assert_eq!(parser.next_after_whitespace(), None);
    assert_eq!(parser.peek(), None);
    assert_eq!(parser.next(), None);
}

#[test]
fn scanner_passes_over_a_line() {
    let input = text("scan.bib", "first line\nsecond");
    let mut parser = Parser::new(&input);
    parser.discard_line();
    assert_eq!(parser.peek(), Some(b's'));
    parser.discard_line();
    assert_eq!(parser.peek(), None);
}

#[test]
fn braced_value_read_alone() {
    let input = text("braced.bib", "{a{b{c}d}e % {x} \n{}}% c\n ,");
    let mut parser = Parser::new(&input);
    let (value, next) = parser.parse_braced().unwrap();
    assert_eq!(value.as_str(), "a{b{c}d}e % {x} \n{}");
    assert_eq!(value.offset(), 1);
    assert_eq!(next, Some(b','));
    assert_eq!(parser.peek(), None);
}

#[test]
fn braced_value_needs_its_brace() {
    let input = text("braced.bib", "x{a}");
    let mut parser = Parser::new(&input);
    assert_eq!(parser.parse_braced().unwrap_err(), Some(b'x'));
    assert_eq!(parser.parse_braced().unwrap().0.as_str(), "a");
    assert_eq!(parser.parse_braced().unwrap_err(), None);
    let open = text("braced.bib", "{a{b}");
    assert_eq!(Parser::new(&open).parse_braced().unwrap_err(), None);
}

#[test]
fn quoted_value_read_alone() {
    let input = text("quoted.bib", "\"a \\\"b\\\" {c\" }");
    let mut parser = Parser::new(&input);
    let (value, next) = parser.parse_string().unwrap();
    assert_eq!(value.as_str(), "a \\\"b\\\" {c");
    assert_eq!(next, Some(b'}'));
    let other = text("quoted.bib", "a\"b\"");
    let mut parser = Parser::new(&other);
    assert_eq!(parser.parse_string().unwrap_err(), Some(b'a'));
    assert_eq!(parser.parse_string().unwrap().0.as_str(), "b");
}

#[test]
fn value_read_alone() {
    let input = text("value.bib", "  somemacro , 12} {t} # \"q\" # m2)");
    let mut parser = Parser::new(&input);
    let (first, next) = parser.parse_value().unwrap();
    assert_eq!(macro_name(&first), "somemacro");
    assert_eq!(next, Some(b','));
    let (second, next) = parser.parse_value().unwrap();
    assert_eq!(literal_text(&second), "12");
    assert_eq!(next, Some(b'}'));
    let (third, next) = parser.parse_value().unwrap();
    match third {
        RawValue::Compound(parts) => {
            assert_eq!(parts.len(), 3);
            assert_eq!(literal_text(&parts[0]), "t");
            assert_eq!(literal_text(&parts[1]), "q");
            assert_eq!(macro_name(&parts[2]), "m2");
        }
        other => panic!("not a compound: {:?}", other),
    }
    assert_eq!(next, Some(b')'));
    assert_eq!(parser.parse_value().unwrap_err(), None);
}

#[test]
fn value_cannot_begin_inside_a_character() {
    let input = text("value.bib", "\u{e4}x}");
    let mut parser = Parser::new(&input);
    // The first byte of the character is taken; its second byte begins no value.
    assert_eq!(parser.next(), Some(0xc3));
    assert_eq!(parser.parse_value().unwrap_err(), Some(0xa4));
    let (value, next) = parser.parse_value().unwrap();
    assert_eq!(macro_name(&value), "x");
    assert_eq!(next, Some(b'}'));
}

#[test]
fn blocks_closed_alone() {
    let input = text("close.bib", "a {b} } c ) { ) } ) x");
    let mut parser = Parser::new(&input);
    parser.close_brace().unwrap();
    assert_eq!(parser.peek(), Some(b' '));
    parser.close_parenthesis().unwrap();
    parser.close_parenthesis().unwrap();
    assert_eq!(parser.next_after_whitespace(), Some(b'x'));
    assert_eq!(parser.close_brace().unwrap_err(), None);
    assert_eq!(parser.close_parenthesis().unwrap_err(), None);
}
