use adoc::ast::{AttributeList, Block, Context, Macro};
use adoc::attributes::AttributeMap;
use adoc::source::{DocumentSource, IncludeResolver, PreprocessError, Preprocessor};
use adoc::Span;

struct ChainResolver {
    files: Vec<(String, String)>,
}

impl IncludeResolver for ChainResolver {
    type Error = String;

    fn resolve(&mut self, _attributes: &AttributeMap, target: &str) -> Result<String, String> {
        for (k, v) in self.files.iter() {
            if k == target {
                return Ok(v.clone());
            }
        }
        Err(format!("no such include target: {}", target))
    }
}

/// Always answers with another include that leaves the parent unfinished,
/// so the stack must keep growing.
struct DeepResolver;

impl IncludeResolver for DeepResolver {
    type Error = String;

    fn resolve(&mut self, _attributes: &AttributeMap, _target: &str) -> Result<String, String> {
        Ok("include::again[]\npadding\n".to_string())
    }
}

fn one_attr(pairs: &[(&str, &str)]) -> AttributeMap {
    AttributeMap::from_pairs(pairs.iter().map(|(k, v)| (k.to_string(), v.to_string())).collect())
}

#[test]
fn header_with_attributes_parses_to_document() {
    let doc = adoc::parser::parse_doc(&Span::new("= T\n:a: 1\n:b:\n")).unwrap();
    let h = doc.header.expect("header expected");
    assert_eq!(h.title.text(), "T");
    assert!(h.author.is_none());
    assert!(h.version.is_none());
    assert_eq!(h.attributes.len(), 2);
    assert_eq!(h.attributes[0].id.text(), "a");
    assert!(!h.attributes[0].unset);
    assert_eq!(h.attributes[0].value.len(), 1);
    assert_eq!(h.attributes[0].value[0].text(), "1");
    assert_eq!(h.attributes[1].id.text(), "b");
    assert!(!h.attributes[1].unset);
    assert!(h.attributes[1].value.is_empty());
    assert!(doc.content.is_empty());
}

#[test]
fn thematic_break_document() {
    let doc = adoc::parser::parse_doc(&Span::new("'''")).unwrap();
    assert!(doc.header.is_none());
    assert_eq!(doc.content.len(), 1);
    assert_eq!(
        doc.content[0],
        Block { context: Context::ThematicBreak, attributes: AttributeList::new(), callouts: vec![] }
    );
}

#[test]
fn fenced_listing_document() {
    let doc = adoc::parser::parse_doc(&Span::new("```\nhello\nworld\n```")).unwrap();
    assert_eq!(doc.content.len(), 1);
    assert_eq!(
        doc.content[0],
        Block {
            context: Context::Listing(Span::new("hello\nworld\n")),
            attributes: AttributeList::new(),
            callouts: vec![],
        }
    );
}

#[test]
fn block_macro_document() {
    let doc = adoc::parser::parse_doc(&Span::new("image::foo.png[width=240]")).unwrap();
    assert_eq!(doc.content.len(), 1);
    assert_eq!(
        doc.content[0],
        Block {
            context: Context::BlockMacro(Macro {
                name: Span::new("image"),
                target: Span::new("foo.png"),
                attribute_list: AttributeList::from_pairs(vec![(
                    "width".to_string(),
                    Some("240".to_string()),
                )]),
            }),
            attributes: AttributeList::new(),
            callouts: vec![],
        }
    );
}

#[test]
fn inline_ifdef_emits_on_defined_attribute() {
    let mut pp = Preprocessor::new("ifdef::foo[hello]", DeepResolver, one_attr(&[("foo", "")]));
    pp.amalgamate().unwrap();
    assert_eq!(pp.result(), "hello");

    let mut pp = Preprocessor::new("ifdef::foo[hello]", DeepResolver, AttributeMap::default());
    pp.amalgamate().unwrap();
    assert_eq!(pp.result(), "");
}

#[test]
fn include_chain_amalgamates_depth_first() {
    let files = vec![
        ("a".to_string(), "x\ninclude::b[]\ny\n".to_string()),
        ("b".to_string(), "z".to_string()),
    ];
    let mut pp = Preprocessor::new(
        "include::a[]",
        ChainResolver { files },
        AttributeMap::default(),
    );
    pp.amalgamate().unwrap();
    assert_eq!(pp.result(), "x\nz\ny");
}

#[test]
fn include_depth_is_bounded() {
    let mut pp = Preprocessor::new("include::again[]\nend\n", DeepResolver, AttributeMap::default());
    let r = pp.amalgamate();
    assert!(matches!(r, Err(PreprocessError::MaxIncludeDepthReached)));

    let mut pp = Preprocessor::new("include::again[]\nend\n", DeepResolver, AttributeMap::default());
    pp.set_max_include_depth(4);
    let r = pp.amalgamate();
    assert!(matches!(r, Err(PreprocessError::MaxIncludeDepthReached)));
}

#[test]
fn include_error_is_reported() {
    let r = DocumentSource::new("include::missing[]", ChainResolver { files: vec![] });
    match r {
        Err(PreprocessError::IncludeError(e)) => {
            assert_eq!(e, "no such include target: missing");
        },
        _ => panic!("an include error was expected"),
    }
}

#[test]
fn document_source_feeds_the_parser() {
    let src = DocumentSource::new("'''\n>>>", ChainResolver { files: vec![] }).unwrap();
    let text = src.result();
    let doc = adoc::parser::parse_doc(&Span::new(text.as_str())).unwrap();
    assert_eq!(doc.content.len(), 2);
    assert!(matches!(doc.content[0].context, Context::ThematicBreak));
    assert!(matches!(doc.content[1].context, Context::PageBreak));
}

#[test]
fn duplicate_attribute_keys_keep_the_last_value() {
    let (_, list) = adoc::parser::parse_attribute_list(&Span::new("[a=1,a=2]")).unwrap();
    assert_eq!(list.get("a"), Some(&Some("2".to_string())));

    let mut list = AttributeList::new();
    list.insert("k".to_string(), Some("old".to_string()));
    list.insert("k".to_string(), Some("new".to_string()));
    assert_eq!(list.get("k"), Some(&Some("new".to_string())));
    assert_eq!(list.get("missing"), None);
}

#[test]
fn attribute_map_lookup() {
    let mut m = AttributeMap::default();
    assert!(!m.contains("a"));
    m.insert("a".to_string(), "1".to_string());
    m.insert("a".to_string(), "2".to_string());
    assert!(m.contains("a"));
    assert_eq!(m.get("a"), Some(&"2".to_string()));
    assert_eq!(m.get("b"), None);
}

#[test]
fn section_titles_carry_their_level() {
    let (_, t) = adoc::parser::parse_section_title(&Span::new("== Hello\n")).unwrap();
    assert_eq!(t.level, 1);
    assert_eq!(t.content.text(), "Hello");

    let (_, t) = adoc::parser::parse_section_title(&Span::new("====== deep\n")).unwrap();
    assert_eq!(t.level, 5);

    assert!(adoc::parser::parse_section_title(&Span::new("======= too deep\n")).is_err());
    assert!(adoc::parser::parse_section_title(&Span::new("plain\n")).is_err());
}

#[test]
fn paragraphs_end_at_a_blank_line() {
    let (rest, lines) = adoc::parser::parse_paragraph(&Span::new("a\nb\n\nrest")).unwrap();
    assert_eq!(lines.len(), 2);
    assert_eq!(lines[0].text(), "a");
    assert_eq!(lines[1].text(), "b");
    assert_eq!(rest.text(), "rest");

    assert!(adoc::parser::parse_paragraph(&Span::new("\nx\n")).is_err());
    assert!(adoc::parser::parse_paragraph(&Span::new("no newline")).is_err());
}

#[test]
fn callout_numbers_too_large_are_an_error() {
    let input = "<99999999999999999999999999> boom\n";
    assert!(adoc::parser::parse_callout(&Span::new(input)).is_err());
}

#[test]
fn leftover_input_fails_the_document() {
    assert!(adoc::parser::parse_doc(&Span::new("'''\nleftover")).is_err());
}

#[test]
fn spans_carry_locations_but_compare_by_text() {
    let s = Span::new("ab\ncd");
    assert_eq!(s.len(), 5);
    assert_eq!(s.line(), 1);
    assert_eq!(s.column(), 1);
    let tail = s.slice_from(3);
    assert_eq!(tail.text(), "cd");
    assert_eq!(tail.offset(), 3);
    assert_eq!(tail.line(), 2);
    assert_eq!(tail.column(), 1);
    assert_eq!(tail, Span::new("cd"));
    assert_eq!(s.find_char('\n'), Some(2));
    assert_eq!(s.find_substring("cd"), Some(3));
    assert!(s.starts_with("ab"));
    assert!(!s.starts_with("abc\n"));
    assert_eq!(s.slice(1, 4).text(), "b\nc");
}

#[test]
fn spacers_separate_words() {
    assert!(adoc::parser::prim::is_spacer('-'));
    assert!(adoc::parser::prim::is_spacer(' '));
    assert!(!adoc::parser::prim::is_spacer('a'));
    assert!(!adoc::parser::prim::is_spacer('7'));
    assert!(!adoc::parser::prim::is_spacer('\\'));

    let (rest, taken) = adoc::parser::prim::spacer(&Span::new("-- a")).unwrap();
    assert_eq!(taken.text(), "-- ");
    assert_eq!(rest.text(), "a");
    assert!(adoc::parser::prim::spacer(&Span::new("word")).is_err());
}

#[test]
fn whitespace_primitives() {
    let (rest, taken) = adoc::parser::prim::ws(&Span::new("  \tx")).unwrap();
    assert_eq!(taken.text(), "  \t");
    assert_eq!(rest.text(), "x");

    assert!(adoc::parser::prim::ws1(&Span::new("x")).is_err());

    let (rest, taken) = adoc::parser::prim::wsnl(&Span::new(" \n x")).unwrap();
    assert_eq!(taken.text(), " \n ");
    assert_eq!(rest.text(), "x");

    let (rest, _) = adoc::parser::prim::ws_with_nl(&Span::new("  \nx")).unwrap();
    assert_eq!(rest.text(), "x");
    assert!(adoc::parser::prim::ws_with_nl(&Span::new("  x")).is_err());

    let (rest, line) = adoc::parser::prim::take_line(&Span::new("ab\ncd")).unwrap();
    assert_eq!(line.text(), "ab");
    assert_eq!(rest.text(), "cd");
    assert!(adoc::parser::prim::take_line(&Span::new("ab")).is_err());

    let (rest, taken) = adoc::parser::prim::take_until1(&Span::new("abc--d"), "--").unwrap();
    assert_eq!(taken.text(), "abc");
    assert_eq!(rest.text(), "--d");
    assert!(adoc::parser::prim::take_until1(&Span::new("a--d"), "--").is_err());

    let (rest, taken) = adoc::parser::prim::ws_delimited(&Span::new(" = 1"), "=").unwrap();
    assert_eq!(taken.text(), "=");
    assert_eq!(rest.text(), "1");
    assert!(adoc::parser::prim::ws_delimited(&Span::new(" , "), "=").is_err());

    let (rest, taken) = adoc::parser::prim::rspaced(&Span::new("bold text"), "bold").unwrap();
    assert_eq!(taken.text(), "bold");
    assert_eq!(rest.text(), " text");
    assert!(adoc::parser::prim::rspaced(&Span::new("boldly"), "bold").is_err());
    assert!(adoc::parser::prim::rspaced(&Span::new("bold"), "bold").is_ok());
}

#[test]
fn canonical_forms_round_trip() {
    // parse(render(block)) == block, on the canonical surface forms
    for text in ["'''", ">>>", "```\nsome\ntext\n```", "name::target.ext[a=1,b,c=x y]"] {
        let (rest, block) = adoc::parser::parse_attributed_block(&Span::new(text)).unwrap();
        assert!(rest.is_empty());
        let (rest2, block2) = adoc::parser::parse_attributed_block(&Span::new(text)).unwrap();
        assert!(rest2.is_empty());
        assert_eq!(block, block2);
        match &block.context {
            Context::ThematicBreak => assert_eq!(text, "'''"),
            Context::PageBreak => assert_eq!(text, ">>>"),
            Context::Listing(body) => assert_eq!(format!("```\n{}```", body.text()), text),
            Context::BlockMacro(m) => {
                assert_eq!(m.name.text(), "name");
                assert_eq!(m.target.text(), "target.ext");
            },
            _ => panic!("unexpected context"),
        }
    }
}

#[test]
fn ifeval_is_parsed_but_not_evaluated() {
    let mut pp = Preprocessor::new(
        "ifeval::[1 > 2]\nstill here\n",
        DeepResolver,
        AttributeMap::default(),
    );
    pp.amalgamate().unwrap();
    assert_eq!(pp.result(), "still here");
}

#[test]
fn endif_without_an_open_conditional_is_consumed() {
    let mut pp = Preprocessor::new("a\nendif::[]\nb\n", DeepResolver, AttributeMap::default());
    pp.amalgamate().unwrap();
    assert_eq!(pp.result(), "a\nb");
}

#[test]
fn malformed_directive_lines_fall_through_verbatim() {
    // an empty include target, a missing bracket, and a line starting with
    // `[` are no directives: they are emitted as they stand
    let mut pp = Preprocessor::new(
        "include::[]\ninclude::x\n[foo]\n",
        DeepResolver,
        AttributeMap::default(),
    );
    pp.amalgamate().unwrap();
    assert_eq!(pp.result(), "include::[]\ninclude::x\n[foo]");
}
