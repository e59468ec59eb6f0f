use adoc::ast::{AttributeList, Block, Callout, Context, Macro};
use adoc::Span;

fn pairs(list: &[(&str, Option<&str>)]) -> AttributeList {
    AttributeList::from_pairs(
        list.iter().map(|(k, v)| (k.to_string(), v.map(|s| s.to_string()))).collect(),
    )
}

#[test]
fn parse_attr() {
    let (rest, (name, value)) = adoc::parser::parse_attribute(&Span::new("foobar")).unwrap();
    assert_eq!(name.text(), "foobar");
    assert_eq!(value, None);
    assert_eq!(rest.text(), "");

    let (rest, (name, value)) = adoc::parser::parse_attribute(&Span::new("foobar,foobar")).unwrap();
    assert_eq!(name.text(), "foobar");
    assert_eq!(value, None);
    assert_eq!(rest.text(), ",foobar");

    let (_, (name, value)) = adoc::parser::parse_attribute(&Span::new("foobar=14\n")).unwrap();
    assert_eq!(name.text(), "foobar");
    assert_eq!(value.unwrap().text(), "14");

    let (_, (name, value)) = adoc::parser::parse_attribute(&Span::new("foobar = 14")).unwrap();
    assert_eq!(name.text(), "foobar");
    assert_eq!(value.unwrap().text(), "14");

    let (_, (name, value)) = adoc::parser::parse_attribute(&Span::new("foobar = \"14\"abc"))
        .unwrap();
    assert_eq!(name.text(), "foobar");
    assert_eq!(value.unwrap().text(), "\"14\"abc");
}

#[test]
fn parse_attr_list() {
    let (_, list) = adoc::parser::parse_attribute_list(&Span::new("[foobar]")).unwrap();
    assert_eq!(list, pairs(&[("foobar", None)]));

    let (_, list) = adoc::parser::parse_attribute_list(&Span::new("[foobar,baz]")).unwrap();
    assert_eq!(list, pairs(&[("foobar", None), ("baz", None)]));

    let (_, list) = adoc::parser::parse_attribute_list(&Span::new("[foobar = foo ,baz , qux]"))
        .unwrap();
    assert_eq!(list, pairs(&[("foobar", Some("foo ")), ("baz", None), ("qux", None)]));
}

#[test]
fn parse_doc_attribute() {
    let (_, a) = adoc::parser::parse_doc_attribute(&Span::new(":foo:\n")).unwrap();
    assert_eq!(a.id.text(), "foo");
    assert!(!a.unset);
    assert!(a.value.is_empty());

    let (_, a) = adoc::parser::parse_doc_attribute(&Span::new(":foo: bar baz qux\n")).unwrap();
    assert_eq!(a.id.text(), "foo");
    assert!(!a.unset);
    assert_eq!(a.value.len(), 1);
    assert_eq!(a.value[0].text(), "bar baz qux");

    let (_, a) = adoc::parser::parse_doc_attribute(&Span::new(":foo: bar baz qux     \n"))
        .unwrap();
    assert_eq!(a.id.text(), "foo");
    assert!(!a.unset);
    assert_eq!(a.value.len(), 1);
    assert_eq!(a.value[0].text(), "bar baz qux     ");

    let (_, a) = adoc::parser::parse_doc_attribute(&Span::new(":!foo: bar\n")).unwrap();
    assert_eq!(a.id.text(), "foo");
    assert!(a.unset);
    assert_eq!(a.value.len(), 1);
    assert_eq!(a.value[0].text(), "bar");

    let (_, a) = adoc::parser::parse_doc_attribute(&Span::new(":foo!:\n")).unwrap();
    assert_eq!(a.id.text(), "foo");
    assert!(a.unset);
    assert!(a.value.is_empty());

    let (_, a) = adoc::parser::parse_doc_attribute(&Span::new(":!foo!:\n")).unwrap();
    assert_eq!(a.id.text(), "foo");
    assert!(a.unset);
    assert!(a.value.is_empty());
}

#[test]
fn parse_doc_header() {
    let input = "= Headline\n:header_attr: attr\n:header_attr:\n\n:doc_attr:\n";
    let (rest, h) = adoc::parser::parse_doc_header(&Span::new(input)).unwrap();
    assert_eq!(h.title.text(), "Headline");
    assert!(h.author.is_none());
    assert!(h.version.is_none());
    assert_eq!(h.attributes.len(), 2);
    assert_eq!(h.attributes[0].id.text(), "header_attr");
    assert!(!h.attributes[0].unset);
    assert_eq!(h.attributes[0].value.len(), 1);
    assert_eq!(h.attributes[0].value[0].text(), "attr");
    assert_eq!(h.attributes[1].id.text(), "header_attr");
    assert!(!h.attributes[1].unset);
    assert!(h.attributes[1].value.is_empty());
    assert_eq!(rest.text(), "\n:doc_attr:\n");
}

#[test]
fn parse_callouts() {
    let input = "<0> foo\n<1> foo\n<2>bar\n<1337>baz\n";
    let (rest, callouts) = adoc::parser::parse_callouts(&Span::new(input)).unwrap();
    assert_eq!(
        callouts,
        vec![
            Callout { number: 0, text: Span::new("foo") },
            Callout { number: 1, text: Span::new("foo") },
            Callout { number: 2, text: Span::new("bar") },
            Callout { number: 1337, text: Span::new("baz") },
        ]
    );
    assert_eq!(rest.text(), "");
}

#[test]
fn parse_single_block_no_attributes() {
    let (_, block) = adoc::parser::parse_attributed_block(&Span::new(">>>")).unwrap();
    assert_eq!(
        block,
        Block { context: Context::PageBreak, attributes: AttributeList::new(), callouts: vec![] }
    );

    let (_, block) = adoc::parser::parse_attributed_block(&Span::new("'''")).unwrap();
    assert_eq!(
        block,
        Block {
            context: Context::ThematicBreak,
            attributes: AttributeList::new(),
            callouts: vec![],
        }
    );

    let (_, block) = adoc::parser::parse_attributed_block(
        &Span::new("```\nThis is a listing block\nwith multiple lines\n```"),
    ).unwrap();
    assert_eq!(
        block,
        Block {
            context: Context::Listing(Span::new("This is a listing block\nwith multiple lines\n")),
            attributes: AttributeList::new(),
            callouts: vec![],
        }
    );

    let (_, block) = adoc::parser::parse_attributed_block(&Span::new("image::foo.png[width=240]"))
        .unwrap();
    assert_eq!(
        block,
        Block {
            context: Context::BlockMacro(Macro {
                name: Span::new("image"),
                target: Span::new("foo.png"),
                attribute_list: pairs(&[("width", Some("240"))]),
            }),
            attributes: AttributeList::new(),
            callouts: vec![],
        }
    );
}
