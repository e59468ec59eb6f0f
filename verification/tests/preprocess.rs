use adoc::attributes::AttributeMap;
use adoc::source::{IncludeResolver, Preprocessor};

/// Resolves include targets from a fixed list of (name, text) pairs.
struct MapResolver {
    files: Vec<(String, String)>,
}

impl MapResolver {
    fn new(files: &[(&str, &str)]) -> MapResolver {
        MapResolver {
            files: files.iter().map(|(k, v)| (k.to_string(), v.to_string())).collect(),
        }
    }
}

impl IncludeResolver for MapResolver {
    type Error = String;

    fn resolve(&mut self, _attributes: &AttributeMap, target: &str) -> Result<String, String> {
        for (k, v) in self.files.iter() {
            if k == target {
                return Ok(v.clone());
            }
        }
        Err(format!("no such include target: {}", target))
    }
}

/// Panics when the preprocessor asks for an include.
struct NoInclude;

impl IncludeResolver for NoInclude {
    type Error = String;

    fn resolve(&mut self, _attributes: &AttributeMap, _target: &str) -> Result<String, String> {
        panic!("test used include directive which wasn't expected")
    }
}

fn attrs(pairs: &[(&str, &str)]) -> AttributeMap {
    AttributeMap::from_pairs(pairs.iter().map(|(k, v)| (k.to_string(), v.to_string())).collect())
}

fn check(fixture: &str, expected: &str) {
    check_with_attributes(fixture, &[], expected);
}

fn check_with_attributes(fixture: &str, pairs: &[(&str, &str)], expected: &str) {
    let mut pp = Preprocessor::new(fixture, NoInclude, attrs(pairs));
    pp.amalgamate().unwrap();
    assert_eq!(pp.result(), expected);
}

fn check_with_files(fixture: &str, files: &[(&str, &str)], expected: &str) {
    let mut pp = Preprocessor::new(fixture, MapResolver::new(files), AttributeMap::default());
    pp.amalgamate().unwrap();
    assert_eq!(pp.result(), expected);
}

#[test]
pub fn test_simple() {
    check(
        "Demo\n================\n\n:some:\n:random:\n:attributes:\n",
        "Demo\n================\n\n:some:\n:random:\n:attributes:",
    );
}

#[test]
pub fn test_include() {
    let files = [
        ("foo.adoc", ":neeeeerd:"),
        ("bar.adoc", ":neeeeeeeeeerd:\n\n"),
        ("unsafe-secrets.rs", "unsafe {\n    *std::ptr::null()\n}\n"),
        ("empty", ""),
    ];
    let fixture = "Asciidoctor Demo\n================\ninclude::foo.adoc[]\n\ninclude::bar.adoc[]\n\ninclude::unsafe-secrets.rs[]\n\ninclude::empty[]\n";
    check_with_files(
        fixture,
        &files,
        "Asciidoctor Demo\n================\n:neeeeerd:\n\n:neeeeeeeeeerd:\n\n\nunsafe {\n    *std::ptr::null()\n}\n",
    );
}

#[test]
pub fn test_recursive_include() {
    let files = [
        ("foo.adoc", "include::bar.adoc[]"),
        ("bar.adoc", "bar\ninclude::baz.adoc[]\nbar\n"),
        ("baz.adoc", "baz"),
    ];
    check_with_files("include::foo.adoc[]", &files, "bar\nbaz\nbar");
}

#[test]
pub fn test_ifdef_inline() {
    let fixture = "ifdef::foo[This is an inline ifdef]";
    check_with_attributes(fixture, &[("foo", "")], "This is an inline ifdef");
    check(fixture, "");
}

#[test]
pub fn test_ifndef_inline() {
    let fixture = "ifndef::foo[This is an inline ifndef]";
    check_with_attributes(fixture, &[("foo", "")], "");
    check(fixture, "This is an inline ifndef");
}

#[test]
pub fn test_ifdef() {
    let fixture = "flip the table\nifdef::flip[]\n(\u{256f}\u{b0}\u{25a1}\u{b0}\u{ff09}\u{256f}\u{fe35} \u{253b}\u{2501}\u{253b}\nendif::[]\nflip the table\n";
    check_with_attributes(
        fixture,
        &[("flip", "")],
        "flip the table\n(\u{256f}\u{b0}\u{25a1}\u{b0}\u{ff09}\u{256f}\u{fe35} \u{253b}\u{2501}\u{253b}\nflip the table",
    );
    check(fixture, "flip the table\nflip the table");
}

#[test]
pub fn test_ifndef() {
    let fixture = "unflip the table\nifndef::unflip[]\n\u{252c}\u{2500}\u{252c} \u{30ce}( \u{309c}-\u{309c}\u{30ce})\nendif::[]\nunflip the table\n";
    check_with_attributes(fixture, &[("unflip", "")], "unflip the table\nunflip the table");
    check(
        fixture,
        "unflip the table\n\u{252c}\u{2500}\u{252c} \u{30ce}( \u{309c}-\u{309c}\u{30ce})\nunflip the table",
    );
}

#[test]
pub fn test_ifdef_and() {
    let fixture = "Flip Flappers is a\nifdef::flip+flap[]\nnice\nendif::[]\nshow\n";
    check_with_attributes(fixture, &[("flip", "")], "Flip Flappers is a\nshow");
    check_with_attributes(
        fixture,
        &[("flip", ""), ("flap", "")],
        "Flip Flappers is a\nnice\nshow",
    );
}

#[test]
pub fn test_ifdef_or() {
    let fixture = "Wonder\nifdef::flip,flap[]\nEgg\nendif::[]\nPriority\n";
    check(fixture, "Wonder\nPriority");
    check_with_attributes(fixture, &[("flip", "")], "Wonder\nEgg\nPriority");
    check_with_attributes(fixture, &[("flip", ""), ("flap", "")], "Wonder\nEgg\nPriority");
}

#[test]
pub fn test_ifdef_nested() {
    let fixture = "ifdef::flip[]\nFlip\nifdef::flap[]\nFlap\nendif::[]\nFlop\nendif::[]\n";
    check(fixture, "");
    check_with_attributes(fixture, &[("flip", "")], "Flip\nFlop");
    check_with_attributes(fixture, &[("flap", "")], "");
    check_with_attributes(fixture, &[("flip", ""), ("flap", "")], "Flip\nFlap\nFlop");
}
