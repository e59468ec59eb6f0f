use vstd::prelude::*;

use crate::span::Span;
use crate::text::{find_at, find_sub_at, has_prefix, lemma_find_at, lemma_find_sub_at, matches_at};

verus! {

/// Unicode whitespace, the characters with the White_Space property.
pub open spec fn is_white(c: char) -> bool {
    ||| c == '\u{0009}'
    ||| c == '\u{000A}'
    ||| c == '\u{000B}'
    ||| c == '\u{000C}'
    ||| c == '\u{000D}'
    ||| c == ' '
    ||| c == '\u{0085}'
    ||| c == '\u{00A0}'
    ||| c == '\u{1680}'
    ||| (0x2000 <= c as u32 && c as u32 <= 0x200A)
    ||| c == '\u{2028}'
    ||| c == '\u{2029}'
    ||| c == '\u{202F}'
    ||| c == '\u{205F}'
    ||| c == '\u{3000}'
}

/// Horizontal whitespace: any whitespace except the newline.
pub open spec fn is_hws(c: char) -> bool {
    is_white(c) && c != '\n'
}

pub open spec fn is_ascii_alnum(c: char) -> bool {
    ||| (0x30 <= c as u32 && c as u32 <= 0x39)
    ||| (0x41 <= c as u32 && c as u32 <= 0x5A)
    ||| (0x61 <= c as u32 && c as u32 <= 0x7A)
}

pub open spec fn is_ascii_digit(c: char) -> bool {
    0x30 <= c as u32 && c as u32 <= 0x39
}

/// The character classes the grammar scans over.
#[derive(Debug, PartialEq, Clone, Copy)]
pub enum ChClass {
    /// Horizontal whitespace
    HorizWs,
    /// Any whitespace, newlines included
    AnyWs,
    /// ASCII letters and digits
    AsciiAlnum,
    /// What may follow the first character of an attribute name
    AttrName,
    /// What an attribute value may hold
    AttrValue,
    /// What a document-attribute id may hold
    DocAttrId,
    /// ASCII digits
    Digit,
    /// What a block-macro target may hold
    MacroTarget,
    /// Equals signs, for section titles
    EqSign,
}

pub open spec fn class_holds(cl: ChClass, c: char) -> bool {
    match cl {
        ChClass::HorizWs => is_hws(c),
        ChClass::AnyWs => is_white(c),
        ChClass::AsciiAlnum => is_ascii_alnum(c),
        ChClass::AttrName => is_ascii_alnum(c) || c == '-' || c == '.',
        ChClass::AttrValue => c != ',' && c != ']' && c != '\n',
        ChClass::DocAttrId => c != '\n' && c != ':',
        ChClass::Digit => is_ascii_digit(c),
        ChClass::MacroTarget => c != '[' && c != '\n',
        ChClass::EqSign => c == '=',
    }
}

/// The first index at or after `i` whose character is not in the class.
pub open spec fn scan_class(s: Seq<char>, i: nat, cl: ChClass) -> nat
    decreases s.len() - i when i <= s.len()
{
    if i >= s.len() {
        i
    } else if class_holds(cl, s[i as int]) {
        scan_class(s, i + 1, cl)
    } else {
        i
    }
}

pub proof fn lemma_scan_class(s: Seq<char>, i: nat, cl: ChClass)
    requires
        i <= s.len(),
    ensures
        i <= scan_class(s, i, cl) <= s.len(),
        scan_class(s, i, cl) < s.len() ==> !class_holds(cl, s[scan_class(s, i, cl) as int]),
        forall|j: int| i <= j < scan_class(s, i, cl) ==> class_holds(cl, s[j]),
    decreases s.len() - i,
{
    if i < s.len() && class_holds(cl, s[i as int]) {
        lemma_scan_class(s, i + 1, cl);
    }
}

fn class_check(cl: ChClass, c: char) -> (r: bool)
    ensures
        r == class_holds(cl, c),
{
    let u = c as u32;
    match cl {
        ChClass::HorizWs => is_white_char(c) && c != '\n',
        ChClass::AnyWs => is_white_char(c),
        ChClass::AsciiAlnum => (0x30 <= u && u <= 0x39) || (0x41 <= u && u <= 0x5A) || (0x61 <= u
            && u <= 0x7A),
        ChClass::AttrName => (0x30 <= u && u <= 0x39) || (0x41 <= u && u <= 0x5A) || (0x61 <= u
            && u <= 0x7A) || c == '-' || c == '.',
        ChClass::AttrValue => c != ',' && c != ']' && c != '\n',
        ChClass::DocAttrId => c != '\n' && c != ':',
        ChClass::Digit => 0x30 <= u && u <= 0x39,
        ChClass::MacroTarget => c != '[' && c != '\n',
        ChClass::EqSign => c == '=',
    }
}

fn is_white_char(c: char) -> (r: bool)
    ensures
        r == is_white(c),
{
    let u = c as u32;
    c == '\u{0009}' || c == '\u{000A}' || c == '\u{000B}' || c == '\u{000C}' || c == '\u{000D}'
        || c == ' ' || c == '\u{0085}' || c == '\u{00A0}' || c == '\u{1680}' || (0x2000 <= u && u
        <= 0x200A) || c == '\u{2028}' || c == '\u{2029}' || c == '\u{202F}' || c == '\u{205F}'
        || c == '\u{3000}'
}

/// The first index at or after `from` whose character leaves the class.
pub fn scan(i: &Span, from: usize, cl: ChClass) -> (r: usize)
    requires
        from <= i@.len(),
    ensures
        r == scan_class(i@, from as nat, cl),
        from <= r <= i@.len(),
    decreases i@.len() - from,
{
    proof {
        lemma_scan_class(i@, from as nat, cl);
    }
    let len = i.len();
    let mut j: usize = from;
    while j < len
        invariant
            from <= j <= len == i@.len(),
            forall|k: int| from <= k < j ==> class_holds(cl, i@[k]),
        decreases len - j,
    {
        if !class_check(cl, i.char_at(j)) {
            proof {
                lemma_scan_pins(i@, from as nat, cl, j as nat);
            }
            return j;
        }
        j = j + 1;
    }
    proof {
        if scan_class(i@, from as nat, cl) < i@.len() {
            assert(!class_holds(cl, i@[scan_class(i@, from as nat, cl) as int]));
        }
    }
    len
}

pub proof fn lemma_scan_pins(s: Seq<char>, i: nat, cl: ChClass, j: nat)
    requires
        i <= j < s.len(),
        !class_holds(cl, s[j as int]),
        forall|k: int| i <= k < j ==> class_holds(cl, s[k]),
    ensures
        scan_class(s, i, cl) == j,
{
    lemma_scan_class(s, i, cl);
    if scan_class(s, i, cl) < j {
        assert(!class_holds(cl, s[scan_class(s, i, cl) as int]));
    }
    if scan_class(s, i, cl) > j {
        assert(class_holds(cl, s[j as int]));
    }
}

// ----- whitespace primitives ------------------------------------------------

/// `ws`: the longest horizontal-whitespace prefix, and the rest.
pub open spec fn sp_ws(s: Seq<char>) -> (Seq<char>, Seq<char>) {
    let k = scan_class(s, 0, ChClass::HorizWs);
    (s.skip(k as int), s.take(k as int))
}

/// `ws1`: as `ws`, but the prefix must be non-empty.
pub open spec fn sp_ws1(s: Seq<char>) -> Option<(Seq<char>, Seq<char>)> {
    let k = scan_class(s, 0, ChClass::HorizWs);
    if k == 0 {
        None
    } else {
        Some((s.skip(k as int), s.take(k as int)))
    }
}

/// `wsnl`: the longest whitespace prefix, newlines included.
pub open spec fn sp_wsnl(s: Seq<char>) -> (Seq<char>, Seq<char>) {
    let k = scan_class(s, 0, ChClass::AnyWs);
    (s.skip(k as int), s.take(k as int))
}

/// `ws_with_nl`: horizontal whitespace and then exactly one newline.
pub open spec fn sp_ws_with_nl(s: Seq<char>) -> Option<(Seq<char>, Seq<char>)> {
    let k = scan_class(s, 0, ChClass::HorizWs);
    if k < s.len() && s[k as int] == '\n' {
        Some((s.skip((k + 1) as int), s.take(k as int)))
    } else {
        None
    }
}

/// `take_line`: everything up to the next newline, consuming the newline.
pub open spec fn sp_take_line(s: Seq<char>) -> Option<(Seq<char>, Seq<char>)> {
    let k = find_at(s, 0, '\n');
    if k == s.len() {
        None
    } else {
        Some((s.skip((k + 1) as int), s.take(k as int)))
    }
}

/// `take_until1`: everything before the first occurrence of the literal,
/// which must be more than one character long.
pub open spec fn sp_take_until1(s: Seq<char>, lit: Seq<char>) -> Option<(Seq<char>, Seq<char>)> {
    let k = find_sub_at(s, 0, lit);
    if k == s.len() || k <= 1 {
        None
    } else {
        Some((s.skip(k as int), s.take(k as int)))
    }
}

/// Consume zero-or-more horizontal whitespace.
pub fn ws(i: &Span) -> (r: Result<(Span, Span), ParseError>)
    ensures
        match r {
            Ok((rest, taken)) => rest@ == sp_ws(i@).0 && taken@ == sp_ws(i@).1,
            Err(_) => false,
        },
{
    let k = scan(i, 0, ChClass::HorizWs);
    Ok((i.slice_from(k), i.slice_to(k)))
}

/// Consume one-or-more horizontal whitespace.
pub fn ws1(i: &Span) -> (r: Result<(Span, Span), ParseError>)
    ensures
        match r {
            Ok((rest, taken)) => sp_ws1(i@) == Some((rest@, taken@)),
            Err(_) => sp_ws1(i@) is None,
        },
{
    let k = scan(i, 0, ChClass::HorizWs);
    if k == 0 {
        return Err(ParseError::at(i, ErrorKind::TakeWhile));
    }
    Ok((i.slice_from(k), i.slice_to(k)))
}

/// Consume zero-or-more whitespace, newlines included.
pub fn wsnl(i: &Span) -> (r: Result<(Span, Span), ParseError>)
    ensures
        match r {
            Ok((rest, taken)) => rest@ == sp_wsnl(i@).0 && taken@ == sp_wsnl(i@).1,
            Err(_) => false,
        },
{
    let k = scan(i, 0, ChClass::AnyWs);
    Ok((i.slice_from(k), i.slice_to(k)))
}

/// Consume horizontal whitespace followed by exactly one newline.
pub fn ws_with_nl(i: &Span) -> (r: Result<(Span, Span), ParseError>)
    ensures
        match r {
            Ok((rest, taken)) => sp_ws_with_nl(i@) == Some((rest@, taken@)),
            Err(_) => sp_ws_with_nl(i@) is None,
        },
{
    let k = scan(i, 0, ChClass::HorizWs);
    let len = i.len();
    if k < len && i.char_at(k) == '\n' {
        Ok((i.slice_from(k + 1), i.slice_to(k)))
    } else {
        Err(ParseError::at(i, ErrorKind::Tag))
    }
}

/// Take everything up to the next newline and consume the newline.
pub fn take_line(i: &Span) -> (r: Result<(Span, Span), ParseError>)
    ensures
        match r {
            Ok((rest, line)) => sp_take_line(i@) == Some((rest@, line@)),
            Err(_) => sp_take_line(i@) is None,
        },
{
    let len = i.len();
    match i.find_char('\n') {
        Some(k) => Ok((i.slice_from(k + 1), i.slice_to(k))),
        None => Err(ParseError::at(i, ErrorKind::TakeUntil)),
    }
}

/// Take everything before the first occurrence of `lit`, requiring more
/// than one character before it.
pub fn take_until1(i: &Span, lit: &str) -> (r: Result<(Span, Span), ParseError>)
    ensures
        match r {
            Ok((rest, taken)) => sp_take_until1(i@, lit@) == Some((rest@, taken@)),
            Err(_) => sp_take_until1(i@, lit@) is None,
        },
{
    match i.find_substring(lit) {
        Some(k) => {
            proof {
                lemma_find_sub_at(i@, 0, lit@);
            }
            if k <= 1 {
                return Err(ParseError::at(i, ErrorKind::Verify));
            }
            Ok((i.slice_from(k), i.slice_to(k)))
        },
        None => Err(ParseError::at(i, ErrorKind::TakeUntil)),
    }
}

/// `ws_delimited`: a literal with horizontal whitespace allowed around it.
pub open spec fn sp_ws_delimited(s: Seq<char>, lit: Seq<char>) -> Option<(Seq<char>, Seq<char>)> {
    let a = sp_ws(s).0;
    if has_prefix(a, lit) {
        Some((sp_ws(a.skip(lit.len() as int)).0, lit))
    } else {
        None
    }
}

/// Consume a literal and the horizontal whitespace around it.
pub fn ws_delimited(i: &Span, lit: &str) -> (r: Result<(Span, Span), ParseError>)
    ensures
        match r {
            Ok((rest, taken)) => sp_ws_delimited(i@, lit@) == Some((rest@, taken@)),
            Err(_) => sp_ws_delimited(i@, lit@) is None,
        },
{
    let k = scan(i, 0, ChClass::HorizWs);
    let a = i.slice_from(k);
    if !a.starts_with(lit) {
        return Err(ParseError::at(&a, ErrorKind::Tag));
    }
    let lit_len = lit.unicode_len();
    let taken = a.slice_to(lit_len);
    let after = a.slice_from(lit_len);
    let k2 = scan(&after, 0, ChClass::HorizWs);
    let rest = after.slice_from(k2);
    proof {
        assert(taken@ =~= lit@);
    }
    Ok((rest, taken))
}

// ----- spacers (reserved for the inline grammar) ----------------------------

/// Names the verdict of `char::is_alphanumeric`, which depends on the
/// character alone.
pub uninterp spec fn char_alphanumeric(c: char) -> bool;

/// Relies on `char::is_alphanumeric`: whether `c` is alphabetic or numeric
/// under Unicode.
#[verifier::external_body]
fn is_alphanumeric_char(c: char) -> (r: bool)
    ensures
        r == char_alphanumeric(c),
{
    c.is_alphanumeric()
}

/// What separates words for the inline grammar: anything that is neither
/// alphanumeric nor a backslash.
pub open spec fn spec_is_spacer(c: char) -> bool {
    c != '\\' && !char_alphanumeric(c)
}

/// Whether `c` separates words for the inline grammar.
pub fn is_spacer(c: char) -> (r: bool)
    ensures
        r == spec_is_spacer(c),
{
    match c {
        '\\' => false,
        _ => !is_alphanumeric_char(c),
    }
}

/// The first index at or after `i` whose character is not a spacer.
pub open spec fn scan_spacer(s: Seq<char>, i: nat) -> nat
    decreases s.len() - i when i <= s.len()
{
    if i >= s.len() {
        i
    } else if spec_is_spacer(s[i as int]) {
        scan_spacer(s, i + 1)
    } else {
        i
    }
}

/// `spacer`: the longest non-empty prefix of spacer characters.
pub open spec fn sp_spacer(s: Seq<char>) -> Option<(Seq<char>, Seq<char>)> {
    let k = scan_spacer(s, 0);
    if k == 0 {
        None
    } else {
        Some((s.skip(k as int), s.take(k as int)))
    }
}

proof fn lemma_scan_spacer(s: Seq<char>, i: nat)
    requires
        i <= s.len(),
    ensures
        i <= scan_spacer(s, i) <= s.len(),
        scan_spacer(s, i) < s.len() ==> !spec_is_spacer(s[scan_spacer(s, i) as int]),
        forall|j: int| i <= j < scan_spacer(s, i) ==> spec_is_spacer(s[j]),
    decreases s.len() - i,
{
    if i < s.len() && spec_is_spacer(s[i as int]) {
        lemma_scan_spacer(s, i + 1);
    }
}

/// Consume one-or-more spacer characters.
pub fn spacer(i: &Span) -> (r: Result<(Span, Span), ParseError>)
    ensures
        match r {
            Ok((rest, taken)) => sp_spacer(i@) == Some((rest@, taken@)),
            Err(_) => sp_spacer(i@) is None,
        },
{
    proof {
        lemma_scan_spacer(i@, 0);
    }
    let len = i.len();
    let mut j: usize = 0;
    while j < len
        invariant
            j <= len == i@.len(),
            forall|k: int| 0 <= k < j ==> spec_is_spacer(i@[k]),
        decreases len - j,
    {
        if !is_spacer(i.char_at(j)) {
            proof {
                lemma_scan_spacer(i@, 0);
                if scan_spacer(i@, 0) < j {
                    assert(!spec_is_spacer(i@[scan_spacer(i@, 0) as int]));
                }
                if scan_spacer(i@, 0) > j {
                    assert(spec_is_spacer(i@[j as int]));
                }
                assert(scan_spacer(i@, 0) == j);
            }
            if j == 0 {
                return Err(ParseError::at(i, ErrorKind::TakeWhile));
            }
            return Ok((i.slice_from(j), i.slice_to(j)));
        }
        j = j + 1;
    }
    proof {
        lemma_scan_spacer(i@, 0);
        if scan_spacer(i@, 0) < len {
            assert(!spec_is_spacer(i@[scan_spacer(i@, 0) as int]));
        }
        assert(scan_spacer(i@, 0) == len);
    }
    if len == 0 {
        return Err(ParseError::at(i, ErrorKind::TakeWhile));
    }
    Ok((i.slice_from(len), i.slice_to(len)))
}

/// `rspaced`: a literal that must stand at a word boundary: what follows is
/// a spacer or the end of the input, and is left unconsumed.
pub open spec fn sp_rspaced(s: Seq<char>, lit: Seq<char>) -> Option<(Seq<char>, Seq<char>)> {
    if has_prefix(s, lit) {
        let rest = s.skip(lit.len() as int);
        if rest.len() == 0 || spec_is_spacer(rest[0]) {
            Some((rest, lit))
        } else {
            None
        }
    } else {
        None
    }
}

/// Consume a literal standing at a word boundary.
pub fn rspaced(i: &Span, lit: &str) -> (r: Result<(Span, Span), ParseError>)
    ensures
        match r {
            Ok((rest, taken)) => sp_rspaced(i@, lit@) == Some((rest@, taken@)),
            Err(_) => sp_rspaced(i@, lit@) is None,
        },
{
    if !i.starts_with(lit) {
        return Err(ParseError::at(i, ErrorKind::Tag));
    }
    let lit_len = lit.unicode_len();
    let rest = i.slice_from(lit_len);
    if !rest.is_empty() && !is_spacer(rest.char_at(0)) {
        return Err(ParseError::at(&rest, ErrorKind::Verify));
    }
    let taken = i.slice_to(lit_len);
    proof {
        assert(taken@ =~= lit@);
    }
    Ok((rest, taken))
}

// ----- errors ---------------------------------------------------------------

/// What a parser was after when it failed.
#[derive(Debug, PartialEq, Clone, Copy)]
pub enum ErrorKind {
    /// A fixed literal was expected
    Tag,
    /// A terminator was never found
    TakeUntil,
    /// A non-empty run of characters was expected
    TakeWhile,
    /// A decimal number was expected
    Digit,
    /// A number too large for the platform
    Overflow,
    /// No block alternative matched
    Alt,
    /// Input was left over
    Eof,
    /// A parsed value failed a side condition
    Verify,
}

/// One step of the failure report: where, and what was expected.
#[derive(Debug, PartialEq, Clone)]
pub struct ErrorFrame {
    pub offset: usize,
    pub line: usize,
    pub col: usize,
    pub kind: ErrorKind,
}

/// A first-error report: the frames the failing parse went through, the
/// deepest first, each with a source location.
#[derive(Debug, PartialEq)]
pub struct ParseError {
    pub frames: Vec<ErrorFrame>,
}

impl ParseError {
    /// An error at the position `i` starts at.
    pub fn at(i: &Span, kind: ErrorKind) -> ParseError {
        let frame = ErrorFrame { offset: i.offset(), line: i.line(), col: i.column(), kind };
        let mut frames = Vec::new();
        frames.push(frame);
        ParseError { frames }
    }

    /// Record an enclosing parser's position on the way out.
    pub fn push_frame(&mut self, i: &Span, kind: ErrorKind) {
        self.frames.push(
            ErrorFrame { offset: i.offset(), line: i.line(), col: i.column(), kind },
        );
    }
}

} // verus!
