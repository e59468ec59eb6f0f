use vstd::prelude::*;

pub mod prim;

use crate::ast::{
    AttributeList,
    Block,
    BlockV,
    Blocks,
    Callout,
    CalloutV,
    Context,
    ContextV,
    DocAttribute,
    DocAttributeV,
    Document,
    DocumentHeader,
    DocumentHeaderV,
    DocumentV,
    Macro,
    MacroV,
    SectionTitle,
    SectionTitleV,
};
use crate::span::Span;
use crate::text::{find_at, has_prefix, lemma_find_at};
use self::prim::{
    scan,
    scan_class,
    sp_take_line,
    sp_ws,
    sp_ws_with_nl,
    sp_wsnl,
    take_line,
    ws_with_nl,
    wsnl,
    ChClass,
    ErrorKind,
    ParseError,
};
use self::prim::{is_ascii_digit, lemma_scan_class};

verus! {

/// The result of a parser: the rest of the input and the parsed value, or a
/// first-error report.
pub type PResult<T> = Result<(Span, T), ParseError>;

// ----- document attributes ---------------------------------------------------

/// The optional value after a document attribute's closing `:`: one or more
/// horizontal whitespace, then everything up to (but not including) the
/// newline.
pub open spec fn sp_opt_value(s: Seq<char>) -> (Option<Seq<char>>, Seq<char>) {
    match prim::sp_ws1(s) {
        Some((r1, _)) => {
            let k = find_at(r1, 0, '\n');
            if k == r1.len() {
                (None, s)
            } else {
                (Some(r1.take(k as int)), r1.skip(k as int))
            }
        },
        None => (None, s),
    }
}

/// A document attribute line: `:[!]id[!]: value?`, ended by whitespace and a
/// newline. A leading or trailing `!` marks the attribute as unset and is
/// not part of the id.
pub open spec fn sp_doc_attribute(s: Seq<char>) -> Option<(Seq<char>, DocAttributeV)> {
    if !has_prefix(s, ":"@) {
        None
    } else {
        let s1 = s.skip(1);
        let bang1 = has_prefix(s1, "!"@);
        let s2 = if bang1 {
            s1.skip(1)
        } else {
            s1
        };
        let k = scan_class(s2, 0, ChClass::DocAttrId);
        if k == 0 {
            None
        } else {
            let idraw = s2.take(k as int);
            let s3 = s2.skip(k as int);
            if !has_prefix(s3, ":"@) {
                None
            } else {
                let opt_value = sp_opt_value(s3.skip(1));
                match sp_ws_with_nl(opt_value.1) {
                    Some((rest, _)) => {
                        let ends_bang = idraw.last() == '!';
                        Some(
                            (
                                rest,
                                DocAttributeV {
                                    id: if ends_bang {
                                        idraw.drop_last()
                                    } else {
                                        idraw
                                    },
                                    unset: bang1 || ends_bang,
                                    value: match opt_value.0 {
                                        Some(v) => seq![v],
                                        None => Seq::empty(),
                                    },
                                },
                            ),
                        )
                    },
                    None => None,
                }
            }
        }
    }
}

/// Parse one document attribute, `:[!]id[!]: value?`.
pub fn parse_doc_attribute(i: &Span) -> (r: PResult<DocAttribute>)
    ensures
        match r {
            Ok((rest, v)) => sp_doc_attribute(i@) == Some((rest@, v@)),
            Err(_) => sp_doc_attribute(i@) is None,
        },
{
    proof {
        reveal_strlit(":");
        reveal_strlit("!");
    }
    if !i.starts_with(":") {
        return Err(ParseError::at(i, ErrorKind::Tag));
    }
    let s1 = i.slice_from(1);
    let bang1 = s1.starts_with("!");
    let s2 = if bang1 {
        s1.slice_from(1)
    } else {
        s1
    };
    let k = scan(&s2, 0, ChClass::DocAttrId);
    if k == 0 {
        return Err(ParseError::at(&s2, ErrorKind::TakeWhile));
    }
    let idraw = s2.slice_to(k);
    let s3 = s2.slice_from(k);
    if !s3.starts_with(":") {
        return Err(ParseError::at(&s3, ErrorKind::Tag));
    }
    let s4 = s3.slice_from(1);
    let ghost ov = sp_opt_value(s4@);
    // optional value: one-or-more spaces, then up to the newline
    let k_ws = scan(&s4, 0, ChClass::HorizWs);
    let mut value: Vec<Span> = Vec::new();
    let s5: Span;
    if k_ws > 0 {
        let r1 = s4.slice_from(k_ws);
        match r1.find_char('\n') {
            Some(kv) => {
                value.push(r1.slice_to(kv));
                s5 = r1.slice_from(kv);
            },
            None => {
                s5 = s4;
            },
        }
    } else {
        s5 = s4;
    }
    proof {
        assert(s5@ == ov.1);
        assert(value.deep_view() =~= (match ov.0 {
            Some(v) => seq![v],
            None => Seq::<Seq<char>>::empty(),
        }));
    }
    let (rest, _taken) = match ws_with_nl(&s5) {
        Ok(p) => p,
        Err(e) => {
            return Err(e);
        },
    };
    let ends_bang = idraw.char_at(k - 1) == '!';
    let id = if ends_bang {
        idraw.slice_to(k - 1)
    } else {
        idraw
    };
    proof {
        if ends_bang {
            assert(id@ =~= idraw@.drop_last());
        }
    }
    let v = DocAttribute { id, unset: bang1 || ends_bang, value };
    Ok((rest, v))
}

// ----- attribute lists --------------------------------------------------------

/// The optional `= value` after an attribute name, with whitespace allowed
/// around the `=`; the value runs to the first `,`, `]` or newline and must
/// be non-empty. On no value (or an empty one) nothing is consumed.
pub open spec fn sp_attr_value(s: Seq<char>) -> (Option<Seq<char>>, Seq<char>) {
    let a = sp_ws(s).0;
    if has_prefix(a, "="@) {
        let b = sp_ws(a.skip(1)).0;
        let kv = scan_class(b, 0, ChClass::AttrValue);
        if kv == 0 {
            (None, s)
        } else {
            (Some(b.take(kv as int)), b.skip(kv as int))
        }
    } else {
        (None, s)
    }
}

/// One attribute: a name (a letter or digit, then letters, digits, `-` or
/// `.`), optionally `= value`.
pub open spec fn sp_attribute(s: Seq<char>) -> Option<
    (Seq<char>, (Seq<char>, Option<Seq<char>>)),
> {
    let k1 = scan_class(s, 0, ChClass::AsciiAlnum);
    if k1 == 0 {
        None
    } else {
        let k2 = scan_class(s, k1, ChClass::AttrName);
        let name = s.take(k2 as int);
        let av = sp_attr_value(s.skip(k2 as int));
        Some((av.1, (name, av.0)))
    }
}

pub proof fn lemma_sp_attribute_len(s: Seq<char>)
    ensures
        sp_attribute(s) matches Some(p) ==> p.0.len() < s.len(),
{
    let k1 = scan_class(s, 0, ChClass::AsciiAlnum);
    lemma_scan_class(s, 0, ChClass::AsciiAlnum);
    if k1 > 0 {
        lemma_scan_class(s, k1, ChClass::AttrName);
        let k2 = scan_class(s, k1, ChClass::AttrName);
        let s1 = s.skip(k2 as int);
        let a = sp_ws(s1).0;
        lemma_scan_class(s1, 0, ChClass::HorizWs);
        if has_prefix(a, "="@) {
            reveal_strlit("=");
            let b = sp_ws(a.skip(1)).0;
            lemma_scan_class(a.skip(1), 0, ChClass::HorizWs);
            lemma_scan_class(b, 0, ChClass::AttrValue);
        }
    }
}

/// Parse one attribute, `name` or `name = value`.
pub fn parse_attribute(i: &Span) -> (r: PResult<(Span, Option<Span>)>)
    ensures
        match r {
            Ok((rest, v)) => sp_attribute(i@) == Some(
                (
                    rest@,
                    (
                        v.0@,
                        match v.1 {
                            Some(s) => Some(s@),
                            None => None,
                        },
                    ),
                ),
            ),
            Err(_) => sp_attribute(i@) is None,
        },
{
    proof {
        reveal_strlit("=");
    }
    let k1 = scan(i, 0, ChClass::AsciiAlnum);
    if k1 == 0 {
        return Err(ParseError::at(i, ErrorKind::TakeWhile));
    }
    let k2 = scan(i, k1, ChClass::AttrName);
    let name = i.slice_to(k2);
    let s1 = i.slice_from(k2);
    let ghost av = sp_attr_value(s1@);
    // optional "= value"
    let ka = scan(&s1, 0, ChClass::HorizWs);
    let a = s1.slice_from(ka);
    if a.starts_with("=") {
        let a1 = a.slice_from(1);
        let kb = scan(&a1, 0, ChClass::HorizWs);
        let b = a1.slice_from(kb);
        let kv = scan(&b, 0, ChClass::AttrValue);
        if kv > 0 {
            let value = b.slice_to(kv);
            let rest = b.slice_from(kv);
            return Ok((rest, (name, Some(value))));
        }
    }
    Ok((s1, (name, None)))
}

/// After the first attribute: zero or more of `, attribute`, whitespace
/// allowed around the comma. A trailing comma with nothing it could join is
/// left unconsumed.
pub open spec fn sp_attr_tail(s: Seq<char>) -> (Seq<char>, Seq<(Seq<char>, Option<Seq<char>>)>)
    decreases s.len(),
    via sp_attr_tail_dec
{
    let a = sp_ws(s).0;
    if has_prefix(a, ","@) {
        let b = sp_ws(a.skip(1)).0;
        match sp_attribute(b) {
            Some((r, p)) => {
                let tail = sp_attr_tail(r);
                (tail.0, seq![p] + tail.1)
            },
            None => (s, Seq::empty()),
        }
    } else {
        (s, Seq::empty())
    }
}

#[via_fn]
proof fn sp_attr_tail_dec(s: Seq<char>) {
    let a = sp_ws(s).0;
    lemma_scan_class(s, 0, ChClass::HorizWs);
    if has_prefix(a, ","@) {
        reveal_strlit(",");
        lemma_scan_class(a.skip(1), 0, ChClass::HorizWs);
        let b = sp_ws(a.skip(1)).0;
        lemma_sp_attribute_len(b);
    }
}

pub proof fn lemma_sp_attr_tail_len(s: Seq<char>)
    ensures
        sp_attr_tail(s).0.len() <= s.len(),
    decreases s.len(),
{
    let a = sp_ws(s).0;
    lemma_scan_class(s, 0, ChClass::HorizWs);
    if has_prefix(a, ","@) {
        reveal_strlit(",");
        lemma_scan_class(a.skip(1), 0, ChClass::HorizWs);
        let b = sp_ws(a.skip(1)).0;
        lemma_sp_attribute_len(b);
        match sp_attribute(b) {
            Some((r, _)) => {
                lemma_sp_attr_tail_len(r);
            },
            None => {},
        }
    }
}

/// An attribute list: `[` attribute (`,` attribute)* `]`, with whitespace
/// allowed around the commas; `[]` is the empty list. A repeated name keeps
/// the last value.
pub open spec fn sp_attribute_list(s: Seq<char>) -> Option<
    (Seq<char>, Seq<(Seq<char>, Option<Seq<char>>)>),
> {
    if !has_prefix(s, "["@) {
        None
    } else {
        let s1 = s.skip(1);
        let head = match sp_attribute(s1) {
            Some((r, p)) => (r, seq![p]),
            None => (s1, Seq::<(Seq<char>, Option<Seq<char>>)>::empty()),
        };
        let tail = sp_attr_tail(head.0);
        if has_prefix(tail.0, "]"@) {
            Some((tail.0.skip(1), head.1 + tail.1))
        } else {
            None
        }
    }
}

pub proof fn lemma_sp_attribute_list_len(s: Seq<char>)
    ensures
        sp_attribute_list(s) matches Some(p) ==> p.0.len() < s.len(),
{
    reveal_strlit("[");
    reveal_strlit("]");
    if has_prefix(s, "["@) {
        let s1 = s.skip(1);
        lemma_sp_attribute_len(s1);
        match sp_attribute(s1) {
            Some((r, _)) => {
                lemma_sp_attr_tail_len(r);
            },
            None => {
                lemma_sp_attr_tail_len(s1);
            },
        }
    }
}

/// Parse an attribute list, `[a, b = 2]`.
pub fn parse_attribute_list(i: &Span) -> (r: PResult<AttributeList>)
    ensures
        match r {
            Ok((rest, v)) => sp_attribute_list(i@) == Some((rest@, v@)),
            Err(_) => sp_attribute_list(i@) is None,
        },
{
    proof {
        reveal_strlit("[");
        reveal_strlit("]");
        reveal_strlit(",");
    }
    if !i.starts_with("[") {
        return Err(ParseError::at(i, ErrorKind::Tag));
    }
    let s1 = i.slice_from(1);
    let mut list = AttributeList::new();
    let mut cur: Span;
    match parse_attribute(&s1) {
        Ok((r, (name, val))) => {
            let value: Option<String> = match &val {
                Some(v) => Some(v.text()),
                None => None,
            };
            list.insert(name.text(), value);
            cur = r;
        },
        Err(_) => {
            cur = s1;
        },
    }
    let ghost head_pairs = list@;
    let ghost start = cur@;
    proof {
        assert(list@ =~= head_pairs + sp_attr_tail(cur@).1.take(0));
    }
    loop
        invariant
            sp_attr_tail(cur@).0 == sp_attr_tail(start).0,
            head_pairs + sp_attr_tail(start).1 =~= list@ + sp_attr_tail(cur@).1,
        ensures
            sp_attr_tail(cur@) == (cur@, Seq::<(Seq<char>, Option<Seq<char>>)>::empty()),
            sp_attr_tail(start).0 == cur@,
            list@ =~= head_pairs + sp_attr_tail(start).1,
        decreases cur@.len(),
    {
        proof {
            reveal_strlit(",");
        }
        let ghost pre = cur@;
        let ka = scan(&cur, 0, ChClass::HorizWs);
        let a = cur.slice_from(ka);
        if !a.starts_with(",") {
            break ;
        }
        let a1 = a.slice_from(1);
        let kb = scan(&a1, 0, ChClass::HorizWs);
        let b = a1.slice_from(kb);
        match parse_attribute(&b) {
            Ok((r, (name, val))) => {
                let value: Option<String> = match &val {
                    Some(v) => Some(v.text()),
                    None => None,
                };
                let ghost pair = (name@, match val {
                    Some(v) => Some(v@),
                    None => None,
                });
                list.insert(name.text(), value);
                cur = r;
                proof {
                    lemma_sp_attribute_len(b@);
                    assert(sp_attr_tail(pre).1 =~= seq![pair] + sp_attr_tail(cur@).1);
                }
            },
            Err(_) => {
                break ;
            },
        }
    }
    if cur.starts_with("]") {
        let rest = cur.slice_from(1);
        proof {
            assert(sp_attribute_list(i@) == Some((rest@, list@)));
        }
        Ok((rest, list))
    } else {
        Err(ParseError::at(&cur, ErrorKind::Tag))
    }
}

// ----- block bodies -----------------------------------------------------------

/// A thematic break: `'''`.
pub open spec fn sp_thematic(s: Seq<char>) -> Option<(Seq<char>, ContextV)> {
    if has_prefix(s, "'''"@) {
        Some((s.skip("'''"@.len() as int), ContextV::ThematicBreak))
    } else {
        None
    }
}

/// A page break: `>>>`.
pub open spec fn sp_page(s: Seq<char>) -> Option<(Seq<char>, ContextV)> {
    if has_prefix(s, ">>>"@) {
        Some((s.skip(">>>"@.len() as int), ContextV::PageBreak))
    } else {
        None
    }
}

/// A fenced listing: three backquotes, a newline, the body, and a closing
/// fence; the body runs to the first closing fence and keeps its final
/// newline.
pub open spec fn sp_fenced(s: Seq<char>) -> Option<(Seq<char>, ContextV)> {
    if has_prefix(s, "```"@) && s.len() >= 4 && s[3] == '\n' {
        let body = s.skip(4);
        let k = crate::text::find_sub_at(body, 0, "```"@);
        if k == body.len() {
            None
        } else {
            Some((body.skip((k + "```"@.len()) as int), ContextV::Listing(body.take(k as int))))
        }
    } else {
        None
    }
}

/// A block macro: `name::target[attrs]`; the name is letters and digits,
/// the target anything up to the attribute list.
pub open spec fn sp_block_macro(s: Seq<char>) -> Option<(Seq<char>, ContextV)> {
    let n = scan_class(s, 0, ChClass::AsciiAlnum);
    if n == 0 {
        None
    } else {
        let after_name = s.skip(n as int);
        if has_prefix(after_name, "::"@) {
            let t0 = after_name.skip("::"@.len() as int);
            let m = scan_class(t0, 0, ChClass::MacroTarget);
            match sp_attribute_list(t0.skip(m as int)) {
                Some((rest, pairs)) => Some(
                    (
                        rest,
                        ContextV::BlockMacro(
                            MacroV {
                                name: s.take(n as int),
                                target: t0.take(m as int),
                                attribute_list: pairs,
                            },
                        ),
                    ),
                ),
                None => None,
            }
        } else {
            None
        }
    }
}

/// The block bodies in scope, tried in order: thematic break, page break,
/// fenced listing, block macro.
pub open spec fn sp_block_body(s: Seq<char>) -> Option<(Seq<char>, ContextV)> {
    match sp_thematic(s) {
        Some(p) => Some(p),
        None => match sp_page(s) {
            Some(p) => Some(p),
            None => match sp_fenced(s) {
                Some(p) => Some(p),
                None => sp_block_macro(s),
            },
        },
    }
}

pub proof fn lemma_sp_block_body_len(s: Seq<char>)
    ensures
        sp_block_body(s) matches Some(p) ==> p.0.len() < s.len(),
{
    reveal_strlit("'''");
    reveal_strlit(">>>");
    reveal_strlit("```");
    reveal_strlit("::");
    if sp_thematic(s) is None && sp_page(s) is None {
        if has_prefix(s, "```"@) && s.len() >= 4 && s[3] == '\n' {
            crate::text::lemma_find_sub_at(s.skip(4), 0, "```"@);
        }
        let n = scan_class(s, 0, ChClass::AsciiAlnum);
        lemma_scan_class(s, 0, ChClass::AsciiAlnum);
        if n > 0 {
            let after_name = s.skip(n as int);
            if has_prefix(after_name, "::"@) {
                let t0 = after_name.skip(2);
                lemma_scan_class(t0, 0, ChClass::MacroTarget);
                let m = scan_class(t0, 0, ChClass::MacroTarget);
                lemma_sp_attribute_list_len(t0.skip(m as int));
            }
        }
    }
}

/// Parse one block body.
fn parse_block_body(i: &Span) -> (r: PResult<Context>)
    ensures
        match r {
            Ok((rest, v)) => sp_block_body(i@) == Some((rest@, v@)),
            Err(_) => sp_block_body(i@) is None,
        },
{
    proof {
        reveal_strlit("'''");
        reveal_strlit(">>>");
        reveal_strlit("```");
        reveal_strlit("::");
    }
    if i.starts_with("'''") {
        return Ok((i.slice_from(3), Context::ThematicBreak));
    }
    if i.starts_with(">>>") {
        return Ok((i.slice_from(3), Context::PageBreak));
    }
    if i.starts_with("```") && i.len() >= 4 && i.char_at(3) == '\n' {
        let body = i.slice_from(4);
        match body.find_substring("```") {
            Some(k) => {
                let inner = body.slice_to(k);
                let rest = body.slice_from(k + 3);
                return Ok((rest, Context::Listing(inner)));
            },
            None => {
                proof {
                    reveal_strlit("```");
                    assert(i@.subrange(0, 3)[0] == i@[0]);
                    assert(i@[0] == '`');
                    assert(scan_class(i@, 0, ChClass::AsciiAlnum) == 0);
                }
                return Err(ParseError::at(&body, ErrorKind::TakeUntil));
            },
        }
    }
    let n = scan(i, 0, ChClass::AsciiAlnum);
    if n == 0 {
        return Err(ParseError::at(i, ErrorKind::Alt));
    }
    let after_name = i.slice_from(n);
    if !after_name.starts_with("::") {
        return Err(ParseError::at(&after_name, ErrorKind::Alt));
    }
    let t0 = after_name.slice_from(2);
    let m = scan(&t0, 0, ChClass::MacroTarget);
    let t1 = t0.slice_from(m);
    match parse_attribute_list(&t1) {
        Ok((rest, attribute_list)) => {
            let name = i.slice_to(n);
            let target = t0.slice_to(m);
            Ok((rest, Context::BlockMacro(Macro { name, target, attribute_list })))
        },
        Err(e) => Err(e),
    }
}

/// What ends a block's line: horizontal whitespace and then a newline or
/// the end of the input.
pub open spec fn sp_trailing(s: Seq<char>) -> Option<Seq<char>> {
    let k = scan_class(s, 0, ChClass::HorizWs);
    if k == s.len() {
        Some(s.skip(k as int))
    } else if s[k as int] == '\n' {
        Some(s.skip((k + 1) as int))
    } else {
        None
    }
}

fn parse_trailing(i: &Span) -> (r: PResult<()>)
    ensures
        match r {
            Ok((rest, _)) => sp_trailing(i@) == Some(rest@),
            Err(_) => sp_trailing(i@) is None,
        },
{
    let k = scan(i, 0, ChClass::HorizWs);
    let len = i.len();
    if k == len {
        Ok((i.slice_from(k), ()))
    } else if i.char_at(k) == '\n' {
        Ok((i.slice_from(k + 1), ()))
    } else {
        Err(ParseError::at(i, ErrorKind::Tag))
    }
}

/// Leading blank lines before a block.
pub open spec fn sp_blank_lines(s: Seq<char>) -> Seq<char>
    decreases s.len(),
    via sp_blank_lines_dec
{
    match sp_ws_with_nl(s) {
        Some((rest, _)) => sp_blank_lines(rest),
        None => s,
    }
}

#[via_fn]
proof fn sp_blank_lines_dec(s: Seq<char>) {
    lemma_scan_class(s, 0, ChClass::HorizWs);
}

pub proof fn lemma_sp_blank_lines_len(s: Seq<char>)
    ensures
        sp_blank_lines(s).len() <= s.len(),
    decreases s.len(),
{
    lemma_scan_class(s, 0, ChClass::HorizWs);
    match sp_ws_with_nl(s) {
        Some((rest, _)) => {
            lemma_sp_blank_lines_len(rest);
        },
        None => {},
    }
}

fn parse_blank_lines(i: &Span) -> (r: Span)
    ensures
        r@ == sp_blank_lines(i@),
    decreases i@.len(),
{
    match ws_with_nl(i) {
        Ok((rest, _)) => {
            proof {
                lemma_scan_class(i@, 0, ChClass::HorizWs);
            }
            parse_blank_lines(&rest)
        },
        Err(_) => i.clone(),
    }
}

// ----- callouts ---------------------------------------------------------------

/// The numeric value of a digit character.
pub open spec fn digit_of(c: char) -> nat {
    if is_ascii_digit(c) {
        (c as u32 - 0x30) as nat
    } else {
        0
    }
}

/// The decimal value of a digit string.
pub open spec fn digits_val(s: Seq<char>) -> nat
    decreases s.len(),
{
    if s.len() == 0 {
        0
    } else {
        10 * digits_val(s.drop_last()) + digit_of(s.last())
    }
}

proof fn lemma_digits_val_step(s: Seq<char>, j: int)
    requires
        0 <= j < s.len(),
    ensures
        digits_val(s.take(j + 1)) == 10 * digits_val(s.take(j)) + digit_of(s[j]),
{
    assert(s.take(j + 1).drop_last() =~= s.take(j));
    assert(s.take(j + 1).last() == s[j]);
}

proof fn lemma_digits_prefix_le(s: Seq<char>, m: int)
    requires
        0 <= m <= s.len(),
    ensures
        digits_val(s.take(m)) <= digits_val(s),
    decreases s.len(),
{
    if m == s.len() {
        assert(s.take(m) =~= s);
    } else {
        assert(s.drop_last().take(m) =~= s.take(m));
        lemma_digits_prefix_le(s.drop_last(), m);
    }
}

/// Read a decimal number; `None` when it does not fit the platform size.
fn parse_usize(digits: &Span) -> (r: Option<usize>)
    requires
        forall|m: int| 0 <= m < digits@.len() ==> is_ascii_digit(digits@[m]),
    ensures
        match r {
            Some(n) => n == digits_val(digits@),
            None => digits_val(digits@) > usize::MAX,
        },
{
    let len = digits.len();
    let mut acc: usize = 0;
    let mut j: usize = 0;
    proof {
        assert(digits@.take(0) =~= Seq::<char>::empty());
    }
    while j < len
        invariant
            j <= len == digits@.len(),
            forall|m: int| 0 <= m < digits@.len() ==> is_ascii_digit(digits@[m]),
            acc == digits_val(digits@.take(j as int)),
        decreases len - j,
    {
        let c = digits.char_at(j);
        let dig = ((c as u32) - 0x30) as usize;
        proof {
            lemma_digits_val_step(digits@, j as int);
        }
        if acc > (usize::MAX - dig) / 10 {
            proof {
                let q = (usize::MAX - dig) / 10int;
                vstd::arithmetic::div_mod::lemma_fundamental_div_mod(usize::MAX - dig, 10);
                vstd::arithmetic::div_mod::lemma_mod_bound(usize::MAX - dig, 10);
                assert(10 * acc >= 10 * (q + 1)) by (nonlinear_arith)
                    requires
                        acc >= q + 1,
                ;
                assert(10 * acc + dig > usize::MAX);
                lemma_digits_prefix_le(digits@, j + 1);
            }
            return None;
        }
        proof {
            let q = (usize::MAX - dig) / 10int;
            vstd::arithmetic::div_mod::lemma_fundamental_div_mod(usize::MAX - dig, 10);
            vstd::arithmetic::div_mod::lemma_mod_bound(usize::MAX - dig, 10);
            assert(10 * acc <= 10 * q) by (nonlinear_arith)
                requires
                    acc <= q,
            ;
        }
        acc = acc * 10 + dig;
        j = j + 1;
    }
    proof {
        assert(digits@.take(len as int) =~= digits@);
    }
    Some(acc)
}

/// One callout: `<digits>`, whitespace, then the text of the line. A number
/// that does not fit the platform size is a parse error.
pub open spec fn sp_callout(s: Seq<char>) -> Option<(Seq<char>, CalloutV)> {
    if !has_prefix(s, "<"@) {
        None
    } else {
        let t = s.skip(1);
        let d = scan_class(t, 0, ChClass::Digit);
        if d == 0 {
            None
        } else if !has_prefix(t.skip(d as int), ">"@) {
            None
        } else if digits_val(t.take(d as int)) > usize::MAX {
            None
        } else {
            let u = sp_ws(t.skip(d as int).skip(1)).0;
            match sp_take_line(u) {
                Some((rest, text)) => Some(
                    (rest, CalloutV { number: digits_val(t.take(d as int)), text }),
                ),
                None => None,
            }
        }
    }
}

pub proof fn lemma_sp_callout_len(s: Seq<char>)
    ensures
        sp_callout(s) matches Some(p) ==> p.0.len() < s.len(),
{
    reveal_strlit("<");
    reveal_strlit(">");
    if has_prefix(s, "<"@) {
        let t = s.skip(1);
        lemma_scan_class(t, 0, ChClass::Digit);
        let d = scan_class(t, 0, ChClass::Digit);
        if 0 < d {
            let u0 = t.skip(d as int).skip(1);
            lemma_scan_class(u0, 0, ChClass::HorizWs);
            let u = sp_ws(u0).0;
            lemma_find_at(u, 0, '\n');
        }
    }
}

/// Parse one callout.
pub fn parse_callout(i: &Span) -> (r: PResult<Callout>)
    ensures
        match r {
            Ok((rest, v)) => sp_callout(i@) == Some((rest@, v@)),
            Err(_) => sp_callout(i@) is None,
        },
{
    proof {
        reveal_strlit("<");
        reveal_strlit(">");
    }
    if !i.starts_with("<") {
        return Err(ParseError::at(i, ErrorKind::Tag));
    }
    let t = i.slice_from(1);
    let d = scan(&t, 0, ChClass::Digit);
    if d == 0 {
        return Err(ParseError::at(&t, ErrorKind::Digit));
    }
    let after = t.slice_from(d);
    if !after.starts_with(">") {
        return Err(ParseError::at(&after, ErrorKind::Tag));
    }
    let digits = t.slice_to(d);
    proof {
        lemma_scan_class(t@, 0, ChClass::Digit);
    }
    let number = match parse_usize(&digits) {
        Some(n) => n,
        None => {
            return Err(ParseError::at(&digits, ErrorKind::Overflow));
        },
    };
    let u0 = after.slice_from(1);
    let kw = scan(&u0, 0, ChClass::HorizWs);
    let u = u0.slice_from(kw);
    proof {
        assert(u@ == sp_ws(t@.skip(d as int).skip(1)).0);
    }
    match take_line(&u) {
        Ok((rest, text)) => Ok((rest, Callout { number, text })),
        Err(e) => Err(e),
    }
}

/// Zero or more callouts.
pub open spec fn sp_callouts(s: Seq<char>) -> (Seq<char>, Seq<CalloutV>)
    decreases s.len(),
    via sp_callouts_dec
{
    match sp_callout(s) {
        Some((r, c)) => {
            let tail = sp_callouts(r);
            (tail.0, seq![c] + tail.1)
        },
        None => (s, Seq::empty()),
    }
}

#[via_fn]
proof fn sp_callouts_dec(s: Seq<char>) {
    lemma_sp_callout_len(s);
}

pub proof fn lemma_sp_callouts_len(s: Seq<char>)
    ensures
        sp_callouts(s).0.len() <= s.len(),
    decreases s.len(),
{
    lemma_sp_callout_len(s);
    match sp_callout(s) {
        Some((r, _)) => {
            lemma_sp_callouts_len(r);
        },
        None => {},
    }
}

/// Parse zero or more callouts.
pub fn parse_callouts(i: &Span) -> (r: PResult<Vec<Callout>>)
    ensures
        match r {
            Ok((rest, v)) => sp_callouts(i@) == (rest@, v.deep_view()),
            Err(_) => false,
        },
{
    let mut out: Vec<Callout> = Vec::new();
    let mut cur: Span = i.clone();
    let ghost start = cur@;
    proof {
        assert(out.deep_view() + sp_callouts(cur@).1 =~= sp_callouts(start).1);
    }
    loop
        invariant
            sp_callouts(cur@).0 == sp_callouts(start).0,
            out.deep_view() + sp_callouts(cur@).1 =~= sp_callouts(start).1,
        ensures
            cur@ == sp_callouts(start).0,
            out.deep_view() =~= sp_callouts(start).1,
        decreases cur@.len(),
    {
        let ghost pre = cur@;
        match parse_callout(&cur) {
            Ok((rest, c)) => {
                let ghost cv = c@;
                out.push(c);
                cur = rest;
                proof {
                    lemma_sp_callout_len(pre);
                    assert(sp_callouts(pre).1 =~= seq![cv] + sp_callouts(cur@).1);
                }
            },
            Err(_) => {
                proof {
                    assert(sp_callouts(cur@) == (cur@, Seq::<CalloutV>::empty()));
                }
                break ;
            },
        }
    }
    Ok((cur, out))
}

// ----- blocks -----------------------------------------------------------------

/// One block: blank lines, an optional attribute list on its own line, the
/// block body, the end of its line, then trailing callouts.
pub open spec fn sp_attributed_block(s: Seq<char>) -> Option<(Seq<char>, BlockV)> {
    let s1 = sp_blank_lines(s);
    let with_attrs = match sp_attribute_list(s1) {
        Some((r, pairs)) => {
            if r.len() > 0 && r[0] == '\n' {
                (r.skip(1), pairs)
            } else {
                (s1, Seq::<(Seq<char>, Option<Seq<char>>)>::empty())
            }
        },
        None => (s1, Seq::<(Seq<char>, Option<Seq<char>>)>::empty()),
    };
    match sp_block_body(with_attrs.0) {
        None => None,
        Some((s3, ctx)) => match sp_trailing(s3) {
            None => None,
            Some(s4) => {
                let co = sp_callouts(s4);
                Some(
                    (co.0, BlockV { context: ctx, attributes: with_attrs.1, callouts: co.1 }),
                )
            },
        },
    }
}

pub proof fn lemma_sp_attributed_block_len(s: Seq<char>)
    ensures
        sp_attributed_block(s) matches Some(p) ==> p.0.len() < s.len(),
{
    lemma_sp_blank_lines_len(s);
    let s1 = sp_blank_lines(s);
    lemma_sp_attribute_list_len(s1);
    let with_attrs = match sp_attribute_list(s1) {
        Some((r, pairs)) => {
            if r.len() > 0 && r[0] == '\n' {
                (r.skip(1), pairs)
            } else {
                (s1, Seq::<(Seq<char>, Option<Seq<char>>)>::empty())
            }
        },
        None => (s1, Seq::<(Seq<char>, Option<Seq<char>>)>::empty()),
    };
    lemma_sp_block_body_len(with_attrs.0);
    match sp_block_body(with_attrs.0) {
        None => {},
        Some((s3, _)) => {
            lemma_scan_class(s3, 0, ChClass::HorizWs);
            match sp_trailing(s3) {
                None => {},
                Some(s4) => {
                    lemma_sp_callouts_len(s4);
                },
            }
        },
    }
}

/// Parse one block, with its attribute list and callouts.
pub fn parse_attributed_block(i: &Span) -> (r: PResult<Block>)
    ensures
        match r {
            Ok((rest, v)) => sp_attributed_block(i@) == Some((rest@, v@)),
            Err(_) => sp_attributed_block(i@) is None,
        },
{
    let s1 = parse_blank_lines(i);
    let mut attributes = AttributeList::new();
    let s2: Span;
    match parse_attribute_list(&s1) {
        Ok((r, pairs)) => {
            if !r.is_empty() && r.char_at(0) == '\n' {
                attributes = pairs;
                s2 = r.slice_from(1);
            } else {
                s2 = s1;
            }
        },
        Err(_) => {
            s2 = s1;
        },
    }
    let (s3, context) = match parse_block_body(&s2) {
        Ok(p) => p,
        Err(e) => {
            return Err(e);
        },
    };
    let (s4, _) = match parse_trailing(&s3) {
        Ok(p) => p,
        Err(e) => {
            return Err(e);
        },
    };
    match parse_callouts(&s4) {
        Ok((rest, callouts)) => Ok((rest, Block { context, attributes, callouts })),
        Err(e) => Err(e),
    }
}

/// Zero or more blocks.
pub open spec fn sp_blocks(s: Seq<char>) -> (Seq<char>, Seq<BlockV>)
    decreases s.len(),
    via sp_blocks_dec
{
    match sp_attributed_block(s) {
        Some((r, b)) => {
            let tail = sp_blocks(r);
            (tail.0, seq![b] + tail.1)
        },
        None => (s, Seq::empty()),
    }
}

#[via_fn]
proof fn sp_blocks_dec(s: Seq<char>) {
    lemma_sp_attributed_block_len(s);
}

/// Parse zero or more blocks.
pub fn parse_blocks(i: &Span) -> (r: PResult<Blocks>)
    ensures
        match r {
            Ok((rest, v)) => sp_blocks(i@) == (rest@, v.deep_view()),
            Err(_) => false,
        },
{
    let mut out: Blocks = Vec::new();
    let mut cur: Span = i.clone();
    let ghost start = cur@;
    proof {
        assert(out.deep_view() + sp_blocks(cur@).1 =~= sp_blocks(start).1);
    }
    loop
        invariant
            sp_blocks(cur@).0 == sp_blocks(start).0,
            out.deep_view() + sp_blocks(cur@).1 =~= sp_blocks(start).1,
        ensures
            cur@ == sp_blocks(start).0,
            out.deep_view() =~= sp_blocks(start).1,
        decreases cur@.len(),
    {
        let ghost pre = cur@;
        match parse_attributed_block(&cur) {
            Ok((rest, b)) => {
                let ghost bv = b@;
                out.push(b);
                cur = rest;
                proof {
                    lemma_sp_attributed_block_len(pre);
                    assert(sp_blocks(pre).1 =~= seq![bv] + sp_blocks(cur@).1);
                }
            },
            Err(_) => {
                proof {
                    assert(sp_blocks(cur@) == (cur@, Seq::<BlockV>::empty()));
                }
                break ;
            },
        }
    }
    Ok((cur, out))
}

// ----- section titles and paragraphs -------------------------------------------

/// A section title: one to six `=`, whitespace, then the rest of the line.
/// More than six is a parse error.
pub open spec fn sp_section_title(s: Seq<char>) -> Option<(Seq<char>, SectionTitleV)> {
    let e = scan_class(s, 0, ChClass::EqSign);
    if e == 0 || e > 6 {
        None
    } else {
        let s1 = sp_ws(s.skip(e as int)).0;
        match sp_take_line(s1) {
            Some((rest, content)) => Some(
                (rest, SectionTitleV { level: (e - 1) as nat, content }),
            ),
            None => None,
        }
    }
}

/// Parse a section title, `== Title`.
pub fn parse_section_title(i: &Span) -> (r: PResult<SectionTitle>)
    ensures
        match r {
            Ok((rest, v)) => sp_section_title(i@) == Some((rest@, v@)),
            Err(_) => sp_section_title(i@) is None,
        },
{
    let e = scan(i, 0, ChClass::EqSign);
    if e == 0 || e > 6 {
        return Err(ParseError::at(i, ErrorKind::Tag));
    }
    let s0 = i.slice_from(e);
    let kw = scan(&s0, 0, ChClass::HorizWs);
    let s1 = s0.slice_from(kw);
    match take_line(&s1) {
        Ok((rest, content)) => Ok((rest, SectionTitle { level: e - 1, content })),
        Err(e) => Err(e),
    }
}

/// The lines of a paragraph: lines up to a blank line, which is consumed.
pub open spec fn sp_para_lines(s: Seq<char>) -> Option<(Seq<char>, Seq<Seq<char>>)>
    decreases s.len(),
    via sp_para_lines_dec
{
    if s.len() > 0 && s[0] == '\n' {
        Some((s.skip(1), Seq::empty()))
    } else {
        match sp_take_line(s) {
            None => None,
            Some((r, line)) => match sp_para_lines(r) {
                None => None,
                Some((rest, more)) => Some((rest, seq![line] + more)),
            },
        }
    }
}

#[via_fn]
proof fn sp_para_lines_dec(s: Seq<char>) {
    lemma_find_at(s, 0, '\n');
}

/// A paragraph: one or more non-blank lines, ended by a blank line.
pub open spec fn sp_paragraph(s: Seq<char>) -> Option<(Seq<char>, Seq<Seq<char>>)> {
    match sp_para_lines(s) {
        Some((rest, lines)) => {
            if lines.len() == 0 {
                None
            } else {
                Some((rest, lines))
            }
        },
        None => None,
    }
}

/// Parse a paragraph: its lines, one span each.
pub fn parse_paragraph(i: &Span) -> (r: PResult<Vec<Span>>)
    ensures
        match r {
            Ok((rest, v)) => sp_paragraph(i@) == Some((rest@, v.deep_view())),
            Err(_) => sp_paragraph(i@) is None,
        },
{
    let mut out: Vec<Span> = Vec::new();
    let mut cur: Span = i.clone();
    let ghost start = cur@;
    proof {
        if sp_para_lines(start) is Some {
            assert(out.deep_view() + sp_para_lines(cur@)->Some_0.1 =~= sp_para_lines(
                start,
            )->Some_0.1);
        }
    }
    loop
        invariant_except_break
            start == i@,
            sp_para_lines(start) is Some <==> sp_para_lines(cur@) is Some,
            sp_para_lines(start) is Some ==> {
                &&& sp_para_lines(cur@)->Some_0.0 == sp_para_lines(start)->Some_0.0
                &&& out.deep_view() + sp_para_lines(cur@)->Some_0.1 =~= sp_para_lines(
                    start,
                )->Some_0.1
            },
        ensures
            match sp_para_lines(start) {
                Some((rest, lines)) => cur@ == rest && out.deep_view() =~= lines,
                None => false,
            },
        decreases cur@.len(),
    {
        let ghost pre = cur@;
        if !cur.is_empty() && cur.char_at(0) == '\n' {
            let rest = cur.slice_from(1);
            cur = rest;
            proof {
                assert(sp_para_lines(pre) == Some((pre.skip(1), Seq::<Seq<char>>::empty())));
                assert(out.deep_view() + Seq::<Seq<char>>::empty() =~= out.deep_view());
            }
            break ;
        }
        match take_line(&cur) {
            Ok((rest, line)) => {
                let ghost lv = line@;
                out.push(line);
                cur = rest;
                proof {
                    lemma_find_at(pre, 0, '\n');
                    if sp_para_lines(cur@) is Some {
                        assert(sp_para_lines(pre)->Some_0.1 =~= seq![lv] + sp_para_lines(
                            cur@,
                        )->Some_0.1);
                    }
                }
            },
            Err(e) => {
                proof {
                    assert(sp_para_lines(pre) is None);
                    assert(sp_para_lines(start) is None);
                }
                return Err(e);
            },
        }
    }
    if out.len() == 0 {
        return Err(ParseError::at(i, ErrorKind::TakeWhile));
    }
    Ok((cur, out))
}

// ----- the document header and the document ------------------------------------

/// Zero or more document attributes.
pub open spec fn sp_doc_attrs(s: Seq<char>) -> (Seq<char>, Seq<DocAttributeV>)
    decreases s.len(),
    via sp_doc_attrs_dec
{
    match sp_doc_attribute(s) {
        Some((r, a)) => {
            let tail = sp_doc_attrs(r);
            (tail.0, seq![a] + tail.1)
        },
        None => (s, Seq::empty()),
    }
}

pub proof fn lemma_sp_doc_attribute_len(s: Seq<char>)
    ensures
        sp_doc_attribute(s) matches Some(p) ==> p.0.len() < s.len(),
{
    reveal_strlit(":");
    reveal_strlit("!");
    if has_prefix(s, ":"@) {
        let s1 = s.skip(1);
        let bang1 = has_prefix(s1, "!"@);
        let s2 = if bang1 {
            s1.skip(1)
        } else {
            s1
        };
        lemma_scan_class(s2, 0, ChClass::DocAttrId);
        let k = scan_class(s2, 0, ChClass::DocAttrId);
        if 0 < k {
            let s3 = s2.skip(k as int);
            if has_prefix(s3, ":"@) {
                let s4 = s3.skip(1);
                lemma_scan_class(s4, 0, ChClass::HorizWs);
                let opt_value = sp_opt_value(s4);
                match prim::sp_ws1(s4) {
                    Some((r1, _)) => {
                        lemma_find_at(r1, 0, '\n');
                    },
                    None => {},
                }
                lemma_scan_class(opt_value.1, 0, ChClass::HorizWs);
            }
        }
    }
}

#[via_fn]
proof fn sp_doc_attrs_dec(s: Seq<char>) {
    lemma_sp_doc_attribute_len(s);
}

/// The document header: `= `, the title line, then document attributes.
pub open spec fn sp_doc_header(s: Seq<char>) -> Option<(Seq<char>, DocumentHeaderV)> {
    if !has_prefix(s, "= "@) {
        None
    } else {
        let t = s.skip("= "@.len() as int);
        let k = find_at(t, 0, '\n');
        if k == t.len() {
            None
        } else {
            let title = t.take(k as int);
            let tail = sp_doc_attrs(t.skip((k + 1) as int));
            Some(
                (
                    tail.0,
                    DocumentHeaderV { title, author: None, version: None, attributes: tail.1 },
                ),
            )
        }
    }
}

/// Parse the document header.
pub fn parse_doc_header(i: &Span) -> (r: PResult<DocumentHeader>)
    ensures
        match r {
            Ok((rest, v)) => sp_doc_header(i@) == Some((rest@, v@)),
            Err(_) => sp_doc_header(i@) is None,
        },
{
    proof {
        reveal_strlit("= ");
    }
    if !i.starts_with("= ") {
        return Err(ParseError::at(i, ErrorKind::Tag));
    }
    let t = i.slice_from(2);
    let (t1, title) = match take_line(&t) {
        Ok(p) => p,
        Err(e) => {
            return Err(e);
        },
    };
    let mut attributes: Vec<DocAttribute> = Vec::new();
    let mut cur: Span = t1;
    let ghost start = cur@;
    proof {
        assert(attributes.deep_view() + sp_doc_attrs(cur@).1 =~= sp_doc_attrs(start).1);
    }
    loop
        invariant
            sp_doc_attrs(cur@).0 == sp_doc_attrs(start).0,
            attributes.deep_view() + sp_doc_attrs(cur@).1 =~= sp_doc_attrs(start).1,
        ensures
            cur@ == sp_doc_attrs(start).0,
            attributes.deep_view() =~= sp_doc_attrs(start).1,
        decreases cur@.len(),
    {
        let ghost pre = cur@;
        match parse_doc_attribute(&cur) {
            Ok((rest, a)) => {
                let ghost av = a@;
                attributes.push(a);
                cur = rest;
                proof {
                    lemma_sp_doc_attribute_len(pre);
                    assert(sp_doc_attrs(pre).1 =~= seq![av] + sp_doc_attrs(cur@).1);
                }
            },
            Err(_) => {
                proof {
                    assert(sp_doc_attrs(cur@) == (cur@, Seq::<DocAttributeV>::empty()));
                }
                break ;
            },
        }
    }
    let h = DocumentHeader { title, author: None, version: None, attributes };
    Ok((cur, h))
}

/// A whole document: an optional header, then blocks; trailing whitespace is
/// allowed but nothing else may be left over.
pub open spec fn sp_doc(s: Seq<char>) -> Option<DocumentV> {
    let after_header = match sp_doc_header(s) {
        Some((r, h)) => (r, Some(h)),
        None => (s, None::<DocumentHeaderV>),
    };
    let blocks = sp_blocks(after_header.0);
    let rest = sp_wsnl(blocks.0).0;
    if rest.len() == 0 {
        Some(DocumentV { header: after_header.1, content: blocks.1 })
    } else {
        None
    }
}

/// Parse a whole document.
pub fn parse_doc(i: &Span) -> (r: Result<Document, ParseError>)
    ensures
        match r {
            Ok(v) => sp_doc(i@) == Some(v@),
            Err(_) => sp_doc(i@) is None,
        },
{
    let mut header: Option<DocumentHeader> = None;
    let s1: Span;
    match parse_doc_header(i) {
        Ok((r, h)) => {
            header = Some(h);
            s1 = r;
        },
        Err(_) => {
            s1 = i.clone();
        },
    }
    let (s2, content) = match parse_blocks(&s1) {
        Ok(p) => p,
        Err(e) => {
            return Err(e);
        },
    };
    let (s3, _) = match wsnl(&s2) {
        Ok(p) => p,
        Err(e) => {
            return Err(e);
        },
    };
    if !s3.is_empty() {
        return Err(ParseError::at(&s3, ErrorKind::Eof));
    }
    let doc = Document { header, content };
    proof {
        assert(doc@.content =~= content.deep_view());
    }
    Ok(doc)
}

} // verus!
