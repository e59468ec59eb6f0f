use vstd::prelude::*;

use crate::ast::{BlockV, ContextV, MacroV};
use crate::parser::prim::{class_holds, is_ascii_alnum, is_hws, lemma_scan_class, lemma_scan_pins, scan_class, ChClass};
use crate::parser::{
    sp_attr_tail,
    sp_attribute,
    sp_attribute_list,
    sp_attributed_block,
    sp_blank_lines,
    sp_block_body,
    sp_block_macro,
    sp_callout,
    sp_callouts,
    sp_fenced,
    sp_page,
    sp_thematic,
    sp_trailing,
};
use crate::text::{find_sub_at, has_prefix, lemma_find_at, lemma_find_sub_at, matches_at};

verus! {

// ----- the canonical surface form of the blocks in scope ----------------------

/// One attribute as an attribute list writes it: `name` or `name=value`.
pub open spec fn render_attr(p: (Seq<char>, Option<Seq<char>>)) -> Seq<char> {
    match p.1 {
        Some(v) => p.0 + seq!['='] + v,
        None => p.0,
    }
}

/// The attributes after the first, each preceded by a comma.
pub open spec fn render_attr_tail(ps: Seq<(Seq<char>, Option<Seq<char>>)>) -> Seq<char>
    decreases ps.len(),
{
    if ps.len() == 0 {
        Seq::empty()
    } else {
        seq![','] + render_attr(ps[0]) + render_attr_tail(ps.skip(1))
    }
}

/// A comma-separated attribute list, without its brackets.
pub open spec fn render_attrs(ps: Seq<(Seq<char>, Option<Seq<char>>)>) -> Seq<char> {
    if ps.len() == 0 {
        Seq::empty()
    } else {
        render_attr(ps[0]) + render_attr_tail(ps.skip(1))
    }
}

/// The canonical surface form of the block bodies in scope.
pub open spec fn render_context(c: ContextV) -> Seq<char> {
    match c {
        ContextV::ThematicBreak => "'''"@,
        ContextV::PageBreak => ">>>"@,
        ContextV::Listing(body) => "```"@ + seq!['\n'] + body + "```"@,
        ContextV::BlockMacro(m) => m.name + "::"@ + m.target + seq!['['] + render_attrs(
            m.attribute_list,
        ) + seq![']'],
        _ => Seq::empty(),
    }
}

/// The canonical surface form of a block without attributes or callouts.
pub open spec fn render_block(b: BlockV) -> Seq<char> {
    render_context(b.context)
}

/// An attribute pair the canonical form can carry: a well-formed name, and
/// a value without separators that does not start with whitespace (a parse
/// drops whitespace right after the `=`).
pub open spec fn attr_renderable(p: (Seq<char>, Option<Seq<char>>)) -> bool {
    &&& p.0.len() > 0
    &&& is_ascii_alnum(p.0[0])
    &&& forall|i: int| 0 <= i < p.0.len() ==> class_holds(ChClass::AttrName, #[trigger] p.0[i])
    &&& match p.1 {
        Some(v) => {
            &&& v.len() > 0
            &&& !is_hws(v[0])
            &&& forall|i: int| 0 <= i < v.len() ==> class_holds(ChClass::AttrValue, #[trigger] v[i])
        },
        None => true,
    }
}

pub open spec fn attrs_renderable(ps: Seq<(Seq<char>, Option<Seq<char>>)>) -> bool {
    forall|i: int| 0 <= i < ps.len() ==> attr_renderable(#[trigger] ps[i])
}

/// The blocks the canonical form can carry: one of the four bodies in
/// scope, a listing whose text does not open a closing fence early, a macro
/// with a well-formed name, target and attributes.
pub open spec fn context_renderable(c: ContextV) -> bool {
    match c {
        ContextV::ThematicBreak => true,
        ContextV::PageBreak => true,
        ContextV::Listing(body) => forall|k: nat|
            k < body.len() ==> !matches_at(body + "```"@, k, "```"@),
        ContextV::BlockMacro(m) => {
            &&& m.name.len() > 0
            &&& forall|i: int| 0 <= i < m.name.len() ==> is_ascii_alnum(#[trigger] m.name[i])
            &&& forall|i: int|
                0 <= i < m.target.len() ==> (#[trigger] m.target[i] != '[' && m.target[i] != '\n')
            &&& attrs_renderable(m.attribute_list)
        },
        _ => false,
    }
}

pub open spec fn block_renderable(b: BlockV) -> bool {
    &&& b.attributes.len() == 0
    &&& b.callouts.len() == 0
    &&& context_renderable(b.context)
}

/// Parsing one rendered attribute consumes exactly its text; the delimiter
/// that follows (a comma or the closing bracket) is left in place.
proof fn lemma_attr_parse(p: (Seq<char>, Option<Seq<char>>), rest: Seq<char>)
    requires
        attr_renderable(p),
        rest.len() > 0,
        rest[0] == ',' || rest[0] == ']',
    ensures
        sp_attribute(render_attr(p) + rest) == Some((rest, p)),
{
    reveal_strlit("=");
    let s = render_attr(p) + rest;
    let name = p.0;
    let nl = name.len() as int;
    assert(forall|j: int| 0 <= j < nl ==> s[j] == name[j]);
    lemma_scan_class(s, 0, ChClass::AsciiAlnum);
    let k1 = scan_class(s, 0, ChClass::AsciiAlnum);
    assert(s[0] == name[0]);
    if k1 == 0 {
        assert(class_holds(ChClass::AsciiAlnum, s[0]));
        assert(false);
    }
    if k1 > nl {
        assert(class_holds(ChClass::AsciiAlnum, s[nl]));
        match p.1 {
            Some(v) => {
                assert(s[nl] == '=');
            },
            None => {
                assert(s[nl] == rest[0]);
            },
        }
        assert(false);
    }
    assert(forall|j: int| k1 as int <= j < nl ==> class_holds(ChClass::AttrName, s[j]));
    match p.1 {
        Some(v) => {
            assert(s[nl] == '=');
        },
        None => {
            assert(s[nl] == rest[0]);
        },
    }
    assert(!class_holds(ChClass::AttrName, s[nl]));
    lemma_scan_pins(s, k1, ChClass::AttrName, name.len());
    let k2 = scan_class(s, k1, ChClass::AttrName);
    assert(k2 == nl);
    assert(s.take(nl) =~= name);
    let s1 = s.skip(nl);
    match p.1 {
        Some(v) => {
            assert(s1 =~= seq!['='] + v + rest);
            assert(!is_hws('='));
            lemma_scan_pins(s1, 0, ChClass::HorizWs, 0);
            assert(crate::parser::prim::sp_ws(s1).0 =~= s1);
            assert(has_prefix(s1, "="@)) by {
                assert(s1.subrange(0, 1) =~= "="@);
            }
            let after_eq = s1.skip(1);
            assert(after_eq =~= v + rest);
            assert(after_eq[0] == v[0]);
            lemma_scan_pins(after_eq, 0, ChClass::HorizWs, 0);
            assert(crate::parser::prim::sp_ws(after_eq).0 =~= after_eq);
            assert(forall|j: int| 0 <= j < v.len() ==> after_eq[j] == v[j]);
            assert(after_eq[v.len() as int] == rest[0]);
            assert(!class_holds(ChClass::AttrValue, after_eq[v.len() as int]));
            lemma_scan_pins(after_eq, 0, ChClass::AttrValue, v.len());
            assert(after_eq.take(v.len() as int) =~= v);
            assert(after_eq.skip(v.len() as int) =~= rest);
        },
        None => {
            assert(s1 =~= rest);
            assert(!is_hws(rest[0]));
            lemma_scan_pins(s1, 0, ChClass::HorizWs, 0);
            assert(crate::parser::prim::sp_ws(s1).0 =~= s1);
            assert(s1[0] != '=');
            if has_prefix(s1, "="@) {
                assert(s1.subrange(0, 1)[0] == '=');
                assert(false);
            }
        },
    }
}

/// Parsing the rendered tail of an attribute list yields exactly its pairs
/// and stops at the closing bracket.
proof fn lemma_attr_tail_parse(ps: Seq<(Seq<char>, Option<Seq<char>>)>)
    requires
        attrs_renderable(ps),
    ensures
        sp_attr_tail(render_attr_tail(ps) + seq![']']) == (seq![']'], ps),
    decreases ps.len(),
{
    reveal_strlit(",");
    let s = render_attr_tail(ps) + seq![']'];
    if ps.len() == 0 {
        assert(s =~= seq![']']);
        assert(!is_hws(']'));
        lemma_scan_pins(s, 0, ChClass::HorizWs, 0);
        assert(crate::parser::prim::sp_ws(s).0 =~= s);
        if has_prefix(s, ","@) {
            assert(s.subrange(0, 1)[0] == ',');
            assert(false);
        }
        assert(sp_attr_tail(s) == (s, Seq::<(Seq<char>, Option<Seq<char>>)>::empty()));
    } else {
        let p0 = ps[0];
        assert(attr_renderable(p0));
        let tail_rest = render_attr_tail(ps.skip(1)) + seq![']'];
        assert(s =~= seq![','] + (render_attr(p0) + tail_rest));
        assert(s[0] == ',');
        assert(!is_hws(','));
        lemma_scan_pins(s, 0, ChClass::HorizWs, 0);
        assert(crate::parser::prim::sp_ws(s).0 =~= s);
        assert(has_prefix(s, ","@)) by {
            assert(s.subrange(0, 1) =~= ","@);
        }
        let b0 = s.skip(1);
        assert(b0 =~= render_attr(p0) + tail_rest);
        assert(b0[0] == p0.0[0]);
        assert(!is_hws(b0[0]));
        lemma_scan_pins(b0, 0, ChClass::HorizWs, 0);
        assert(crate::parser::prim::sp_ws(b0).0 =~= b0);
        assert(tail_rest[0] == ',' || tail_rest[0] == ']') by {
            if ps.skip(1).len() == 0 {
                assert(tail_rest =~= seq![']']);
            } else {
                assert(tail_rest[0] == ',');
            }
        }
        lemma_attr_parse(p0, tail_rest);
        assert(forall|i: int| 0 <= i < ps.skip(1).len() ==> ps.skip(1)[i] == ps[i + 1]);
        assert(attrs_renderable(ps.skip(1)));
        lemma_attr_tail_parse(ps.skip(1));
        assert(seq![p0] + ps.skip(1) =~= ps);
    }
}

/// Parsing a rendered attribute list, brackets included, gives back its
/// pairs exactly.
proof fn lemma_attr_list_parse(ps: Seq<(Seq<char>, Option<Seq<char>>)>)
    requires
        attrs_renderable(ps),
    ensures
        sp_attribute_list(seq!['['] + render_attrs(ps) + seq![']']) == Some(
            (Seq::<char>::empty(), ps),
        ),
{
    reveal_strlit("[");
    reveal_strlit("]");
    let s = seq!['['] + render_attrs(ps) + seq![']'];
    assert(s[0] == '[');
    assert(has_prefix(s, "["@)) by {
        assert(s.subrange(0, 1) =~= "["@);
    }
    let s1 = s.skip(1);
    if ps.len() == 0 {
        assert(s1 =~= seq![']']);
        lemma_scan_class(s1, 0, ChClass::AsciiAlnum);
        assert(!class_holds(ChClass::AsciiAlnum, ']'));
        assert(scan_class(s1, 0, ChClass::AsciiAlnum) == 0);
        assert(sp_attribute(s1) is None);
        lemma_attr_tail_parse(ps);
        assert(render_attr_tail(ps) + seq![']'] =~= s1);
        assert(has_prefix(seq![']'], "]"@)) by {
            assert(seq![']'].subrange(0, 1) =~= "]"@);
        }
        assert(seq![']'].skip(1) =~= Seq::<char>::empty());
    } else {
        let p0 = ps[0];
        assert(attr_renderable(p0));
        let tail_rest = render_attr_tail(ps.skip(1)) + seq![']'];
        assert(s1 =~= render_attr(p0) + tail_rest);
        assert(tail_rest[0] == ',' || tail_rest[0] == ']') by {
            if ps.skip(1).len() == 0 {
                assert(tail_rest =~= seq![']']);
            } else {
                assert(tail_rest[0] == ',');
            }
        }
        lemma_attr_parse(p0, tail_rest);
        assert(forall|i: int| 0 <= i < ps.skip(1).len() ==> ps.skip(1)[i] == ps[i + 1]);
        lemma_attr_tail_parse(ps.skip(1));
        assert(has_prefix(seq![']'], "]"@)) by {
            assert(seq![']'].subrange(0, 1) =~= "]"@);
        }
        assert(seq![']'].skip(1) =~= Seq::<char>::empty());
        assert(seq![p0] + ps.skip(1) =~= ps);
    }
}

/// Parsing a rendered block macro consumes it whole.
proof fn lemma_block_macro_parse(m: MacroV)
    requires
        context_renderable(ContextV::BlockMacro(m)),
    ensures
        sp_block_macro(render_context(ContextV::BlockMacro(m))) == Some(
            (Seq::<char>::empty(), ContextV::BlockMacro(m)),
        ),
{
    reveal_strlit("::");
    let s = render_context(ContextV::BlockMacro(m));
    let nl = m.name.len() as int;
    let tl = m.target.len() as int;
    assert(forall|j: int| 0 <= j < nl ==> s[j] == m.name[j]);
    assert(s[nl] == ':' && s[nl + 1] == ':');
    assert(!class_holds(ChClass::AsciiAlnum, ':'));
    lemma_scan_pins(s, 0, ChClass::AsciiAlnum, m.name.len());
    assert(s.take(nl) =~= m.name);
    let after_name = s.skip(nl);
    assert(has_prefix(after_name, "::"@)) by {
        assert(after_name.subrange(0, 2) =~= "::"@);
    }
    let t0 = after_name.skip(2);
    assert(t0 =~= m.target + (seq!['['] + render_attrs(m.attribute_list) + seq![']']));
    assert(forall|j: int| 0 <= j < tl ==> t0[j] == m.target[j]);
    assert(t0[tl] == '[');
    assert(!class_holds(ChClass::MacroTarget, '['));
    lemma_scan_pins(t0, 0, ChClass::MacroTarget, m.target.len());
    assert(t0.take(tl) =~= m.target);
    assert(t0.skip(tl) =~= seq!['['] + render_attrs(m.attribute_list) + seq![']']);
    lemma_attr_list_parse(m.attribute_list);
}

/// Round trip for the grammars in scope: a block that the canonical surface
/// form can carry parses from it back to itself, exactly.
pub proof fn lemma_block_round_trip(b: BlockV)
    requires
        block_renderable(b),
    ensures
        sp_attributed_block(render_block(b)) == Some((Seq::<char>::empty(), b)),
{
    reveal_strlit("'''");
    reveal_strlit(">>>");
    reveal_strlit("```");
    reveal_strlit("::");
    let s = render_block(b);
    // no leading blank line, no leading attribute list
    let first = match b.context {
        ContextV::ThematicBreak => '\'',
        ContextV::PageBreak => '>',
        ContextV::Listing(_) => '`',
        ContextV::BlockMacro(m) => m.name[0],
        _ => ' ',
    };
    assert(s.len() > 0 && s[0] == first) by {
        match b.context {
            ContextV::BlockMacro(m) => {
                assert(s[0] == m.name[0]);
            },
            _ => {},
        }
    }
    assert(!is_hws(s[0]) && s[0] != '\n');
    lemma_scan_pins(s, 0, ChClass::HorizWs, 0);
    assert(crate::parser::prim::sp_ws_with_nl(s) is None);
    assert(sp_blank_lines(s) == s);
    assert(s[0] != '[');
    if has_prefix(s, "["@) {
        reveal_strlit("[");
        assert(s.subrange(0, 1)[0] == '[');
        assert(false);
    }
    assert(sp_attribute_list(s) is None);
    // the body itself
    let body_result = sp_block_body(s);
    match b.context {
        ContextV::ThematicBreak => {
            assert(has_prefix(s, "'''"@)) by {
                assert(s.subrange(0, 3) =~= "'''"@);
            }
            assert(s.skip(3) =~= Seq::<char>::empty());
        },
        ContextV::PageBreak => {
            assert(sp_thematic(s) is None) by {
                if has_prefix(s, "'''"@) {
                    assert(s.subrange(0, 3)[0] == '\'');
                }
            }
            assert(has_prefix(s, ">>>"@)) by {
                assert(s.subrange(0, 3) =~= ">>>"@);
            }
            assert(s.skip(3) =~= Seq::<char>::empty());
        },
        ContextV::Listing(body) => {
            assert(sp_thematic(s) is None) by {
                if has_prefix(s, "'''"@) {
                    assert(s.subrange(0, 3)[0] == '\'');
                }
            }
            assert(sp_page(s) is None) by {
                if has_prefix(s, ">>>"@) {
                    assert(s.subrange(0, 3)[0] == '>');
                }
            }
            assert(has_prefix(s, "```"@)) by {
                assert(s.subrange(0, 3) =~= "```"@);
            }
            assert(s.len() >= 4 && s[3] == '\n');
            let inner = s.skip(4);
            assert(inner =~= body + "```"@);
            assert(matches_at(inner, body.len(), "```"@)) by {
                assert(inner.subrange(body.len() as int, body.len() + 3int) =~= "```"@);
            }
            lemma_find_sub_at(inner, 0, "```"@);
            let k = find_sub_at(inner, 0, "```"@);
            if k > body.len() {
                assert(!matches_at(inner, body.len(), "```"@));
            }
            if k < body.len() {
                assert(!matches_at(inner, k, "```"@));
            }
            assert(k == body.len());
            assert(inner.take(k as int) =~= body);
            assert(inner.skip((k + "```"@.len()) as int) =~= Seq::<char>::empty());
        },
        ContextV::BlockMacro(m) => {
            assert(sp_thematic(s) is None) by {
                if has_prefix(s, "'''"@) {
                    assert(s.subrange(0, 3)[0] == '\'');
                    assert(s[0] == m.name[0]);
                }
            }
            assert(sp_page(s) is None) by {
                if has_prefix(s, ">>>"@) {
                    assert(s.subrange(0, 3)[0] == '>');
                    assert(s[0] == m.name[0]);
                }
            }
            assert(sp_fenced(s) is None) by {
                if has_prefix(s, "```"@) {
                    assert(s.subrange(0, 3)[0] == '`');
                    assert(s[0] == m.name[0]);
                }
            }
            lemma_block_macro_parse(m);
        },
        _ => {},
    }
    assert(body_result == Some((Seq::<char>::empty(), b.context)));
    // nothing follows: line end at the end of input, no callouts
    lemma_scan_pins_empty();
    assert(sp_trailing(Seq::<char>::empty()) == Some(Seq::<char>::empty()));
    assert(sp_callout(Seq::<char>::empty()) is None) by {
        reveal_strlit("<");
        if has_prefix(Seq::<char>::empty(), "<"@) {
            assert(false);
        }
    }
    assert(sp_callouts(Seq::<char>::empty()) == (
        Seq::<char>::empty(),
        Seq::<crate::ast::CalloutV>::empty(),
    ));
    assert(b.attributes =~= Seq::<(Seq<char>, Option<Seq<char>>)>::empty());
    assert(b.callouts =~= Seq::<crate::ast::CalloutV>::empty());
}

/// Scanning the empty text stops at once.
proof fn lemma_scan_pins_empty()
    ensures
        forall|cl: ChClass| #[trigger] scan_class(Seq::<char>::empty(), 0, cl) == 0,
{
}

/// A `!` before or after the id of a document attribute marks it unset and
/// is not part of the id: for any id without `\n`, `:` or `!`, the four
/// forms `:X:`, `:!X:`, `:X!:` and `:!X!:` all yield the id itself, and
/// every form but the first yields `unset`.
pub proof fn lemma_doc_attribute_unset(x: Seq<char>, bang1: bool, bang2: bool)
    requires
        x.len() > 0,
        forall|i: int| 0 <= i < x.len() ==> (x[i] != '\n' && x[i] != ':' && x[i] != '!'),
    ensures
        crate::parser::sp_doc_attribute(
            seq![':'] + (if bang1 {
                seq!['!']
            } else {
                Seq::<char>::empty()
            }) + x + (if bang2 {
                seq!['!']
            } else {
                Seq::<char>::empty()
            }) + seq![':'] + seq!['\n'],
        ) == Some(
            (
                Seq::<char>::empty(),
                crate::ast::DocAttributeV {
                    id: x,
                    unset: bang1 || bang2,
                    value: Seq::<Seq<char>>::empty(),
                },
            ),
        ),
{
    reveal_strlit(":");
    reveal_strlit("!");
    let b1 = if bang1 {
        seq!['!']
    } else {
        Seq::<char>::empty()
    };
    let b2 = if bang2 {
        seq!['!']
    } else {
        Seq::<char>::empty()
    };
    let s = seq![':'] + b1 + x + b2 + seq![':'] + seq!['\n'];
    assert(s[0] == ':');
    assert(has_prefix(s, ":"@)) by {
        assert(s.subrange(0, 1) =~= ":"@);
    }
    let s1 = s.skip(1);
    assert(s1 =~= b1 + x + b2 + seq![':'] + seq!['\n']);
    if bang1 {
        assert(s1[0] == '!');
        assert(has_prefix(s1, "!"@)) by {
            assert(s1.subrange(0, 1) =~= "!"@);
        }
    } else {
        assert(s1[0] == x[0]);
        if has_prefix(s1, "!"@) {
            assert(s1.subrange(0, 1)[0] == '!');
            assert(false);
        }
    }
    let s2 = if bang1 {
        s1.skip(1)
    } else {
        s1
    };
    assert(s2 =~= x + b2 + seq![':'] + seq!['\n']);
    let idlen = (x.len() + b2.len()) as int;
    assert(forall|j: int| 0 <= j < x.len() ==> s2[j] == x[j]);
    assert(forall|j: int|
        0 <= j < idlen ==> class_holds(ChClass::DocAttrId, #[trigger] s2[j])) by {
        if bang2 {
            assert(s2[idlen - 1] == '!');
        }
    }
    assert(s2[idlen] == ':');
    assert(!class_holds(ChClass::DocAttrId, ':'));
    lemma_scan_pins(s2, 0, ChClass::DocAttrId, (x.len() + b2.len()) as nat);
    let idraw = s2.take(idlen);
    assert(idraw =~= x + b2);
    let s3 = s2.skip(idlen);
    assert(s3 =~= seq![':'] + seq!['\n']);
    assert(has_prefix(s3, ":"@)) by {
        assert(s3.subrange(0, 1) =~= ":"@);
    }
    let s4 = s3.skip(1);
    assert(s4 =~= seq!['\n']);
    assert(!is_hws('\n'));
    lemma_scan_pins(s4, 0, ChClass::HorizWs, 0);
    assert(crate::parser::prim::sp_ws1(s4) is None);
    assert(crate::parser::sp_opt_value(s4) == (None::<Seq<char>>, s4));
    assert(s4[0] == '\n');
    assert(crate::parser::prim::sp_ws_with_nl(s4) == Some(
        (s4.skip(1), s4.take(0)),
    ));
    assert(s4.skip(1) =~= Seq::<char>::empty());
    if bang2 {
        assert(idraw.last() == '!');
        assert(idraw.drop_last() =~= x);
    } else {
        assert(idraw.last() == x.last());
        assert(idraw.last() != '!');
        assert(idraw =~= x);
    }
}

} // verus!
