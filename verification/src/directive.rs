use vstd::prelude::*;

use crate::attributes::AttributeMap;
use crate::text::{find_at, has_prefix, lemma_find_at, str_find_at, str_has_prefix};

verus! {

/// A preprocessor directive, recognised on a single line.
#[derive(Debug, PartialEq, Clone)]
pub enum Directive {
    Include { target: String, attributes: String },
    IfDef { targets: String, inline: Option<String> },
    IfNotDef { targets: String, inline: Option<String> },
    IfEval { expr: String },
    EndIf { targets: String },
}

pub ghost enum DirectiveV {
    Include { target: Seq<char>, attributes: Seq<char> },
    IfDef { targets: Seq<char>, inline: Option<Seq<char>> },
    IfNotDef { targets: Seq<char>, inline: Option<Seq<char>> },
    IfEval { expr: Seq<char> },
    EndIf { targets: Seq<char> },
}

impl View for Directive {
    type V = DirectiveV;

    open spec fn view(&self) -> DirectiveV {
        match self {
            Directive::Include { target, attributes } => DirectiveV::Include {
                target: target@,
                attributes: attributes@,
            },
            Directive::IfDef { targets, inline } => DirectiveV::IfDef {
                targets: targets@,
                inline: inline.deep_view(),
            },
            Directive::IfNotDef { targets, inline } => DirectiveV::IfNotDef {
                targets: targets@,
                inline: inline.deep_view(),
            },
            Directive::IfEval { expr } => DirectiveV::IfEval { expr: expr@ },
            Directive::EndIf { targets } => DirectiveV::EndIf { targets: targets@ },
        }
    }
}

/// The body of a directive after its keyword: a target running to the first
/// `[`, then a bracketed list running to the first `]`. `need_target` asks
/// the target to be non-empty. Text after the closing bracket is ignored.
pub open spec fn sp_dir_body(line: Seq<char>, prefix: Seq<char>, need_target: bool) -> Option<
    (Seq<char>, Seq<char>),
> {
    if has_prefix(line, prefix) {
        let rest = line.skip(prefix.len() as int);
        let b = find_at(rest, 0, '[');
        if b == rest.len() {
            None
        } else if need_target && b == 0 {
            None
        } else {
            let j = find_at(rest, b + 1, ']');
            if j == rest.len() {
                None
            } else {
                Some((rest.take(b as int), rest.subrange((b + 1) as int, j as int)))
            }
        }
    } else {
        None
    }
}

/// An empty bracket means "no inline text"; a non-empty one is the inline
/// replacement text.
pub open spec fn sp_inline(attrs: Seq<char>) -> Option<Seq<char>> {
    if attrs.len() == 0 {
        None
    } else {
        Some(attrs)
    }
}

/// Which directive, if any, a line is. A line that starts with `[` is never
/// a directive; a malformed directive-looking line is none either and falls
/// through to verbatim emission.
pub open spec fn sp_directive(line: Seq<char>) -> Option<DirectiveV> {
    if line.len() > 0 && line[0] == '[' {
        None
    } else {
        match sp_dir_body(line, "include::"@, true) {
            Some(body) => Some(DirectiveV::Include { target: body.0, attributes: body.1 }),
            None => match sp_dir_body(line, "ifdef::"@, true) {
                Some(body) => Some(
                    DirectiveV::IfDef { targets: body.0, inline: sp_inline(body.1) },
                ),
                None => match sp_dir_body(line, "ifndef::"@, true) {
                    Some(body) => Some(
                        DirectiveV::IfNotDef { targets: body.0, inline: sp_inline(body.1) },
                    ),
                    None => match sp_dir_body(line, "endif::"@, false) {
                        Some(body) => Some(DirectiveV::EndIf { targets: body.0 }),
                        None => match sp_dir_body(line, "ifeval::"@, false) {
                            Some(body) => Some(DirectiveV::IfEval { expr: body.1 }),
                            None => None,
                        },
                    },
                },
            },
        }
    }
}

/// Recognise one directive keyword and its body.
fn dir_body(line: &str, prefix: &str, need_target: bool) -> (r: Option<(String, String)>)
    ensures
        match r {
            Some(p) => sp_dir_body(line@, prefix@, need_target) == Some((p.0@, p.1@)),
            None => sp_dir_body(line@, prefix@, need_target) is None,
        },
{
    if !str_has_prefix(line, prefix) {
        return None;
    }
    let p_len = prefix.unicode_len();
    let line_len = line.unicode_len();
    let rest = String::from_str(line.substring_char(p_len, line_len));
    proof {
        assert(rest@ =~= line@.skip(prefix@.len() as int));
    }
    let rest_len = rest.as_str().unicode_len();
    let b = str_find_at(rest.as_str(), 0, '[');
    proof {
        lemma_find_at(rest@, 0, '[');
    }
    if b == rest_len {
        return None;
    }
    if need_target && b == 0 {
        return None;
    }
    let j = str_find_at(rest.as_str(), b + 1, ']');
    proof {
        lemma_find_at(rest@, (b + 1) as nat, ']');
    }
    if j == rest_len {
        return None;
    }
    let target = String::from_str(rest.as_str().substring_char(0, b));
    let attrs = String::from_str(rest.as_str().substring_char(b + 1, j));
    Some((target, attrs))
}

/// Parse a line as a preprocessor directive, if it is one.
pub fn parse_directive(line: &str) -> (r: Option<Directive>)
    ensures
        match r {
            Some(d) => sp_directive(line@) == Some(d@),
            None => sp_directive(line@) is None,
        },
{
    let len = line.unicode_len();
    if len > 0 && line.get_char(0) == '[' {
        return None;
    }
    if let Some((target, attributes)) = dir_body(line, "include::", true) {
        return Some(Directive::Include { target, attributes });
    }
    if let Some((targets, attrs)) = dir_body(line, "ifdef::", true) {
        let inline = if attrs.as_str().unicode_len() == 0 {
            None
        } else {
            Some(attrs)
        };
        return Some(Directive::IfDef { targets, inline });
    }
    if let Some((targets, attrs)) = dir_body(line, "ifndef::", true) {
        let inline = if attrs.as_str().unicode_len() == 0 {
            None
        } else {
            Some(attrs)
        };
        return Some(Directive::IfNotDef { targets, inline });
    }
    if let Some((targets, _attrs)) = dir_body(line, "endif::", false) {
        return Some(Directive::EndIf { targets });
    }
    if let Some((_target, expr)) = dir_body(line, "ifeval::", false) {
        return Some(Directive::IfEval { expr });
    }
    None
}

/// The first index at or after `i` holding one of the two operator
/// characters `+` and `,`; the length if there is none.
pub open spec fn find_op(s: Seq<char>, i: nat) -> nat
    decreases s.len() - i when i <= s.len()
{
    if i >= s.len() {
        s.len()
    } else if s[i as int] == '+' || s[i as int] == ',' {
        i
    } else {
        find_op(s, i + 1)
    }
}

pub proof fn lemma_find_op(s: Seq<char>, i: nat)
    requires
        i <= s.len(),
    ensures
        i <= find_op(s, i) <= s.len(),
        find_op(s, i) < s.len() ==> (s[find_op(s, i) as int] == '+' || s[find_op(s, i) as int]
            == ','),
        forall|j: int| i <= j < find_op(s, i) ==> (s[j] != '+' && s[j] != ','),
    decreases s.len() - i,
{
    if i < s.len() && s[i as int] != '+' && s[i as int] != ',' {
        lemma_find_op(s, i + 1);
    }
}

/// Split on every occurrence of `sep`, as `str::split` does: `n` separators
/// give `n + 1` parts, empty parts included.
pub open spec fn split_on(s: Seq<char>, sep: char) -> Seq<Seq<char>>
    decreases s.len(),
    via split_on_dec
{
    if find_at(s, 0, sep) == s.len() {
        seq![s]
    } else {
        seq![s.take(find_at(s, 0, sep) as int)] + split_on(s.skip((find_at(s, 0, sep) + 1) as int), sep)
    }
}

#[via_fn]
proof fn split_on_dec(s: Seq<char>, sep: char) {
    lemma_find_at(s, 0, sep);
}

/// Every part is a defined attribute.
pub open spec fn all_defined(parts: Seq<Seq<char>>, dom: Set<Seq<char>>) -> bool {
    forall|i: int| 0 <= i < parts.len() ==> dom.contains(#[trigger] parts[i])
}

/// At least one part is a defined attribute.
pub open spec fn any_defined(parts: Seq<Seq<char>>, dom: Set<Seq<char>>) -> bool {
    exists|i: int| 0 <= i < parts.len() && dom.contains(#[trigger] parts[i])
}

/// Whether a target expression is active for the given attribute names:
/// the first operator character decides; `+` asks every part to be
/// defined, `,` asks for at least one, and with no operator the whole
/// expression must be a defined attribute.
pub open spec fn targets_active(targets: Seq<char>, dom: Set<Seq<char>>) -> bool {
    let k = find_op(targets, 0);
    if k == targets.len() {
        dom.contains(targets)
    } else if targets[k as int] == '+' {
        all_defined(split_on(targets, '+'), dom)
    } else {
        any_defined(split_on(targets, ','), dom)
    }
}

/// Splitting off the first part: the whole split is the head part followed
/// by the split of what comes after the first separator.
proof fn lemma_split_on_step(s: Seq<char>, sep: char)
    requires
        find_at(s, 0, sep) < s.len(),
    ensures
        split_on(s, sep) == seq![s.take(find_at(s, 0, sep) as int)] + split_on(s.skip((find_at(s, 0, sep) + 1) as int), sep),
{
}

/// `all_defined` and `any_defined` over a split, one part at a time.
proof fn lemma_defined_cons(head: Seq<char>, tail: Seq<Seq<char>>, dom: Set<Seq<char>>)
    ensures
        all_defined(seq![head] + tail, dom) == (dom.contains(head) && all_defined(tail, dom)),
        any_defined(seq![head] + tail, dom) == (dom.contains(head) || any_defined(tail, dom)),
{
    let parts = seq![head] + tail;
    assert(parts[0] == head);
    assert(forall|i: int| 0 <= i < tail.len() ==> parts[i + 1] == #[trigger] tail[i]);
    if dom.contains(head) && all_defined(tail, dom) {
        assert forall|i: int| 0 <= i < parts.len() implies dom.contains(#[trigger] parts[i]) by {
            if i > 0 {
                assert(parts[i] == tail[i - 1]);
            }
        }
    }
    if any_defined(tail, dom) {
        let i = choose|i: int| 0 <= i < tail.len() && dom.contains(#[trigger] tail[i]);
        assert(parts[i + 1] == tail[i]);
    }
    if any_defined(parts, dom) && !dom.contains(head) {
        let i = choose|i: int| 0 <= i < parts.len() && dom.contains(#[trigger] parts[i]);
        assert(i > 0);
        assert(tail[i - 1] == parts[i]);
    }
}

/// Check the parts of `targets` split on `sep`: all of them defined when
/// `all_mode`, at least one otherwise.
fn check_parts(targets: &str, sep: char, all_mode: bool, attributes: &AttributeMap) -> (r: bool)
    ensures
        all_mode ==> r == all_defined(split_on(targets@, sep), attributes@.dom()),
        !all_mode ==> r == any_defined(split_on(targets@, sep), attributes@.dom()),
    decreases targets@.len(),
{
    let len = targets.unicode_len();
    let k = str_find_at(targets, 0, sep);
    proof {
        lemma_find_at(targets@, 0, sep);
    }
    if k == len {
        let here = attributes.contains(targets);
        proof {
            assert(split_on(targets@, sep) == seq![targets@]);
            assert(split_on(targets@, sep)[0] == targets@);
        }
        if here {
            assert(any_defined(split_on(targets@, sep), attributes@.dom()));
        }
        return here;
    }
    let head = String::from_str(targets.substring_char(0, k));
    let tail = String::from_str(targets.substring_char(k + 1, len));
    let head_in = attributes.contains(head.as_str());
    proof {
        lemma_split_on_step(targets@, sep);
        lemma_defined_cons(targets@.take(k as int), split_on(targets@.skip(k + 1), sep), attributes@.dom());
    }
    if all_mode {
        if !head_in {
            return false;
        }
        check_parts(tail.as_str(), sep, all_mode, attributes)
    } else {
        if head_in {
            return true;
        }
        check_parts(tail.as_str(), sep, all_mode, attributes)
    }
}

/// The first `+` or `,` in the expression, if any.
fn find_op_exec(targets: &str) -> (r: Option<(usize, char)>)
    ensures
        match r {
            Some(p) => p.0 == find_op(targets@, 0) && p.0 < targets@.len() && p.1
                == targets@[p.0 as int],
            None => find_op(targets@, 0) == targets@.len(),
        },
{
    let len = targets.unicode_len();
    let mut j: usize = 0;
    while j < len
        invariant
            j <= len == targets@.len(),
            forall|k: int| 0 <= k < j ==> (targets@[k] != '+' && targets@[k] != ','),
        decreases len - j,
    {
        let c = targets.get_char(j);
        if c == '+' || c == ',' {
            proof {
                lemma_find_op(targets@, 0);
                if find_op(targets@, 0) < j {
                    assert(targets@[find_op(targets@, 0) as int] != '+');
                }
                if find_op(targets@, 0) > j {
                    assert(targets@[j as int] != '+' && targets@[j as int] != ',');
                }
            }
            return Some((j, c));
        }
        j = j + 1;
    }
    proof {
        lemma_find_op(targets@, 0);
        if find_op(targets@, 0) < targets@.len() {
            assert(targets@[find_op(targets@, 0) as int] != '+');
        }
    }
    None
}

/// Whether a target expression is active for the given attributes.
pub fn check_targets_active(targets: &str, attributes: &AttributeMap) -> (r: bool)
    ensures
        r == targets_active(targets@, attributes@.dom()),
{
    match find_op_exec(targets) {
        Some((_k, c)) => {
            if c == '+' {
                check_parts(targets, '+', true, attributes)
            } else {
                check_parts(targets, ',', false, attributes)
            }
        },
        None => attributes.contains(targets),
    }
}

} // verus!
