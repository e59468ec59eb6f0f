use vstd::prelude::*;

use crate::directive::{
    all_defined,
    any_defined,
    find_op,
    lemma_find_op,
    sp_directive,
    split_on,
    targets_active,
    DirectiveV,
};
use crate::source::{
    pp_cond,
    pp_endif,
    pp_init,
    pp_plain,
    pp_push_include,
    pp_run,
    pp_src_measure,
    pp_stack_measure,
    sp_next_line,
    strip_nl,
    PpOutcome,
    PpSource,
    PpState,
};
use crate::text::{find_at, lemma_find_at, lemma_find_at_pins};

verus! {

/// No character of `s` is a carriage return.
pub open spec fn no_cr(s: Seq<char>) -> bool {
    forall|i: int| 0 <= i < s.len() ==> s[i] != '\r'
}

/// Every line of `text`, read from `cursor` on, fails to parse as a
/// preprocessor directive.
pub open spec fn directive_free(text: Seq<char>, cursor: nat) -> bool
    decreases text.len() - cursor when cursor <= text.len() via directive_free_dec
{
    match sp_next_line(text, cursor) {
        None => true,
        Some(line_c2) => sp_directive(line_c2.0) is None && directive_free(text, line_c2.1),
    }
}

#[via_fn]
proof fn directive_free_dec(text: Seq<char>, cursor: nat) {
    lemma_find_at(text, cursor, '\n');
}

/// What the per-line loop emits for a directive-free source read from
/// `cursor`: each line followed by a newline.
pub open spec fn emit_rest(text: Seq<char>, cursor: nat) -> Seq<char>
    decreases text.len() - cursor when cursor <= text.len() via emit_rest_dec
{
    match sp_next_line(text, cursor) {
        None => Seq::empty(),
        Some(line_c2) => line_c2.0 + seq!['\n'] + emit_rest(text, line_c2.1),
    }
}

#[via_fn]
proof fn emit_rest_dec(text: Seq<char>, cursor: nat) {
    lemma_find_at(text, cursor, '\n');
}

/// Joining the lines of a text without carriage returns gives the text
/// back, with one newline added when it did not end in one.
proof fn lemma_emit_rest_id(text: Seq<char>, cursor: nat)
    requires
        no_cr(text),
        cursor <= text.len(),
    ensures
        emit_rest(text, cursor) == text.skip(cursor as int) + (if cursor < text.len()
            && text.last() != '\n' {
            seq!['\n']
        } else {
            Seq::<char>::empty()
        }),
    decreases text.len() - cursor,
{
    let tail = if cursor < text.len() && text.last() != '\n' {
        seq!['\n']
    } else {
        Seq::<char>::empty()
    };
    if cursor >= text.len() {
        assert(text.skip(cursor as int) + tail =~= Seq::<char>::empty());
    } else {
        lemma_find_at(text, cursor, '\n');
        let k = find_at(text, cursor, '\n');
        let raw = text.subrange(cursor as int, k as int);
        assert(raw.len() == 0 || raw.last() != '\r');
        if k == text.len() {
            // the final line has no newline of its own
            assert(text.last() != '\n');
            lemma_emit_rest_id(text, k);
            assert(emit_rest(text, cursor) =~= text.skip(cursor as int) + seq!['\n']);
        } else {
            lemma_emit_rest_id(text, (k + 1) as nat);
            if k + 1 < text.len() {
                assert(emit_rest(text, cursor) =~= text.skip(cursor as int) + tail);
            } else {
                assert(text.last() == '\n');
                assert(emit_rest(text, cursor) =~= text.skip(cursor as int));
            }
        }
    }
}

/// Running the machine over a directive-free source appends its lines to
/// the output, each with a newline.
proof fn lemma_pp_run_plain(
    out0: Seq<char>,
    text: Seq<char>,
    cursor: nat,
    conds: Seq<bool>,
    dom: Set<Seq<char>>,
    res: Seq<Result<Seq<char>, ()>>,
    maxd: nat,
)
    requires
        cursor <= text.len(),
        directive_free(text, cursor),
    ensures
        pp_run(
            PpState {
                out: out0,
                stack: seq![PpSource { text, cursor }],
                conds,
                skipping: false,
            },
            dom,
            res,
            maxd,
        ) == (PpOutcome::Done { output: strip_nl(out0 + emit_rest(text, cursor)) }),
    decreases text.len() - cursor,
{
    let st = PpState { out: out0, stack: seq![PpSource { text, cursor }], conds, skipping: false };
    assert(st.stack.last() == PpSource { text, cursor });
    match sp_next_line(text, cursor) {
        None => {
            let st_pop = PpState { stack: st.stack.drop_last(), ..st };
            assert(pp_run(st, dom, res, maxd) == pp_run(st_pop, dom, res, maxd));
            assert(st_pop.stack.len() == 0);
            assert(pp_run(st_pop, dom, res, maxd) == (PpOutcome::Done {
                output: strip_nl(out0),
            }));
            assert(out0 + emit_rest(text, cursor) =~= out0);
        },
        Some(line_c2) => {
            let line = line_c2.0;
            let c2 = line_c2.1;
            lemma_find_at(text, cursor, '\n');
            let st1 = PpState {
                stack: st.stack.update(0, PpSource { text, cursor: c2 }),
                ..st
            };
            assert(st1.stack =~= seq![PpSource { text, cursor: c2 }]);
            assert(sp_directive(line) is None);
            let st2 = pp_plain(st1, line);
            assert(pp_run(st, dom, res, maxd) == pp_run(st2, dom, res, maxd));
            lemma_pp_run_plain(out0 + line + seq!['\n'], text, c2, conds, dom, res, maxd);
            assert(st2 == PpState {
                out: out0 + line + seq!['\n'],
                stack: seq![PpSource { text, cursor: c2 }],
                conds,
                skipping: false,
            });
            assert((out0 + line + seq!['\n']) + emit_rest(text, c2) =~= out0 + emit_rest(
                text,
                cursor,
            ));
        },
    }
}

/// For an input with no directive lines and no carriage returns, the
/// preprocessor is the identity but for the final newline: the output is
/// the input with one trailing newline stripped.
pub proof fn lemma_amalgamate_identity(
    source: Seq<char>,
    dom: Set<Seq<char>>,
    res: Seq<Result<Seq<char>, ()>>,
    maxd: nat,
)
    requires
        no_cr(source),
        directive_free(source, 0),
    ensures
        pp_run(pp_init(source), dom, res, maxd) == (PpOutcome::Done {
            output: strip_nl(source),
        }),
{
    lemma_pp_run_plain(Seq::empty(), source, 0, Seq::empty(), dom, res, maxd);
    lemma_emit_rest_id(source, 0);
    if source.len() == 0 {
        assert(Seq::<char>::empty() + emit_rest(source, 0) =~= source);
    } else if source.last() == '\n' {
        assert(Seq::<char>::empty() + emit_rest(source, 0) =~= source);
    } else {
        let out = Seq::<char>::empty() + emit_rest(source, 0);
        assert(out =~= source + seq!['\n']);
        assert(out.last() == '\n');
        assert(strip_nl(out) =~= source);
    }
}

/// `ifdef::T[text]` as the whole input emits the text exactly when the
/// targets are active; `ifndef::T[text]` exactly when they are not.
pub proof fn lemma_cond_inline(
    line: Seq<char>,
    targets: Seq<char>,
    text: Seq<char>,
    negate: bool,
    dom: Set<Seq<char>>,
    res: Seq<Result<Seq<char>, ()>>,
    maxd: nat,
)
    requires
        find_at(line, 0, '\n') == line.len(),
        line.len() > 0,
        line.last() != '\r',
        sp_directive(line) == Some(
            if negate {
                DirectiveV::IfNotDef { targets, inline: Some(text) }
            } else {
                DirectiveV::IfDef { targets, inline: Some(text) }
            },
        ),
    ensures
        pp_run(pp_init(line), dom, res, maxd) == (PpOutcome::Done {
            output: if targets_active(targets, dom) != negate {
                text
            } else {
                Seq::<char>::empty()
            },
        }),
{
    let st = pp_init(line);
    assert(st.stack.last() == PpSource { text: line, cursor: 0 });
    lemma_find_at(line, 0, '\n');
    assert(line.subrange(0, line.len() as int) =~= line);
    assert(sp_next_line(line, 0) == Some((line, line.len() as nat)));
    let st1 = PpState {
        stack: st.stack.update(0, PpSource { text: line, cursor: line.len() as nat }),
        ..st
    };
    assert(st1.stack =~= seq![PpSource { text: line, cursor: line.len() as nat }]);
    let st2 = pp_cond(st1, dom, targets, Some(text), negate);
    assert(pp_run(st, dom, res, maxd) == pp_run(st2, dom, res, maxd));
    assert(st2.stack == st1.stack);
    assert(sp_next_line(line, line.len() as nat) is None);
    let st3 = PpState { stack: st2.stack.drop_last(), ..st2 };
    assert(pp_run(st2, dom, res, maxd) == pp_run(st3, dom, res, maxd));
    assert(st3.stack.len() == 0);
    let active = targets_active(targets, dom) != negate;
    if active {
        assert(st2.out =~= text + seq!['\n']);
        assert(st2.out.last() == '\n');
        assert(strip_nl(st2.out) =~= text);
    } else {
        assert(strip_nl(st2.out) =~= Seq::<char>::empty());
    }
}

/// A block `ifdef::T[]` (or `ifndef::`) around one plain line followed by
/// an `endif::` emits that line exactly when the targets decide for it.
pub proof fn lemma_cond_block(
    line1: Seq<char>,
    targets: Seq<char>,
    negate: bool,
    body: Seq<char>,
    lend: Seq<char>,
    dom: Set<Seq<char>>,
    res: Seq<Result<Seq<char>, ()>>,
    maxd: nat,
)
    requires
        sp_directive(line1) == Some(
            if negate {
                DirectiveV::IfNotDef { targets, inline: None }
            } else {
                DirectiveV::IfDef { targets, inline: None }
            },
        ),
        find_at(line1, 0, '\n') == line1.len(),
        line1.len() > 0,
        line1.last() != '\r',
        sp_directive(body) is None,
        find_at(body, 0, '\n') == body.len(),
        body.len() == 0 || body.last() != '\r',
        sp_directive(lend) matches Some(DirectiveV::EndIf { targets: _ }),
        find_at(lend, 0, '\n') == lend.len(),
        lend.len() > 0,
        lend.last() != '\r',
    ensures
        pp_run(pp_init(line1 + seq!['\n'] + body + seq!['\n'] + lend), dom, res, maxd) == (
        PpOutcome::Done {
            output: if targets_active(targets, dom) != negate {
                body
            } else {
                Seq::<char>::empty()
            },
        }),
{
    let src = line1 + seq!['\n'] + body + seq!['\n'] + lend;
    let n1 = line1.len() as int;
    let n2 = n1 + 1 + body.len();
    let active = targets_active(targets, dom) != negate;
    lemma_find_at(line1, 0, '\n');
    lemma_find_at(body, 0, '\n');
    lemma_find_at(lend, 0, '\n');

    // first line: the conditional directive
    let st = pp_init(src);
    assert(st.stack.last() == PpSource { text: src, cursor: 0 });
    assert(src[n1] == '\n');
    assert(forall|j: int| 0 <= j < n1 ==> src[j] == line1[j]);
    lemma_find_at_pins(src, 0, '\n', n1 as nat);
    assert(src.subrange(0, n1) =~= line1);
    assert(sp_next_line(src, 0) == Some((line1, (n1 + 1) as nat)));
    let st1 = PpState {
        stack: st.stack.update(0, PpSource { text: src, cursor: (n1 + 1) as nat }),
        ..st
    };
    assert(st1.stack =~= seq![PpSource { text: src, cursor: (n1 + 1) as nat }]);
    let st2 = pp_cond(st1, dom, targets, None, negate);
    assert(pp_run(st, dom, res, maxd) == pp_run(st2, dom, res, maxd));
    assert(st2.conds =~= seq![!active]);
    assert(st2.skipping == !active);
    assert(st2.out =~= Seq::<char>::empty());

    // second line: the body, emitted or suppressed
    assert(st2.stack.last() == PpSource { text: src, cursor: (n1 + 1) as nat });
    assert(src[n2] == '\n');
    assert(forall|j: int| n1 + 1 <= j < n2 ==> src[j] == body[j - (n1 + 1)]);
    assert(forall|j: int| n1 + 1 <= j < n2 ==> src[j] != '\n');
    lemma_find_at_pins(src, (n1 + 1) as nat, '\n', n2 as nat);
    assert(src.subrange(n1 + 1, n2) =~= body);
    assert(sp_next_line(src, (n1 + 1) as nat) == Some((body, (n2 + 1) as nat)));
    let st3 = PpState {
        stack: st2.stack.update(0, PpSource { text: src, cursor: (n2 + 1) as nat }),
        ..st2
    };
    assert(st3.stack =~= seq![PpSource { text: src, cursor: (n2 + 1) as nat }]);
    let st4 = pp_plain(st3, body);
    assert(pp_run(st2, dom, res, maxd) == pp_run(st4, dom, res, maxd));

    // third line: the endif
    assert(st4.stack == st3.stack);
    assert(forall|j: int|
        n2 + 1 <= j < src.len() ==> src[j] == lend[j - (n2 + 1)] && src[j] != '\n');
    lemma_find_at(src, (n2 + 1) as nat, '\n');
    if find_at(src, (n2 + 1) as nat, '\n') < src.len() {
        assert(src[find_at(src, (n2 + 1) as nat, '\n') as int] != '\n');
    }
    assert(find_at(src, (n2 + 1) as nat, '\n') == src.len());
    assert(src.subrange(n2 + 1, src.len() as int) =~= lend);
    assert(sp_next_line(src, (n2 + 1) as nat) == Some((lend, src.len() as nat)));
    let st5 = PpState {
        stack: st4.stack.update(0, PpSource { text: src, cursor: src.len() as nat }),
        ..st4
    };
    assert(st5.stack =~= seq![PpSource { text: src, cursor: src.len() as nat }]);
    let st6 = pp_endif(st5);
    assert(pp_run(st4, dom, res, maxd) == pp_run(st6, dom, res, maxd));
    assert(st6.skipping == false);

    // the source is exhausted: pop it and stop
    assert(st6.stack == st5.stack);
    assert(sp_next_line(src, src.len() as nat) is None);
    let st7 = PpState { stack: st6.stack.drop_last(), ..st6 };
    assert(pp_run(st6, dom, res, maxd) == pp_run(st7, dom, res, maxd));
    assert(st7.stack.len() == 0);
    if active {
        assert(st6.out =~= body + seq!['\n']);
        assert(st6.out.last() == '\n');
        assert(strip_nl(st6.out) =~= body);
    } else {
        assert(st6.out =~= Seq::<char>::empty());
        assert(strip_nl(st6.out) =~= Seq::<char>::empty());
    }
}

/// `A+B` is active exactly when both names are defined attributes.
pub proof fn lemma_targets_and(a: Seq<char>, b: Seq<char>, dom: Set<Seq<char>>)
    requires
        forall|i: int| 0 <= i < a.len() ==> (a[i] != '+' && a[i] != ','),
        forall|i: int| 0 <= i < b.len() ==> b[i] != '+',
    ensures
        targets_active(a + seq!['+'] + b, dom) == (dom.contains(a) && dom.contains(b)),
{
    let t = a + seq!['+'] + b;
    assert(t[a.len() as int] == '+');
    assert(forall|j: int| 0 <= j < a.len() ==> t[j] == a[j]);
    lemma_find_op(t, 0);
    if find_op(t, 0) < a.len() {
        assert(t[find_op(t, 0) as int] != '+' && t[find_op(t, 0) as int] != ',');
    }
    if find_op(t, 0) > a.len() {
        assert(t[a.len() as int] != '+');
    }
    assert(find_op(t, 0) == a.len());
    lemma_find_at_pins(t, 0, '+', a.len() as nat);
    assert(t.take(a.len() as int) =~= a);
    assert(t.skip((a.len() + 1) as int) =~= b);
    lemma_find_at(b, 0, '+');
    if find_at(b, 0, '+') < b.len() {
        assert(b[find_at(b, 0, '+') as int] != '+');
    }
    assert(find_at(b, 0, '+') == b.len());
    assert(split_on(b, '+') == seq![b]);
    let parts = split_on(t, '+');
    assert(parts =~= seq![a] + seq![b]);
    assert(parts[0] == a && parts[1] == b && parts.len() == 2);
    if dom.contains(a) && dom.contains(b) {
        assert forall|i: int| 0 <= i < parts.len() implies dom.contains(#[trigger] parts[i]) by {
            if i == 0 {
            } else {
                assert(parts[i] == b);
            }
        }
    }
}

/// `A,B` is active exactly when at least one name is a defined attribute.
pub proof fn lemma_targets_or(a: Seq<char>, b: Seq<char>, dom: Set<Seq<char>>)
    requires
        forall|i: int| 0 <= i < a.len() ==> (a[i] != '+' && a[i] != ','),
        forall|i: int| 0 <= i < b.len() ==> b[i] != ',',
    ensures
        targets_active(a + seq![','] + b, dom) == (dom.contains(a) || dom.contains(b)),
{
    let t = a + seq![','] + b;
    assert(t[a.len() as int] == ',');
    assert(forall|j: int| 0 <= j < a.len() ==> t[j] == a[j]);
    lemma_find_op(t, 0);
    if find_op(t, 0) < a.len() {
        assert(t[find_op(t, 0) as int] != '+' && t[find_op(t, 0) as int] != ',');
    }
    if find_op(t, 0) > a.len() {
        assert(t[a.len() as int] != ',');
    }
    assert(find_op(t, 0) == a.len());
    lemma_find_at_pins(t, 0, ',', a.len() as nat);
    assert(t.take(a.len() as int) =~= a);
    assert(t.skip((a.len() + 1) as int) =~= b);
    lemma_find_at(b, 0, ',');
    if find_at(b, 0, ',') < b.len() {
        assert(b[find_at(b, 0, ',') as int] != ',');
    }
    assert(find_at(b, 0, ',') == b.len());
    assert(split_on(b, ',') == seq![b]);
    let parts = split_on(t, ',');
    assert(parts =~= seq![a] + seq![b]);
    assert(parts[0] == a && parts[1] == b && parts.len() == 2);
    if dom.contains(a) {
        assert(any_defined(parts, dom));
    }
    if dom.contains(b) {
        assert(any_defined(parts, dom));
    }
    if any_defined(parts, dom) && !dom.contains(a) && !dom.contains(b) {
        let i = choose|i: int| 0 <= i < parts.len() && dom.contains(#[trigger] parts[i]);
        assert(i == 0 || i == 1);
    }
}

/// The larger of two sizes.
pub open spec fn max2(a: nat, b: nat) -> nat {
    if a >= b {
        a
    } else {
        b
    }
}

/// The deepest the include stack gets during a run: the machine of `pp_run`
/// with the stack depth recorded at every step.
pub open spec fn pp_peak(
    st: PpState,
    dom: Set<Seq<char>>,
    res: Seq<Result<Seq<char>, ()>>,
    max_depth: nat,
) -> nat
    decreases res.len(), pp_stack_measure(st.stack),
    via pp_peak_dec
{
    if st.stack.len() == 0 {
        0
    } else {
        let depth = st.stack.len() as nat;
        let top = st.stack.last();
        match sp_next_line(top.text, top.cursor) {
            None => max2(
                depth,
                pp_peak(PpState { stack: st.stack.drop_last(), ..st }, dom, res, max_depth),
            ),
            Some(line_c2) => {
                let line = line_c2.0;
                let c2 = line_c2.1;
                let st1 = PpState {
                    stack: st.stack.update(
                        st.stack.len() - 1,
                        PpSource { text: top.text, cursor: c2 },
                    ),
                    ..st
                };
                match sp_directive(line) {
                    Some(DirectiveV::EndIf { targets: _ }) => max2(
                        depth,
                        pp_peak(pp_endif(st1), dom, res, max_depth),
                    ),
                    Some(DirectiveV::Include { target: _, attributes: _ }) => {
                        if st.skipping {
                            max2(depth, pp_peak(st1, dom, res, max_depth))
                        } else if st.stack.len() >= max_depth {
                            depth
                        } else if res.len() == 0 {
                            depth
                        } else {
                            match res[0] {
                                Err(_) => depth,
                                Ok(src) => max2(
                                    depth,
                                    pp_peak(
                                        pp_push_include(st1, src),
                                        dom,
                                        res.skip(1),
                                        max_depth,
                                    ),
                                ),
                            }
                        }
                    },
                    Some(DirectiveV::IfDef { targets, inline }) => max2(
                        depth,
                        pp_peak(pp_cond(st1, dom, targets, inline, false), dom, res, max_depth),
                    ),
                    Some(DirectiveV::IfNotDef { targets, inline }) => max2(
                        depth,
                        pp_peak(pp_cond(st1, dom, targets, inline, true), dom, res, max_depth),
                    ),
                    Some(DirectiveV::IfEval { expr: _ }) => max2(
                        depth,
                        pp_peak(st1, dom, res, max_depth),
                    ),
                    None => max2(depth, pp_peak(pp_plain(st1, line), dom, res, max_depth)),
                }
            },
        }
    }
}

#[via_fn]
proof fn pp_peak_dec(
    st: PpState,
    dom: Set<Seq<char>>,
    res: Seq<Result<Seq<char>, ()>>,
    max_depth: nat,
) {
    if st.stack.len() > 0 {
        let top = st.stack.last();
        match sp_next_line(top.text, top.cursor) {
            None => {},
            Some(line_c2) => {
                let c2 = line_c2.1;
                lemma_find_at(top.text, top.cursor, '\n');
                crate::source::lemma_stack_measure_update(
                    st.stack,
                    PpSource { text: top.text, cursor: c2 },
                );
                assert(pp_src_measure(PpSource { text: top.text, cursor: c2 }) < pp_src_measure(
                    top,
                ));
            },
        }
    }
}

/// Include recursion is bounded: a run whose stack starts within the depth
/// limit never grows past it, whatever the resolver answers; an include at
/// the limit fails instead of pushing.
pub proof fn lemma_depth_bounded(
    st: PpState,
    dom: Set<Seq<char>>,
    res: Seq<Result<Seq<char>, ()>>,
    max_depth: nat,
)
    requires
        st.stack.len() <= max_depth,
    ensures
        pp_peak(st, dom, res, max_depth) <= max_depth,
    decreases res.len(), pp_stack_measure(st.stack),
{
    if st.stack.len() > 0 {
        let top = st.stack.last();
        match sp_next_line(top.text, top.cursor) {
            None => {
                lemma_depth_bounded(
                    PpState { stack: st.stack.drop_last(), ..st },
                    dom,
                    res,
                    max_depth,
                );
            },
            Some(line_c2) => {
                let c2 = line_c2.1;
                lemma_find_at(top.text, top.cursor, '\n');
                crate::source::lemma_stack_measure_update(
                    st.stack,
                    PpSource { text: top.text, cursor: c2 },
                );
                assert(pp_src_measure(PpSource { text: top.text, cursor: c2 }) < pp_src_measure(
                    top,
                ));
                let line = line_c2.0;
                let st1 = PpState {
                    stack: st.stack.update(
                        st.stack.len() - 1,
                        PpSource { text: top.text, cursor: c2 },
                    ),
                    ..st
                };
                match sp_directive(line) {
                    Some(DirectiveV::EndIf { targets: _ }) => {
                        lemma_depth_bounded(pp_endif(st1), dom, res, max_depth);
                    },
                    Some(DirectiveV::Include { target: _, attributes: _ }) => {
                        if st.skipping {
                            lemma_depth_bounded(st1, dom, res, max_depth);
                        } else if st.stack.len() < max_depth && res.len() > 0 {
                            match res[0] {
                                Err(_) => {},
                                Ok(src) => {
                                    lemma_depth_bounded(
                                        pp_push_include(st1, src),
                                        dom,
                                        res.skip(1),
                                        max_depth,
                                    );
                                },
                            }
                        }
                    },
                    Some(DirectiveV::IfDef { targets, inline }) => {
                        lemma_depth_bounded(
                            pp_cond(st1, dom, targets, inline, false),
                            dom,
                            res,
                            max_depth,
                        );
                    },
                    Some(DirectiveV::IfNotDef { targets, inline }) => {
                        lemma_depth_bounded(
                            pp_cond(st1, dom, targets, inline, true),
                            dom,
                            res,
                            max_depth,
                        );
                    },
                    Some(DirectiveV::IfEval { expr: _ }) => {
                        lemma_depth_bounded(st1, dom, res, max_depth);
                    },
                    None => {
                        lemma_depth_bounded(pp_plain(st1, line), dom, res, max_depth);
                    },
                }
            },
        }
    }
}

/// The depth bound for a whole run from a root source.
pub proof fn lemma_include_depth_bounded(
    source: Seq<char>,
    dom: Set<Seq<char>>,
    res: Seq<Result<Seq<char>, ()>>,
    max_depth: nat,
)
    requires
        max_depth >= 1,
    ensures
        pp_peak(pp_init(source), dom, res, max_depth) <= max_depth,
{
    lemma_depth_bounded(pp_init(source), dom, res, max_depth);
}

// ----- no directive line survives into the output -------------------------

/// Splitting always yields at least one part.
proof fn lemma_split_len(s: Seq<char>, sep: char)
    ensures
        split_on(s, sep).len() >= 1,
{
}

/// Splitting a text that ends in a separator against more text: the parts
/// are those of the first text, its final empty part replaced by the parts
/// of the second.
proof fn lemma_split_concat(a: Seq<char>, b: Seq<char>)
    requires
        a.len() > 0,
        a.last() == '\n',
    ensures
        split_on(a + b, '\n') =~= split_on(a, '\n').drop_last() + split_on(b, '\n'),
    decreases a.len(),
{
    lemma_find_at(a, 0, '\n');
    let k0 = find_at(a, 0, '\n');
    if k0 == a.len() {
        assert(a[a.len() - 1] != '\n');
    }
    assert(k0 < a.len());
    assert(forall|j: int| 0 <= j < a.len() ==> (a + b)[j] == a[j]);
    lemma_find_at_pins(a + b, 0, '\n', k0);
    assert((a + b).take(k0 as int) =~= a.take(k0 as int));
    let a1 = a.skip((k0 + 1) as int);
    assert((a + b).skip((k0 + 1) as int) =~= a1 + b);
    if a1.len() == 0 {
        assert(a1 + b =~= b);
        assert(find_at(a1, 0, '\n') == 0);
        assert(split_on(a1, '\n') == seq![a1]);
        assert(split_on(a, '\n') =~= seq![a.take(k0 as int)] + seq![a1]);
        assert(split_on(a, '\n').drop_last() =~= seq![a.take(k0 as int)]);
    } else {
        assert(a1.last() == a.last());
        lemma_split_concat(a1, b);
        lemma_split_len(a1, '\n');
        assert(split_on(a, '\n') == seq![a.take(k0 as int)] + split_on(a1, '\n'));
        assert(split_on(a, '\n').drop_last() =~= seq![a.take(k0 as int)] + split_on(
            a1,
            '\n',
        ).drop_last());
    }
}

/// A newline-free line followed by a newline splits into the line and one
/// empty part.
proof fn lemma_split_single(line: Seq<char>)
    requires
        forall|i: int| 0 <= i < line.len() ==> line[i] != '\n',
    ensures
        split_on(line + seq!['\n'], '\n') =~= seq![line, Seq::<char>::empty()],
{
    let l = line + seq!['\n'];
    assert(l[line.len() as int] == '\n');
    assert(forall|j: int| 0 <= j < line.len() ==> l[j] == line[j]);
    lemma_find_at_pins(l, 0, '\n', line.len() as nat);
    assert(l.take(line.len() as int) =~= line);
    let rest = l.skip(line.len() + 1int);
    assert(rest =~= Seq::<char>::empty());
    assert(find_at(rest, 0, '\n') == 0);
    assert(split_on(rest, '\n') == seq![rest]);
    assert(split_on(l, '\n') =~= seq![line] + seq![rest]);
}

/// Dropping the final newline drops the final (empty) part of the split.
proof fn lemma_split_droplast(out: Seq<char>)
    requires
        out.len() > 0,
        out.last() == '\n',
    ensures
        split_on(out.drop_last(), '\n') =~= split_on(out, '\n').drop_last(),
    decreases out.len(),
{
    lemma_find_at(out, 0, '\n');
    let k = find_at(out, 0, '\n');
    if k == out.len() {
        assert(out[out.len() - 1] != '\n');
    }
    assert(k < out.len());
    let short = out.drop_last();
    if k == out.len() - 1 {
        // the first newline is the final character
        assert(short =~= out.take(k as int));
        lemma_find_at(short, 0, '\n');
        if find_at(short, 0, '\n') < short.len() {
            assert(out[find_at(short, 0, '\n') as int] != '\n');
            assert(short[find_at(short, 0, '\n') as int] == out[find_at(short, 0, '\n') as int]);
        }
        assert(find_at(short, 0, '\n') == short.len());
        assert(split_on(short, '\n') == seq![short]);
        let rest = out.skip((k + 1) as int);
        assert(rest =~= Seq::<char>::empty());
        assert(find_at(rest, 0, '\n') == 0);
        assert(split_on(rest, '\n') == seq![rest]);
        assert(split_on(out, '\n') =~= seq![out.take(k as int)] + seq![rest]);
        assert(split_on(out, '\n').drop_last() =~= seq![out.take(k as int)]);
    } else {
        assert(forall|j: int| 0 <= j < out.len() - 1 ==> short[j] == out[j]);
        lemma_find_at_pins(short, 0, '\n', k);
        assert(short.take(k as int) =~= out.take(k as int));
        let rest = out.skip((k + 1) as int);
        assert(rest.len() > 0);
        assert(rest.last() == out.last());
        assert(short.skip((k + 1) as int) =~= rest.drop_last());
        lemma_split_droplast(rest);
        lemma_split_len(rest, '\n');
        assert(split_on(out, '\n') == seq![out.take(k as int)] + split_on(rest, '\n'));
        assert(split_on(short, '\n') == seq![short.take(k as int)] + split_on(
            rest.drop_last(),
            '\n',
        ));
        assert(split_on(out, '\n').drop_last() =~= seq![out.take(k as int)] + split_on(
            rest,
            '\n',
        ).drop_last());
    }
}

/// A directive line always holds a closing bracket.
proof fn lemma_dir_body_rbracket(l: Seq<char>, prefix: Seq<char>, need_target: bool)
    requires
        crate::directive::sp_dir_body(l, prefix, need_target) is Some,
    ensures
        exists|i: int| 0 <= i < l.len() && l[i] == ']',
{
    let rest = l.skip(prefix.len() as int);
    let b = find_at(rest, 0, '[');
    lemma_find_at(rest, 0, '[');
    let j = find_at(rest, b + 1, ']');
    lemma_find_at(rest, (b + 1) as nat, ']');
    assert(rest[j as int] == ']');
    assert(l[prefix.len() + j as int] == ']');
}

/// The bracketed list of a directive holds no closing bracket of its own.
proof fn lemma_dir_body_attrs(l: Seq<char>, prefix: Seq<char>, need_target: bool)
    requires
        crate::directive::sp_dir_body(l, prefix, need_target) is Some,
    ensures
        forall|i: int|
            0 <= i < crate::directive::sp_dir_body(l, prefix, need_target)->Some_0.1.len()
                ==> #[trigger] crate::directive::sp_dir_body(l, prefix, need_target)->Some_0.1[i]
                != ']',
        forall|i: int|
            0 <= i < crate::directive::sp_dir_body(l, prefix, need_target)->Some_0.1.len()
                ==> exists|m: int|
                0 <= m < l.len() && #[trigger] crate::directive::sp_dir_body(
                    l,
                    prefix,
                    need_target,
                )->Some_0.1[i] == l[m],
{
    let rest = l.skip(prefix.len() as int);
    let b = find_at(rest, 0, '[');
    lemma_find_at(rest, 0, '[');
    let j = find_at(rest, (b + 1) as nat, ']');
    lemma_find_at(rest, (b + 1) as nat, ']');
    let attrs = crate::directive::sp_dir_body(l, prefix, need_target)->Some_0.1;
    assert(attrs == rest.subrange((b + 1) as int, j as int));
    assert forall|i: int| 0 <= i < attrs.len() implies #[trigger] attrs[i] != ']' by {
        assert(attrs[i] == rest[b + 1 + i]);
    }
    assert forall|i: int| 0 <= i < attrs.len() implies exists|m: int|
        0 <= m < l.len() && #[trigger] attrs[i] == l[m] by {
        assert(attrs[i] == rest[b + 1 + i]);
        assert(rest[b + 1 + i] == l[prefix.len() + b + 1 + i]);
        assert(attrs[i] == l[prefix.len() + b + 1 + i]);
    }
}

/// A line that parses as a directive holds a `]`; so a text without one,
/// such as an inline replacement, is never a directive.
proof fn lemma_directive_rbracket(l: Seq<char>)
    requires
        sp_directive(l) is Some,
    ensures
        exists|i: int| 0 <= i < l.len() && l[i] == ']',
{
    if crate::directive::sp_dir_body(l, "include::"@, true) is Some {
        lemma_dir_body_rbracket(l, "include::"@, true);
    } else if crate::directive::sp_dir_body(l, "ifdef::"@, true) is Some {
        lemma_dir_body_rbracket(l, "ifdef::"@, true);
    } else if crate::directive::sp_dir_body(l, "ifndef::"@, true) is Some {
        lemma_dir_body_rbracket(l, "ifndef::"@, true);
    } else if crate::directive::sp_dir_body(l, "endif::"@, false) is Some {
        lemma_dir_body_rbracket(l, "endif::"@, false);
    } else {
        lemma_dir_body_rbracket(l, "ifeval::"@, false);
    }
}

/// Every part of the output split on newlines fails to parse as a
/// preprocessor directive.
pub open spec fn no_directive_lines(output: Seq<char>) -> bool {
    forall|i: int|
        0 <= i < split_on(output, '\n').len() ==> sp_directive(
            #[trigger] split_on(output, '\n')[i],
        ) is None
}

/// The shape the machine's output always has: empty, or newline-terminated
/// with no directive among its lines.
spec fn out_wf(out: Seq<char>) -> bool {
    ||| out.len() == 0
    ||| {
        &&& out.last() == '\n'
        &&& split_on(out, '\n').last() == Seq::<char>::empty()
        &&& forall|i: int|
            0 <= i < split_on(out, '\n').len() - 1 ==> sp_directive(
                #[trigger] split_on(out, '\n')[i],
            ) is None
    }
}

/// Appending one non-directive line keeps the output well shaped.
proof fn lemma_out_wf_push(out: Seq<char>, line: Seq<char>)
    requires
        out_wf(out),
        forall|i: int| 0 <= i < line.len() ==> line[i] != '\n',
        sp_directive(line) is None,
    ensures
        out_wf(out + line + seq!['\n']),
{
    lemma_split_single(line);
    let out2 = out + line + seq!['\n'];
    assert(out2.last() == '\n');
    if out.len() == 0 {
        assert(out2 =~= line + seq!['\n']);
        let parts = split_on(out2, '\n');
        assert(parts =~= seq![line, Seq::<char>::empty()]);
        assert(parts.last() == Seq::<char>::empty());
        assert(forall|i: int| 0 <= i < parts.len() - 1 ==> parts[i] == line);
    } else {
        lemma_split_concat(out, line + seq!['\n']);
        assert(out2 =~= out + (line + seq!['\n']));
        let parts0 = split_on(out, '\n');
        let parts = split_on(out2, '\n');
        lemma_split_len(out, '\n');
        assert(parts =~= parts0.drop_last() + seq![line, Seq::<char>::empty()]);
        assert(parts.last() == Seq::<char>::empty());
        assert forall|i: int| 0 <= i < parts.len() - 1 implies sp_directive(
            #[trigger] parts[i],
        ) is None by {
            if i < parts0.len() - 1 {
                assert(parts[i] == parts0[i]);
            } else {
                assert(parts[i] == line);
            }
        }
    }
}

/// A well-shaped output, stripped of its final newline, has no directive
/// among its lines.
proof fn lemma_out_wf_strip(out: Seq<char>)
    requires
        out_wf(out),
    ensures
        no_directive_lines(strip_nl(out)),
{
    lemma_empty_line_not_directive();
    if out.len() == 0 {
        assert(split_on(strip_nl(out), '\n') == seq![strip_nl(out)]);
        assert(strip_nl(out) =~= Seq::<char>::empty());
        assert(split_on(strip_nl(out), '\n')[0] == Seq::<char>::empty());
    } else {
        lemma_split_droplast(out);
        let parts0 = split_on(out, '\n');
        let parts = split_on(strip_nl(out), '\n');
        assert(parts =~= parts0.drop_last());
        assert(forall|i: int| 0 <= i < parts.len() ==> parts[i] == parts0[i]);
    }
}

/// The empty line is no directive.
proof fn lemma_empty_line_not_directive()
    ensures
        sp_directive(Seq::<char>::empty()) is None,
{
    reveal_strlit("include::");
    reveal_strlit("ifdef::");
    reveal_strlit("ifndef::");
    reveal_strlit("endif::");
    reveal_strlit("ifeval::");
}

/// A line read by the machine holds no newline.
proof fn lemma_next_line_no_nl(text: Seq<char>, cursor: nat)
    requires
        sp_next_line(text, cursor) is Some,
    ensures
        forall|i: int|
            0 <= i < sp_next_line(text, cursor)->Some_0.0.len() ==> #[trigger] sp_next_line(
                text,
                cursor,
            )->Some_0.0[i] != '\n',
{
    lemma_find_at(text, cursor, '\n');
    let k = find_at(text, cursor, '\n');
    let raw = text.subrange(cursor as int, k as int);
    assert(forall|i: int| 0 <= i < raw.len() ==> raw[i] == text[cursor + i]);
    let line = sp_next_line(text, cursor)->Some_0.0;
    assert(forall|i: int| 0 <= i < line.len() ==> line[i] == raw[i]);
}

/// Through the whole run, the output keeps its shape, so a finished run has
/// no directive among its lines.
proof fn lemma_run_lines(
    st: PpState,
    dom: Set<Seq<char>>,
    res: Seq<Result<Seq<char>, ()>>,
    maxd: nat,
    output: Seq<char>,
)
    requires
        pp_run(st, dom, res, maxd) == (PpOutcome::Done { output }),
        out_wf(st.out),
    ensures
        no_directive_lines(output),
    decreases res.len(), pp_stack_measure(st.stack),
{
    if st.stack.len() == 0 {
        lemma_out_wf_strip(st.out);
    } else {
        let top = st.stack.last();
        match sp_next_line(top.text, top.cursor) {
            None => {
                lemma_run_lines(
                    PpState { stack: st.stack.drop_last(), ..st },
                    dom,
                    res,
                    maxd,
                    output,
                );
            },
            Some(line_c2) => {
                let line = line_c2.0;
                let c2 = line_c2.1;
                lemma_find_at(top.text, top.cursor, '\n');
                crate::source::lemma_stack_measure_update(
                    st.stack,
                    PpSource { text: top.text, cursor: c2 },
                );
                assert(pp_src_measure(PpSource { text: top.text, cursor: c2 }) < pp_src_measure(
                    top,
                ));
                lemma_next_line_no_nl(top.text, top.cursor);
                let st1 = PpState {
                    stack: st.stack.update(
                        st.stack.len() - 1,
                        PpSource { text: top.text, cursor: c2 },
                    ),
                    ..st
                };
                match sp_directive(line) {
                    Some(DirectiveV::EndIf { targets: _ }) => {
                        lemma_run_lines(pp_endif(st1), dom, res, maxd, output);
                    },
                    Some(DirectiveV::Include { target: _, attributes: _ }) => {
                        if st.skipping {
                            lemma_run_lines(st1, dom, res, maxd, output);
                        } else if st.stack.len() < maxd && res.len() > 0 {
                            match res[0] {
                                Err(_) => {},
                                Ok(src) => {
                                    lemma_run_lines(
                                        pp_push_include(st1, src),
                                        dom,
                                        res.skip(1),
                                        maxd,
                                        output,
                                    );
                                },
                            }
                        }
                    },
                    Some(DirectiveV::IfDef { targets, inline }) => {
                        lemma_cond_push_wf(st1, dom, line, targets, inline, false);
                        lemma_run_lines(
                            pp_cond(st1, dom, targets, inline, false),
                            dom,
                            res,
                            maxd,
                            output,
                        );
                    },
                    Some(DirectiveV::IfNotDef { targets, inline }) => {
                        lemma_cond_push_wf(st1, dom, line, targets, inline, true);
                        lemma_run_lines(
                            pp_cond(st1, dom, targets, inline, true),
                            dom,
                            res,
                            maxd,
                            output,
                        );
                    },
                    Some(DirectiveV::IfEval { expr: _ }) => {
                        lemma_run_lines(st1, dom, res, maxd, output);
                    },
                    None => {
                        lemma_out_wf_push(st.out, line);
                        lemma_run_lines(pp_plain(st1, line), dom, res, maxd, output);
                    },
                }
            },
        }
    }
}

/// A conditional keeps the output well shaped: what it may emit is the
/// inline text, which holds no `]` and so is no directive.
proof fn lemma_cond_push_wf(
    st1: PpState,
    dom: Set<Seq<char>>,
    line: Seq<char>,
    targets: Seq<char>,
    inline: Option<Seq<char>>,
    negate: bool,
)
    requires
        out_wf(st1.out),
        sp_directive(line) == Some(
            if negate {
                DirectiveV::IfNotDef { targets, inline }
            } else {
                DirectiveV::IfDef { targets, inline }
            },
        ),
        forall|i: int| 0 <= i < line.len() ==> line[i] != '\n',
    ensures
        out_wf(pp_cond(st1, dom, targets, inline, negate).out),
{
    match inline {
        Some(text) => {
            let prefix = if negate {
                "ifndef::"@
            } else {
                "ifdef::"@
            };
            assert(crate::directive::sp_dir_body(line, prefix, true) is Some);
            let body = crate::directive::sp_dir_body(line, prefix, true)->Some_0;
            assert(text == body.1);
            lemma_dir_body_attrs(line, prefix, true);
            assert(forall|i: int| 0 <= i < text.len() ==> text[i] != ']');
            assert forall|i: int| 0 <= i < text.len() implies #[trigger] text[i] != '\n' by {
                let m = choose|m: int| 0 <= m < line.len() && text[i] == line[m];
            }
            if sp_directive(text) is Some {
                lemma_directive_rbracket(text);
                let i = choose|i: int| 0 <= i < text.len() && text[i] == ']';
                assert(false);
            }
            lemma_out_wf_push(st1.out, text);
        },
        None => {},
    }
}

/// What `amalgamate` produces holds no preprocessor directive: every line of
/// the output fails to parse as one. A directive line of a source is always
/// consumed, and inline replacement text can never be a directive, for it
/// cannot hold the closing bracket a directive needs.
pub proof fn lemma_no_directive_line_in_output(
    source: Seq<char>,
    dom: Set<Seq<char>>,
    res: Seq<Result<Seq<char>, ()>>,
    maxd: nat,
    output: Seq<char>,
)
    requires
        pp_run(pp_init(source), dom, res, maxd) == (PpOutcome::Done { output }),
    ensures
        no_directive_lines(output),
{
    lemma_run_lines(pp_init(source), dom, res, maxd, output);
}

} // verus!
