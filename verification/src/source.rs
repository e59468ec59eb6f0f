use vstd::prelude::*;

use crate::attributes::AttributeMap;
use crate::directive::{parse_directive, sp_directive, targets_active, Directive, DirectiveV};
use crate::directive::check_targets_active;
use crate::text::{find_at, lemma_find_at, str_find_at};

verus! {

/// A range of characters in a source buffer.
/// Reserved for a future line index over the amalgamated source.
#[derive(Clone, Copy, Debug, Default, PartialEq, Eq, Structural)]
pub struct TextRange {
    start: usize,
    end: usize,
}

/// Reserved for a future line index over the amalgamated source.
#[derive(Clone, Copy, Debug, Default, PartialEq, Eq, Structural)]
pub struct LineIndex(usize);

/// Reserved for a future line index over the amalgamated source.
#[derive(Clone, Copy, Debug, Default, PartialEq, Eq, Structural)]
pub struct FileId(usize);

// ----- the preprocessor, modelled -----------------------------------------
//
// `pp_run` is the preprocessor: a pushdown machine over line sources. It is
// parameterised by the sequence of answers the include callback gives, in
// the order the includes are reached; `amalgamate` records those answers and
// promises that its output is exactly what `pp_run` says.

/// One active source: its text and the cursor the next line starts at.
#[verifier::ext_equal]
pub ghost struct PpSource {
    pub text: Seq<char>,
    pub cursor: nat,
}

/// The machine state: output so far, include stack, one `skipping` flag per
/// open conditional, and whether output is currently suppressed.
#[verifier::ext_equal]
pub ghost struct PpState {
    pub out: Seq<char>,
    pub stack: Seq<PpSource>,
    pub conds: Seq<bool>,
    pub skipping: bool,
}

/// What a run ends in. `NeedsResolution` only arises when the machine is
/// given fewer callback answers than the run consumes; a recorded run never
/// ends there.
pub ghost enum PpOutcome {
    Done { output: Seq<char> },
    DepthExceeded,
    IncludeFailed,
    NeedsResolution,
}

/// The state a preprocessor starts in: one root source, nothing emitted.
pub open spec fn pp_init(source: Seq<char>) -> PpState {
    PpState {
        out: Seq::empty(),
        stack: seq![PpSource { text: source, cursor: 0 }],
        conds: Seq::empty(),
        skipping: false,
    }
}

/// The next `\n`-terminated line at `cursor`, with a trailing `\r` dropped,
/// and the cursor after it; `None` when the source is exhausted.
pub open spec fn sp_next_line(text: Seq<char>, cursor: nat) -> Option<(Seq<char>, nat)> {
    if cursor >= text.len() {
        None
    } else {
        let k = find_at(text, cursor, '\n');
        let raw = text.subrange(cursor as int, k as int);
        let c2: nat = if k == text.len() {
            text.len()
        } else {
            (k + 1) as nat
        };
        let line = if raw.len() > 0 && raw.last() == '\r' {
            raw.drop_last()
        } else {
            raw
        };
        Some((line, c2))
    }
}

/// Strip one trailing newline.
pub open spec fn strip_nl(out: Seq<char>) -> Seq<char> {
    if out.len() > 0 && out.last() == '\n' {
        out.drop_last()
    } else {
        out
    }
}

/// `endif::` pops one conditional frame; if that frame had started the
/// suppression, output resumes.
pub open spec fn pp_endif(st: PpState) -> PpState {
    if st.conds.len() == 0 {
        st
    } else {
        PpState {
            conds: st.conds.drop_last(),
            skipping: if st.conds.last() {
                false
            } else {
                st.skipping
            },
            ..st
        }
    }
}

/// A plain line is emitted, with a newline, unless output is suppressed.
pub open spec fn pp_plain(st: PpState, line: Seq<char>) -> PpState {
    if st.skipping {
        st
    } else {
        PpState { out: st.out + line + seq!['\n'], ..st }
    }
}

/// `ifdef::`/`ifndef::`: with inline text, emit it exactly when the targets
/// decide for it and output is not suppressed; without, open a conditional
/// frame and suppress output when the targets decide against it.
pub open spec fn pp_cond(
    st: PpState,
    dom: Set<Seq<char>>,
    targets: Seq<char>,
    inline: Option<Seq<char>>,
    negate: bool,
) -> PpState {
    let active = targets_active(targets, dom) != negate;
    match inline {
        Some(text) => {
            if !st.skipping && active {
                PpState { out: st.out + text + seq!['\n'], ..st }
            } else {
                st
            }
        },
        None => {
            PpState {
                conds: st.conds.push(!st.skipping && !active),
                skipping: st.skipping || !active,
                ..st
            }
        },
    }
}

/// Push an included source; a fully consumed top of stack is popped first,
/// so that a tail include replaces its parent.
pub open spec fn pp_push_include(st: PpState, src: Seq<char>) -> PpState {
    let stack1 = if st.stack.len() > 0 && st.stack.last().cursor >= st.stack.last().text.len() {
        st.stack.drop_last()
    } else {
        st.stack
    };
    PpState { stack: stack1.push(PpSource { text: src, cursor: 0 }), ..st }
}

/// What is left to read in one source, plus one for the pop step.
pub open spec fn pp_src_measure(src: PpSource) -> nat {
    (if src.cursor >= src.text.len() {
        0nat
    } else {
        (src.text.len() - src.cursor) as nat
    }) + 1
}

/// The work left in a stack of sources.
pub open spec fn pp_stack_measure(stack: Seq<PpSource>) -> nat
    decreases stack.len(),
{
    if stack.len() == 0 {
        0
    } else {
        pp_stack_measure(stack.drop_last()) + pp_src_measure(stack.last())
    }
}

pub(crate) proof fn lemma_stack_measure_update(stack: Seq<PpSource>, x: PpSource)
    requires
        stack.len() > 0,
    ensures
        pp_stack_measure(stack.update(stack.len() - 1, x)) == pp_stack_measure(stack.drop_last())
            + pp_src_measure(x),
{
    let updated = stack.update(stack.len() - 1, x);
    assert(updated.drop_last() =~= stack.drop_last());
    assert(updated.last() == x);
}

/// The preprocessor machine: reads the next line of the top source (popping
/// exhausted sources), dispatches directives, passes plain lines through,
/// and, when the stack empties, yields the output with one trailing newline
/// stripped. `res` holds the include callback's answers in order; `dom` the
/// names of the defined attributes; an include at depth `max_depth` fails.
pub open spec fn pp_run(
    st: PpState,
    dom: Set<Seq<char>>,
    res: Seq<Result<Seq<char>, ()>>,
    max_depth: nat,
) -> PpOutcome
    decreases res.len(), pp_stack_measure(st.stack),
    via pp_run_dec
{
    if st.stack.len() == 0 {
        PpOutcome::Done { output: strip_nl(st.out) }
    } else {
        let top = st.stack.last();
        match sp_next_line(top.text, top.cursor) {
            None => pp_run(PpState { stack: st.stack.drop_last(), ..st }, dom, res, max_depth),
            Some(line_c2) => {
                let line = line_c2.0;
                let c2 = line_c2.1;
                let st1 = PpState {
                    stack: st.stack.update(
                        st.stack.len() - 1,
                        PpSource { text: top.text, cursor: c2 },
                    ),
                    ..st
                };
                match sp_directive(line) {
                    Some(DirectiveV::EndIf { targets: _ }) => pp_run(
                        pp_endif(st1),
                        dom,
                        res,
                        max_depth,
                    ),
                    Some(DirectiveV::Include { target: _, attributes: _ }) => {
                        if st.skipping {
                            pp_run(st1, dom, res, max_depth)
                        } else if st.stack.len() >= max_depth {
                            PpOutcome::DepthExceeded
                        } else if res.len() == 0 {
                            PpOutcome::NeedsResolution
                        } else {
                            match res[0] {
                                Err(_) => PpOutcome::IncludeFailed,
                                Ok(src) => pp_run(
                                    pp_push_include(st1, src),
                                    dom,
                                    res.skip(1),
                                    max_depth,
                                ),
                            }
                        }
                    },
                    Some(DirectiveV::IfDef { targets, inline }) => pp_run(
                        pp_cond(st1, dom, targets, inline, false),
                        dom,
                        res,
                        max_depth,
                    ),
                    Some(DirectiveV::IfNotDef { targets, inline }) => pp_run(
                        pp_cond(st1, dom, targets, inline, true),
                        dom,
                        res,
                        max_depth,
                    ),
                    Some(DirectiveV::IfEval { expr: _ }) => pp_run(st1, dom, res, max_depth),
                    None => pp_run(pp_plain(st1, line), dom, res, max_depth),
                }
            },
        }
    }
}

#[via_fn]
proof fn pp_run_dec(
    st: PpState,
    dom: Set<Seq<char>>,
    res: Seq<Result<Seq<char>, ()>>,
    max_depth: nat,
) {
    if st.stack.len() > 0 {
        let top = st.stack.last();
        match sp_next_line(top.text, top.cursor) {
            None => {},
            Some(line_c2) => {
                let c2 = line_c2.1;
                lemma_find_at(top.text, top.cursor, '\n');
                lemma_stack_measure_update(st.stack, PpSource { text: top.text, cursor: c2 });
                assert(pp_src_measure(PpSource { text: top.text, cursor: c2 }) < pp_src_measure(
                    top,
                ));
            },
        }
    }
}

// ----- the preprocessor, executable ----------------------------------------

/// A preprocessing failure: the include stack would grow past the limit, or
/// the include callback failed.
#[derive(Debug)]
pub enum PreprocessError<IE> {
    MaxIncludeDepthReached,
    IncludeError(IE),
}

/// The sole boundary between the preprocessor and whatever resolves include
/// targets: a filesystem, a URL fetcher, or a plain map in tests. The
/// preprocessor assumes nothing about what `resolve` returns: its contract
/// holds for every answer.
pub trait IncludeResolver {
    type Error;

    /// Resolve an include target to the text it stands for.
    fn resolve(&mut self, attributes: &AttributeMap, target: &str) -> Result<String, Self::Error>;
}

/// One active source: the text and the cursor the next line starts at.
struct Include {
    source: String,
    cursor: usize,
}

/// One open conditional: its target expression (kept for diagnostics; an
/// `endif::` does not check it) and whether this frame started suppression.
struct CondDirective {
    targets: String,
    skipping: bool,
}

/// The preprocessor: expands `include::`, evaluates `ifdef::`, `ifndef::`
/// and `endif::`, parses `ifeval::` without evaluating it, and passes other
/// lines through. `amalgamate` promises that the output is exactly the run
/// of `pp_run` on the answers the resolver actually gave, which it records.
pub struct Preprocessor<R: IncludeResolver> {
    amalgamated: String,
    include_stack: Vec<Include>,
    conditional_stack: Vec<CondDirective>,
    skipping: bool,
    include_cb: R,
    max_include_depth: usize,
    attribute_map: AttributeMap,
    resolutions: Ghost<Seq<Result<Seq<char>, ()>>>,
}

impl<R: IncludeResolver> Preprocessor<R> {
    /// The machine state this preprocessor is in.
    pub closed spec fn pp_state(&self) -> PpState {
        PpState {
            out: self.amalgamated@,
            stack: self.include_stack@.map_values(
                |inc: Include| PpSource { text: inc.source@, cursor: inc.cursor as nat },
            ),
            conds: self.conditional_stack@.map_values(|c: CondDirective| c.skipping),
            skipping: self.skipping,
        }
    }

    pub closed spec fn spec_attributes(&self) -> Map<Seq<char>, Seq<char>> {
        self.attribute_map@
    }

    pub closed spec fn spec_max_depth(&self) -> nat {
        self.max_include_depth as nat
    }

    /// The answers the resolver gave during `amalgamate`, in order.
    pub closed spec fn spec_resolutions(&self) -> Seq<Result<Seq<char>, ()>> {
        self.resolutions@
    }

    pub fn new(source: &str, include_cb: R, attributes: AttributeMap) -> (r: Self)
        ensures
            r.pp_state() == pp_init(source@),
            r.spec_attributes() == attributes@,
            r.spec_max_depth() == 64,
            r.spec_resolutions() == Seq::<Result<Seq<char>, ()>>::empty(),
    {
        let mut include_stack: Vec<Include> = Vec::new();
        include_stack.push(Include { source: source.to_owned(), cursor: 0 });
        let r = Preprocessor {
            amalgamated: String::new(),
            include_stack,
            conditional_stack: Vec::new(),
            skipping: false,
            include_cb,
            max_include_depth: 64,
            attribute_map: attributes,
            resolutions: Ghost(Seq::empty()),
        };
        proof {
            assert(r.pp_state().stack =~= pp_init(source@).stack);
            assert(r.pp_state().conds =~= pp_init(source@).conds);
            assert(r.pp_state() =~= pp_init(source@));
        }
        r
    }

    /// How deep includes may nest; an include at this depth fails.
    pub fn set_max_include_depth(&mut self, depth: usize)
        ensures
            final(self).pp_state() == old(self).pp_state(),
            final(self).spec_attributes() == old(self).spec_attributes(),
            final(self).spec_max_depth() == depth,
            final(self).spec_resolutions() == old(self).spec_resolutions(),
    {
        self.max_include_depth = depth;
    }

    /// The amalgamated source built so far.
    pub fn result(&self) -> (r: String)
        ensures
            r@ == self.pp_state().out,
    {
        self.amalgamated.clone()
    }

    /// Append one line and a newline to the output.
    fn push_line(amalgamated: &mut String, line: &str)
        ensures
            final(amalgamated)@ == old(amalgamated)@ + line@ + seq!['\n'],
    {
        amalgamated.append(line);
        amalgamated.append("\n");
        proof {
            reveal_strlit("\n");
            assert("\n"@ =~= seq!['\n']);
            assert(amalgamated@ =~= old(amalgamated)@ + line@ + seq!['\n']);
        }
    }

    /// Run the machine to completion: read lines depth-first, expand
    /// includes through the resolver, evaluate conditionals, pass plain
    /// lines through, and strip one trailing newline. The outcome and the
    /// output are exactly those of `pp_run` on the answers the resolver
    /// gave, which `spec_resolutions` records. One run asks the resolver at
    /// most `usize::MAX` times; a run that would ask more (which no machine
    /// reaches in practice) stops at such an include with
    /// `MaxIncludeDepthReached`, and the recorded run then ends in
    /// `NeedsResolution`.
    pub fn amalgamate(&mut self) -> (r: Result<(), PreprocessError<R::Error>>)
        ensures
            final(self).spec_attributes() == old(self).spec_attributes(),
            final(self).spec_max_depth() == old(self).spec_max_depth(),
            match r {
                Ok(()) => pp_run(
                    old(self).pp_state(),
                    old(self).spec_attributes().dom(),
                    final(self).spec_resolutions(),
                    old(self).spec_max_depth(),
                ) == (PpOutcome::Done { output: final(self).pp_state().out }),
                Err(PreprocessError::MaxIncludeDepthReached) => pp_run(
                    old(self).pp_state(),
                    old(self).spec_attributes().dom(),
                    final(self).spec_resolutions(),
                    old(self).spec_max_depth(),
                ) == PpOutcome::DepthExceeded || (pp_run(
                    old(self).pp_state(),
                    old(self).spec_attributes().dom(),
                    final(self).spec_resolutions(),
                    old(self).spec_max_depth(),
                ) == PpOutcome::NeedsResolution && final(self).spec_resolutions().len()
                    == usize::MAX),
                Err(PreprocessError::IncludeError(_)) => pp_run(
                    old(self).pp_state(),
                    old(self).spec_attributes().dom(),
                    final(self).spec_resolutions(),
                    old(self).spec_max_depth(),
                ) == PpOutcome::IncludeFailed,
            },
    {
        self.resolutions = Ghost(Seq::empty());
        let mut includes_count: usize = 0;
        let ghost st0 = self.pp_state();
        let ghost dom = self.attribute_map@.dom();
        let ghost attrs0 = self.attribute_map@;
        let ghost maxd = self.max_include_depth as nat;
        proof {
            assert forall|rest: Seq<Result<Seq<char>, ()>>|
                #[trigger] pp_run(self.pp_state(), dom, rest, maxd) == pp_run(
                    st0,
                    dom,
                    self.spec_resolutions() + rest,
                    maxd,
                ) by {
                assert(self.spec_resolutions() + rest =~= rest);
            }
        }
        loop
            invariant
                attrs0 == old(self).spec_attributes(),
                maxd == old(self).spec_max_depth(),
                st0 == old(self).pp_state(),
                self.spec_attributes() == attrs0,
                dom == attrs0.dom(),
                self.spec_max_depth() == maxd,
                includes_count == self.spec_resolutions().len(),
                forall|rest: Seq<Result<Seq<char>, ()>>|
                    #[trigger] pp_run(self.pp_state(), dom, rest, maxd) == pp_run(
                        st0,
                        dom,
                        self.spec_resolutions() + rest,
                        maxd,
                    ),
            ensures
                self.include_stack@.len() == 0,
                self.spec_attributes() == attrs0,
                self.spec_max_depth() == maxd,
                forall|rest: Seq<Result<Seq<char>, ()>>|
                    #[trigger] pp_run(self.pp_state(), dom, rest, maxd) == pp_run(
                        st0,
                        dom,
                        self.spec_resolutions() + rest,
                        maxd,
                    ),
            decreases usize::MAX - includes_count, pp_stack_measure(self.pp_state().stack),
        {
            let n = self.include_stack.len();
            if n == 0 {
                break ;
            }
            let ghost pre = self.pp_state();
            let ghost log_pre = self.spec_resolutions();
            let top_cursor = self.include_stack[n - 1].cursor;
            let top_src = self.include_stack[n - 1].source.clone();
            let src_len = top_src.as_str().unicode_len();
            proof {
                assert(pre.stack.len() == n);
                assert(pre.stack.last() == PpSource {
                    text: top_src@,
                    cursor: top_cursor as nat,
                });
            }
            if top_cursor >= src_len {
                // the top source is exhausted: pop it
                self.include_stack.pop();
                proof {
                    assert(self.pp_state().stack =~= pre.stack.drop_last());
                    assert(self.pp_state() =~= PpState { stack: pre.stack.drop_last(), ..pre });
                    assert forall|rest: Seq<Result<Seq<char>, ()>>|
                        pp_run(pre, dom, rest, maxd) == #[trigger] pp_run(
                            self.pp_state(),
                            dom,
                            rest,
                            maxd,
                        ) by {
                        assert(sp_next_line(pre.stack.last().text, pre.stack.last().cursor)
                            is None);
                    }
                    lemma_pp_chain(st0, dom, maxd, log_pre, pre, self.pp_state());
                    assert(pp_stack_measure(pre.stack) == pp_stack_measure(pre.stack.drop_last())
                        + pp_src_measure(pre.stack.last()));
                }
                continue ;
            }
            // read the next newline-terminated line, dropping a trailing \r
            let k = str_find_at(top_src.as_str(), top_cursor, '\n');
            proof {
                lemma_find_at(top_src@, top_cursor as nat, '\n');
            }
            let line_end = k;
            let c2 = if k == src_len {
                src_len
            } else {
                k + 1
            };
            let raw = String::from_str(top_src.as_str().substring_char(top_cursor, line_end));
            let raw_len = raw.as_str().unicode_len();
            let line = if raw_len > 0 && raw.as_str().get_char(raw_len - 1) == '\r' {
                let ghost rawv = raw@;
                let stripped = String::from_str(raw.as_str().substring_char(0, raw_len - 1));
                proof {
                    assert(stripped@ =~= rawv.drop_last());
                }
                stripped
            } else {
                raw
            };
            proof {
                assert(sp_next_line(top_src@, top_cursor as nat) == Some((line@, c2 as nat)));
            }
            // advance past the line
            self.include_stack[n - 1].cursor = c2;
            let ghost st1 = PpState {
                stack: pre.stack.update(
                    n - 1,
                    PpSource { text: top_src@, cursor: c2 as nat },
                ),
                ..pre
            };
            proof {
                assert(self.pp_state().stack =~= st1.stack);
                assert(self.pp_state() =~= st1);
                lemma_stack_measure_update(
                    pre.stack,
                    PpSource { text: top_src@, cursor: c2 as nat },
                );
                assert(pp_stack_measure(pre.stack) == pp_stack_measure(pre.stack.drop_last())
                    + pp_src_measure(pre.stack.last()));
                assert(pp_stack_measure(st1.stack) < pp_stack_measure(pre.stack));
            }
            if Self::parse_doc_attrib(line.as_str()).is_some() {
                // reserved: nothing is recognised as a document attribute
            } else if let Some(d) = parse_directive(line.as_str()) {
                let ghost dv = d@;
                match d {
                    Directive::EndIf { targets: _ } => {
                        if let Some(frame) = self.conditional_stack.pop() {
                            if frame.skipping {
                                self.skipping = false;
                            }
                        }
                        proof {
                            assert(self.pp_state().conds =~= pp_endif(st1).conds);
                            assert(self.pp_state() =~= pp_endif(st1));
                            assert forall|rest: Seq<Result<Seq<char>, ()>>|
                                pp_run(pre, dom, rest, maxd) == #[trigger] pp_run(
                                    self.pp_state(),
                                    dom,
                                    rest,
                                    maxd,
                                ) by {}
                            lemma_pp_chain(st0, dom, maxd, log_pre, pre, self.pp_state());
                        }
                    },
                    Directive::Include { target, attributes: _ } => {
                        if self.skipping {
                            proof {
                                assert forall|rest: Seq<Result<Seq<char>, ()>>|
                                    pp_run(pre, dom, rest, maxd) == #[trigger] pp_run(
                                        self.pp_state(),
                                        dom,
                                        rest,
                                        maxd,
                                    ) by {}
                                lemma_pp_chain(st0, dom, maxd, log_pre, pre, self.pp_state());
                            }
                        } else {
                            if n >= self.max_include_depth {
                                proof {
                                    assert(pp_run(pre, dom, log_pre + Seq::empty(), maxd)
                                        == PpOutcome::DepthExceeded) by {
                                        assert(pp_run(pre, dom, Seq::empty(), maxd)
                                            == PpOutcome::DepthExceeded);
                                        assert(log_pre + Seq::<Result<Seq<char>, ()>>::empty()
                                            =~= log_pre);
                                    }
                                    assert(pp_run(pre, dom, Seq::empty(), maxd) == pp_run(
                                        st0,
                                        dom,
                                        log_pre + Seq::empty(),
                                        maxd,
                                    ));
                                    assert(log_pre + Seq::<Result<Seq<char>, ()>>::empty()
                                        =~= log_pre);
                                }
                                return Err(PreprocessError::MaxIncludeDepthReached);
                            }
                            if includes_count == usize::MAX {
                                proof {
                                    assert(pp_run(pre, dom, Seq::empty(), maxd)
                                        == PpOutcome::NeedsResolution);
                                    assert(pp_run(pre, dom, Seq::empty(), maxd) == pp_run(
                                        st0,
                                        dom,
                                        log_pre + Seq::empty(),
                                        maxd,
                                    ));
                                    assert(log_pre + Seq::<Result<Seq<char>, ()>>::empty()
                                        =~= log_pre);
                                }
                                return Err(PreprocessError::MaxIncludeDepthReached);
                            }
                            includes_count = includes_count + 1;
                            let resolved = self.include_cb.resolve(
                                &self.attribute_map,
                                target.as_str(),
                            );
                            match resolved {
                                Err(e) => {
                                    let ghost r0 = Err::<Seq<char>, ()>(());
                                    self.resolutions = Ghost(log_pre + seq![Err::<Seq<char>, ()>(())]);
                                    proof {
                                        assert((seq![r0] + Seq::<Result<Seq<char>, ()>>::empty())[0] == r0);
                                        assert(pp_run(pre, dom, seq![r0], maxd)
                                            == PpOutcome::IncludeFailed);
                                        assert(pp_run(pre, dom, seq![r0], maxd) == pp_run(
                                            st0,
                                            dom,
                                            log_pre + seq![r0],
                                            maxd,
                                        ));
                                    }
                                    return Err(PreprocessError::IncludeError(e));
                                },
                                Ok(src) => {
                                    let ghost srcv = src@;
                                    let ghost r0 = Ok::<Seq<char>, ()>(srcv);
                                    self.resolutions = Ghost(log_pre + seq![Ok::<Seq<char>, ()>(srcv)]);
                                    let inc_cursor = self.include_stack[n - 1].cursor;
                                    let inc_len = self.include_stack[n
                                        - 1].source.as_str().unicode_len();
                                    if inc_cursor >= inc_len {
                                        self.include_stack.pop();
                                    }
                                    self.include_stack.push(Include { source: src, cursor: 0 });
                                    proof {
                                        assert(self.pp_state().stack =~= pp_push_include(
                                            st1,
                                            srcv,
                                        ).stack);
                                        assert(self.pp_state() =~= pp_push_include(st1, srcv));
                                        assert forall|rest: Seq<Result<Seq<char>, ()>>|
                                            pp_run(pre, dom, seq![r0] + rest, maxd)
                                                == #[trigger] pp_run(
                                                self.pp_state(),
                                                dom,
                                                rest,
                                                maxd,
                                            ) by {
                                            assert((seq![r0] + rest)[0] == r0);
                                            assert((seq![r0] + rest).skip(1) =~= rest);
                                            assert((seq![r0] + rest).len() >= 1);
                                        }
                                        lemma_pp_chain_include(
                                            st0,
                                            dom,
                                            maxd,
                                            log_pre,
                                            pre,
                                            self.pp_state(),
                                            r0,
                                        );
                                    }
                                },
                            }
                        }
                    },
                    Directive::IfDef { targets, inline } => {
                        let ghost tv = targets@;
                        let ghost iv = inline.deep_view();
                        match inline {
                            Some(text) => {
                                if !self.skipping && check_targets_active(
                                    targets.as_str(),
                                    &self.attribute_map,
                                ) {
                                    Self::push_line(&mut self.amalgamated, text.as_str());
                                }
                            },
                            None => {
                                let active = check_targets_active(
                                    targets.as_str(),
                                    &self.attribute_map,
                                );
                                let frame_skipping = !self.skipping && !active;
                                self.conditional_stack.push(
                                    CondDirective { targets, skipping: frame_skipping },
                                );
                                self.skipping = self.skipping || !active;
                            },
                        }
                        proof {
                            assert(self.pp_state().conds =~= pp_cond(
                                st1,
                                dom,
                                tv,
                                iv,
                                false,
                            ).conds);
                            assert(self.pp_state() =~= pp_cond(st1, dom, tv, iv, false));
                            assert forall|rest: Seq<Result<Seq<char>, ()>>|
                                pp_run(pre, dom, rest, maxd) == #[trigger] pp_run(
                                    self.pp_state(),
                                    dom,
                                    rest,
                                    maxd,
                                ) by {}
                            lemma_pp_chain(st0, dom, maxd, log_pre, pre, self.pp_state());
                        }
                    },
                    Directive::IfNotDef { targets, inline } => {
                        let ghost tv = targets@;
                        let ghost iv = inline.deep_view();
                        match inline {
                            Some(text) => {
                                if !self.skipping && !check_targets_active(
                                    targets.as_str(),
                                    &self.attribute_map,
                                ) {
                                    Self::push_line(&mut self.amalgamated, text.as_str());
                                }
                            },
                            None => {
                                let active = check_targets_active(
                                    targets.as_str(),
                                    &self.attribute_map,
                                );
                                let frame_skipping = !self.skipping && active;
                                self.conditional_stack.push(
                                    CondDirective { targets, skipping: frame_skipping },
                                );
                                self.skipping = self.skipping || active;
                            },
                        }
                        proof {
                            assert(self.pp_state().conds =~= pp_cond(
                                st1,
                                dom,
                                tv,
                                iv,
                                true,
                            ).conds);
                            assert(self.pp_state() =~= pp_cond(st1, dom, tv, iv, true));
                            assert forall|rest: Seq<Result<Seq<char>, ()>>|
                                pp_run(pre, dom, rest, maxd) == #[trigger] pp_run(
                                    self.pp_state(),
                                    dom,
                                    rest,
                                    maxd,
                                ) by {}
                            lemma_pp_chain(st0, dom, maxd, log_pre, pre, self.pp_state());
                        }
                    },
                    Directive::IfEval { expr: _ } => {
                        // parsed but not evaluated: the guarded content is
                        // emitted unconditionally
                        proof {
                            assert forall|rest: Seq<Result<Seq<char>, ()>>|
                                pp_run(pre, dom, rest, maxd) == #[trigger] pp_run(
                                    self.pp_state(),
                                    dom,
                                    rest,
                                    maxd,
                                ) by {}
                            lemma_pp_chain(st0, dom, maxd, log_pre, pre, self.pp_state());
                        }
                    },
                }
            } else {
                if !self.skipping {
                    Self::push_line(&mut self.amalgamated, line.as_str());
                }
                proof {
                    assert(self.pp_state() =~= pp_plain(st1, line@));
                    assert forall|rest: Seq<Result<Seq<char>, ()>>|
                        pp_run(pre, dom, rest, maxd) == #[trigger] pp_run(
                            self.pp_state(),
                            dom,
                            rest,
                            maxd,
                        ) by {}
                    lemma_pp_chain(st0, dom, maxd, log_pre, pre, self.pp_state());
                }
            }
        }
        // strip one trailing newline
        let ghost out_pre = self.amalgamated@;
        proof {
            assert(pp_run(self.pp_state(), dom, Seq::empty(), maxd) == (PpOutcome::Done {
                output: strip_nl(out_pre),
            }));
            assert(pp_run(self.pp_state(), dom, Seq::empty(), maxd) == pp_run(
                st0,
                dom,
                self.spec_resolutions() + Seq::empty(),
                maxd,
            ));
            assert(self.spec_resolutions() + Seq::<Result<Seq<char>, ()>>::empty()
                =~= self.spec_resolutions());
        }
        let out_len = self.amalgamated.as_str().unicode_len();
        if out_len > 0 && self.amalgamated.as_str().get_char(out_len - 1) == '\n' {
            let stripped = String::from_str(
                self.amalgamated.as_str().substring_char(0, out_len - 1),
            );
            proof {
                assert(stripped@ =~= strip_nl(out_pre));
            }
            self.amalgamated = stripped;
        }
        Ok(())
    }

    /// Reserved: document-attribute lines (`:name: value`) do not update the
    /// attribute map; they fall through to plain-line handling.
    fn parse_doc_attrib(_line: &str) -> (r: Option<(String, Option<String>)>)
        ensures
            r is None,
    {
        None
    }
}

/// Chain one machine step into the recorded-run invariant.
proof fn lemma_pp_chain(
    st0: PpState,
    dom: Set<Seq<char>>,
    maxd: nat,
    log: Seq<Result<Seq<char>, ()>>,
    pre: PpState,
    cur: PpState,
)
    requires
        forall|rest: Seq<Result<Seq<char>, ()>>|
            pp_run(pre, dom, rest, maxd) == pp_run(st0, dom, #[trigger] (log + rest), maxd),
        forall|rest: Seq<Result<Seq<char>, ()>>|
            pp_run(pre, dom, rest, maxd) == #[trigger] pp_run(cur, dom, rest, maxd),
    ensures
        forall|rest: Seq<Result<Seq<char>, ()>>|
            pp_run(cur, dom, rest, maxd) == pp_run(st0, dom, #[trigger] (log + rest), maxd),
{
}

/// Chain a step that consumes one resolver answer into the invariant.
proof fn lemma_pp_chain_include(
    st0: PpState,
    dom: Set<Seq<char>>,
    maxd: nat,
    log: Seq<Result<Seq<char>, ()>>,
    pre: PpState,
    cur: PpState,
    r0: Result<Seq<char>, ()>,
)
    requires
        forall|rest: Seq<Result<Seq<char>, ()>>|
            pp_run(pre, dom, rest, maxd) == pp_run(st0, dom, #[trigger] (log + rest), maxd),
        forall|rest: Seq<Result<Seq<char>, ()>>|
            pp_run(pre, dom, seq![r0] + rest, maxd) == #[trigger] pp_run(cur, dom, rest, maxd),
    ensures
        forall|rest: Seq<Result<Seq<char>, ()>>|
            pp_run(cur, dom, rest, maxd) == pp_run(st0, dom, #[trigger] ((log + seq![r0]) + rest), maxd),
{
    assert forall|rest: Seq<Result<Seq<char>, ()>>|
        pp_run(cur, dom, rest, maxd) == pp_run(st0, dom, #[trigger] ((log + seq![r0]) + rest), maxd) by {
        assert(pp_run(pre, dom, seq![r0] + rest, maxd) == pp_run(cur, dom, rest, maxd));
        assert(pp_run(pre, dom, seq![r0] + rest, maxd) == pp_run(
            st0,
            dom,
            log + (seq![r0] + rest),
            maxd,
        ));
        assert((log + seq![r0]) + rest =~= log + (seq![r0] + rest));
    }
}

/// A document source amalgamated from its includes: the flat text the
/// parser consumes.
#[derive(Debug)]
pub struct DocumentSource {
    amalgamated: String,
}

impl View for DocumentSource {
    type V = Seq<char>;

    closed spec fn view(&self) -> Seq<char> {
        self.amalgamated@
    }
}

impl DocumentSource {
    /// Preprocess `source` with no attributes defined: the text is the
    /// output of a `pp_run` on the answers the callback gave.
    pub fn new<R: IncludeResolver>(source: &str, include_cb: R) -> (r: Result<
        DocumentSource,
        PreprocessError<R::Error>,
    >)
        ensures
            match r {
                Ok(ds) => exists|res: Seq<Result<Seq<char>, ()>>|
                    pp_run(pp_init(source@), Set::empty(), res, 64) == (PpOutcome::Done {
                        output: ds@,
                    }),
                Err(PreprocessError::MaxIncludeDepthReached) => exists|
                    res: Seq<Result<Seq<char>, ()>>,
                |
                    pp_run(pp_init(source@), Set::empty(), res, 64) == PpOutcome::DepthExceeded
                        || pp_run(pp_init(source@), Set::empty(), res, 64)
                        == PpOutcome::NeedsResolution,
                Err(PreprocessError::IncludeError(_)) => exists|res: Seq<Result<Seq<char>, ()>>|
                    pp_run(pp_init(source@), Set::empty(), res, 64) == PpOutcome::IncludeFailed,
            },
    {
        let mut pp = Preprocessor::new(source, include_cb, AttributeMap::default());
        proof {
            assert(pp.spec_attributes().dom() =~= Set::<Seq<char>>::empty());
        }
        match pp.amalgamate() {
            Ok(()) => {
                let text = pp.result();
                let ghost res = pp.spec_resolutions();
                let ds = DocumentSource { amalgamated: text };
                proof {
                    assert(pp_run(pp_init(source@), Set::empty(), res, 64) == (PpOutcome::Done {
                        output: ds@,
                    }));
                }
                Ok(ds)
            },
            Err(e) => {
                proof {
                    let res = pp.spec_resolutions();
                    match e {
                        PreprocessError::MaxIncludeDepthReached => {
                            assert(pp_run(pp_init(source@), Set::empty(), res, 64)
                                == PpOutcome::DepthExceeded || pp_run(
                                pp_init(source@),
                                Set::empty(),
                                res,
                                64,
                            ) == PpOutcome::NeedsResolution);
                        },
                        PreprocessError::IncludeError(_) => {
                            assert(pp_run(pp_init(source@), Set::empty(), res, 64)
                                == PpOutcome::IncludeFailed);
                        },
                    }
                }
                Err(e)
            },
        }
    }

    /// The amalgamated text.
    pub fn result(&self) -> (r: String)
        ensures
            r@ == self@,
    {
        self.amalgamated.clone()
    }
}

} // verus!
