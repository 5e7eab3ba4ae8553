use std::collections::VecDeque;

use vstd::prelude::*;
use crate::Error;
use crate::builtins::exec_builtin;
use crate::compiler::{
    cond_jumps_false, chunks_view, jumps_in_bounds, lemma_lower_chunks_wf, lower_chunks, muncher,
    nws_view, spec_lower_chunks, spec_muncher, toks_view,
};
use crate::dict::{assoc_get, assoc_has, assoc_insert, Dict};
use crate::runtime::{new_runtime, reset_cursor, RtV, Runtime, StepSpec, spec_step};
use crate::text::{push_dec_digits, spec_dec_digits, spec_lower, to_lowercase};
use crate::words::{
    FuncSeq, NamedWord, NamedWordV, Prim, RuntimeWord, StepResult, VerbSeqInner, WhichToken, WordV,
};

verus! {

/// A runtime together with the dictionary it runs against.
pub struct Context {
    pub rt: Runtime,
    pub dict: Dict,
}

/// What compiling one body comes to: lowercase every token, parse the
/// structured control words, and lower the chunks to bytecode.
pub open spec fn spec_compile(
    bis: Seq<(String, Prim)>,
    defs: Seq<(String, FuncSeq)>,
    toks: Seq<String>,
) -> Result<Seq<NamedWordV>, Error> {
    let low = toks.map_values(|t: String| spec_lower(t@));
    match spec_muncher(low, low.len() as nat) {
        Ok(cs) => spec_lower_chunks(bis, defs, cs),
        Err(e) => Err(e),
    }
}

/// Whatever the compiler emits keeps its jumps inside the emitted body and
/// only uses jump-on-zero conditional jumps.
pub proof fn lemma_compile_wf(
    bis: Seq<(String, Prim)>,
    defs: Seq<(String, FuncSeq)>,
    toks: Seq<String>,
)
    ensures
        spec_compile(bis, defs, toks) matches Ok(ws) ==> jumps_in_bounds(ws) && cond_jumps_false(
            ws,
        ),
{
    let low = toks.map_values(|t: String| spec_lower(t@));
    if spec_muncher(low, low.len() as nat) is Ok {
        lemma_lower_chunks_wf(bis, defs, spec_muncher(low, low.len() as nat)->Ok_0);
    }
}

/// Compiles one body's tokens against the dictionary.
pub fn compile(dict: &Dict, data: &Vec<String>) -> (r: Result<Vec<NamedWord>, Error>)
    ensures
        match spec_compile(dict.bis@, dict.data@, data@) {
            Ok(ws) => r matches Ok(v) && nws_view(v@) == ws,
            Err(e) => r == Err::<Vec<NamedWord>, Error>(e),
        },
{
    let ghost low = data@.map_values(|t: String| spec_lower(t@));
    let n = data.len();
    let mut vd: VecDeque<String> = VecDeque::new();
    let mut i: usize = 0;
    while i < n
        invariant
            i <= n,
            n == data@.len(),
            vd@.len() == i,
            forall|j: int| 0 <= j < i ==> (#[trigger] vd@[j])@ == spec_lower(data@[j]@),
        decreases n - i,
    {
        let lowered = to_lowercase(data[i].as_str());
        vd.push_back(lowered);
        i = i + 1;
    }
    proof {
        assert(toks_view(vd@) =~= low);
    }
    let chunks = match muncher(&mut vd) {
        Ok(cs) => cs,
        Err(e) => {
            return Err(e);
        },
    };
    proof {
        assert(chunks_view(chunks@) == spec_muncher(low, low.len() as nat)->Ok_0);
    }
    lower_chunks(dict, &chunks)
}

/// The generated name of the `i`-th anonymous definition.
pub open spec fn anon_name(i: nat) -> Seq<char> {
    seq!['_', '_'] + spec_dec_digits(i)
}

/// A definition line: it opens with `:` and closes with `;`.
pub open spec fn is_def_line(toks: Seq<String>) -> bool {
    toks.len() >= 2 && toks[0]@ == ":"@ && toks.last()@ == ";"@
}

/// The registry contents after registering `items` in order, each replacing
/// any earlier registration of its name.
pub open spec fn insert_all(s: Seq<(String, Prim)>, items: Seq<(String, Prim)>) -> Seq<
    (String, Prim),
>
    decreases items.len(),
{
    if items.len() == 0 {
        s
    } else {
        insert_all(assoc_insert(s, items[0].0@, items[0]), items.drop_first())
    }
}

/// The default set of host-registered primitives, under their canonical
/// lowercase names. The uppercase entry is the internal loop step: no
/// lowercased source token can reach it, but the loader resolves it by name
/// when an artifact holding a compiled loop is reloaded.
pub fn std_builtins() -> (r: Vec<(String, Prim)>)
    ensures
        r@.len() == 16,
        r@[0].0@ == "emit"@ && r@[0].1 == Prim::Emit,
        r@[1].0@ == "."@ && r@[1].1 == Prim::PrintTop,
        r@[2].0@ == "cr"@ && r@[2].1 == Prim::Cr,
        r@[3].0@ == ">r"@ && r@[3].1 == Prim::RetPush,
        r@[4].0@ == "r>"@ && r@[4].1 == Prim::RetPop,
        r@[5].0@ == "="@ && r@[5].1 == Prim::Equal,
        r@[6].0@ == "<"@ && r@[6].1 == Prim::Less,
        r@[7].0@ == ">"@ && r@[7].1 == Prim::Greater,
        r@[8].0@ == "dup"@ && r@[8].1 == Prim::Dup,
        r@[9].0@ == "+"@ && r@[9].1 == Prim::Add,
        r@[10].0@ == "drop"@ && r@[10].1 == Prim::DropTop,
        r@[11].0@ == "swap"@ && r@[11].1 == Prim::Swap,
        r@[12].0@ == "rot"@ && r@[12].1 == Prim::Rot,
        r@[13].0@ == "pick"@ && r@[13].1 == Prim::Pick,
        r@[14].0@ == "roll"@ && r@[14].1 == Prim::Roll,
        r@[15].0@ == "PRIV_LOOP"@ && r@[15].1 == Prim::PrivLoop,
{
    let mut v: Vec<(String, Prim)> = Vec::new();
    v.push(("emit".to_string(), Prim::Emit));
    v.push((".".to_string(), Prim::PrintTop));
    v.push(("cr".to_string(), Prim::Cr));
    v.push((">r".to_string(), Prim::RetPush));
    v.push(("r>".to_string(), Prim::RetPop));
    v.push(("=".to_string(), Prim::Equal));
    v.push(("<".to_string(), Prim::Less));
    v.push((">".to_string(), Prim::Greater));
    v.push(("dup".to_string(), Prim::Dup));
    v.push(("+".to_string(), Prim::Add));
    v.push(("drop".to_string(), Prim::DropTop));
    v.push(("swap".to_string(), Prim::Swap));
    v.push(("rot".to_string(), Prim::Rot));
    v.push(("pick".to_string(), Prim::Pick));
    v.push(("roll".to_string(), Prim::Roll));
    v.push(("PRIV_LOOP".to_string(), Prim::PrivLoop));
    v
}



/// The outcome of stepping a runtime to completion against a dictionary.
pub enum RunRes {
    /// The flow stack ran empty; `rt` is the whole runtime at that point.
    Finished { rt: RtV },
    /// A step or a primitive failed with `e`; `out` is the output written up
    /// to the failure (the stacks are reset before the error is surfaced).
    Failed { e: Error, out: Seq<char> },
    /// The step budget ran out with the program still working; `out` is the
    /// output written so far.
    Spent { out: Seq<char> },
}

/// The big-step semantics of the host dispatch loop, indexed by a step
/// budget: each round takes one interpreter step, then either stops (empty
/// flow stack), fails, executes the yielded primitive, or answers the
/// yielded call reference from the dictionary (feeding the word at the
/// call's cursor, or nothing past the definition's end, which pops the
/// caller). `res` is an outcome the loop can reach from `a`.
pub open spec fn spec_run(
    a: RtV,
    defs: Seq<(String, FuncSeq)>,
    fuel: nat,
    res: RunRes,
) -> bool
    decreases fuel,
{
    if fuel == 0 {
        res == (RunRes::Spent { out: a.out })
    } else {
        match spec_step(a.flow, a.data) {
            StepSpec::Done { data } => res == (RunRes::Finished {
                rt: RtV { data, ret: a.ret, flow: Seq::<WordV>::empty(), out: a.out },
            }),
            StepSpec::Fail { e } => res == (RunRes::Failed { e, out: a.out }),
            StepSpec::Prim { p, flow, data } => {
                let mid = RtV { data, ret: a.ret, flow, out: a.out };
                exists|b: RtV, pr: Result<(), Error>|
                    #[trigger] crate::builtins::builtin_effect(p, mid, b, pr) && match pr {
                        Ok(()) => spec_run(b, defs, (fuel - 1) as nat, res),
                        Err(e) => res == (RunRes::Failed { e, out: b.out }),
                    }
            },
            StepSpec::Call { tok, idx, flow, data } => {
                let mid = RtV { data, ret: a.ret, flow, out: a.out };
                if assoc_has(defs, tok) && idx < assoc_get(defs, tok)@.len() {
                    let w = assoc_get(defs, tok)@[idx as int].word;
                    spec_run(
                        RtV { flow: mid.flow.push(reset_cursor(w)), ..mid },
                        defs,
                        (fuel - 1) as nat,
                        res,
                    )
                } else if mid.flow.len() == 0 {
                    res == (RunRes::Failed { e: Error::FlowStackEmpty, out: mid.out })
                } else {
                    spec_run(
                        RtV { flow: mid.flow.drop_last(), ..mid },
                        defs,
                        (fuel - 1) as nat,
                        res,
                    )
                }
            },
        }
    }
}

/// Everything `evaluate` does, as a relation between the context before
/// (`pre`) and after (`post`) the call, the line's tokens and the result: a
/// definition line compiles its body and stores it under the lowercased
/// name; an empty line does nothing; any other line compiles under the next
/// anonymous name and queues a call to it; every failure names its cause and
/// leaves the context unchanged.
pub open spec fn evaluate_effect(
    pre: Context,
    post: Context,
    data: Seq<String>,
    r: Result<(), Error>,
) -> bool {
    &&& post.dict.bis == pre.dict.bis
    &&& post.rt.data_stk == pre.rt.data_stk
    &&& post.rt.ret_stk == pre.rt.ret_stk
    &&& post.rt.cur_output == pre.rt.cur_output
    &&& if is_def_line(data) {
        if data.len() < 3 {
            r == Err::<(), Error>(Error::InternalError) && post == pre
        } else {
            match spec_compile(pre.dict.bis@, pre.dict.data@, data.subrange(2, data.len() - 1)) {
                Ok(ws) => r == Ok::<(), Error>(()) && (exists|nm: String, fs: FuncSeq|
                    nm@ == spec_lower(data[1]@) && nws_view(fs.inner@) == ws && post.dict.data@
                        == assoc_insert(pre.dict.data@, spec_lower(data[1]@), (nm, fs)))
                    && post.dict.shame_idx == pre.dict.shame_idx && post.rt == pre.rt,
                Err(e) => r == Err::<(), Error>(e) && post == pre,
            }
        }
    } else if data.len() == 0 {
        r == Ok::<(), Error>(()) && post == pre
    } else if pre.dict.shame_idx == usize::MAX {
        r == Err::<(), Error>(Error::BadMath) && post == pre
    } else {
        match spec_compile(pre.dict.bis@, pre.dict.data@, data) {
            Ok(ws) => r == Ok::<(), Error>(()) && (exists|nm: String, fs: FuncSeq|
                nm@ == anon_name(pre.dict.shame_idx as nat) && nws_view(fs.inner@) == ws
                    && post.dict.data@ == assoc_insert(
                    pre.dict.data@,
                    anon_name(pre.dict.shame_idx as nat),
                    (nm, fs),
                )) && post.dict.shame_idx == pre.dict.shame_idx + 1 && post.rt.flow()
                == pre.rt.flow().push(WordV::Call(anon_name(pre.dict.shame_idx as nat), 0)),
            Err(e) => r == Err::<(), Error>(e) && post == pre,
        }
    }
}

impl Context {
    /// A fresh context whose registry holds exactly the given primitives.
    pub fn with_builtins(bi: Vec<(String, Prim)>) -> (r: Context)
        ensures
            r.rt.data_stk@ == Seq::<i32>::empty(),
            r.rt.ret_stk@ == Seq::<i32>::empty(),
            r.rt.flow().len() == 0,
            r.rt.cur_output@ == Seq::<char>::empty(),
            r.dict.bis@ == insert_all(Seq::<(String, Prim)>::empty(), bi@),
            r.dict.data@ == Seq::<(String, FuncSeq)>::empty(),
            r.dict.shame_idx == 0,
    {
        let mut ctxt = Context { rt: new_runtime(), dict: Dict::new() };
        let n = bi.len();
        let mut i: usize = 0;
        proof {
            assert(bi@.subrange(0, n as int) =~= bi@);
        }
        while i < n
            invariant
                i <= n,
                n == bi@.len(),
                ctxt.rt.data_stk@ == Seq::<i32>::empty(),
                ctxt.rt.ret_stk@ == Seq::<i32>::empty(),
                ctxt.rt.flow().len() == 0,
                ctxt.rt.cur_output@ == Seq::<char>::empty(),
                ctxt.dict.data@ == Seq::<(String, FuncSeq)>::empty(),
                ctxt.dict.shame_idx == 0,
                insert_all(Seq::<(String, Prim)>::empty(), bi@) == insert_all(
                    ctxt.dict.bis@,
                    bi@.subrange(i as int, n as int),
                ),
            decreases n - i,
        {
            let ghost pend = bi@.subrange(i as int, n as int);
            proof {
                assert(pend[0] == bi@[i as int]);
                assert(pend.drop_first() =~= bi@.subrange(i + 1, n as int));
            }
            let name = bi[i].0.clone();
            let p = bi[i].1;
            ctxt.dict.insert_bi(name, p);
            i = i + 1;
        }
        proof {
            assert(bi@.subrange(n as int, n as int) =~= Seq::<(String, Prim)>::empty());
        }
        ctxt
    }

    /// Evaluates one source line. A line `: NAME body ;` compiles `body` and
    /// stores it under the lowercased name; any other non-empty line is
    /// compiled under a fresh anonymous name and queued for execution. A
    /// failed compile leaves the whole context unchanged.
    pub fn evaluate(&mut self, data: Vec<String>) -> (r: Result<(), Error>)
        ensures
            evaluate_effect(*old(self), *final(self), data@, r),
    {
        let n = data.len();
        let is_def = n >= 2 && crate::text::str_eq(data[0].as_str(), ":") && crate::text::str_eq(
            data[n - 1].as_str(),
            ";",
        );
        if is_def {
            if n < 3 {
                return Err(Error::InternalError);
            }
            let name = to_lowercase(data[1].as_str());
            let mut body: Vec<String> = Vec::new();
            let mut i: usize = 2;
            while i < n - 1
                invariant
                    2 <= i <= n - 1,
                    n == data@.len(),
                    body@ =~= data@.subrange(2, i as int),
                decreases n - i,
            {
                body.push(data[i].clone());
                proof {
                    assert(body@ =~= data@.subrange(2, i + 1));
                }
                i = i + 1;
            }
            proof {
                assert(body@ =~= data@.subrange(2, data@.len() - 1));
            }
            let compiled = match compile(&self.dict, &body) {
                Ok(ws) => ws,
                Err(e) => {
                    return Err(e);
                },
            };
            let fs = FuncSeq { inner: compiled };
            let ghost fsg = fs;
            self.dict.insert_data(name, fs);
            proof {
                assert(nws_view(fsg.inner@) == spec_compile(
                    old(self).dict.bis@,
                    old(self).dict.data@,
                    data@.subrange(2, data@.len() - 1),
                )->Ok_0);
            }
            Ok(())
        } else {
            if n == 0 {
                return Ok(());
            }
            if self.dict.shame_idx == usize::MAX {
                return Err(Error::BadMath);
            }
            let compiled = match compile(&self.dict, &data) {
                Ok(ws) => ws,
                Err(e) => {
                    return Err(e);
                },
            };
            let mut name = "__".to_string();
            push_dec_digits(&mut name, self.dict.shame_idx as u64);
            proof {
                reveal_strlit("__");
                assert(name@ =~= anon_name(old(self).dict.shame_idx as nat));
            }
            let name2 = name.clone();
            let fs = FuncSeq { inner: compiled };
            let ghost fsg = fs;
            self.dict.insert_data(name, fs);
            self.dict.shame_idx = self.dict.shame_idx + 1;
            self.rt.push_exec(RuntimeWord::VerbSeq(VerbSeqInner::from_word(name2)));
            Ok(())
        }
    }

    /// One interpreter step against this context's runtime.
    pub fn step(&mut self) -> (r: Result<StepResult, Error>)
        ensures
            final(self).dict == old(self).dict,
            final(self).rt.cur_output == old(self).rt.cur_output,
            match spec_step(old(self).rt.flow(), old(self).rt.data_stk@) {
                StepSpec::Done { data } => r == Ok::<StepResult, Error>(StepResult::Done) && final(self).rt.flow().len() == 0 && final(self).rt.data_stk@ == data && final(self).rt.ret_stk
                    == old(self).rt.ret_stk,
                StepSpec::Prim { p, flow, data } => r == Ok::<StepResult, Error>(
                    StepResult::Working(WhichToken::Single(p)),
                ) && final(self).rt.flow() == flow && final(self).rt.data_stk@ == data && final(self).rt.ret_stk == old(self).rt.ret_stk,
                StepSpec::Call { tok, idx, flow, data } => (r matches Ok(
                    StepResult::Working(WhichToken::Ref(v)),
                ) && v.tok@ == tok && v.idx == idx) && final(self).rt.flow() == flow && final(self).rt.data_stk@ == data && final(self).rt.ret_stk == old(self).rt.ret_stk,
                StepSpec::Fail { e } => r == Err::<StepResult, Error>(e) && final(self).rt.flow().len() == 0 && final(self).rt.data_stk@.len() == 0 && final(self).rt.ret_stk@.len() == 0,
            },
    {
        self.rt.step()
    }

    /// Steps the runtime to completion, executing each yielded primitive and
    /// resolving each yielded call against the dictionary; the whole run is
    /// an outcome of the big-step semantics `spec_run`. On any error the
    /// three stacks are cleared before the error is surfaced, so the runtime
    /// comes back empty either way; the output sink only grows. The loop
    /// carries a step budget far beyond anything a host could wait for, so
    /// that it provably makes progress; a program still working when the
    /// budget ends is reported as an internal error, with the same reset.
    pub fn run_blocking(&mut self) -> (r: Result<(), Error>)
        ensures
            final(self).dict == old(self).dict,
            final(self).rt.cur_output@.len() >= old(self).rt.cur_output@.len(),
            final(self).rt.cur_output@.subrange(0, old(self).rt.cur_output@.len() as int) == old(
                self,
            ).rt.cur_output@,
            r is Ok ==> final(self).rt.flow().len() == 0 && spec_run(
                old(self).rt@,
                old(self).dict.data@,
                u64::MAX as nat,
                (RunRes::Finished { rt: final(self).rt@ }),
            ),
            r matches Err(e) ==> final(self).rt.flow().len() == 0 && final(self).rt.data_stk@.len() == 0 && final(self).rt.ret_stk@.len() == 0 && (spec_run(
                old(self).rt@,
                old(self).dict.data@,
                u64::MAX as nat,
                (RunRes::Failed { e, out: final(self).rt@.out }),
            ) || (e == Error::InternalError && spec_run(
                old(self).rt@,
                old(self).dict.data@,
                u64::MAX as nat,
                (RunRes::Spent { out: final(self).rt@.out }),
            ))),
    {
        let ghost rt0 = old(self).rt@;
        let ghost defs0 = old(self).dict.data@;
        let ghost out0 = old(self).rt.cur_output@;
        let mut budget: u64 = u64::MAX;
        while budget > 0
            invariant
                out0 == old(self).rt.cur_output@,
                rt0 == old(self).rt@,
                defs0 == old(self).dict.data@,
                self.dict == old(self).dict,
                self.rt.cur_output@.len() >= out0.len(),
                self.rt.cur_output@.subrange(0, out0.len() as int) == out0,
                forall|res: RunRes|
                    #[trigger] spec_run(self.rt@, defs0, budget as nat, res) ==> spec_run(
                        rt0,
                        defs0,
                        u64::MAX as nat,
                        res,
                    ),
            decreases budget,
        {
            budget = budget - 1;
            let ghost fuel1: nat = (budget + 1) as nat;
            let ghost cur = self.rt@;
            let ghost outc = self.rt.cur_output@;
            match self.rt.step() {
                Ok(StepResult::Done) => {
                    proof {
                        assert(self.rt@.flow =~= Seq::<WordV>::empty());
                        assert(spec_run(cur, defs0, fuel1, (RunRes::Finished { rt: self.rt@ })));
                    }
                    return Ok(());
                },
                Ok(StepResult::Working(WhichToken::Single(p))) => {
                    let ghost mid = self.rt@;
                    match exec_builtin(&mut self.rt, p) {
                        Ok(()) => {
                            proof {
                                assert(self.rt.cur_output@.subrange(0, outc.len() as int)
                                    =~= outc);
                                lemma_prefix_chain(out0, outc, self.rt.cur_output@);
                                let b = self.rt@;
                                assert forall|res: RunRes|
                                    #[trigger] spec_run(b, defs0, budget as nat, res) implies
                                    spec_run(rt0, defs0, u64::MAX as nat, res) by {
                                    assert(crate::builtins::builtin_effect(
                                        p,
                                        mid,
                                        b,
                                        Ok::<(), Error>(()),
                                    ));
                                    assert(spec_run(cur, defs0, fuel1, res));
                                }
                            }
                        },
                        Err(e) => {
                            let ghost b = self.rt@;
                            self.rt.flow_stk.clear();
                            self.rt.data_stk.clear();
                            self.rt.ret_stk.clear();
                            proof {
                                assert(self.rt.flow() =~= Seq::<WordV>::empty());
                                assert(crate::builtins::builtin_effect(
                                    p,
                                    mid,
                                    b,
                                    Err::<(), Error>(e),
                                ));
                                assert(spec_run(
                                    cur,
                                    defs0,
                                    fuel1,
                                    (RunRes::Failed { e, out: self.rt@.out }),
                                ));
                            }
                            return Err(e);
                        },
                    }
                },
                Ok(StepResult::Working(WhichToken::Ref(v))) => {
                    let word = match self.dict.get_def_word(v.tok.as_str(), v.idx) {
                        Some(nw) => Some(nw.word),
                        None => None,
                    };
                    match self.rt.provide_seq_tok(word) {
                        Ok(()) => {
                            proof {
                                let b = self.rt@;
                                assert forall|res: RunRes|
                                    #[trigger] spec_run(b, defs0, budget as nat, res) implies
                                    spec_run(rt0, defs0, u64::MAX as nat, res) by {
                                    assert(spec_run(cur, defs0, fuel1, res));
                                }
                            }
                        },
                        Err(e) => {
                            self.rt.flow_stk.clear();
                            self.rt.data_stk.clear();
                            self.rt.ret_stk.clear();
                            proof {
                                assert(self.rt.flow() =~= Seq::<WordV>::empty());
                                assert(spec_run(
                                    cur,
                                    defs0,
                                    fuel1,
                                    (RunRes::Failed { e, out: self.rt@.out }),
                                ));
                            }
                            return Err(e);
                        },
                    }
                },
                Err(e) => {
                    proof {
                        assert(spec_run(
                            cur,
                            defs0,
                            fuel1,
                            (RunRes::Failed { e, out: self.rt@.out }),
                        ));
                    }
                    return Err(e);
                },
            }
        }
        let ghost cur = self.rt@;
        self.rt.flow_stk.clear();
        self.rt.data_stk.clear();
        self.rt.ret_stk.clear();
        proof {
            assert(self.rt.flow() =~= Seq::<WordV>::empty());
            assert(spec_run(cur, defs0, 0, (RunRes::Spent { out: self.rt@.out })));
        }
        Err(Error::InternalError)
    }

    /// The data stack, for inspection.
    pub fn data_stack(&self) -> (r: &crate::stack::Stack)
        ensures
            r@ == self.rt.data_stk@,
    {
        &self.rt.data_stk
    }

    /// The return stack, for inspection.
    pub fn return_stack(&self) -> (r: &crate::stack::Stack)
        ensures
            r@ == self.rt.ret_stk@,
    {
        &self.rt.ret_stk
    }

    /// The flow stack, for inspection.
    pub fn flow_stack(&self) -> (r: &Vec<RuntimeWord>)
        ensures
            r@.map_values(|w: RuntimeWord| w@) == self.rt.flow(),
    {
        &self.rt.flow_stk
    }

    /// Takes everything written to the output sink since the last call.
    pub fn output(&mut self) -> (r: String)
        ensures
            r@ == old(self).rt.cur_output@,
            final(self).rt.cur_output@ == Seq::<char>::empty(),
            final(self).rt.data_stk == old(self).rt.data_stk,
            final(self).rt.ret_stk == old(self).rt.ret_stk,
            final(self).rt.flow_stk == old(self).rt.flow_stk,
            final(self).dict == old(self).dict,
    {
        self.rt.exchange_output()
    }

    /// Pushes a word onto the flow stack as an entry point.
    pub fn push_exec(&mut self, word: RuntimeWord)
        ensures
            final(self).dict == old(self).dict,
            final(self).rt.data_stk == old(self).rt.data_stk,
            final(self).rt.ret_stk == old(self).rt.ret_stk,
            final(self).rt.cur_output == old(self).rt.cur_output,
            final(self).rt.flow() == old(self).rt.flow().push(
                crate::runtime::reset_cursor(word@),
            ),
    {
        self.rt.push_exec(word)
    }
}

/// Prefix-of is transitive along the output sink's growth.
proof fn lemma_prefix_chain(a: Seq<char>, b: Seq<char>, c: Seq<char>)
    requires
        b.len() >= a.len(),
        b.subrange(0, a.len() as int) == a,
        c.len() >= b.len(),
        c.subrange(0, b.len() as int) == b,
    ensures
        c.len() >= a.len(),
        c.subrange(0, a.len() as int) == a,
{
    assert(c.subrange(0, a.len() as int) =~= b.subrange(0, a.len() as int));
}

/// Evaluates one source line against a context.
pub fn evaluate(ctxt: &mut Context, data: Vec<String>) -> (r: Result<(), Error>)
    ensures
        evaluate_effect(*old(ctxt), *final(ctxt), data@, r),
{
    ctxt.evaluate(data)
}


/// Whether the registry binds the two primitives that `do`/`loop` lowering
/// emits by name, as the default registry does (less the internal loop step,
/// which a host must register itself before reloading artifacts that use it).
pub open spec fn loop_prims_bound(bis: Seq<(String, Prim)>) -> bool {
    &&& crate::dict::assoc_has(bis, ">r"@) && crate::dict::assoc_get(bis, ">r"@) == Prim::RetPush
    &&& crate::dict::assoc_has(bis, "PRIV_LOOP"@) && crate::dict::assoc_get(bis, "PRIV_LOOP"@)
        == Prim::PrivLoop
}

/// Everything the compiler emits is coherent with the registry it compiled
/// against: primitive words resolve by their own names to their own
/// primitives, and call frames are stored at cursor zero. Together with the
/// round-trip law, a compiled dictionary reloads into word-identical
/// definitions.
pub proof fn lemma_compile_coherent(
    bis: Seq<(String, Prim)>,
    defs: Seq<(String, FuncSeq)>,
    toks: Seq<String>,
)
    requires
        loop_prims_bound(bis),
    ensures
        spec_compile(bis, defs, toks) matches Ok(ws) ==> forall|j: int|
            0 <= j < ws.len() ==> crate::ser_de::word_coherent(#[trigger] ws[j], bis),
{
    let low = toks.map_values(|t: String| spec_lower(t@));
    if spec_muncher(low, low.len() as nat) is Ok {
        lemma_lower_chunks_coherent(bis, defs, spec_muncher(low, low.len() as nat)->Ok_0);
    }
}

/// Coherence of one lowered chunk.
proof fn lemma_lower_chunk_coherent(
    bis: Seq<(String, Prim)>,
    defs: Seq<(String, FuncSeq)>,
    c: crate::compiler::ChunkV,
)
    requires
        loop_prims_bound(bis),
    ensures
        crate::compiler::spec_lower_chunk(bis, defs, c) matches Ok(ws) ==> forall|j: int|
            0 <= j < ws.len() ==> crate::ser_de::word_coherent(#[trigger] ws[j], bis),
    decreases c,
{
    match c {
        crate::compiler::ChunkV::Token(_t) => {},
        crate::compiler::ChunkV::IfThen(body) => {
            lemma_lower_chunks_coherent(bis, defs, body);
            if crate::compiler::spec_lower_chunk(bis, defs, c) is Ok {
                let bw = crate::compiler::spec_lower_chunks(bis, defs, body)->Ok_0;
                let ws = crate::compiler::spec_lower_chunk(bis, defs, c)->Ok_0;
                assert forall|j: int| 0 <= j < ws.len() implies crate::ser_de::word_coherent(
                    #[trigger] ws[j],
                    bis,
                ) by {
                    if j >= 1 {
                        assert(ws[j] == bw[j - 1]);
                    }
                }
            }
        },
        crate::compiler::ChunkV::IfElseThen(if_body, else_body) => {
            lemma_lower_chunks_coherent(bis, defs, if_body);
            lemma_lower_chunks_coherent(bis, defs, else_body);
            if crate::compiler::spec_lower_chunk(bis, defs, c) is Ok {
                let iw = crate::compiler::spec_lower_chunks(bis, defs, if_body)->Ok_0;
                let ew = crate::compiler::spec_lower_chunks(bis, defs, else_body)->Ok_0;
                let ws = crate::compiler::spec_lower_chunk(bis, defs, c)->Ok_0;
                assert forall|j: int| 0 <= j < ws.len() implies crate::ser_de::word_coherent(
                    #[trigger] ws[j],
                    bis,
                ) by {
                    if 1 <= j < 1 + iw.len() {
                        assert(ws[j] == iw[j - 1]);
                    } else if j >= 2 + iw.len() {
                        assert(ws[j] == ew[j - 2 - iw.len()]);
                    }
                }
            }
        },
        crate::compiler::ChunkV::DoLoop(body) => {
            lemma_lower_chunks_coherent(bis, defs, body);
            if crate::compiler::spec_lower_chunk(bis, defs, c) is Ok {
                let bw = crate::compiler::spec_lower_chunks(bis, defs, body)->Ok_0;
                let ws = crate::compiler::spec_lower_chunk(bis, defs, c)->Ok_0;
                assert forall|j: int| 0 <= j < ws.len() implies crate::ser_de::word_coherent(
                    #[trigger] ws[j],
                    bis,
                ) by {
                    if 2 <= j < 2 + bw.len() {
                        assert(ws[j] == bw[j - 2]);
                    }
                }
            }
        },
    }
}

/// Coherence of a lowered chunk sequence.
proof fn lemma_lower_chunks_coherent(
    bis: Seq<(String, Prim)>,
    defs: Seq<(String, FuncSeq)>,
    s: Seq<crate::compiler::ChunkV>,
)
    requires
        loop_prims_bound(bis),
    ensures
        crate::compiler::spec_lower_chunks(bis, defs, s) matches Ok(ws) ==> forall|j: int|
            0 <= j < ws.len() ==> crate::ser_de::word_coherent(#[trigger] ws[j], bis),
    decreases s,
{
    if s.len() > 0 {
        lemma_lower_chunk_coherent(bis, defs, s[0]);
        lemma_lower_chunks_coherent(bis, defs, s.drop_first());
        if crate::compiler::spec_lower_chunks(bis, defs, s) is Ok {
            let a = crate::compiler::spec_lower_chunk(bis, defs, s[0])->Ok_0;
            let b = crate::compiler::spec_lower_chunks(bis, defs, s.drop_first())->Ok_0;
            let ws = crate::compiler::spec_lower_chunks(bis, defs, s)->Ok_0;
            assert forall|j: int| 0 <= j < ws.len() implies crate::ser_de::word_coherent(
                #[trigger] ws[j],
                bis,
            ) by {
                if j < a.len() {
                    assert(ws[j] == a[j]);
                } else {
                    assert(ws[j] == b[j - a.len()]);
                }
            }
        }
    }
}

} // verus!
