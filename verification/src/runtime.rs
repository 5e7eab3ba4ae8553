use vstd::prelude::*;
use crate::Error;
use crate::stack::Stack;
use crate::words::{Prim, RuntimeWord, StepResult, VerbSeqInner, WhichToken, WordV};

verus! {

/// The interpreter state: three stacks and the output sink.
pub struct Runtime {
    pub data_stk: Stack,
    pub ret_stk: Stack,
    pub flow_stk: Vec<RuntimeWord>,
    pub cur_output: String,
}

/// The outcome that a single `step` call is specified to produce, computed
/// from the flow and data stacks alone.
pub enum StepSpec {
    /// The flow stack ran empty; `data` is the data stack on return.
    Done { data: Seq<i32> },
    /// The step yields primitive `p`; `flow` and `data` are the stacks on return.
    Prim { p: Prim, flow: Seq<WordV>, data: Seq<i32> },
    /// The step yields the sub-definition reference `(tok, idx)`.
    Call { tok: Seq<char>, idx: nat, flow: Seq<WordV>, data: Seq<i32> },
    /// The step fails with `e` and the runtime resets all three stacks.
    Fail { e: Error },
}

/// Applying a recorded jump to the new top frame: the frame must be a call
/// frame, and the adjusted cursor must neither drop below zero nor overflow.
pub open spec fn spec_apply_jump(flow: Seq<WordV>, off: i32) -> Result<Seq<WordV>, Error> {
    if flow.len() == 0 {
        Err(Error::FlowStackEmpty)
    } else {
        match flow.last() {
            WordV::Call(tok, idx) => {
                if off < 0 {
                    if idx < -(off as int) {
                        Err(Error::BadMath)
                    } else {
                        Ok(flow.update(flow.len() - 1, WordV::Call(tok, (idx - -(off as int)) as nat)))
                    }
                } else {
                    if idx + off > usize::MAX {
                        Err(Error::BadMath)
                    } else {
                        Ok(flow.update(flow.len() - 1, WordV::Call(tok, (idx + off) as nat)))
                    }
                }
            },
            _ => Err(Error::InternalError),
        }
    }
}

/// What one `step` does: literals, jumps and conditional jumps are executed
/// internally; the step ends at an empty flow stack, at a primitive, at a
/// sub-definition entry, or at an error.
pub open spec fn spec_step(flow: Seq<WordV>, data: Seq<i32>) -> StepSpec
    decreases flow.len(),
{
    if flow.len() == 0 {
        StepSpec::Done { data }
    } else {
        match flow.last() {
            WordV::Lit(v) => spec_step(flow.drop_last(), data.push(v)),
            WordV::Verb(p) => StepSpec::Prim { p, flow: flow.drop_last(), data },
            WordV::Call(tok, idx) => if idx + 1 > usize::MAX {
                StepSpec::Fail { e: Error::BadMath }
            } else {
                StepSpec::Call {
                    tok,
                    idx,
                    flow: flow.update(flow.len() - 1, WordV::Call(tok, idx + 1)),
                    data,
                }
            },
            WordV::Jump(off) => {
                let applied = spec_apply_jump(flow.drop_last(), off);
                if applied is Ok {
                    spec_step(applied->Ok_0, data)
                } else {
                    StepSpec::Fail { e: applied->Err_0 }
                }
            },
            WordV::CondJump(off, jump_on) => if data.len() == 0 {
                StepSpec::Fail { e: Error::DataStackUnderflow }
            } else {
                let top = data.last();
                let d2 = data.drop_last();
                if (top == 0) != jump_on {
                    let applied = spec_apply_jump(flow.drop_last(), off);
                    if applied is Ok {
                        spec_step(applied->Ok_0, d2)
                    } else {
                        StepSpec::Fail { e: applied->Err_0 }
                    }
                } else {
                    spec_step(flow.drop_last(), d2)
                }
            },
        }
    }
}

/// The mathematical value of a runtime: its three stacks and output sink.
pub struct RtV {
    pub data: Seq<i32>,
    pub ret: Seq<i32>,
    pub flow: Seq<WordV>,
    pub out: Seq<char>,
}

impl View for Runtime {
    type V = RtV;

    open spec fn view(&self) -> RtV {
        RtV {
            data: self.data_stk@,
            ret: self.ret_stk@,
            flow: self.flow_stk@.map_values(|w: RuntimeWord| w@),
            out: self.cur_output@,
        }
    }
}

impl Runtime {
    /// The mathematical value of the flow stack, bottom first.
    pub open spec fn flow(&self) -> Seq<WordV> {
        self.flow_stk@.map_values(|w: RuntimeWord| w@)
    }

    /// Pops the top flow frame, adjusts its replacement's cursor by `off`.
    fn apply_jump(&mut self, off: i32) -> (r: Result<(), Error>)
        ensures
            final(self).data_stk == old(self).data_stk,
            final(self).ret_stk == old(self).ret_stk,
            final(self).cur_output == old(self).cur_output,
            match spec_apply_jump(old(self).flow(), off) {
                Ok(f2) => r == Ok::<(), Error>(()) && final(self).flow() == f2,
                Err(e) => r == Err::<(), Error>(e),
            },
    {
        let n = self.flow_stk.len();
        if n == 0 {
            return Err(Error::FlowStackEmpty);
        }
        let frame = self.flow_stk.pop().unwrap();
        match frame {
            RuntimeWord::VerbSeq(vsi) => {
                let new_idx: usize;
                if off < 0 {
                    let mag = (-(off as i64)) as usize;
                    if vsi.idx < mag {
                        return Err(Error::BadMath);
                    }
                    new_idx = vsi.idx - mag;
                } else {
                    let mag = off as usize;
                    match vsi.idx.checked_add(mag) {
                        Some(v) => { new_idx = v; },
                        None => { return Err(Error::BadMath); },
                    }
                }
                self.flow_stk.push(RuntimeWord::VerbSeq(VerbSeqInner { tok: vsi.tok, idx: new_idx }));
                proof {
                    assert(self.flow() =~= old(self).flow().update(
                        old(self).flow().len() - 1,
                        self.flow().last(),
                    ));
                }
                Ok(())
            },
            _ => Err(Error::InternalError),
        }
    }

    /// Runs the stepping loop; on an error the stacks are left as they were
    /// at the point of failure (the public `step` resets them).
    fn step_inner(&mut self) -> (r: Result<StepResult, Error>)
        ensures
            final(self).ret_stk == old(self).ret_stk,
            final(self).cur_output == old(self).cur_output,
            match spec_step(old(self).flow(), old(self).data_stk@) {
                StepSpec::Done { data } => r == Ok::<StepResult, Error>(StepResult::Done)
                    && final(self).flow().len() == 0 && final(self).data_stk@ == data,
                StepSpec::Prim { p, flow, data } => r == Ok::<StepResult, Error>(
                    StepResult::Working(WhichToken::Single(p)),
                ) && final(self).flow() == flow && final(self).data_stk@ == data,
                StepSpec::Call { tok, idx, flow, data } => (r matches Ok(
                    StepResult::Working(WhichToken::Ref(v)),
                ) && v.tok@ == tok && v.idx == idx) && final(self).flow() == flow
                    && final(self).data_stk@ == data,
                StepSpec::Fail { e } => r == Err::<StepResult, Error>(e),
            },
    {
        loop
            invariant
                self.ret_stk == old(self).ret_stk,
                self.cur_output == old(self).cur_output,
                spec_step(old(self).flow(), old(self).data_stk@) == spec_step(
                    self.flow(),
                    self.data_stk@,
                ),
            decreases self.flow_stk.len(),
        {
            let n = self.flow_stk.len();
            if n == 0 {
                return Ok(StepResult::Done);
            }
            let ghost flow0 = self.flow();
            let ghost data0 = self.data_stk@;
            assert(flow0.last() == self.flow_stk@[n - 1]@);
            match &self.flow_stk[n - 1] {
                RuntimeWord::LiteralVal(v) => {
                    let v = *v;
                    self.data_stk.push(v);
                    self.flow_stk.pop();
                    proof {
                        assert(self.flow() =~= flow0.drop_last());
                    }
                },
                RuntimeWord::Verb(p) => {
                    let p = *p;
                    self.flow_stk.pop();
                    proof {
                        assert(self.flow() =~= flow0.drop_last());
                    }
                    return Ok(StepResult::Working(WhichToken::Single(p)));
                },
                RuntimeWord::VerbSeq(vsi) => {
                    let tok = vsi.tok.clone();
                    let idx = vsi.idx;
                    if idx == usize::MAX {
                        return Err(Error::BadMath);
                    }
                    let tok2 = tok.clone();
                    self.flow_stk.pop();
                    self.flow_stk.push(
                        RuntimeWord::VerbSeq(VerbSeqInner { tok: tok2, idx: idx + 1 }),
                    );
                    proof {
                        assert(self.flow() =~= flow0.update(
                            flow0.len() - 1,
                            WordV::Call(tok@, (idx + 1) as nat),
                        ));
                    }
                    return Ok(StepResult::Working(WhichToken::Ref(
                        VerbSeqInner { tok, idx },
                    )));
                },
                RuntimeWord::UncondRelativeJump { offset } => {
                    let off = *offset;
                    self.flow_stk.pop();
                    proof {
                        assert(self.flow() =~= flow0.drop_last());
                    }
                    match self.apply_jump(off) {
                        Ok(()) => {},
                        Err(e) => {
                            return Err(e);
                        },
                    }
                },
                RuntimeWord::CondRelativeJump { offset, jump_on } => {
                    let off = *offset;
                    let jump_on = *jump_on;
                    let top = match self.data_stk.pop() {
                        Ok(v) => v,
                        Err(e) => {
                            return Err(e);
                        },
                    };
                    self.flow_stk.pop();
                    proof {
                        assert(self.flow() =~= flow0.drop_last());
                    }
                    let do_jump = (top == 0) != jump_on;
                    if do_jump {
                        match self.apply_jump(off) {
                            Ok(()) => {},
                            Err(e) => {
                                return Err(e);
                            },
                        }
                    }
                },
            }
        }
    }

    /// One interpreter step. On any error from the stepping loop the three
    /// stacks are cleared before the error is surfaced (atomic reset); the
    /// output sink is never touched.
    pub fn step(&mut self) -> (r: Result<StepResult, Error>)
        ensures
            final(self).cur_output == old(self).cur_output,
            match spec_step(old(self).flow(), old(self).data_stk@) {
                StepSpec::Done { data } => r == Ok::<StepResult, Error>(StepResult::Done)
                    && final(self).flow().len() == 0 && final(self).data_stk@ == data
                    && final(self).ret_stk == old(self).ret_stk,
                StepSpec::Prim { p, flow, data } => r == Ok::<StepResult, Error>(
                    StepResult::Working(WhichToken::Single(p)),
                ) && final(self).flow() == flow && final(self).data_stk@ == data
                    && final(self).ret_stk == old(self).ret_stk,
                StepSpec::Call { tok, idx, flow, data } => (r matches Ok(
                    StepResult::Working(WhichToken::Ref(v)),
                ) && v.tok@ == tok && v.idx == idx) && final(self).flow() == flow
                    && final(self).data_stk@ == data
                    && final(self).ret_stk == old(self).ret_stk,
                StepSpec::Fail { e } => r == Err::<StepResult, Error>(e)
                    && final(self).flow().len() == 0 && final(self).data_stk@.len() == 0
                    && final(self).ret_stk@.len() == 0,
            },
    {
        match self.step_inner() {
            Ok(r) => Ok(r),
            Err(e) => {
                self.flow_stk.clear();
                self.data_stk.clear();
                self.ret_stk.clear();
                proof {
                    assert(self.flow() =~= Seq::<WordV>::empty());
                }
                Err(e)
            },
        }
    }

    /// Feeds the interpreter the next word of the sub-definition it yielded,
    /// or `None` when the definition's end was reached (which pops the
    /// caller's frame).
    pub fn provide_seq_tok(&mut self, seq: Option<RuntimeWord>) -> (r: Result<(), Error>)
        ensures
            final(self).data_stk == old(self).data_stk,
            final(self).ret_stk == old(self).ret_stk,
            final(self).cur_output == old(self).cur_output,
            match seq {
                Some(word) => r == Ok::<(), Error>(()) && final(self).flow() == old(self).flow().push(
                    reset_cursor(word@),
                ),
                None => if old(self).flow().len() == 0 {
                    r == Err::<(), Error>(Error::FlowStackEmpty) && final(self).flow()
                        == old(self).flow()
                } else {
                    r == Ok::<(), Error>(()) && final(self).flow() == old(self).flow().drop_last()
                },
            },
    {
        match seq {
            Some(word) => {
                let word = match word {
                    RuntimeWord::VerbSeq(vsi) => RuntimeWord::VerbSeq(
                        VerbSeqInner { tok: vsi.tok, idx: 0 },
                    ),
                    w => w,
                };
                self.flow_stk.push(word);
                proof {
                    assert(self.flow() =~= old(self).flow().push(self.flow().last()));
                }
                Ok(())
            },
            None => {
                if self.flow_stk.len() == 0 {
                    Err(Error::FlowStackEmpty)
                } else {
                    self.flow_stk.pop();
                    proof {
                        assert(self.flow() =~= old(self).flow().drop_last());
                    }
                    Ok(())
                }
            },
        }
    }

    /// Pushes a word onto the flow stack as an entry point; a call frame's
    /// cursor is reset to the start of its definition.
    pub fn push_exec(&mut self, word: RuntimeWord)
        ensures
            final(self).data_stk == old(self).data_stk,
            final(self).ret_stk == old(self).ret_stk,
            final(self).cur_output == old(self).cur_output,
            final(self).flow() == old(self).flow().push(reset_cursor(word@)),
    {
        let word = match word {
            RuntimeWord::VerbSeq(vsi) => RuntimeWord::VerbSeq(
                VerbSeqInner { tok: vsi.tok, idx: 0 },
            ),
            w => w,
        };
        self.flow_stk.push(word);
        proof {
            assert(self.flow() =~= old(self).flow().push(self.flow().last()));
        }
    }

    /// Swaps the output sink with a fresh one and hands the old one out:
    /// everything written since the previous exchange.
    pub fn exchange_output(&mut self) -> (r: String)
        ensures
            r@ == old(self).cur_output@,
            final(self).cur_output@ == Seq::<char>::empty(),
            final(self).data_stk == old(self).data_stk,
            final(self).ret_stk == old(self).ret_stk,
            final(self).flow_stk == old(self).flow_stk,
    {
        let mut new = String::new();
        core::mem::swap(&mut new, &mut self.cur_output);
        new
    }
}

/// The value of a word as `push_exec` and `provide_seq_tok` store it: a call
/// frame starts over at cursor zero, every other word is unchanged.
pub open spec fn reset_cursor(w: WordV) -> WordV {
    match w {
        WordV::Call(tok, _idx) => WordV::Call(tok, 0),
        other => other,
    }
}

/// A fresh runtime: three empty stacks and an empty output sink.
pub fn new_runtime() -> (r: Runtime)
    ensures
        r.data_stk@ == Seq::<i32>::empty(),
        r.ret_stk@ == Seq::<i32>::empty(),
        r.flow().len() == 0,
        r.cur_output@ == Seq::<char>::empty(),
{
    Runtime {
        data_stk: Stack::new(Error::DataStackEmpty),
        ret_stk: Stack::new(Error::RetStackEmpty),
        flow_stk: Vec::new(),
        cur_output: String::new(),
    }
}

} // verus!
