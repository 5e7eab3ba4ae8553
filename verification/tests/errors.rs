use a4_core::builtins::exec_builtin;
use a4_core::context::{std_builtins, Context};
use a4_core::runtime::new_runtime;
use a4_core::words::{Prim, RuntimeWord, StepResult, VerbSeqInner, WhichToken};
use a4_core::Error;

fn s(words: &str) -> Vec<String> {
    words.split_whitespace().map(str::to_string).collect()
}

#[test]
fn bad_math_on_loop_counter_overflow() {
    let mut rt = new_runtime();
    rt.ret_stk.push(2147483647); // the loop index, about to overflow
    rt.ret_stk.push(5); // the limit
    let r = exec_builtin(&mut rt, Prim::PrivLoop);
    assert!(matches!(r, Err(Error::BadMath)));
    // the primitive is atomic: nothing was consumed
    assert_eq!(2, rt.ret_stk.len());
}

#[test]
fn data_stack_empty_from_dup() {
    let mut rt = new_runtime();
    let r = exec_builtin(&mut rt, Prim::Dup);
    assert!(matches!(r, Err(Error::DataStackEmpty)));
}

#[test]
fn ret_stack_empty_from_ret_dup() {
    let mut rt = new_runtime();
    let r = exec_builtin(&mut rt, Prim::RetDup);
    assert!(matches!(r, Err(Error::RetStackEmpty)));
}

#[test]
fn flow_stack_empty_from_provide() {
    let mut rt = new_runtime();
    let r = rt.provide_seq_tok(None);
    assert!(matches!(r, Err(Error::FlowStackEmpty)));
}

#[test]
fn underflow_from_comparison() {
    let mut rt = new_runtime();
    rt.data_stk.push(1);
    let r = exec_builtin(&mut rt, Prim::Less);
    assert!(matches!(r, Err(Error::DataStackUnderflow)));
    assert_eq!(1, rt.data_stk.len());
}

#[test]
fn compiled_jumps_stay_inside_their_definition() {
    // every jump the compiler emits lands inside the emitted body, and every
    // conditional jump is jump-on-zero
    let mut ctxt = Context::with_builtins(std_builtins());
    ctxt.evaluate(s(": w 1 if 42 emit else 42 emit 42 emit then 3 0 do 42 emit loop ;"))
        .unwrap();

    let mut k: usize = 0;
    let mut words = Vec::new();
    while let Some(nw) = ctxt.dict.get_def_word("w", k) {
        words.push(nw.word);
        k += 1;
    }
    assert!(words.len() > 0);
    let n = words.len() as i64;
    for (i, w) in words.iter().enumerate() {
        match w {
            RuntimeWord::UncondRelativeJump { offset } => {
                let target = i as i64 + 1 + *offset as i64;
                assert!(0 <= target && target <= n);
            }
            RuntimeWord::CondRelativeJump { offset, jump_on } => {
                let target = i as i64 + 1 + *offset as i64;
                assert!(0 <= target && target <= n);
                assert!(!jump_on);
            }
            _ => {}
        }
    }
}

#[test]
fn crafted_polarity_true_jump() {
    // the compiler never emits jump-on-nonzero, but the machine runs it
    let def = vec![
        RuntimeWord::LiteralVal(5),
        RuntimeWord::CondRelativeJump {
            offset: 1,
            jump_on: true,
        },
        RuntimeWord::LiteralVal(66),
        RuntimeWord::LiteralVal(42),
        RuntimeWord::Verb(Prim::Emit),
    ];

    let run = |first: i32| -> (String, usize) {
        let mut words = def.clone();
        words[0] = RuntimeWord::LiteralVal(first);
        let mut x = new_runtime();
        x.push_exec(RuntimeWord::VerbSeq(VerbSeqInner::from_word(
            "d".to_string(),
        )));
        loop {
            match x.step().unwrap() {
                StepResult::Done => break,
                StepResult::Working(WhichToken::Single(p)) => {
                    exec_builtin(&mut x, p).unwrap();
                }
                StepResult::Working(WhichToken::Ref(rtw)) => {
                    let c = words.get(rtw.idx).cloned();
                    x.provide_seq_tok(c).unwrap();
                }
            }
        }
        let out = x.exchange_output();
        (out, x.data_stk.len())
    };

    // a nonzero top takes the jump and skips the inert literal
    let (out, depth) = run(5);
    assert_eq!("*", &out);
    assert_eq!(0, depth);

    // a zero top falls through and the literal stays behind
    let (out, depth) = run(0);
    assert_eq!("*", &out);
    assert_eq!(1, depth);
}
