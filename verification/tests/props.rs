use a4_core::builtins::exec_builtin;
use a4_core::codec::{dec_varint, dict_from_bytes, dict_to_bytes, enc_varint, encode_dict};
use a4_core::context::{std_builtins, Context};
use a4_core::runtime::new_runtime;
use a4_core::ser_de::{SerDict, SerWord};
use a4_core::stack::Stack;
use a4_core::text::{parse_num, str_eq, to_lowercase};
use a4_core::words::Prim;
use a4_core::Error;

fn s(words: &str) -> Vec<String> {
    words.split_whitespace().map(str::to_string).collect()
}

fn run_line(ctxt: &mut Context, line: &str) -> Result<(), Error> {
    ctxt.evaluate(s(line))?;
    ctxt.run_blocking()
}

fn fresh() -> Context {
    Context::with_builtins(std_builtins())
}

#[test]
fn missing_if_pair() {
    let mut ctxt = fresh();
    let r = ctxt.evaluate(s("1 if 42 emit"));
    assert!(matches!(r, Err(Error::MissingIfPair)));
    // a failed compile leaves the dictionary unchanged
    assert!(!ctxt.dict.has_def("__0"));
    assert_eq!(0, ctxt.flow_stack().len());
}

#[test]
fn missing_do_pair() {
    let mut ctxt = fresh();
    let r = ctxt.evaluate(s("10 0 do 42 emit"));
    assert!(matches!(r, Err(Error::MissingDoPair)));
}

#[test]
fn missing_else_pair() {
    let mut ctxt = fresh();
    let r = ctxt.evaluate(s("1 if 42 emit else 42 emit"));
    assert!(matches!(r, Err(Error::MissingElsePair)));
}

#[test]
fn unknown_word_is_an_error() {
    let mut ctxt = fresh();
    let r = ctxt.evaluate(s("frobnicate"));
    assert!(matches!(r, Err(Error::InternalError)));
}

#[test]
fn emit_out_of_range_writes_interrobang() {
    // a surrogate code point and a value beyond the scalar range
    let mut ctxt = fresh();
    run_line(&mut ctxt, "55296 emit").unwrap();
    assert_eq!("\u{203D}", &ctxt.output());

    let mut ctxt = fresh();
    run_line(&mut ctxt, "1114112 emit").unwrap();
    assert_eq!("\u{203D}", &ctxt.output());

    let mut ctxt = fresh();
    run_line(&mut ctxt, "-1 emit").unwrap();
    assert_eq!("\u{203D}", &ctxt.output());
}

#[test]
fn atomic_reset_on_error() {
    // `emit` with nothing on the data stack errors; all three stacks are
    // empty on return
    let mut ctxt = fresh();
    ctxt.evaluate(s("emit")).unwrap();
    let r = ctxt.run_blocking();
    assert!(matches!(r, Err(Error::DataStackUnderflow)));
    assert_eq!(0, ctxt.data_stack().len());
    assert_eq!(0, ctxt.return_stack().len());
    assert_eq!(0, ctxt.flow_stack().len());

    // leftovers before the error are also cleared
    let mut ctxt = fresh();
    ctxt.evaluate(s("1 2 3 emit emit emit emit")).unwrap();
    let r = ctxt.run_blocking();
    assert!(matches!(r, Err(Error::DataStackUnderflow)));
    assert_eq!(0, ctxt.data_stack().len());
    assert_eq!(0, ctxt.return_stack().len());
    assert_eq!(0, ctxt.flow_stack().len());
}

#[test]
fn loader_rejects_unknown_primitive() {
    let mut ctxt = fresh();
    let sd = SerDict {
        data: vec![vec![SerWord::Verb(0)]],
        data_map: Some(vec!["x".to_string()]),
        bis: vec!["nosuch".to_string()],
    };
    let r = ctxt.load_ser_dict(&sd);
    assert!(matches!(r, Err(Error::InternalError)));
    assert!(!ctxt.dict.has_def("x"));
}

#[test]
fn loader_rejects_data_map_mismatch() {
    let mut ctxt = fresh();
    let sd = SerDict {
        data: vec![],
        data_map: Some(vec!["x".to_string()]),
        bis: vec![],
    };
    let r = ctxt.load_ser_dict(&sd);
    assert!(matches!(r, Err(Error::InternalError)));
    assert!(!ctxt.dict.has_def("x"));
}

#[test]
fn loader_rejects_missing_data_map() {
    let mut ctxt = fresh();
    let sd = SerDict {
        data: vec![],
        data_map: None,
        bis: vec![],
    };
    let r = ctxt.load_ser_dict(&sd);
    assert!(matches!(r, Err(Error::InternalError)));
}

#[test]
fn print_and_cr() {
    let mut ctxt = fresh();
    run_line(&mut ctxt, "42 .").unwrap();
    assert_eq!("42\n", &ctxt.output());

    let mut ctxt = fresh();
    run_line(&mut ctxt, "-17 .").unwrap();
    assert_eq!("-17\n", &ctxt.output());

    let mut ctxt = fresh();
    run_line(&mut ctxt, "cr").unwrap();
    assert_eq!("\n", &ctxt.output());
}

#[test]
fn addition_wraps() {
    let mut ctxt = fresh();
    run_line(&mut ctxt, "2147483647 1 + .").unwrap();
    assert_eq!("-2147483648\n", &ctxt.output());

    let mut ctxt = fresh();
    run_line(&mut ctxt, "1 2 + .").unwrap();
    assert_eq!("3\n", &ctxt.output());
}

#[test]
fn stack_shuffles() {
    let mut rt = new_runtime();
    rt.data_stk.push(1);
    rt.data_stk.push(2);
    rt.data_stk.push(3);
    exec_builtin(&mut rt, Prim::Rot).unwrap();
    // ( 1 2 3 -- 2 3 1 )
    assert_eq!(Ok(1), rt.data_stk.pop());
    assert_eq!(Ok(3), rt.data_stk.pop());
    assert_eq!(Ok(2), rt.data_stk.pop());

    let mut rt = new_runtime();
    rt.data_stk.push(1);
    rt.data_stk.push(2);
    exec_builtin(&mut rt, Prim::Swap).unwrap();
    assert_eq!(Ok(1), rt.data_stk.pop());
    assert_eq!(Ok(2), rt.data_stk.pop());

    let mut rt = new_runtime();
    rt.data_stk.push(7);
    rt.data_stk.push(8);
    exec_builtin(&mut rt, Prim::TwoDup).unwrap();
    assert_eq!(4, rt.data_stk.len());
    assert_eq!(Ok(8), rt.data_stk.pop());
    assert_eq!(Ok(7), rt.data_stk.pop());
    assert_eq!(Ok(8), rt.data_stk.pop());
    assert_eq!(Ok(7), rt.data_stk.pop());

    // pick copies the element n below the top; 0 copies the top
    let mut rt = new_runtime();
    rt.data_stk.push(10);
    rt.data_stk.push(20);
    rt.data_stk.push(1);
    exec_builtin(&mut rt, Prim::Pick).unwrap();
    assert_eq!(Ok(10), rt.data_stk.pop());
    assert_eq!(Ok(20), rt.data_stk.pop());
    assert_eq!(Ok(10), rt.data_stk.pop());

    // roll moves it instead
    let mut rt = new_runtime();
    rt.data_stk.push(10);
    rt.data_stk.push(20);
    rt.data_stk.push(1);
    exec_builtin(&mut rt, Prim::Roll).unwrap();
    assert_eq!(Ok(10), rt.data_stk.pop());
    assert_eq!(Ok(20), rt.data_stk.pop());
    assert_eq!(0, rt.data_stk.len());
}

#[test]
fn return_stack_primitives() {
    let mut rt = new_runtime();
    rt.data_stk.push(5);
    exec_builtin(&mut rt, Prim::RetPush).unwrap();
    assert_eq!(0, rt.data_stk.len());
    assert_eq!(1, rt.ret_stk.len());
    exec_builtin(&mut rt, Prim::RetDup).unwrap();
    assert_eq!(2, rt.ret_stk.len());
    exec_builtin(&mut rt, Prim::RetPop).unwrap();
    assert_eq!(Ok(5), rt.data_stk.pop());
    assert_eq!(Ok(5), rt.ret_stk.pop());

    let mut rt = new_runtime();
    rt.ret_stk.push(1);
    rt.ret_stk.push(2);
    exec_builtin(&mut rt, Prim::RetSwap).unwrap();
    assert_eq!(Ok(1), rt.ret_stk.pop());
    assert_eq!(Ok(2), rt.ret_stk.pop());

    let mut rt = new_runtime();
    rt.ret_stk.push(1);
    rt.ret_stk.push(2);
    exec_builtin(&mut rt, Prim::RetTwoDup).unwrap();
    assert_eq!(Ok(2), rt.ret_stk.pop());
    assert_eq!(Ok(1), rt.ret_stk.pop());
    assert_eq!(Ok(2), rt.ret_stk.pop());
    assert_eq!(Ok(1), rt.ret_stk.pop());
}

#[test]
fn degenerate_loop_counts() {
    // 1 0 do .. loop runs the body exactly once
    let mut ctxt = fresh();
    run_line(&mut ctxt, ": t 1 0 do 42 emit loop ;").unwrap();
    run_line(&mut ctxt, "t").unwrap();
    assert_eq!("*", &ctxt.output());
}

#[test]
fn stack_basics() {
    let mut st = Stack::new(Error::DataStackEmpty);
    assert_eq!(0, st.len());
    assert!(matches!(st.pop(), Err(Error::DataStackUnderflow)));
    assert!(matches!(st.last(), Err(Error::DataStackEmpty)));
    st.push(1);
    st.push(2);
    st.push(3);
    assert_eq!(Ok(3), st.last());
    assert_eq!(Ok(2), st.peek_back(1));
    assert_eq!(Ok(1), st.peek_back(2));
    assert!(matches!(st.peek_back(3), Err(Error::DataStackUnderflow)));
    assert_eq!(Ok(2), st.pop_back(1));
    assert_eq!(Ok(3), st.pop());
    assert_eq!(Ok(1), st.pop());
}

#[test]
fn text_helpers() {
    assert_eq!(Some(42), parse_num("42"));
    assert_eq!(Some(-17), parse_num("-17"));
    assert_eq!(Some(5), parse_num("+5"));
    assert_eq!(Some(2147483647), parse_num("2147483647"));
    assert_eq!(Some(-2147483648), parse_num("-2147483648"));
    assert_eq!(None, parse_num("2147483648"));
    assert_eq!(None, parse_num("-2147483649"));
    assert_eq!(None, parse_num(""));
    assert_eq!(None, parse_num("-"));
    assert_eq!(None, parse_num("4x"));
    assert_eq!(Some(7), parse_num("007"));

    assert_eq!("loop", to_lowercase("LOOP").as_str());
    assert_eq!("if", to_lowercase("If").as_str());
    assert!(str_eq("abc", "abc"));
    assert!(!str_eq("abc", "abd"));
    assert!(!str_eq("abc", "ab"));
}

#[test]
fn varint_codec() {
    let mut v: Vec<u8> = Vec::new();
    enc_varint(&mut v, 300);
    assert_eq!(vec![172u8, 2u8], v);
    assert_eq!(Some((300u64, 2usize)), dec_varint(&v, 0));

    let mut v: Vec<u8> = Vec::new();
    enc_varint(&mut v, 0);
    assert_eq!(vec![0u8], v);
    assert_eq!(Some((0u64, 1usize)), dec_varint(&v, 0));

    // a non-canonical continuation is refused
    let bad = vec![0x80u8, 0x00u8];
    assert_eq!(None, dec_varint(&bad, 0));
}

#[test]
fn dict_wire_form() {
    let sd = SerDict {
        data: vec![vec![SerWord::LiteralVal(1)]],
        data_map: None,
        bis: vec!["a".to_string()],
    };
    let bytes = encode_dict(&sd);
    // one definition of one literal word (tag 0, zigzag 2), no name array,
    // one primitive name of one character
    assert_eq!(vec![1u8, 1, 0, 2, 0, 1, 1, 97], bytes);
}

#[test]
fn framed_round_trip_empty_and_full() {
    let sd = SerDict {
        data: vec![
            vec![
                SerWord::LiteralVal(-7),
                SerWord::Verb(1),
                SerWord::VerbSeq(0),
                SerWord::UncondRelativeJump { offset: 3 },
                SerWord::CondRelativeJump {
                    offset: -2,
                    jump_on: true,
                },
            ],
            vec![],
        ],
        data_map: Some(vec!["one".to_string(), "two".to_string()]),
        bis: vec!["emit".to_string(), ".".to_string()],
    };
    let bytes = dict_to_bytes(&sd);
    assert_eq!(Some(&0u8), bytes.last());
    let back = dict_from_bytes(&bytes).unwrap();
    assert_eq!(sd.data, back.data);
    assert_eq!(sd.data_map, back.data_map);
    assert_eq!(sd.bis, back.bis);

    // the bytes -> dictionary -> bytes round trip is stable
    let bytes2 = dict_to_bytes(&back);
    assert_eq!(bytes, bytes2);

    let empty = SerDict {
        data: vec![],
        data_map: Some(vec![]),
        bis: vec![],
    };
    let bytes = dict_to_bytes(&empty);
    let back = dict_from_bytes(&bytes).unwrap();
    assert_eq!(empty.data, back.data);
    assert_eq!(empty.data_map, back.data_map);
    assert_eq!(empty.bis, back.bis);
}

#[test]
fn frame_has_no_interior_zero_bytes() {
    // the payload of this artifact contains plenty of zero bytes (literal
    // tags and zigzag zeros); the stuffing must remove them all, keeping the
    // terminator as the only zero
    let sd = SerDict {
        data: vec![vec![
            SerWord::LiteralVal(0),
            SerWord::LiteralVal(0),
            SerWord::UncondRelativeJump { offset: 0 },
        ]],
        data_map: None,
        bis: vec![],
    };
    let bytes = dict_to_bytes(&sd);
    assert!(bytes.len() >= 2);
    for (i, b) in bytes.iter().enumerate() {
        if i + 1 < bytes.len() {
            assert_ne!(0u8, *b);
        } else {
            assert_eq!(0u8, *b);
        }
    }
    let back = dict_from_bytes(&bytes).unwrap();
    assert_eq!(sd.data, back.data);
}

#[test]
fn garbage_bytes_are_refused() {
    assert!(dict_from_bytes(&vec![]).is_err());
    assert!(dict_from_bytes(&vec![1u8, 2, 3]).is_err());
    assert!(dict_from_bytes(&vec![0u8]).is_err());
    assert!(dict_from_bytes(&vec![0xFFu8, 0x00]).is_err());
}

#[test]
fn anonymous_definitions_are_pruned() {
    let mut ctxt = fresh();
    run_line(&mut ctxt, "42 emit").unwrap();
    assert!(ctxt.dict.has_def("__0"));
    ctxt.dict.prune_anonymous();
    assert!(!ctxt.dict.has_def("__0"));

    // named definitions survive the purge
    run_line(&mut ctxt, ": star 42 emit ;").unwrap();
    run_line(&mut ctxt, "star").unwrap();
    ctxt.dict.prune_anonymous();
    assert!(ctxt.dict.has_def("star"));
    assert!(!ctxt.dict.has_def("__1"));
    assert_eq!("**", &ctxt.output());
}

#[test]
fn output_exchange_takes_everything_since_last_call() {
    let mut ctxt = fresh();
    run_line(&mut ctxt, "42 emit").unwrap();
    assert_eq!("*", &ctxt.output());
    assert_eq!("", &ctxt.output());
    run_line(&mut ctxt, "42 emit 42 emit").unwrap();
    assert_eq!("**", &ctxt.output());
}

#[test]
fn definitions_shadow_and_nest() {
    // a definition may call earlier definitions; empty bodies are permitted
    let mut ctxt = fresh();
    run_line(&mut ctxt, ": nop ;").unwrap();
    run_line(&mut ctxt, ": a 42 emit ;").unwrap();
    run_line(&mut ctxt, ": b a nop a ;").unwrap();
    run_line(&mut ctxt, "b").unwrap();
    assert_eq!("**", &ctxt.output());
}

#[test]
fn empty_name_definition_is_refused() {
    let mut ctxt = fresh();
    let r = ctxt.evaluate(s(": ;"));
    assert!(matches!(r, Err(Error::InternalError)));
}

#[test]
fn comparison_truth_values() {
    let mut ctxt = fresh();
    run_line(&mut ctxt, "1 2 < .").unwrap();
    assert_eq!("-1\n", &ctxt.output());
    run_line(&mut ctxt, "2 1 < .").unwrap();
    assert_eq!("0\n", &ctxt.output());
    run_line(&mut ctxt, "3 3 = .").unwrap();
    assert_eq!("-1\n", &ctxt.output());
    run_line(&mut ctxt, "4 3 > .").unwrap();
    assert_eq!("-1\n", &ctxt.output());
}

#[test]
fn shuffle_words_compile_from_source() {
    // the default registry binds the whole documented primitive set
    let mut ctxt = fresh();
    run_line(&mut ctxt, "1 2 swap . .").unwrap();
    assert_eq!("1\n2\n", &ctxt.output());

    let mut ctxt = fresh();
    run_line(&mut ctxt, "7 42 drop .").unwrap();
    assert_eq!("7\n", &ctxt.output());

    let mut ctxt = fresh();
    run_line(&mut ctxt, "1 2 3 rot . . .").unwrap();
    assert_eq!("1\n3\n2\n", &ctxt.output());

    let mut ctxt = fresh();
    run_line(&mut ctxt, "10 20 1 pick . . .").unwrap();
    assert_eq!("10\n20\n10\n", &ctxt.output());

    let mut ctxt = fresh();
    run_line(&mut ctxt, "10 20 1 roll . .").unwrap();
    assert_eq!("10\n20\n", &ctxt.output());
}

#[test]
fn loop_artifact_reloads_with_default_registry() {
    // a compiled loop serializes references to the loop-seeding and
    // loop-step primitives; the default registry resolves them on reload
    let mut ctxt = fresh();
    run_line(&mut ctxt, ": t 3 0 do 42 emit loop ;").unwrap();
    let sd = ctxt.serialize().unwrap();
    let bytes = dict_to_bytes(&sd);

    let mut fresh_ctxt = fresh();
    let back = dict_from_bytes(&bytes).unwrap();
    fresh_ctxt.load_ser_dict(&back).unwrap();
    fresh_ctxt.evaluate(s("t")).unwrap();
    fresh_ctxt.run_blocking().unwrap();
    assert_eq!("***", &fresh_ctxt.output());
}

#[test]
fn serialized_artifact_reloads_by_name() {
    // compile, serialize to framed bytes, reload into a fresh context, and
    // run an entry point from the reloaded dictionary
    let mut ctxt = fresh();
    run_line(&mut ctxt, ": star 42 emit ;").unwrap();
    run_line(&mut ctxt, ": three star star star ;").unwrap();
    let sd = ctxt.serialize().unwrap();
    let bytes = dict_to_bytes(&sd);

    let mut fresh_ctxt = fresh();
    let back = dict_from_bytes(&bytes).unwrap();
    fresh_ctxt.load_ser_dict(&back).unwrap();
    fresh_ctxt.evaluate(s("three")).unwrap();
    fresh_ctxt.run_blocking().unwrap();
    assert_eq!("***", &fresh_ctxt.output());
}
