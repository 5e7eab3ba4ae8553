use std::collections::BTreeMap;

use a4_core::builtins::exec_builtin;
use a4_core::context::{evaluate, std_builtins, Context};
use a4_core::words::{NamedWord, Prim, RuntimeWord, StepResult, VerbSeqInner, WhichToken};

const SINGLE_LINE_CASES: &[(&str, &str)] = &[
    // Basic output
    ("42 emit", "*"),
    // Basic compilation
    (": 42 emit ;", ""),
    // Basic if
    ("0 if 42 emit then", ""),
    ("1 if 42 emit then", "*"),
    ("0 42 emit if 42 emit then 42 emit", "**"),
    ("1 42 emit if 42 emit then 42 emit", "***"),
    // Basic if/else
    ("0 if 42 emit else 42 emit 42 emit then", "**"),
    ("1 if 42 emit else 42 emit 42 emit then", "*"),
    (
        "0 42 emit if 42 emit else 42 emit 42 emit then 42 emit",
        "****",
    ),
    (
        "1 42 emit if 42 emit else 42 emit 42 emit then 42 emit",
        "***",
    ),
    // Comparison operators
    ("0 1 < if 42 emit then", "*"),
    ("1 0 < if 42 emit then", ""),
    ("0 1 > if 42 emit then", ""),
    ("1 0 > if 42 emit then", "*"),
    ("1 0 = if 42 emit then", ""),
    ("0 1 = if 42 emit then", ""),
    ("1 1 = if 42 emit then", "*"),
    ("0 0 = if 42 emit then", "*"),
];

const MULTI_LINE_CASES: &[(&str, &str)] = &[
    (
        r#"
            : star 42 emit ;
            star
        "#,
        "*",
    ),
    (
        r#"
            : test 10 0 do 42 emit LOOP ;
            test
        "#,
        "**********",
    ),
    (
        r#"
            : star 42 emit ;
            : test star 10 0 do star LOOP star ;
            test
        "#,
        "************",
    ),
];

fn s(words: &str) -> Vec<String> {
    words.split_whitespace().map(str::to_string).collect()
}

/// Creates a clean engine
#[test]
fn single_lines() {
    for (cases, output) in SINGLE_LINE_CASES {
        let mut ctxt = Context::with_builtins(std_builtins());
        println!("{:?} => {:?}", cases, output);
        evaluate(&mut ctxt, s(cases)).unwrap();
        ctxt.run_blocking().unwrap();
        assert_eq!(output, &ctxt.output());

        assert_eq!(0, ctxt.data_stack().len());
        assert_eq!(0, ctxt.return_stack().len());
        assert_eq!(0, ctxt.flow_stack().len());
    }
}

#[test]
fn multi_lines() {
    for (cases, output) in MULTI_LINE_CASES {
        let mut ctxt = Context::with_builtins(std_builtins());

        for cline in cases.lines().map(str::trim) {
            println!("{:?}", cline);
            evaluate(&mut ctxt, s(cline)).unwrap();
            ctxt.run_blocking().unwrap();
        }

        assert_eq!(output, &ctxt.output());

        assert_eq!(0, ctxt.data_stack().len());
        assert_eq!(0, ctxt.return_stack().len());
        assert_eq!(0, ctxt.flow_stack().len());
    }
}

#[test]
fn smoke_single_lines() {
    for (cases, output) in SINGLE_LINE_CASES {
        let mut ctxt = Context::with_builtins(std_builtins());
        println!("{:?} => {:?}", cases, output);
        evaluate(&mut ctxt, s(cases)).unwrap();
        loop {
            match ctxt.step().unwrap() {
                StepResult::Done => break,
                StepResult::Working(WhichToken::Single(ft)) => {
                    exec_builtin(&mut ctxt.rt, ft).unwrap();
                }
                StepResult::Working(WhichToken::Ref(rtw)) => {
                    let c = ctxt
                        .dict
                        .get_def_word(rtw.tok.as_str(), rtw.idx)
                        .map(|n| n.word);
                    ctxt.rt.provide_seq_tok(c).unwrap();
                }
            }
        }
        assert_eq!(output, &ctxt.output());

        assert_eq!(0, ctxt.data_stack().len());
        assert_eq!(0, ctxt.return_stack().len());
        assert_eq!(0, ctxt.flow_stack().len());
    }
}

#[test]
fn foo() {
    let mut x = a4_core::runtime::new_runtime();

    let mut fs_map: BTreeMap<String, Vec<NamedWord>> = BTreeMap::new();

    // Manually craft a word, roughly:
    // : star 42 emit ;
    fs_map.insert(
        "star".into(),
        vec![
            NamedWord {
                word: RuntimeWord::LiteralVal(42),
                name: "42".into(),
            },
            NamedWord {
                word: RuntimeWord::Verb(Prim::Emit),
                name: "emit".into(),
            },
        ],
    );

    // Manually craft another word, roughly:
    // : mstar star -1 if star star then ;
    fs_map.insert(
        "mstar".into(),
        vec![
            NamedWord {
                word: RuntimeWord::VerbSeq(VerbSeqInner::from_word("star".to_string())),
                name: "star".into(),
            },
            NamedWord {
                word: RuntimeWord::LiteralVal(-1),
                name: "-1".into(),
            },
            NamedWord {
                word: RuntimeWord::CondRelativeJump {
                    offset: 2,
                    jump_on: false,
                },
                name: "UCRJ".into(),
            },
            NamedWord {
                word: RuntimeWord::VerbSeq(VerbSeqInner::from_word("star".to_string())),
                name: "star".into(),
            },
            NamedWord {
                word: RuntimeWord::VerbSeq(VerbSeqInner::from_word("star".to_string())),
                name: "star".into(),
            },
        ],
    );

    // Push `mstar` into the execution context, basically
    // treating it as an "entry point"
    x.push_exec(RuntimeWord::VerbSeq(VerbSeqInner::from_word(
        "mstar".to_string(),
    )));

    loop {
        match x.step() {
            Ok(StepResult::Done) => break,
            Ok(StepResult::Working(WhichToken::Single(ft))) => {
                println!("EXEC!");
                exec_builtin(&mut x, ft).unwrap();
            }
            Ok(StepResult::Working(WhichToken::Ref(rtw))) => {
                let c = fs_map
                    .get(&rtw.tok)
                    .and_then(|n| n.get(rtw.idx))
                    .map(|n| n.clone().word);

                if c.is_some() {
                    println!("Push some! {} {}", rtw.tok, rtw.idx);
                } else {
                    println!("Push none! {} {}", rtw.tok, rtw.idx);
                }

                x.provide_seq_tok(c).unwrap();
            }
            Err(e) => panic!("{:?}", e),
        }
    }

    let output = x.exchange_output();

    assert_eq!("***", &output);
}

#[test]
fn lib_foo() {
    let mut deser_dict: Vec<Vec<RuntimeWord>> = Vec::new();

    // Manually craft a word, roughly:
    // : star 42 emit ;
    deser_dict.push(vec![
        RuntimeWord::LiteralVal(42),
        RuntimeWord::Verb(Prim::Emit),
    ]);

    // Manually craft another word, roughly:
    // : mstar star -1 if star star then ;
    deser_dict.push(vec![
        RuntimeWord::VerbSeq(VerbSeqInner::from_word("0".to_string())),
        RuntimeWord::LiteralVal(-1),
        RuntimeWord::CondRelativeJump {
            offset: 2,
            jump_on: false,
        },
        RuntimeWord::VerbSeq(VerbSeqInner::from_word("0".to_string())),
        RuntimeWord::VerbSeq(VerbSeqInner::from_word("0".to_string())),
    ]);

    // Not mutable anymore
    let idx = deser_dict;

    let mut x = a4_core::runtime::new_runtime();

    // Push `mstar` into the execution context, basically
    // treating it as an "entry point"; `mstar` is entry 1
    x.push_exec(RuntimeWord::VerbSeq(VerbSeqInner::from_word(
        "1".to_string(),
    )));

    loop {
        match x.step() {
            Ok(StepResult::Done) => break,
            Ok(StepResult::Working(WhichToken::Single(ft))) => {
                exec_builtin(&mut x, ft).unwrap();
            }
            Ok(StepResult::Working(WhichToken::Ref(rtw))) => {
                let c = idx
                    .get(rtw.tok.parse::<usize>().unwrap())
                    .and_then(|n| n.get(rtw.idx))
                    .map(|n| n.clone());

                x.provide_seq_tok(c).unwrap();
            }
            Err(e) => panic!("{:?}", e),
        }
    }

    let output = x.exchange_output();

    assert_eq!("***", &output);
}

#[test]
fn roundtrip() {
    let mut ctxt = Context::with_builtins(std_builtins());

    ctxt.evaluate(vec![
        ":".into(),
        "star".into(),
        "42".into(),
        "emit".into(),
        ";".into(),
    ])
    .unwrap();

    ctxt.evaluate(vec![
        ":".into(),
        "mstar".into(),
        "if".into(),
        "star".into(),
        "else".into(),
        "star".into(),
        "star".into(),
        "then".into(),
        ";".into(),
    ])
    .unwrap();

    let serdict = ctxt.serialize().unwrap();
    println!("{:?}", serdict);

    let ser = a4_core::codec::dict_to_bytes(&serdict);
    println!("{:?}", ser);

    let loaded = a4_core::codec::dict_from_bytes(&ser).unwrap();
    println!("{:?}", loaded);

    for (ser_out, des_out) in serdict.data.iter().zip(loaded.data.iter()) {
        for (ser_in, des_in) in ser_out.iter().zip(des_out.iter()) {
            assert_eq!(ser_in, des_in);
        }
    }

    for (ser_bis, des_bis) in serdict.bis.iter().zip(loaded.bis.iter()) {
        assert_eq!(ser_bis, des_bis);
    }

    let mut ns_ctxt = Context::with_builtins(std_builtins());
    ns_ctxt.load_ser_dict(&loaded).unwrap();

    let temp_compiled = RuntimeWord::VerbSeq(VerbSeqInner::from_word("mstar".to_string()));

    ns_ctxt.rt.push_exec(temp_compiled.clone());
    ns_ctxt.rt.push_exec(RuntimeWord::LiteralVal(0));

    ns_ctxt.run_blocking().unwrap();

    let out = ns_ctxt.rt.exchange_output();
    assert_eq!(out, "**");

    ns_ctxt.rt.push_exec(temp_compiled);
    ns_ctxt.rt.push_exec(RuntimeWord::LiteralVal(-1));

    ns_ctxt.run_blocking().unwrap();

    let out = ns_ctxt.rt.exchange_output();
    assert_eq!(out, "*");
}
