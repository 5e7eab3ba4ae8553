use std::collections::VecDeque;

use vstd::prelude::*;
use crate::Error;
use crate::dict::{assoc_get, assoc_has, Dict};
use crate::text::{parse_num, push_dec_i64, spec_dec_i64, spec_parse_num, str_eq};
use crate::words::{FuncSeq, NamedWord, NamedWordV, Prim, RuntimeWord, VerbSeqInner, WordV};

verus! {

/// A piece of the structured-control-flow tree the parser builds from one
/// body: a plain token, an `if .. then`, an `if .. else .. then`, or a
/// `do .. loop`.
#[derive(Debug)]
pub enum Chunk {
    IfThen { if_body: Vec<Chunk> },
    IfElseThen { if_body: Vec<Chunk>, else_body: Vec<Chunk> },
    DoLoop { do_body: Vec<Chunk> },
    Token(String),
}

/// The mathematical value of a chunk.
pub enum ChunkV {
    IfThen(Seq<ChunkV>),
    IfElseThen(Seq<ChunkV>, Seq<ChunkV>),
    DoLoop(Seq<ChunkV>),
    Token(Seq<char>),
}

pub open spec fn chunk_view(c: Chunk) -> ChunkV
    decreases c,
{
    match c {
        Chunk::IfThen { if_body } => ChunkV::IfThen(chunks_view(if_body@)),
        Chunk::IfElseThen { if_body, else_body } => ChunkV::IfElseThen(
            chunks_view(if_body@),
            chunks_view(else_body@),
        ),
        Chunk::DoLoop { do_body } => ChunkV::DoLoop(chunks_view(do_body@)),
        Chunk::Token(t) => ChunkV::Token(t@),
    }
}

pub open spec fn chunks_view(s: Seq<Chunk>) -> Seq<ChunkV>
    decreases s,
{
    if s.len() == 0 {
        Seq::<ChunkV>::empty()
    } else {
        seq![chunk_view(s[0])] + chunks_view(s.drop_first())
    }
}

/// Pointwise reading of `chunks_view`.
pub proof fn lemma_chunks_view(s: Seq<Chunk>)
    ensures
        chunks_view(s).len() == s.len(),
        forall|i: int| 0 <= i < s.len() ==> chunks_view(s)[i] == chunk_view(#[trigger] s[i]),
    decreases s,
{
    if s.len() > 0 {
        lemma_chunks_view(s.drop_first());
        assert forall|i: int| 0 <= i < s.len() implies chunks_view(s)[i] == chunk_view(
            #[trigger] s[i],
        ) by {
            if i > 0 {
                assert(chunks_view(s)[i] == chunks_view(s.drop_first())[i - 1]);
                assert(s.drop_first()[i - 1] == s[i]);
            }
        }
    }
}

/// The mathematical value of a sequence of named words.
pub open spec fn nws_view(s: Seq<NamedWord>) -> Seq<NamedWordV> {
    s.map_values(|w: NamedWord| w@)
}

/// The name the compiler gives a literal word.
pub open spec fn lit_name(n: int) -> Seq<char> {
    seq!['L', 'I', 'T', '('] + spec_dec_i64(n) + seq![')']
}

/// How a single token resolves, in order: a registered primitive, a known
/// definition, a signed decimal literal; anything else is unknown.
pub open spec fn spec_lower_token(
    bis: Seq<(String, Prim)>,
    defs: Seq<(String, FuncSeq)>,
    tok: Seq<char>,
) -> Option<NamedWordV> {
    if assoc_has(bis, tok) {
        Some(NamedWordV { name: tok, word: WordV::Verb(assoc_get(bis, tok)) })
    } else if assoc_has(defs, tok) {
        Some(NamedWordV { name: tok, word: WordV::Call(tok, 0) })
    } else {
        match spec_parse_num(tok) {
            Some(n) => Some(NamedWordV { name: lit_name(n as int), word: WordV::Lit(n) }),
            None => None,
        }
    }
}

/// What one chunk lowers to. `if`/`else` become forward conditional and
/// unconditional jumps over the compiled arm; `do`/`loop` wrap the body in
/// the two `>r`s that seed the loop counters, the internal loop step, and a
/// backward conditional jump. The counter check sits after the body, so a
/// loop body always runs at least once: entering a loop whose limit already
/// equals its index runs the body once and then keeps counting upward. A
/// body too long for a 32-bit offset fails.
pub open spec fn spec_lower_chunk(
    bis: Seq<(String, Prim)>,
    defs: Seq<(String, FuncSeq)>,
    c: ChunkV,
) -> Result<Seq<NamedWordV>, Error>
    decreases c,
{
    match c {
        ChunkV::Token(t) => match spec_lower_token(bis, defs, t) {
            Some(w) => Ok(seq![w]),
            None => Err(Error::InternalError),
        },
        ChunkV::IfThen(body) => match spec_lower_chunks(bis, defs, body) {
            Ok(bw) => if bw.len() > i32::MAX {
                Err(Error::BadMath)
            } else {
                Ok(
                    seq![
                        NamedWordV { name: "CRJ"@, word: WordV::CondJump(bw.len() as i32, false) },
                    ] + bw,
                )
            },
            Err(e) => Err(e),
        },
        ChunkV::IfElseThen(if_body, else_body) => match spec_lower_chunks(bis, defs, if_body) {
            Ok(iw) => match spec_lower_chunks(bis, defs, else_body) {
                Ok(ew) => if iw.len() + 1 > i32::MAX || ew.len() > i32::MAX {
                    Err(Error::BadMath)
                } else {
                    Ok(
                        seq![
                            NamedWordV {
                                name: "CRJ"@,
                                word: WordV::CondJump((iw.len() + 1) as i32, false),
                            },
                        ] + iw + seq![
                            NamedWordV { name: "UCRJ"@, word: WordV::Jump(ew.len() as i32) },
                        ] + ew,
                    )
                },
                Err(e) => Err(e),
            },
            Err(e) => Err(e),
        },
        ChunkV::DoLoop(body) => match spec_lower_chunks(bis, defs, body) {
            Ok(bw) => if bw.len() + 2 > i32::MAX {
                Err(Error::BadMath)
            } else {
                Ok(
                    seq![
                        NamedWordV { name: ">r"@, word: WordV::Verb(Prim::RetPush) },
                        NamedWordV { name: ">r"@, word: WordV::Verb(Prim::RetPush) },
                    ] + bw + seq![
                        NamedWordV { name: "PRIV_LOOP"@, word: WordV::Verb(Prim::PrivLoop) },
                        NamedWordV {
                            name: "CRJ"@,
                            word: WordV::CondJump((-(bw.len() + 2)) as i32, false),
                        },
                    ],
                )
            },
            Err(e) => Err(e),
        },
    }
}

/// What a sequence of chunks lowers to: the concatenation of each chunk's
/// words, or the first error.
pub open spec fn spec_lower_chunks(
    bis: Seq<(String, Prim)>,
    defs: Seq<(String, FuncSeq)>,
    s: Seq<ChunkV>,
) -> Result<Seq<NamedWordV>, Error>
    decreases s,
{
    if s.len() == 0 {
        Ok(Seq::<NamedWordV>::empty())
    } else {
        match spec_lower_chunk(bis, defs, s[0]) {
            Ok(w) => match spec_lower_chunks(bis, defs, s.drop_first()) {
                Ok(rest) => Ok(w + rest),
                Err(e) => Err(e),
            },
            Err(e) => Err(e),
        }
    }
}

/// The relative offset a word carries, when it is a jump.
pub open spec fn jump_offset(w: WordV) -> Option<i32> {
    match w {
        WordV::Jump(o) => Some(o),
        WordV::CondJump(o, _) => Some(o),
        _ => None,
    }
}

/// Every jump in `ws` lands inside `ws`: from position `k` the cursor moves
/// to `k + 1 + offset`, which stays in `[0, len]` (the end is a valid
/// post-jump position). No compiled jump leaves its own definition.
pub open spec fn jumps_in_bounds(ws: Seq<NamedWordV>) -> bool {
    forall|k: int| 0 <= k < ws.len() ==> #[trigger] jump_ok_at(ws, k)
}

/// The jump at position `k`, if any, lands in `[0, len]`.
pub open spec fn jump_ok_at(ws: Seq<NamedWordV>, k: int) -> bool {
    match jump_offset(ws[k].word) {
        Some(o) => 0 <= k + 1 + o <= ws.len(),
        None => true,
    }
}

/// Both laws at one position: the jump lands in bounds and a conditional
/// jump has polarity `false`.
pub open spec fn wf_at(ws: Seq<NamedWordV>, k: int) -> bool {
    &&& jump_ok_at(ws, k)
    &&& match ws[k].word {
        WordV::CondJump(_, jump_on) => jump_on == false,
        _ => true,
    }
}

/// Every conditional jump in `ws` has polarity `false`: the compiler only
/// emits jump-on-zero.
pub open spec fn cond_jumps_false(ws: Seq<NamedWordV>) -> bool {
    forall|k: int|
        0 <= k < ws.len() ==> match (#[trigger] ws[k]).word {
            WordV::CondJump(_, jump_on) => jump_on == false,
            _ => true,
        }
}

/// `wf_at` everywhere is exactly the two laws together.
proof fn lemma_wf_at_iff(ws: Seq<NamedWordV>)
    ensures
        (forall|k: int| 0 <= k < ws.len() ==> #[trigger] wf_at(ws, k)) <==> (jumps_in_bounds(ws)
            && cond_jumps_false(ws)),
{
    if forall|k: int| 0 <= k < ws.len() ==> #[trigger] wf_at(ws, k) {
        assert forall|k: int| 0 <= k < ws.len() implies #[trigger] jump_ok_at(ws, k) by {
            assert(wf_at(ws, k));
        }
        assert forall|k: int| 0 <= k < ws.len() implies match (#[trigger] ws[k]).word {
            WordV::CondJump(_, jump_on) => jump_on == false,
            _ => true,
        } by {
            assert(wf_at(ws, k));
        }
    }
    if jumps_in_bounds(ws) && cond_jumps_false(ws) {
        assert forall|k: int| 0 <= k < ws.len() implies #[trigger] wf_at(ws, k) by {
            assert(jump_ok_at(ws, k));
            assert(match ws[k].word {
                WordV::CondJump(_, jump_on) => jump_on == false,
                _ => true,
            });
        }
    }
}

/// In-bounds jumps survive concatenation: each part keeps its jumps inside
/// its own extent, which lies inside the whole.
proof fn lemma_bounds_concat(a: Seq<NamedWordV>, b: Seq<NamedWordV>)
    requires
        jumps_in_bounds(a),
        jumps_in_bounds(b),
        cond_jumps_false(a),
        cond_jumps_false(b),
    ensures
        jumps_in_bounds(a + b),
        cond_jumps_false(a + b),
{
    let c = a + b;
    assert forall|k: int| 0 <= k < c.len() implies #[trigger] jump_ok_at(c, k) by {
        if k < a.len() {
            assert(c[k] == a[k]);
            assert(jump_ok_at(a, k));
        } else {
            assert(c[k] == b[k - a.len()]);
            assert(jump_ok_at(b, k - a.len()));
        }
    }
    assert forall|k: int| 0 <= k < c.len() implies match (#[trigger] c[k]).word {
        WordV::CondJump(_, jump_on) => jump_on == false,
        _ => true,
    } by {
        if k < a.len() {
            assert(c[k] == a[k]);
        } else {
            assert(c[k] == b[k - a.len()]);
        }
    }
}

/// The jump-bounds law for one chunk: whatever the compiler lowers, every
/// jump lands inside the emitted words, and every conditional jump is
/// jump-on-zero.
pub proof fn lemma_lower_chunk_wf(
    bis: Seq<(String, Prim)>,
    defs: Seq<(String, FuncSeq)>,
    c: ChunkV,
)
    ensures
        spec_lower_chunk(bis, defs, c) matches Ok(ws) ==> jumps_in_bounds(ws) && cond_jumps_false(
            ws,
        ),
    decreases c,
{
    match c {
        ChunkV::Token(_t) => {
            if spec_lower_chunk(bis, defs, c) is Ok {
                let ws = spec_lower_chunk(bis, defs, c)->Ok_0;
                assert forall|k: int| 0 <= k < ws.len() implies wf_at(ws, k) by {
                    assert(ws[k] == ws[0]);
                }
                lemma_wf_pointwise(ws);
            }
        },
        ChunkV::IfThen(body) => {
            lemma_lower_chunks_wf(bis, defs, body);
            if spec_lower_chunk(bis, defs, c) is Ok {
                let bw = spec_lower_chunks(bis, defs, body)->Ok_0;
                let ws = spec_lower_chunk(bis, defs, c)->Ok_0;
                lemma_wf_at_iff(bw);
                assert forall|k: int| 0 <= k < ws.len() implies wf_at(ws, k) by {
                    if k >= 1 {
                        assert(ws[k] == bw[k - 1]);
                        assert(wf_at(bw, k - 1));
                    }
                }
                lemma_wf_pointwise(ws);
            }
        },
        ChunkV::IfElseThen(if_body, else_body) => {
            lemma_lower_chunks_wf(bis, defs, if_body);
            lemma_lower_chunks_wf(bis, defs, else_body);
            if spec_lower_chunk(bis, defs, c) is Ok {
                let iw = spec_lower_chunks(bis, defs, if_body)->Ok_0;
                let ew = spec_lower_chunks(bis, defs, else_body)->Ok_0;
                let ws = spec_lower_chunk(bis, defs, c)->Ok_0;
                assert(ws.len() == 2 + iw.len() + ew.len());
                lemma_wf_at_iff(iw);
                lemma_wf_at_iff(ew);
                assert forall|k: int| 0 <= k < ws.len() implies wf_at(ws, k) by {
                    if 1 <= k < 1 + iw.len() {
                        assert(ws[k] == iw[k - 1]);
                        assert(wf_at(iw, k - 1));
                    } else if k >= 2 + iw.len() {
                        assert(ws[k] == ew[k - 2 - iw.len()]);
                        assert(wf_at(ew, k - 2 - iw.len()));
                    }
                }
                lemma_wf_pointwise(ws);
            }
        },
        ChunkV::DoLoop(body) => {
            lemma_lower_chunks_wf(bis, defs, body);
            if spec_lower_chunk(bis, defs, c) is Ok {
                let bw = spec_lower_chunks(bis, defs, body)->Ok_0;
                let ws = spec_lower_chunk(bis, defs, c)->Ok_0;
                assert(ws.len() == 4 + bw.len());
                lemma_wf_at_iff(bw);
                assert forall|k: int| 0 <= k < ws.len() implies wf_at(ws, k) by {
                    if 2 <= k < 2 + bw.len() {
                        assert(ws[k] == bw[k - 2]);
                        assert(wf_at(bw, k - 2));
                    }
                }
                lemma_wf_pointwise(ws);
            }
        },
    }
}

/// The jump-bounds law for a chunk sequence.
pub proof fn lemma_lower_chunks_wf(
    bis: Seq<(String, Prim)>,
    defs: Seq<(String, FuncSeq)>,
    s: Seq<ChunkV>,
)
    ensures
        spec_lower_chunks(bis, defs, s) matches Ok(ws) ==> jumps_in_bounds(ws) && cond_jumps_false(
            ws,
        ),
    decreases s,
{
    if s.len() > 0 {
        lemma_lower_chunk_wf(bis, defs, s[0]);
        lemma_lower_chunks_wf(bis, defs, s.drop_first());
        if spec_lower_chunks(bis, defs, s) is Ok {
            lemma_bounds_concat(
                spec_lower_chunk(bis, defs, s[0])->Ok_0,
                spec_lower_chunks(bis, defs, s.drop_first())->Ok_0,
            );
        }
    }
}

/// The jump-bounds and polarity laws hold of every word the two `wf` lemmas
/// cover, stated pointwise.
proof fn lemma_wf_pointwise(ws: Seq<NamedWordV>)
    requires
        forall|k: int| 0 <= k < ws.len() ==> #[trigger] wf_at(ws, k),
    ensures
        jumps_in_bounds(ws),
        cond_jumps_false(ws),
{
    lemma_wf_at_iff(ws);
}


/// The characters of each token, in order.
pub open spec fn toks_view(s: Seq<String>) -> Seq<Seq<char>> {
    s.map_values(|t: String| t@)
}

/// Prepends `x` to the `if` arm of a parsed conditional chunk.
pub open spec fn prepend_if(c: ChunkV, x: ChunkV) -> ChunkV {
    match c {
        ChunkV::IfThen(b) => ChunkV::IfThen(seq![x] + b),
        ChunkV::IfElseThen(b, e) => ChunkV::IfElseThen(seq![x] + b, e),
        other => other,
    }
}

/// What `muncher` parses from `toks`: the chunk list of a whole body. The
/// `fuel` bounds the recursion and is irrelevant once it reaches the token
/// count.
pub open spec fn spec_muncher(toks: Seq<Seq<char>>, fuel: nat) -> Result<Seq<ChunkV>, Error>
    decreases fuel,
{
    if toks.len() == 0 {
        Ok(Seq::<ChunkV>::empty())
    } else if fuel == 0 {
        Err(Error::InternalError)
    } else {
        let t = toks[0];
        let rest = toks.drop_first();
        if t == "do"@ {
            match spec_munch_do(rest, (fuel - 1) as nat) {
                Ok((body, rem)) => match spec_muncher(rem, (fuel - 1) as nat) {
                    Ok(cs) => Ok(seq![ChunkV::DoLoop(body)] + cs),
                    Err(e) => Err(e),
                },
                Err(e) => Err(e),
            }
        } else if t == "if"@ {
            match spec_munch_if(rest, (fuel - 1) as nat) {
                Ok((c, rem)) => match spec_muncher(rem, (fuel - 1) as nat) {
                    Ok(cs) => Ok(seq![c] + cs),
                    Err(e) => Err(e),
                },
                Err(e) => Err(e),
            }
        } else {
            match spec_muncher(rest, (fuel - 1) as nat) {
                Ok(cs) => Ok(seq![ChunkV::Token(t)] + cs),
                Err(e) => Err(e),
            }
        }
    }
}

/// What `munch_do` parses after a `do`: the loop body's chunks and the tokens
/// after the closing `loop`; input ending first is `MissingDoPair`.
pub open spec fn spec_munch_do(toks: Seq<Seq<char>>, fuel: nat) -> Result<
    (Seq<ChunkV>, Seq<Seq<char>>),
    Error,
>
    decreases fuel,
{
    if toks.len() == 0 {
        Err(Error::MissingDoPair)
    } else if fuel == 0 {
        Err(Error::InternalError)
    } else {
        let t = toks[0];
        let rest = toks.drop_first();
        if t == "do"@ {
            match spec_munch_do(rest, (fuel - 1) as nat) {
                Ok((body, rem)) => match spec_munch_do(rem, (fuel - 1) as nat) {
                    Ok((cs, rem2)) => Ok((seq![ChunkV::DoLoop(body)] + cs, rem2)),
                    Err(e) => Err(e),
                },
                Err(e) => Err(e),
            }
        } else if t == "if"@ {
            match spec_munch_if(rest, (fuel - 1) as nat) {
                Ok((c, rem)) => match spec_munch_do(rem, (fuel - 1) as nat) {
                    Ok((cs, rem2)) => Ok((seq![c] + cs, rem2)),
                    Err(e) => Err(e),
                },
                Err(e) => Err(e),
            }
        } else if t == "loop"@ {
            Ok((Seq::<ChunkV>::empty(), rest))
        } else {
            match spec_munch_do(rest, (fuel - 1) as nat) {
                Ok((cs, rem2)) => Ok((seq![ChunkV::Token(t)] + cs, rem2)),
                Err(e) => Err(e),
            }
        }
    }
}

/// What `munch_if` parses after an `if`: the conditional chunk and the tokens
/// after its closing word; input ending first is `MissingIfPair`.
pub open spec fn spec_munch_if(toks: Seq<Seq<char>>, fuel: nat) -> Result<
    (ChunkV, Seq<Seq<char>>),
    Error,
>
    decreases fuel,
{
    if toks.len() == 0 {
        Err(Error::MissingIfPair)
    } else if fuel == 0 {
        Err(Error::InternalError)
    } else {
        let t = toks[0];
        let rest = toks.drop_first();
        if t == "do"@ {
            match spec_munch_do(rest, (fuel - 1) as nat) {
                Ok((body, rem)) => match spec_munch_if(rem, (fuel - 1) as nat) {
                    Ok((c, rem2)) => Ok((prepend_if(c, ChunkV::DoLoop(body)), rem2)),
                    Err(e) => Err(e),
                },
                Err(e) => Err(e),
            }
        } else if t == "if"@ {
            match spec_munch_if(rest, (fuel - 1) as nat) {
                Ok((inner, rem)) => match spec_munch_if(rem, (fuel - 1) as nat) {
                    Ok((c, rem2)) => Ok((prepend_if(c, inner), rem2)),
                    Err(e) => Err(e),
                },
                Err(e) => Err(e),
            }
        } else if t == "then"@ {
            Ok((ChunkV::IfThen(Seq::<ChunkV>::empty()), rest))
        } else if t == "else"@ {
            match spec_munch_else(rest, (fuel - 1) as nat) {
                Ok((eb, rem)) => Ok((ChunkV::IfElseThen(Seq::<ChunkV>::empty(), eb), rem)),
                Err(e) => Err(e),
            }
        } else {
            match spec_munch_if(rest, (fuel - 1) as nat) {
                Ok((c, rem2)) => Ok((prepend_if(c, ChunkV::Token(t)), rem2)),
                Err(e) => Err(e),
            }
        }
    }
}

/// What `munch_else` parses after an `else`: the else arm's chunks and the
/// tokens after the closing `then`; input ending first is `MissingElsePair`.
pub open spec fn spec_munch_else(toks: Seq<Seq<char>>, fuel: nat) -> Result<
    (Seq<ChunkV>, Seq<Seq<char>>),
    Error,
>
    decreases fuel,
{
    if toks.len() == 0 {
        Err(Error::MissingElsePair)
    } else if fuel == 0 {
        Err(Error::InternalError)
    } else {
        let t = toks[0];
        let rest = toks.drop_first();
        if t == "do"@ {
            match spec_munch_do(rest, (fuel - 1) as nat) {
                Ok((body, rem)) => match spec_munch_else(rem, (fuel - 1) as nat) {
                    Ok((cs, rem2)) => Ok((seq![ChunkV::DoLoop(body)] + cs, rem2)),
                    Err(e) => Err(e),
                },
                Err(e) => Err(e),
            }
        } else if t == "if"@ {
            match spec_munch_if(rest, (fuel - 1) as nat) {
                Ok((c, rem)) => match spec_munch_else(rem, (fuel - 1) as nat) {
                    Ok((cs, rem2)) => Ok((seq![c] + cs, rem2)),
                    Err(e) => Err(e),
                },
                Err(e) => Err(e),
            }
        } else if t == "then"@ {
            Ok((Seq::<ChunkV>::empty(), rest))
        } else {
            match spec_munch_else(rest, (fuel - 1) as nat) {
                Ok((cs, rem2)) => Ok((seq![ChunkV::Token(t)] + cs, rem2)),
                Err(e) => Err(e),
            }
        }
    }
}

/// A successful munch consumes at least one token: the remainder is shorter
/// than the input.
pub proof fn lemma_munch_len(toks: Seq<Seq<char>>, fuel: nat)
    ensures
        spec_munch_do(toks, fuel) matches Ok((_b, rem)) ==> rem.len() < toks.len(),
        spec_munch_if(toks, fuel) matches Ok((_c, rem)) ==> rem.len() < toks.len(),
        spec_munch_else(toks, fuel) matches Ok((_b, rem)) ==> rem.len() < toks.len(),
    decreases fuel,
{
    if toks.len() > 0 && fuel > 0 {
        let rest = toks.drop_first();
        lemma_munch_len(rest, (fuel - 1) as nat);
        if spec_munch_do(rest, (fuel - 1) as nat) is Ok {
            let rem = spec_munch_do(rest, (fuel - 1) as nat)->Ok_0.1;
            lemma_munch_len(rem, (fuel - 1) as nat);
        }
        if spec_munch_if(rest, (fuel - 1) as nat) is Ok {
            let rem = spec_munch_if(rest, (fuel - 1) as nat)->Ok_0.1;
            lemma_munch_len(rem, (fuel - 1) as nat);
        }
    }
}

/// The fuel is irrelevant once it covers the token count: any two adequate
/// fuels give the same parse.
pub proof fn lemma_munch_fuel(toks: Seq<Seq<char>>, f1: nat, f2: nat)
    requires
        f1 >= toks.len(),
        f2 >= toks.len(),
    ensures
        spec_muncher(toks, f1) == spec_muncher(toks, f2),
        spec_munch_do(toks, f1) == spec_munch_do(toks, f2),
        spec_munch_if(toks, f1) == spec_munch_if(toks, f2),
        spec_munch_else(toks, f1) == spec_munch_else(toks, f2),
    decreases f1 + f2,
{
    if toks.len() == 0 {
    } else {
        let rest = toks.drop_first();
        let g1 = (f1 - 1) as nat;
        let g2 = (f2 - 1) as nat;
        lemma_munch_fuel(rest, g1, g2);
        lemma_munch_len(rest, g1);
        lemma_munch_len(rest, g2);
        if spec_munch_do(rest, g1) is Ok {
            let rem = spec_munch_do(rest, g1)->Ok_0.1;
            lemma_munch_fuel(rem, g1, g2);
        }
        if spec_munch_if(rest, g1) is Ok {
            let rem = spec_munch_if(rest, g1)->Ok_0.1;
            lemma_munch_fuel(rem, g1, g2);
        }
        if spec_munch_else(rest, g1) is Ok {
            let rem = spec_munch_else(rest, g1)->Ok_0.1;
            lemma_munch_fuel(rem, g1, g2);
        }
    }
}


/// Parses one body's tokens into chunks, consuming the whole queue.
pub fn muncher(data: &mut VecDeque<String>) -> (r: Result<Vec<Chunk>, Error>)
    ensures
        match spec_muncher(toks_view(old(data)@), old(data)@.len() as nat) {
            Ok(cs) => (r matches Ok(v) && chunks_view(v@) == cs) && final(data)@.len() == 0,
            Err(e) => r == Err::<Vec<Chunk>, Error>(e),
        },
    decreases old(data)@.len(),
{
    let ghost toks = old(data)@;
    let t = match data.pop_front() {
        Some(t) => t,
        None => {
            return Ok(Vec::new());
        },
    };
    let ghost rest = toks_view(toks).drop_first();
    let ghost fuel = (toks.len() - 1) as nat;
    proof {
        assert(rest =~= toks_view(toks.drop_first()));
        assert(toks_view(toks.drop_first()) =~= toks_view(data@));
    }
    if str_eq(t.as_str(), "do") {
        let body = match munch_do(data) {
            Ok(b) => b,
            Err(e) => {
                proof {
                    lemma_munch_fuel(rest, rest.len() as nat, fuel);
                }
                return Err(e);
            },
        };
        proof {
            lemma_munch_fuel(rest, rest.len() as nat, fuel);
            lemma_munch_len(rest, fuel);
        }
        let ghost rem = toks_view(data@);
        let mut cs = match muncher(data) {
            Ok(cs) => cs,
            Err(e) => {
                proof {
                    lemma_munch_fuel(rem, rem.len() as nat, fuel);
                }
                return Err(e);
            },
        };
        proof {
            lemma_munch_fuel(rem, rem.len() as nat, fuel);
        }
        let ghost cs0 = cs@;
        cs.insert(0, Chunk::DoLoop { do_body: body });
        proof {
            assert(cs@.drop_first() =~= cs0);
            lemma_chunks_view(cs@);
            lemma_chunks_view(cs0);
            assert(chunks_view(cs@) =~= seq![chunk_view(cs@[0])] + chunks_view(cs0));
        }
        Ok(cs)
    } else if str_eq(t.as_str(), "if") {
        let c = match munch_if(data) {
            Ok(c) => c,
            Err(e) => {
                proof {
                    lemma_munch_fuel(rest, rest.len() as nat, fuel);
                }
                return Err(e);
            },
        };
        proof {
            lemma_munch_fuel(rest, rest.len() as nat, fuel);
            lemma_munch_len(rest, fuel);
        }
        let ghost rem = toks_view(data@);
        let mut cs = match muncher(data) {
            Ok(cs) => cs,
            Err(e) => {
                proof {
                    lemma_munch_fuel(rem, rem.len() as nat, fuel);
                }
                return Err(e);
            },
        };
        proof {
            lemma_munch_fuel(rem, rem.len() as nat, fuel);
        }
        let ghost cs0 = cs@;
        cs.insert(0, c);
        proof {
            assert(cs@.drop_first() =~= cs0);
            lemma_chunks_view(cs@);
            lemma_chunks_view(cs0);
            assert(chunks_view(cs@) =~= seq![chunk_view(cs@[0])] + chunks_view(cs0));
        }
        Ok(cs)
    } else {
        let mut cs = match muncher(data) {
            Ok(cs) => cs,
            Err(e) => {
                return Err(e);
            },
        };
        let ghost cs0 = cs@;
        cs.insert(0, Chunk::Token(t));
        proof {
            assert(cs@.drop_first() =~= cs0);
            lemma_chunks_view(cs@);
            lemma_chunks_view(cs0);
            assert(chunks_view(cs@) =~= seq![chunk_view(cs@[0])] + chunks_view(cs0));
        }
        Ok(cs)
    }
}

/// Parses the body of a `do` up to its closing `loop`.
pub fn munch_do(data: &mut VecDeque<String>) -> (r: Result<Vec<Chunk>, Error>)
    ensures
        match spec_munch_do(toks_view(old(data)@), old(data)@.len() as nat) {
            Ok((body, rem)) => (r matches Ok(v) && chunks_view(v@) == body) && toks_view(final(data)@) == rem
                && final(data)@.len() < old(data)@.len(),
            Err(e) => r == Err::<Vec<Chunk>, Error>(e),
        },
    decreases old(data)@.len(),
{
    let ghost toks = old(data)@;
    let t = match data.pop_front() {
        Some(t) => t,
        None => {
            return Err(Error::MissingDoPair);
        },
    };
    let ghost rest = toks_view(toks).drop_first();
    let ghost fuel = (toks.len() - 1) as nat;
    proof {
        assert(rest =~= toks_view(toks.drop_first()));
        assert(toks_view(toks.drop_first()) =~= toks_view(data@));
    }
    if str_eq(t.as_str(), "do") {
        let body = match munch_do(data) {
            Ok(b) => b,
            Err(e) => {
                proof {
                    lemma_munch_fuel(rest, rest.len() as nat, fuel);
                }
                return Err(e);
            },
        };
        proof {
            lemma_munch_fuel(rest, rest.len() as nat, fuel);
            lemma_munch_len(rest, fuel);
        }
        let ghost rem = toks_view(data@);
        let mut cs = match munch_do(data) {
            Ok(cs) => cs,
            Err(e) => {
                proof {
                    lemma_munch_fuel(rem, rem.len() as nat, fuel);
                }
                return Err(e);
            },
        };
        proof {
            lemma_munch_fuel(rem, rem.len() as nat, fuel);
        }
        let ghost cs0 = cs@;
        cs.insert(0, Chunk::DoLoop { do_body: body });
        proof {
            assert(cs@.drop_first() =~= cs0);
            lemma_chunks_view(cs@);
            lemma_chunks_view(cs0);
            assert(chunks_view(cs@) =~= seq![chunk_view(cs@[0])] + chunks_view(cs0));
        }
        Ok(cs)
    } else if str_eq(t.as_str(), "if") {
        let c = match munch_if(data) {
            Ok(c) => c,
            Err(e) => {
                proof {
                    lemma_munch_fuel(rest, rest.len() as nat, fuel);
                }
                return Err(e);
            },
        };
        proof {
            lemma_munch_fuel(rest, rest.len() as nat, fuel);
            lemma_munch_len(rest, fuel);
        }
        let ghost rem = toks_view(data@);
        let mut cs = match munch_do(data) {
            Ok(cs) => cs,
            Err(e) => {
                proof {
                    lemma_munch_fuel(rem, rem.len() as nat, fuel);
                }
                return Err(e);
            },
        };
        proof {
            lemma_munch_fuel(rem, rem.len() as nat, fuel);
        }
        let ghost cs0 = cs@;
        cs.insert(0, c);
        proof {
            assert(cs@.drop_first() =~= cs0);
            lemma_chunks_view(cs@);
            lemma_chunks_view(cs0);
            assert(chunks_view(cs@) =~= seq![chunk_view(cs@[0])] + chunks_view(cs0));
        }
        Ok(cs)
    } else if str_eq(t.as_str(), "loop") {
        Ok(Vec::new())
    } else {
        let mut cs = match munch_do(data) {
            Ok(cs) => cs,
            Err(e) => {
                return Err(e);
            },
        };
        let ghost cs0 = cs@;
        cs.insert(0, Chunk::Token(t));
        proof {
            assert(cs@.drop_first() =~= cs0);
            lemma_chunks_view(cs@);
            lemma_chunks_view(cs0);
            assert(chunks_view(cs@) =~= seq![chunk_view(cs@[0])] + chunks_view(cs0));
        }
        Ok(cs)
    }
}

/// Parses the rest of an `if` up to its closing `then` or through its `else`.
pub fn munch_if(data: &mut VecDeque<String>) -> (r: Result<Chunk, Error>)
    ensures
        match spec_munch_if(toks_view(old(data)@), old(data)@.len() as nat) {
            Ok((c, rem)) => (r matches Ok(ch) && chunk_view(ch) == c) && toks_view(final(data)@) == rem
                && final(data)@.len() < old(data)@.len(),
            Err(e) => r == Err::<Chunk, Error>(e),
        },
    decreases old(data)@.len(),
{
    let ghost toks = old(data)@;
    let t = match data.pop_front() {
        Some(t) => t,
        None => {
            return Err(Error::MissingIfPair);
        },
    };
    let ghost rest = toks_view(toks).drop_first();
    let ghost fuel = (toks.len() - 1) as nat;
    proof {
        assert(rest =~= toks_view(toks.drop_first()));
        assert(toks_view(toks.drop_first()) =~= toks_view(data@));
    }
    if str_eq(t.as_str(), "do") {
        let body = match munch_do(data) {
            Ok(b) => b,
            Err(e) => {
                proof {
                    lemma_munch_fuel(rest, rest.len() as nat, fuel);
                }
                return Err(e);
            },
        };
        proof {
            lemma_munch_fuel(rest, rest.len() as nat, fuel);
            lemma_munch_len(rest, fuel);
        }
        let ghost rem = toks_view(data@);
        let c = match munch_if(data) {
            Ok(c) => c,
            Err(e) => {
                proof {
                    lemma_munch_fuel(rem, rem.len() as nat, fuel);
                }
                return Err(e);
            },
        };
        proof {
            lemma_munch_fuel(rem, rem.len() as nat, fuel);
        }
        let c2 = prepend_if_arm(c, Chunk::DoLoop { do_body: body });
        Ok(c2)
    } else if str_eq(t.as_str(), "if") {
        let inner = match munch_if(data) {
            Ok(c) => c,
            Err(e) => {
                proof {
                    lemma_munch_fuel(rest, rest.len() as nat, fuel);
                }
                return Err(e);
            },
        };
        proof {
            lemma_munch_fuel(rest, rest.len() as nat, fuel);
            lemma_munch_len(rest, fuel);
        }
        let ghost rem = toks_view(data@);
        let c = match munch_if(data) {
            Ok(c) => c,
            Err(e) => {
                proof {
                    lemma_munch_fuel(rem, rem.len() as nat, fuel);
                }
                return Err(e);
            },
        };
        proof {
            lemma_munch_fuel(rem, rem.len() as nat, fuel);
        }
        let c2 = prepend_if_arm(c, inner);
        Ok(c2)
    } else if str_eq(t.as_str(), "then") {
        proof {
            lemma_chunks_view(Seq::<Chunk>::empty());
            assert(chunks_view(Seq::<Chunk>::empty()) =~= Seq::<ChunkV>::empty());
        }
        Ok(Chunk::IfThen { if_body: Vec::new() })
    } else if str_eq(t.as_str(), "else") {
        let eb = match munch_else(data) {
            Ok(b) => b,
            Err(e) => {
                proof {
                    lemma_munch_fuel(rest, rest.len() as nat, fuel);
                }
                return Err(e);
            },
        };
        proof {
            lemma_munch_fuel(rest, rest.len() as nat, fuel);
            assert(chunks_view(Seq::<Chunk>::empty()) =~= Seq::<ChunkV>::empty());
        }
        Ok(Chunk::IfElseThen { if_body: Vec::new(), else_body: eb })
    } else {
        let c = match munch_if(data) {
            Ok(c) => c,
            Err(e) => {
                return Err(e);
            },
        };
        let c2 = prepend_if_arm(c, Chunk::Token(t));
        Ok(c2)
    }
}

/// Parses the else arm up to its closing `then`.
pub fn munch_else(data: &mut VecDeque<String>) -> (r: Result<Vec<Chunk>, Error>)
    ensures
        match spec_munch_else(toks_view(old(data)@), old(data)@.len() as nat) {
            Ok((body, rem)) => (r matches Ok(v) && chunks_view(v@) == body) && toks_view(final(data)@) == rem
                && final(data)@.len() < old(data)@.len(),
            Err(e) => r == Err::<Vec<Chunk>, Error>(e),
        },
    decreases old(data)@.len(),
{
    let ghost toks = old(data)@;
    let t = match data.pop_front() {
        Some(t) => t,
        None => {
            return Err(Error::MissingElsePair);
        },
    };
    let ghost rest = toks_view(toks).drop_first();
    let ghost fuel = (toks.len() - 1) as nat;
    proof {
        assert(rest =~= toks_view(toks.drop_first()));
        assert(toks_view(toks.drop_first()) =~= toks_view(data@));
    }
    if str_eq(t.as_str(), "do") {
        let body = match munch_do(data) {
            Ok(b) => b,
            Err(e) => {
                proof {
                    lemma_munch_fuel(rest, rest.len() as nat, fuel);
                }
                return Err(e);
            },
        };
        proof {
            lemma_munch_fuel(rest, rest.len() as nat, fuel);
            lemma_munch_len(rest, fuel);
        }
        let ghost rem = toks_view(data@);
        let mut cs = match munch_else(data) {
            Ok(cs) => cs,
            Err(e) => {
                proof {
                    lemma_munch_fuel(rem, rem.len() as nat, fuel);
                }
                return Err(e);
            },
        };
        proof {
            lemma_munch_fuel(rem, rem.len() as nat, fuel);
        }
        let ghost cs0 = cs@;
        cs.insert(0, Chunk::DoLoop { do_body: body });
        proof {
            assert(cs@.drop_first() =~= cs0);
            lemma_chunks_view(cs@);
            lemma_chunks_view(cs0);
            assert(chunks_view(cs@) =~= seq![chunk_view(cs@[0])] + chunks_view(cs0));
        }
        Ok(cs)
    } else if str_eq(t.as_str(), "if") {
        let c = match munch_if(data) {
            Ok(c) => c,
            Err(e) => {
                proof {
                    lemma_munch_fuel(rest, rest.len() as nat, fuel);
                }
                return Err(e);
            },
        };
        proof {
            lemma_munch_fuel(rest, rest.len() as nat, fuel);
            lemma_munch_len(rest, fuel);
        }
        let ghost rem = toks_view(data@);
        let mut cs = match munch_else(data) {
            Ok(cs) => cs,
            Err(e) => {
                proof {
                    lemma_munch_fuel(rem, rem.len() as nat, fuel);
                }
                return Err(e);
            },
        };
        proof {
            lemma_munch_fuel(rem, rem.len() as nat, fuel);
        }
        let ghost cs0 = cs@;
        cs.insert(0, c);
        proof {
            assert(cs@.drop_first() =~= cs0);
            lemma_chunks_view(cs@);
            lemma_chunks_view(cs0);
            assert(chunks_view(cs@) =~= seq![chunk_view(cs@[0])] + chunks_view(cs0));
        }
        Ok(cs)
    } else if str_eq(t.as_str(), "then") {
        Ok(Vec::new())
    } else {
        let mut cs = match munch_else(data) {
            Ok(cs) => cs,
            Err(e) => {
                return Err(e);
            },
        };
        let ghost cs0 = cs@;
        cs.insert(0, Chunk::Token(t));
        proof {
            assert(cs@.drop_first() =~= cs0);
            lemma_chunks_view(cs@);
            lemma_chunks_view(cs0);
            assert(chunks_view(cs@) =~= seq![chunk_view(cs@[0])] + chunks_view(cs0));
        }
        Ok(cs)
    }
}

/// Prepends a chunk to the `if` arm of a parsed conditional.
fn prepend_if_arm(c: Chunk, x: Chunk) -> (r: Chunk)
    ensures
        chunk_view(r) == prepend_if(chunk_view(c), chunk_view(x)),
{
    match c {
        Chunk::IfThen { mut if_body } => {
            let ghost b0 = if_body@;
            if_body.insert(0, x);
            proof {
                assert(if_body@.drop_first() =~= b0);
                lemma_chunks_view(if_body@);
                lemma_chunks_view(b0);
                assert(chunks_view(if_body@) =~= seq![chunk_view(if_body@[0])] + chunks_view(b0));
            }
            Chunk::IfThen { if_body }
        },
        Chunk::IfElseThen { mut if_body, else_body } => {
            let ghost b0 = if_body@;
            if_body.insert(0, x);
            proof {
                assert(if_body@.drop_first() =~= b0);
                lemma_chunks_view(if_body@);
                lemma_chunks_view(b0);
                assert(chunks_view(if_body@) =~= seq![chunk_view(if_body@[0])] + chunks_view(b0));
            }
            Chunk::IfElseThen { if_body, else_body }
        },
        other => other,
    }
}


/// Resolves one token against the dictionary: primitive, then definition,
/// then signed decimal literal; anything else is an unknown word.
pub fn lower_token(dict: &Dict, tok: &String) -> (r: Result<NamedWord, Error>)
    ensures
        match spec_lower_token(dict.bis@, dict.data@, tok@) {
            Some(w) => r matches Ok(nw) && nw@ == w,
            None => r == Err::<NamedWord, Error>(Error::InternalError),
        },
{
    match dict.get_bi(tok.as_str()) {
        Some(p) => Ok(NamedWord { name: tok.clone(), word: RuntimeWord::Verb(p) }),
        None => {
            if dict.has_def(tok.as_str()) {
                Ok(
                    NamedWord {
                        name: tok.clone(),
                        word: RuntimeWord::VerbSeq(VerbSeqInner { tok: tok.clone(), idx: 0 }),
                    },
                )
            } else {
                match parse_num(tok.as_str()) {
                    Some(n) => {
                        let mut name = "LIT(".to_string();
                        push_dec_i64(&mut name, n as i64);
                        crate::text::push_char(&mut name, ')');
                        proof {
                            reveal_strlit("LIT(");
                            assert(name@ =~= lit_name(n as int));
                        }
                        Ok(NamedWord { name, word: RuntimeWord::LiteralVal(n) })
                    },
                    None => Err(Error::InternalError),
                }
            }
        },
    }
}

impl Chunk {
    /// Lowers this chunk to its bytecode words against the dictionary.
    pub fn to_named_rt_words(&self, dict: &Dict) -> (r: Result<Vec<NamedWord>, Error>)
        ensures
            match spec_lower_chunk(dict.bis@, dict.data@, chunk_view(*self)) {
                Ok(ws) => r matches Ok(v) && nws_view(v@) == ws,
                Err(e) => r == Err::<Vec<NamedWord>, Error>(e),
            },
        decreases self,
    {
        match self {
            Chunk::Token(t) => {
                let w = match lower_token(dict, t) {
                    Ok(w) => w,
                    Err(e) => {
                        return Err(e);
                    },
                };
                let ghost wv = w@;
                let mut out: Vec<NamedWord> = Vec::new();
                out.push(w);
                proof {
                    assert(nws_view(out@) =~= seq![wv]);
                }
                Ok(out)
            },
            Chunk::IfThen { if_body } => {
                let mut bw = match lower_chunks(dict, if_body) {
                    Ok(v) => v,
                    Err(e) => {
                        return Err(e);
                    },
                };
                if bw.len() > 0x7FFF_FFFFusize {
                    return Err(Error::BadMath);
                }
                let ghost bwv = nws_view(bw@);
                let mut out: Vec<NamedWord> = Vec::new();
                out.push(
                    NamedWord {
                        name: "CRJ".to_string(),
                        word: RuntimeWord::CondRelativeJump {
                            offset: bw.len() as i32,
                            jump_on: false,
                        },
                    },
                );
                let ghost head = nws_view(out@);
                out.append(&mut bw);
                proof {
                    assert(head =~= seq![
                        NamedWordV {
                            name: "CRJ"@,
                            word: WordV::CondJump(bwv.len() as i32, false),
                        },
                    ]);
                    assert(nws_view(out@) =~= head + bwv);
                }
                Ok(out)
            },
            Chunk::IfElseThen { if_body, else_body } => {
                let mut iw = match lower_chunks(dict, if_body) {
                    Ok(v) => v,
                    Err(e) => {
                        return Err(e);
                    },
                };
                let mut ew = match lower_chunks(dict, else_body) {
                    Ok(v) => v,
                    Err(e) => {
                        return Err(e);
                    },
                };
                if iw.len() >= 0x7FFF_FFFFusize || ew.len() > 0x7FFF_FFFFusize {
                    return Err(Error::BadMath);
                }
                let ghost iwv = nws_view(iw@);
                let ghost ewv = nws_view(ew@);
                let mut out: Vec<NamedWord> = Vec::new();
                out.push(
                    NamedWord {
                        name: "CRJ".to_string(),
                        word: RuntimeWord::CondRelativeJump {
                            offset: (iw.len() + 1) as i32,
                            jump_on: false,
                        },
                    },
                );
                let ucrj = NamedWord {
                    name: "UCRJ".to_string(),
                    word: RuntimeWord::UncondRelativeJump { offset: ew.len() as i32 },
                };
                out.append(&mut iw);
                out.push(ucrj);
                out.append(&mut ew);
                proof {
                    assert(nws_view(out@) =~= seq![
                        NamedWordV {
                            name: "CRJ"@,
                            word: WordV::CondJump((iwv.len() + 1) as i32, false),
                        },
                    ] + iwv + seq![
                        NamedWordV { name: "UCRJ"@, word: WordV::Jump(ewv.len() as i32) },
                    ] + ewv);
                }
                Ok(out)
            },
            Chunk::DoLoop { do_body } => {
                let mut bw = match lower_chunks(dict, do_body) {
                    Ok(v) => v,
                    Err(e) => {
                        return Err(e);
                    },
                };
                if bw.len() > 0x7FFF_FFFDusize {
                    return Err(Error::BadMath);
                }
                let blen = bw.len();
                let ghost bwv = nws_view(bw@);
                let mut out: Vec<NamedWord> = Vec::new();
                out.push(
                    NamedWord { name: ">r".to_string(), word: RuntimeWord::Verb(Prim::RetPush) },
                );
                out.push(
                    NamedWord { name: ">r".to_string(), word: RuntimeWord::Verb(Prim::RetPush) },
                );
                out.append(&mut bw);
                out.push(
                    NamedWord {
                        name: "PRIV_LOOP".to_string(),
                        word: RuntimeWord::Verb(Prim::PrivLoop),
                    },
                );
                let off: i32 = -((blen + 2) as i32);
                out.push(
                    NamedWord {
                        name: "CRJ".to_string(),
                        word: RuntimeWord::CondRelativeJump { offset: off, jump_on: false },
                    },
                );
                proof {
                    assert(nws_view(out@) =~= seq![
                        NamedWordV { name: ">r"@, word: WordV::Verb(Prim::RetPush) },
                        NamedWordV { name: ">r"@, word: WordV::Verb(Prim::RetPush) },
                    ] + bwv + seq![
                        NamedWordV { name: "PRIV_LOOP"@, word: WordV::Verb(Prim::PrivLoop) },
                        NamedWordV {
                            name: "CRJ"@,
                            word: WordV::CondJump((-(bwv.len() + 2)) as i32, false),
                        },
                    ]);
                }
                Ok(out)
            },
        }
    }
}

/// Lowers a chunk sequence: the concatenation of each chunk's words, or the
/// first error.
pub fn lower_chunks(dict: &Dict, cs: &Vec<Chunk>) -> (r: Result<Vec<NamedWord>, Error>)
    ensures
        match spec_lower_chunks(dict.bis@, dict.data@, chunks_view(cs@)) {
            Ok(ws) => r matches Ok(v) && nws_view(v@) == ws,
            Err(e) => r == Err::<Vec<NamedWord>, Error>(e),
        },
    decreases cs@,
{
    let ghost full = chunks_view(cs@);
    proof {
        lemma_chunks_view(cs@);
    }
    let n = cs.len();
    let mut out: Vec<NamedWord> = Vec::new();
    let mut i: usize = 0;
    proof {
        assert(full.subrange(0, full.len() as int) =~= full);
    }
    while i < n
        invariant
            i <= n,
            n == cs@.len(),
            full == chunks_view(cs@),
            full.len() == n,
            forall|j: int| 0 <= j < n ==> full[j] == chunk_view(#[trigger] cs@[j]),
            match spec_lower_chunks(dict.bis@, dict.data@, full.subrange(i as int, n as int)) {
                Ok(w) => spec_lower_chunks(dict.bis@, dict.data@, full) == Ok::<
                    Seq<NamedWordV>,
                    Error,
                >(nws_view(out@) + w),
                Err(e) => spec_lower_chunks(dict.bis@, dict.data@, full) == Err::<
                    Seq<NamedWordV>,
                    Error,
                >(e),
            },
        decreases n - i,
    {
        let ghost pend = full.subrange(i as int, n as int);
        proof {
            assert(pend[0] == chunk_view(cs@[i as int]));
            assert(pend.drop_first() =~= full.subrange(i + 1, n as int));
        }
        let mut w = match cs[i].to_named_rt_words(dict) {
            Ok(w) => w,
            Err(e) => {
                return Err(e);
            },
        };
        let ghost outv = nws_view(out@);
        let ghost wv = nws_view(w@);
        out.append(&mut w);
        proof {
            assert(nws_view(out@) =~= outv + wv);
            if spec_lower_chunks(dict.bis@, dict.data@, pend.drop_first()) is Ok {
                let restw = spec_lower_chunks(dict.bis@, dict.data@, pend.drop_first())->Ok_0;
                assert((outv + wv) + restw =~= outv + (wv + restw));
            }
        }
        i = i + 1;
    }
    proof {
        assert(full.subrange(n as int, n as int) =~= Seq::<ChunkV>::empty());
        assert(nws_view(out@) + Seq::<NamedWordV>::empty() =~= nws_view(out@));
    }
    Ok(out)
}

} // verus!
