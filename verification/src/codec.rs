use vstd::prelude::*;
use crate::Error;
use crate::compiler::toks_view;
use crate::ser_de::{SerDict, SerWord};
use crate::text::{char_code, char_from_u32, is_unicode_scalar, push_char, str_chars};

verus! {

/// The little-endian base-128 varint encoding of `n`: seven value bits per
/// byte, the high bit marking continuation.
pub open spec fn spec_enc_varint(n: nat) -> Seq<u8>
    decreases n,
{
    if n < 128 {
        seq![n as u8]
    } else {
        seq![(128 + (n % 128)) as u8] + spec_enc_varint(n / 128)
    }
}

/// The zigzag reinterpretation of a signed 32-bit value as unsigned.
pub open spec fn spec_zig(v: i32) -> nat {
    if v >= 0 {
        (2 * v) as nat
    } else {
        (-2 * v - 1) as nat
    }
}

/// The wire form of a signed 32-bit value: zigzag, then varint.
pub open spec fn spec_enc_i32(v: i32) -> Seq<u8> {
    spec_enc_varint(spec_zig(v))
}

/// The scalar value of a character.
pub open spec fn char_nat(c: char) -> nat {
    if c as int >= 0 {
        (c as int) as nat
    } else {
        0
    }
}

/// The wire form of a string's characters: each scalar as a varint.
pub open spec fn spec_enc_chars(s: Seq<char>) -> Seq<u8>
    decreases s.len(),
{
    if s.len() == 0 {
        Seq::<u8>::empty()
    } else {
        spec_enc_varint(char_nat(s[0])) + spec_enc_chars(s.drop_first())
    }
}

/// The wire form of a string: its length, then its characters.
pub open spec fn spec_enc_str(s: Seq<char>) -> Seq<u8> {
    spec_enc_varint(s.len()) + spec_enc_chars(s)
}

/// The wire form of one bytecode word: a tag byte, then the payload. The tag
/// assignment is fixed: literal 0, primitive 1, call 2, unconditional jump 3,
/// conditional jump 4; a polarity flag is a single byte, 0 or 1.
pub open spec fn spec_enc_word(sw: SerWord) -> Seq<u8> {
    match sw {
        SerWord::LiteralVal(v) => seq![0u8] + spec_enc_i32(v),
        SerWord::Verb(k) => seq![1u8] + spec_enc_varint(k as nat),
        SerWord::VerbSeq(k) => seq![2u8] + spec_enc_varint(k as nat),
        SerWord::UncondRelativeJump { offset } => seq![3u8] + spec_enc_i32(offset),
        SerWord::CondRelativeJump { offset, jump_on } => seq![4u8] + spec_enc_i32(offset) + seq![
            if jump_on {
                1u8
            } else {
                0u8
            },
        ],
    }
}

/// The wire form of a word list's body.
pub open spec fn spec_enc_words_body(ws: Seq<SerWord>) -> Seq<u8>
    decreases ws.len(),
{
    if ws.len() == 0 {
        Seq::<u8>::empty()
    } else {
        spec_enc_word(ws[0]) + spec_enc_words_body(ws.drop_first())
    }
}

/// The wire form of one definition: its word count, then its words.
pub open spec fn spec_enc_words(ws: Seq<SerWord>) -> Seq<u8> {
    spec_enc_varint(ws.len()) + spec_enc_words_body(ws)
}

/// The wire form of the definition array's body.
pub open spec fn spec_enc_defs(ds: Seq<Seq<SerWord>>) -> Seq<u8>
    decreases ds.len(),
{
    if ds.len() == 0 {
        Seq::<u8>::empty()
    } else {
        spec_enc_words(ds[0]) + spec_enc_defs(ds.drop_first())
    }
}

/// The wire form of a name array's body.
pub open spec fn spec_enc_strs(ss: Seq<Seq<char>>) -> Seq<u8>
    decreases ss.len(),
{
    if ss.len() == 0 {
        Seq::<u8>::empty()
    } else {
        spec_enc_str(ss[0]) + spec_enc_strs(ss.drop_first())
    }
}

/// The definitions of an artifact, by value.
pub open spec fn defs_bytes_view(data: Seq<Vec<SerWord>>) -> Seq<Seq<SerWord>> {
    data.map_values(|v: Vec<SerWord>| v@)
}

/// The complete wire form of an artifact: the definition array, then the
/// optional name array behind a presence byte, then the primitive-name array.
pub open spec fn spec_enc_dict(sd: SerDict) -> Seq<u8> {
    spec_enc_varint(sd.data@.len()) + spec_enc_defs(defs_bytes_view(sd.data@)) + (
    match sd.data_map {
        Some(dm) => seq![1u8] + spec_enc_varint(dm@.len()) + spec_enc_strs(toks_view(dm@)),
        None => seq![0u8],
    }) + spec_enc_varint(sd.bis@.len()) + spec_enc_strs(toks_view(sd.bis@))
}

/// Appends the varint encoding of `n`.
pub fn enc_varint(out: &mut Vec<u8>, n: u64)
    ensures
        final(out)@ == old(out)@ + spec_enc_varint(n as nat),
    decreases n,
{
    if n < 128 {
        out.push(n as u8);
        proof {
            assert(out@ =~= old(out)@ + spec_enc_varint(n as nat));
        }
    } else {
        out.push((128 + (n % 128)) as u8);
        proof {
            assert(out@ =~= old(out)@ + seq![(128 + (n as nat % 128)) as u8]);
        }
        enc_varint(out, n / 128);
        proof {
            assert(out@ =~= old(out)@ + spec_enc_varint(n as nat));
        }
    }
}

/// Appends the zigzag varint encoding of `v`.
pub fn enc_i32(out: &mut Vec<u8>, v: i32)
    ensures
        final(out)@ == old(out)@ + spec_enc_i32(v),
{
    let z: u64 = if v >= 0 {
        2 * (v as u64)
    } else {
        let m = (-(v as i64)) as u64;
        2 * m - 1
    };
    assert(z == spec_zig(v));
    enc_varint(out, z);
}

/// Appends the wire form of a string.
pub fn enc_str(out: &mut Vec<u8>, s: &str)
    ensures
        final(out)@ == old(out)@ + spec_enc_str(s@),
{
    let cs = str_chars(s);
    let n = cs.len();
    enc_varint(out, n as u64);
    let mut i: usize = 0;
    proof {
        assert(spec_enc_chars(s@.subrange(0, 0)) =~= Seq::<u8>::empty());
        assert(out@ =~= old(out)@ + spec_enc_varint(s@.len()) + spec_enc_chars(
            s@.subrange(0, 0),
        ));
    }
    while i < n
        invariant
            i <= n,
            n == s@.len(),
            cs@ == s@,
            out@ == old(out)@ + spec_enc_varint(s@.len()) + spec_enc_chars(
                s@.subrange(0, i as int),
            ),
        decreases n - i,
    {
        let c = cs[i];
        let u = char_code(c);
        proof {
            assert(char_nat(c) == u as nat);
            lemma_enc_chars_push(s@.subrange(0, i as int), c);
            assert(s@.subrange(0, i as int).push(c) =~= s@.subrange(0, i + 1));
        }
        enc_varint(out, u as u64);
        proof {
            assert(out@ =~= old(out)@ + spec_enc_varint(s@.len()) + spec_enc_chars(
                s@.subrange(0, i + 1),
            ));
        }
        i = i + 1;
    }
    proof {
        assert(s@.subrange(0, n as int) =~= s@);
    }
}

/// Extending a string extends its character encoding.
proof fn lemma_enc_chars_push(s: Seq<char>, c: char)
    ensures
        spec_enc_chars(s.push(c)) == spec_enc_chars(s) + spec_enc_varint(char_nat(c)),
    decreases s.len(),
{
    if s.len() == 0 {
        assert(s.push(c).drop_first() =~= Seq::<char>::empty());
        assert(spec_enc_chars(Seq::<char>::empty()) == Seq::<u8>::empty());
        assert(spec_enc_chars(s.push(c)) =~= spec_enc_chars(s) + spec_enc_varint(char_nat(c)));
    } else {
        assert(s.push(c).drop_first() =~= s.drop_first().push(c));
        assert(s.push(c)[0] == s[0]);
        lemma_enc_chars_push(s.drop_first(), c);
        assert(spec_enc_chars(s.push(c)) == spec_enc_varint(char_nat(s[0])) + (spec_enc_chars(
            s.drop_first(),
        ) + spec_enc_varint(char_nat(c))));
        assert(spec_enc_chars(s.push(c)) =~= spec_enc_chars(s) + spec_enc_varint(char_nat(c)));
    }
}

/// Extending a word list extends its encoding.
proof fn lemma_enc_words_body_push(ws: Seq<SerWord>, w: SerWord)
    ensures
        spec_enc_words_body(ws.push(w)) == spec_enc_words_body(ws) + spec_enc_word(w),
    decreases ws.len(),
{
    if ws.len() == 0 {
        assert(ws.push(w).drop_first() =~= Seq::<SerWord>::empty());
        assert(spec_enc_words_body(Seq::<SerWord>::empty()) == Seq::<u8>::empty());
        assert(spec_enc_words_body(ws.push(w)) =~= spec_enc_words_body(ws) + spec_enc_word(w));
    } else {
        assert(ws.push(w).drop_first() =~= ws.drop_first().push(w));
        assert(ws.push(w)[0] == ws[0]);
        lemma_enc_words_body_push(ws.drop_first(), w);
        assert(spec_enc_words_body(ws.push(w)) == spec_enc_word(ws[0]) + (spec_enc_words_body(
            ws.drop_first(),
        ) + spec_enc_word(w)));
        assert(spec_enc_words_body(ws.push(w)) =~= spec_enc_words_body(ws) + spec_enc_word(w));
    }
}

/// Extending the definition array extends its encoding.
proof fn lemma_enc_defs_push(ds: Seq<Seq<SerWord>>, d: Seq<SerWord>)
    ensures
        spec_enc_defs(ds.push(d)) == spec_enc_defs(ds) + spec_enc_words(d),
    decreases ds.len(),
{
    if ds.len() == 0 {
        assert(ds.push(d).drop_first() =~= Seq::<Seq<SerWord>>::empty());
        assert(spec_enc_defs(Seq::<Seq<SerWord>>::empty()) == Seq::<u8>::empty());
        assert(spec_enc_defs(ds.push(d)) =~= spec_enc_defs(ds) + spec_enc_words(d));
    } else {
        assert(ds.push(d).drop_first() =~= ds.drop_first().push(d));
        assert(ds.push(d)[0] == ds[0]);
        lemma_enc_defs_push(ds.drop_first(), d);
        assert(spec_enc_defs(ds.push(d)) == spec_enc_words(ds[0]) + (spec_enc_defs(
            ds.drop_first(),
        ) + spec_enc_words(d)));
        assert(spec_enc_defs(ds.push(d)) =~= spec_enc_defs(ds) + spec_enc_words(d));
    }
}

/// Extending a name array extends its encoding.
proof fn lemma_enc_strs_push(ss: Seq<Seq<char>>, s: Seq<char>)
    ensures
        spec_enc_strs(ss.push(s)) == spec_enc_strs(ss) + spec_enc_str(s),
    decreases ss.len(),
{
    if ss.len() == 0 {
        assert(ss.push(s).drop_first() =~= Seq::<Seq<char>>::empty());
        assert(spec_enc_strs(Seq::<Seq<char>>::empty()) == Seq::<u8>::empty());
        assert(spec_enc_strs(ss.push(s)) =~= spec_enc_strs(ss) + spec_enc_str(s));
    } else {
        assert(ss.push(s).drop_first() =~= ss.drop_first().push(s));
        assert(ss.push(s)[0] == ss[0]);
        lemma_enc_strs_push(ss.drop_first(), s);
        assert(spec_enc_strs(ss.push(s)) == spec_enc_str(ss[0]) + (spec_enc_strs(
            ss.drop_first(),
        ) + spec_enc_str(s)));
        assert(spec_enc_strs(ss.push(s)) =~= spec_enc_strs(ss) + spec_enc_str(s));
    }
}

/// Appends the wire form of one word.
pub fn enc_word(out: &mut Vec<u8>, sw: &SerWord)
    ensures
        final(out)@ == old(out)@ + spec_enc_word(*sw),
{
    match sw {
        SerWord::LiteralVal(v) => {
            out.push(0u8);
            proof {
                assert(out@ =~= old(out)@ + seq![0u8]);
            }
            enc_i32(out, *v);
            proof {
                assert(out@ =~= old(out)@ + spec_enc_word(*sw));
            }
        },
        SerWord::Verb(k) => {
            out.push(1u8);
            proof {
                assert(out@ =~= old(out)@ + seq![1u8]);
            }
            enc_varint(out, *k as u64);
            proof {
                assert(out@ =~= old(out)@ + spec_enc_word(*sw));
            }
        },
        SerWord::VerbSeq(k) => {
            out.push(2u8);
            proof {
                assert(out@ =~= old(out)@ + seq![2u8]);
            }
            enc_varint(out, *k as u64);
            proof {
                assert(out@ =~= old(out)@ + spec_enc_word(*sw));
            }
        },
        SerWord::UncondRelativeJump { offset } => {
            out.push(3u8);
            proof {
                assert(out@ =~= old(out)@ + seq![3u8]);
            }
            enc_i32(out, *offset);
            proof {
                assert(out@ =~= old(out)@ + spec_enc_word(*sw));
            }
        },
        SerWord::CondRelativeJump { offset, jump_on } => {
            out.push(4u8);
            proof {
                assert(out@ =~= old(out)@ + seq![4u8]);
            }
            enc_i32(out, *offset);
            out.push(if *jump_on {
                1u8
            } else {
                0u8
            });
            proof {
                assert(out@ =~= old(out)@ + spec_enc_word(*sw));
            }
        },
    }
}

/// Appends the wire form of one definition.
pub fn enc_words(out: &mut Vec<u8>, ws: &Vec<SerWord>)
    ensures
        final(out)@ == old(out)@ + spec_enc_words(ws@),
{
    let n = ws.len();
    enc_varint(out, n as u64);
    let mut i: usize = 0;
    proof {
        assert(spec_enc_words_body(ws@.subrange(0, 0)) =~= Seq::<u8>::empty());
        assert(out@ =~= old(out)@ + spec_enc_varint(ws@.len()) + spec_enc_words_body(
            ws@.subrange(0, 0),
        ));
    }
    while i < n
        invariant
            i <= n,
            n == ws@.len(),
            out@ == old(out)@ + spec_enc_varint(ws@.len()) + spec_enc_words_body(
                ws@.subrange(0, i as int),
            ),
        decreases n - i,
    {
        proof {
            lemma_enc_words_body_push(ws@.subrange(0, i as int), ws@[i as int]);
            assert(ws@.subrange(0, i as int).push(ws@[i as int]) =~= ws@.subrange(0, i + 1));
        }
        enc_word(out, &ws[i]);
        proof {
            assert(out@ =~= old(out)@ + spec_enc_varint(ws@.len()) + spec_enc_words_body(
                ws@.subrange(0, i + 1),
            ));
        }
        i = i + 1;
    }
    proof {
        assert(ws@.subrange(0, n as int) =~= ws@);
    }
}

/// The complete wire form of an artifact.
pub fn encode_dict(sd: &SerDict) -> (r: Vec<u8>)
    ensures
        r@ == spec_enc_dict(*sd),
{
    let mut out: Vec<u8> = Vec::new();
    let nd = sd.data.len();
    enc_varint(&mut out, nd as u64);
    let ghost dsv = defs_bytes_view(sd.data@);
    let mut i: usize = 0;
    proof {
        assert(spec_enc_defs(dsv.subrange(0, 0)) =~= Seq::<u8>::empty());
        assert(out@ =~= spec_enc_varint(sd.data@.len()) + spec_enc_defs(dsv.subrange(0, 0)));
    }
    while i < nd
        invariant
            i <= nd,
            nd == sd.data@.len(),
            dsv == defs_bytes_view(sd.data@),
            dsv.len() == nd,
            out@ == spec_enc_varint(sd.data@.len()) + spec_enc_defs(dsv.subrange(0, i as int)),
        decreases nd - i,
    {
        proof {
            lemma_enc_defs_push(dsv.subrange(0, i as int), dsv[i as int]);
            assert(dsv.subrange(0, i as int).push(dsv[i as int]) =~= dsv.subrange(0, i + 1));
            assert(dsv[i as int] == sd.data@[i as int]@);
        }
        enc_words(&mut out, &sd.data[i]);
        proof {
            assert(out@ =~= spec_enc_varint(sd.data@.len()) + spec_enc_defs(
                dsv.subrange(0, i + 1),
            ));
        }
        i = i + 1;
    }
    proof {
        assert(dsv.subrange(0, nd as int) =~= dsv);
    }
    let ghost head = out@;
    match &sd.data_map {
        Some(dm) => {
            out.push(1u8);
            proof {
                assert(out@ =~= head + seq![1u8]);
            }
            enc_strs(&mut out, dm);
            proof {
                assert(out@ =~= head + (seq![1u8] + spec_enc_varint(dm@.len()) + spec_enc_strs(
                    toks_view(dm@),
                )));
            }
        },
        None => {
            out.push(0u8);
            proof {
                assert(out@ =~= head + seq![0u8]);
            }
        },
    }
    enc_strs(&mut out, &sd.bis);
    proof {
        assert(out@ =~= spec_enc_dict(*sd));
    }
    out
}

/// Appends a name array: its length, then each name.
fn enc_strs(out: &mut Vec<u8>, ss: &Vec<String>)
    ensures
        final(out)@ == old(out)@ + spec_enc_varint(ss@.len()) + spec_enc_strs(toks_view(ss@)),
{
    let n = ss.len();
    enc_varint(out, n as u64);
    let ghost ssv = toks_view(ss@);
    let mut i: usize = 0;
    proof {
        assert(spec_enc_strs(ssv.subrange(0, 0)) =~= Seq::<u8>::empty());
        assert(out@ =~= old(out)@ + spec_enc_varint(ss@.len()) + spec_enc_strs(
            ssv.subrange(0, 0),
        ));
    }
    while i < n
        invariant
            i <= n,
            n == ss@.len(),
            ssv == toks_view(ss@),
            ssv.len() == n,
            out@ == old(out)@ + spec_enc_varint(ss@.len()) + spec_enc_strs(
                ssv.subrange(0, i as int),
            ),
        decreases n - i,
    {
        proof {
            lemma_enc_strs_push(ssv.subrange(0, i as int), ssv[i as int]);
            assert(ssv.subrange(0, i as int).push(ssv[i as int]) =~= ssv.subrange(0, i + 1));
            assert(ssv[i as int] == ss@[i as int]@);
        }
        enc_str(out, ss[i].as_str());
        proof {
            assert(out@ =~= old(out)@ + spec_enc_varint(ss@.len()) + spec_enc_strs(
                ssv.subrange(0, i + 1),
            ));
        }
        i = i + 1;
    }
    proof {
        assert(ssv.subrange(0, n as int) =~= ssv);
    }
}



/// A varint encoding of `n` occupies `bytes[pos..e]`.
pub open spec fn varint_at(bytes: Seq<u8>, pos: int, n: nat, e: int) -> bool {
    0 <= pos <= e <= bytes.len() && bytes.subrange(pos, e) == spec_enc_varint(n)
}

/// Splitting one leading byte off an encoded range.
proof fn lemma_subrange_shift(bytes: Seq<u8>, pos: int, e: int, head: u8, tail: Seq<u8>)
    requires
        0 <= pos < e <= bytes.len(),
        bytes.subrange(pos, e) == seq![head] + tail,
    ensures
        bytes[pos] == head,
        bytes.subrange(pos + 1, e) == tail,
{
    assert(bytes.subrange(pos, e).len() == e - pos);
    assert(tail.len() == e - pos - 1);
    assert(bytes.subrange(pos, e)[0] == bytes[pos]);
    assert forall|k: int| 0 <= k < e - pos - 1 implies bytes.subrange(pos + 1, e)[k]
        == tail[k] by {
        assert(bytes.subrange(pos + 1, e)[k] == bytes[pos + 1 + k]);
        assert(bytes.subrange(pos, e)[k + 1] == bytes[pos + 1 + k]);
        assert((seq![head] + tail)[k + 1] == tail[k]);
    }
    assert(bytes.subrange(pos + 1, e) =~= tail);
}


/// Splitting an encoded range at a known concatenation boundary.
proof fn lemma_subrange_split(bytes: Seq<u8>, pos: int, e: int, a: Seq<u8>, b: Seq<u8>)
    requires
        0 <= pos <= e <= bytes.len(),
        bytes.subrange(pos, e) == a + b,
    ensures
        pos + a.len() <= e,
        bytes.subrange(pos, pos + a.len() as int) == a,
        bytes.subrange(pos + a.len() as int, e) == b,
{
    assert(bytes.subrange(pos, e).len() == e - pos);
    assert(a.len() + b.len() == e - pos);
    assert(bytes.subrange(pos, pos + a.len() as int) =~= a) by {
        assert(forall|k: int|
            0 <= k < a.len() ==> bytes.subrange(pos, e)[k] == #[trigger] bytes[pos + k]);
        assert(forall|k: int| 0 <= k < a.len() ==> (a + b)[k] == #[trigger] a[k]);
    }
    assert(bytes.subrange(pos + a.len() as int, e) =~= b) by {
        assert(forall|k: int|
            0 <= k < b.len() ==> bytes.subrange(pos, e)[a.len() + k] == #[trigger] bytes[pos
                + a.len() + k]);
        assert(forall|k: int| 0 <= k < b.len() ==> (a + b)[a.len() + k] == #[trigger] b[k]);
    }
}

/// A word list's body encoding splits at any item boundary.
proof fn lemma_enc_words_body_cat(a: Seq<SerWord>, b: Seq<SerWord>)
    ensures
        spec_enc_words_body(a + b) == spec_enc_words_body(a) + spec_enc_words_body(b),
    decreases a.len(),
{
    if a.len() == 0 {
        assert(a + b =~= b);
        assert(spec_enc_words_body(a + b) =~= spec_enc_words_body(a) + spec_enc_words_body(b));
    } else {
        assert((a + b)[0] == a[0]);
        assert((a + b).drop_first() =~= a.drop_first() + b);
        lemma_enc_words_body_cat(a.drop_first(), b);
        assert(spec_enc_words_body(a + b) =~= spec_enc_words_body(a) + spec_enc_words_body(b));
    }
}

/// A character encoding splits at any character boundary.
proof fn lemma_enc_chars_cat(a: Seq<char>, b: Seq<char>)
    ensures
        spec_enc_chars(a + b) == spec_enc_chars(a) + spec_enc_chars(b),
    decreases a.len(),
{
    if a.len() == 0 {
        assert(a + b =~= b);
        assert(spec_enc_chars(a + b) =~= spec_enc_chars(a) + spec_enc_chars(b));
    } else {
        assert((a + b)[0] == a[0]);
        assert((a + b).drop_first() =~= a.drop_first() + b);
        lemma_enc_chars_cat(a.drop_first(), b);
        assert(spec_enc_chars(a + b) =~= spec_enc_chars(a) + spec_enc_chars(b));
    }
}

/// A name array's encoding splits at any name boundary.
proof fn lemma_enc_strs_cat(a: Seq<Seq<char>>, b: Seq<Seq<char>>)
    ensures
        spec_enc_strs(a + b) == spec_enc_strs(a) + spec_enc_strs(b),
    decreases a.len(),
{
    if a.len() == 0 {
        assert(a + b =~= b);
        assert(spec_enc_strs(a + b) =~= spec_enc_strs(a) + spec_enc_strs(b));
    } else {
        assert((a + b)[0] == a[0]);
        assert((a + b).drop_first() =~= a.drop_first() + b);
        lemma_enc_strs_cat(a.drop_first(), b);
        assert(spec_enc_strs(a + b) =~= spec_enc_strs(a) + spec_enc_strs(b));
    }
}

/// The definition array's encoding splits at any definition boundary.
proof fn lemma_enc_defs_cat(a: Seq<Seq<SerWord>>, b: Seq<Seq<SerWord>>)
    ensures
        spec_enc_defs(a + b) == spec_enc_defs(a) + spec_enc_defs(b),
    decreases a.len(),
{
    if a.len() == 0 {
        assert(a + b =~= b);
        assert(spec_enc_defs(a + b) =~= spec_enc_defs(a) + spec_enc_defs(b));
    } else {
        assert((a + b)[0] == a[0]);
        assert((a + b).drop_first() =~= a.drop_first() + b);
        lemma_enc_defs_cat(a.drop_first(), b);
        assert(spec_enc_defs(a + b) =~= spec_enc_defs(a) + spec_enc_defs(b));
    }
}

/// Every encoded word takes at least one byte, so an item count never
/// exceeds the remaining bytes.
proof fn lemma_enc_words_body_min(ws: Seq<SerWord>)
    ensures
        spec_enc_words_body(ws).len() >= ws.len(),
    decreases ws.len(),
{
    if ws.len() > 0 {
        lemma_enc_words_body_min(ws.drop_first());
    }
}

/// Every encoded character takes at least one byte.
proof fn lemma_enc_chars_min(s: Seq<char>)
    ensures
        spec_enc_chars(s).len() >= s.len(),
    decreases s.len(),
{
    if s.len() > 0 {
        lemma_enc_chars_min(s.drop_first());
    }
}

/// Every encoded name takes at least one byte.
proof fn lemma_enc_strs_min(ss: Seq<Seq<char>>)
    ensures
        spec_enc_strs(ss).len() >= ss.len(),
    decreases ss.len(),
{
    if ss.len() > 0 {
        lemma_enc_strs_min(ss.drop_first());
    }
}

/// Every encoded definition takes at least one byte.
proof fn lemma_enc_defs_min(ds: Seq<Seq<SerWord>>)
    ensures
        spec_enc_defs(ds).len() >= ds.len(),
    decreases ds.len(),
{
    if ds.len() > 0 {
        lemma_enc_defs_min(ds.drop_first());
    }
}

/// A character the wire format can carry: a Unicode scalar value.
pub open spec fn valid_char(c: char) -> bool {
    ||| 0 <= (c as int) && (c as int) < 0xD800
    ||| 0xE000 <= (c as int) && (c as int) <= 0x10FFFF
}

/// Every character of the string is a scalar value, as the characters of a
/// real string are.
pub open spec fn valid_chars(s: Seq<char>) -> bool {
    forall|i: int| 0 <= i < s.len() ==> valid_char(#[trigger] s[i])
}

/// Every name in the array has scalar characters.
pub open spec fn valid_strs(ss: Seq<Seq<char>>) -> bool {
    forall|i: int| 0 <= i < ss.len() ==> valid_chars(#[trigger] ss[i])
}

/// An artifact whose names hold only scalar characters, as every artifact
/// built from real strings does.
pub open spec fn dict_wire_wf(sd: SerDict) -> bool {
    &&& match sd.data_map {
        Some(dm) => valid_strs(toks_view(dm@)),
        None => true,
    }
    &&& valid_strs(toks_view(sd.bis@))
}

/// Decodes a varint; only the canonical encoding of each value is accepted,
/// so a successful decode pins the consumed bytes exactly.
pub fn dec_varint(bytes: &Vec<u8>, pos: usize) -> (r: Option<(u64, usize)>)
    ensures
        r matches Some(t) ==> pos <= t.1 <= bytes@.len() && bytes@.subrange(
            pos as int,
            t.1 as int,
        ) == spec_enc_varint(t.0 as nat),
        forall|n: nat, e: int|
            n <= u64::MAX && #[trigger] varint_at(bytes@, pos as int, n, e) ==> (r matches Some(t)
                && t.0 == n && t.1 == e),
    decreases bytes@.len() - pos,
{
    if pos >= bytes.len() {
        proof {
            assert forall|n: nat, e: int|
                n <= u64::MAX && #[trigger] varint_at(bytes@, pos as int, n, e) implies false by {
                assert(spec_enc_varint(n).len() >= 1);
            }
        }
        return None;
    }
    let b = bytes[pos];
    if b < 128 {
        proof {
            assert(bytes@.subrange(pos as int, pos + 1) =~= seq![b]);
            assert forall|n: nat, e: int|
                n <= u64::MAX && #[trigger] varint_at(bytes@, pos as int, n, e) implies n
                == b as nat && e == pos + 1 by {
                assert(spec_enc_varint(n).len() >= 1);
                assert(e - pos >= 1);
                assert(bytes@.subrange(pos as int, e)[0] == bytes@[pos as int]);
                if n >= 128 {
                    assert(spec_enc_varint(n)[0] == (128 + (n % 128)) as u8);
                    assert(false);
                }
                assert(spec_enc_varint(n) == seq![n as u8]);
            }
        }
        Some((b as u64, pos + 1))
    } else {
        let low = (b - 128) as u64;
        proof {
            assert forall|n: nat, e: int|
                n <= u64::MAX && #[trigger] varint_at(bytes@, pos as int, n, e) implies n >= 128
                && n % 128 == low as nat && varint_at(bytes@, pos + 1, n / 128, e) && n / 128
                <= u64::MAX by {
                assert(spec_enc_varint(n).len() >= 1);
                assert(e - pos >= 1);
                assert(bytes@.subrange(pos as int, e)[0] == bytes@[pos as int]);
                if n < 128 {
                    assert(spec_enc_varint(n) == seq![n as u8]);
                    assert(false);
                }
                lemma_subrange_shift(
                    bytes@,
                    pos as int,
                    e,
                    (128 + (n % 128)) as u8,
                    spec_enc_varint(n / 128),
                );
            }
        }
        match dec_varint(bytes, pos + 1) {
            Some((rest, p2)) => {
                if rest == 0 {
                    proof {
                        assert forall|n: nat, e: int|
                            n <= u64::MAX && #[trigger] varint_at(bytes@, pos as int, n, e)
                            implies false by {
                            assert(varint_at(bytes@, pos + 1, n / 128, e));
                        }
                    }
                    return None;
                }
                if rest > (u64::MAX - low) / 128 {
                    proof {
                        assert forall|n: nat, e: int|
                            n <= u64::MAX && #[trigger] varint_at(bytes@, pos as int, n, e)
                            implies false by {
                            assert(varint_at(bytes@, pos + 1, n / 128, e));
                            assert(rest as nat == n / 128);
                            assert(n == 128 * (n / 128) + n % 128) by (nonlinear_arith);
                            assert(rest as int <= ((u64::MAX - low) as int) / 128)
                                by (nonlinear_arith)
                                requires
                                    128 * (rest as int) + low <= u64::MAX,
                                    0 <= rest as int,
                                    0 <= low < 128,
                            ;
                        }
                    }
                    return None;
                }
                proof {
                    assert(128 * (rest as int) <= u64::MAX - low) by (nonlinear_arith)
                        requires
                            0 <= rest as int <= ((u64::MAX - low) as int) / 128,
                            0 <= low < 128,
                    ;
                }
                let n = low + 128 * rest;
                proof {
                    assert((n as nat) % 128 == low as nat && (n as nat) / 128 == rest as nat)
                        by (nonlinear_arith)
                        requires
                            n as nat == low as nat + 128 * (rest as nat),
                            0 <= low < 128,
                    ;
                    assert(n >= 128);
                    assert(bytes@.subrange(pos as int, p2 as int) =~= seq![b] + bytes@.subrange(
                        pos + 1,
                        p2 as int,
                    ));
                    assert(spec_enc_varint(n as nat) == seq![(128 + (n as nat % 128)) as u8]
                        + spec_enc_varint(n as nat / 128));
                    assert((128 + (n as nat % 128)) as u8 == b);
                    assert forall|m: nat, e: int|
                        m <= u64::MAX && #[trigger] varint_at(bytes@, pos as int, m, e) implies m
                        == n as nat && e == p2 by {
                        assert(varint_at(bytes@, pos + 1, m / 128, e));
                        assert(m / 128 == rest as nat && e == p2);
                        assert(m == 128 * (m / 128) + m % 128) by (nonlinear_arith);
                    }
                }
                Some((n, p2))
            },
            None => {
                proof {
                    assert forall|n: nat, e: int|
                        n <= u64::MAX && #[trigger] varint_at(bytes@, pos as int, n, e)
                        implies false by {
                        assert(varint_at(bytes@, pos + 1, n / 128, e));
                    }
                }
                None
            },
        }
    }
}

/// Decodes a zigzag varint into a signed 32-bit value.
pub fn dec_i32(bytes: &Vec<u8>, pos: usize) -> (r: Option<(i32, usize)>)
    ensures
        r matches Some(t) ==> pos <= t.1 <= bytes@.len() && bytes@.subrange(
            pos as int,
            t.1 as int,
        ) == spec_enc_i32(t.0),
        forall|v: i32, e: int|
            #[trigger] varint_at(bytes@, pos as int, spec_zig(v), e) ==> (r matches Some(t) && t.0
                == v && t.1 == e),
{
    match dec_varint(bytes, pos) {
        Some((n, p2)) => {
            if n > 0xFFFF_FFFFu64 {
                proof {
                    assert forall|v: i32, e: int|
                        #[trigger] varint_at(bytes@, pos as int, spec_zig(v), e)
                        implies false by {
                        assert(spec_zig(v) <= 0xFFFF_FFFF);
                    }
                }
                return None;
            }
            let v: i32 = if n % 2 == 0 {
                (n / 2) as i32
            } else {
                (-(((n + 1) / 2) as i64)) as i32
            };
            proof {
                assert(spec_zig(v) == n as nat);
                assert forall|v2: i32, e: int|
                    #[trigger] varint_at(bytes@, pos as int, spec_zig(v2), e) implies v2 == v && e
                    == p2 by {
                    assert(spec_zig(v2) <= 0xFFFF_FFFF);
                    assert(spec_zig(v2) == n as nat && e == p2);
                }
            }
            Some((v, p2))
        },
        None => {
            proof {
                assert forall|v: i32, e: int|
                    #[trigger] varint_at(bytes@, pos as int, spec_zig(v), e) implies false by {
                    assert(spec_zig(v) <= 0xFFFF_FFFF);
                }
            }
            None
        },
    }
}

/// Decodes a 16-bit wire index.
fn dec_u16(bytes: &Vec<u8>, pos: usize) -> (r: Option<(u16, usize)>)
    ensures
        r matches Some(t) ==> pos <= t.1 <= bytes@.len() && bytes@.subrange(
            pos as int,
            t.1 as int,
        ) == spec_enc_varint(t.0 as nat),
        forall|k: u16, e: int|
            #[trigger] varint_at(bytes@, pos as int, k as nat, e) ==> (r matches Some(t) && t.0
                == k && t.1 == e),
{
    match dec_varint(bytes, pos) {
        Some((n, p2)) => {
            if n > 0xFFFFu64 {
                return None;
            }
            Some((n as u16, p2))
        },
        None => None,
    }
}


/// A string encoding of `sq` occupies `bytes[pos..e]`.
pub open spec fn str_at(bytes: Seq<u8>, pos: int, sq: Seq<char>, e: int) -> bool {
    0 <= pos <= e <= bytes.len() && bytes.subrange(pos, e) == spec_enc_str(sq)
}

/// Decodes one string.
pub fn dec_str(bytes: &Vec<u8>, pos: usize) -> (r: Option<(String, usize)>)
    ensures
        r matches Some(t) ==> pos <= t.1 <= bytes@.len() && bytes@.subrange(
            pos as int,
            t.1 as int,
        ) == spec_enc_str(t.0@),
        forall|sq: Seq<char>, e: int|
            valid_chars(sq) && #[trigger] str_at(bytes@, pos as int, sq, e) ==> (r matches Some(t)
                && t.0@ == sq && t.1 == e),
{
    let total = bytes.len();
    proof {
        assert forall|sq: Seq<char>, e: int|
            valid_chars(sq) && #[trigger] str_at(bytes@, pos as int, sq, e) implies varint_at(
            bytes@,
            pos as int,
            sq.len(),
            pos + spec_enc_varint(sq.len()).len(),
        ) && sq.len() <= u64::MAX by {
            lemma_subrange_split(bytes@, pos as int, e, spec_enc_varint(sq.len()), spec_enc_chars(sq));
            lemma_enc_chars_min(sq);
            assert(e - pos <= total);
        }
    }
    let (n, p1) = match dec_varint(bytes, pos) {
        Some(t) => t,
        None => {
            return None;
        },
    };
    proof {
        assert forall|sq: Seq<char>, e: int|
            valid_chars(sq) && #[trigger] str_at(bytes@, pos as int, sq, e) implies sq.len() == n
            && p1 <= e <= bytes@.len() && bytes@.subrange(p1 as int, e) == spec_enc_chars(sq)
            && e - p1 >= sq.len() by {
            lemma_subrange_split(bytes@, pos as int, e, spec_enc_varint(sq.len()), spec_enc_chars(sq));
            lemma_enc_chars_min(sq);
        }
    }
    if n > (bytes.len() - p1) as u64 {
        return None;
    }
    let cnt = n as usize;
    let mut s = String::new();
    let mut p = p1;
    let mut i: usize = 0;
    proof {
        assert(bytes@.subrange(p1 as int, p1 as int) =~= Seq::<u8>::empty());
        assert(spec_enc_chars(s@) == Seq::<u8>::empty());
    }
    while i < cnt
        invariant
            i <= cnt,
            cnt == n,
            pos <= p1 <= p <= bytes@.len(),
            s@.len() == i,
            bytes@.subrange(p1 as int, p as int) == spec_enc_chars(s@),
            forall|sq: Seq<char>, e: int|
                valid_chars(sq) && #[trigger] str_at(bytes@, pos as int, sq, e) ==> sq.len() == n
                    && p1 <= e <= bytes@.len() && bytes@.subrange(p1 as int, e)
                    == spec_enc_chars(sq) && s@ == sq.subrange(0, i as int) && p == p1
                    + spec_enc_chars(sq.subrange(0, i as int)).len(),
        decreases cnt - i,
    {
        proof {
            assert forall|sq: Seq<char>, e: int|
                valid_chars(sq) && #[trigger] str_at(bytes@, pos as int, sq, e) implies varint_at(
                bytes@,
                p as int,
                char_nat(sq[i as int]),
                p + spec_enc_varint(char_nat(sq[i as int])).len(),
            ) && char_nat(sq[i as int]) == sq[i as int] as int && valid_char(sq[i as int]) by {
                assert(sq.subrange(0, cnt as int) =~= sq);
                assert(sq.subrange(0, i as int) + (seq![sq[i as int]] + sq.subrange(
                    i + 1,
                    cnt as int,
                )) =~= sq);
                lemma_enc_chars_cat(
                    sq.subrange(0, i as int),
                    seq![sq[i as int]] + sq.subrange(i + 1, cnt as int),
                );
                lemma_subrange_split(
                    bytes@,
                    p1 as int,
                    e,
                    spec_enc_chars(sq.subrange(0, i as int)),
                    spec_enc_chars(seq![sq[i as int]] + sq.subrange(i + 1, cnt as int)),
                );
                lemma_enc_chars_cat(seq![sq[i as int]], sq.subrange(i + 1, cnt as int));
                assert(spec_enc_chars(seq![sq[i as int]]) =~= spec_enc_varint(
                    char_nat(sq[i as int]),
                )) by {
                    assert(seq![sq[i as int]].drop_first() =~= Seq::<char>::empty());
                    assert(spec_enc_chars(Seq::<char>::empty()) == Seq::<u8>::empty());
                };
                lemma_subrange_split(
                    bytes@,
                    p as int,
                    e,
                    spec_enc_varint(char_nat(sq[i as int])),
                    spec_enc_chars(sq.subrange(i + 1, cnt as int)),
                );
            }
        }
        let (u, p2) = match dec_varint(bytes, p) {
            Some(t) => t,
            None => {
                return None;
            },
        };
        if u > 0x10FFFFu64 {
            return None;
        }
        let c = match char_from_u32(u as u32) {
            Some(c) => c,
            None => {
                proof {
                    assert forall|sq: Seq<char>, e: int|
                        valid_chars(sq) && #[trigger] str_at(bytes@, pos as int, sq, e)
                        implies false by {
                        assert(u as nat == char_nat(sq[i as int]));
                        assert(is_unicode_scalar(u as u32));
                    }
                }
                return None;
            },
        };
        proof {
            assert(char_nat(c) == u as nat);
            lemma_enc_chars_push(s@, c);
            assert(bytes@.subrange(p1 as int, p2 as int) =~= bytes@.subrange(p1 as int, p as int)
                + bytes@.subrange(p as int, p2 as int));
            assert forall|sq: Seq<char>, e: int|
                valid_chars(sq) && #[trigger] str_at(bytes@, pos as int, sq, e) implies s@.push(c)
                == sq.subrange(0, i + 1) && p2 == p1 + spec_enc_chars(
                sq.subrange(0, i + 1),
            ).len() by {
                assert(u as nat == char_nat(sq[i as int]));
                assert(p2 == p + spec_enc_varint(char_nat(sq[i as int])).len());
                assert(c as int == sq[i as int] as int);
                assert(c == sq[i as int]);
                assert(s@.push(c) =~= sq.subrange(0, i + 1)) by {
                    assert(s@ == sq.subrange(0, i as int));
                    assert(forall|k: int|
                        0 <= k < i ==> sq.subrange(0, i as int)[k] == #[trigger] sq.subrange(
                            0,
                            i + 1,
                        )[k]);
                }
                lemma_enc_chars_push(sq.subrange(0, i as int), sq[i as int]);
                assert(sq.subrange(0, i as int).push(sq[i as int]) =~= sq.subrange(0, i + 1));
            }
        }
        push_char(&mut s, c);
        p = p2;
        i = i + 1;
    }
    proof {
        assert(s@.len() == cnt == n);
        assert(bytes@.subrange(pos as int, p as int) =~= bytes@.subrange(pos as int, p1 as int)
            + bytes@.subrange(p1 as int, p as int));
        assert forall|sq: Seq<char>, e: int|
            valid_chars(sq) && #[trigger] str_at(bytes@, pos as int, sq, e) implies s@ == sq && p
            == e by {
            assert(sq.subrange(0, cnt as int) =~= sq);
            assert(bytes@.subrange(p1 as int, e).len() == spec_enc_chars(sq).len());
        }
    }
    Some((s, p))
}

/// A word encoding of `w` occupies `bytes[pos..e]`.
pub open spec fn word_at(bytes: Seq<u8>, pos: int, w: SerWord, e: int) -> bool {
    0 <= pos <= e <= bytes.len() && bytes.subrange(pos, e) == spec_enc_word(w)
}

/// The tag byte a word is encoded under.
pub open spec fn tag_of(w: SerWord) -> u8 {
    match w {
        SerWord::LiteralVal(_v) => 0u8,
        SerWord::Verb(_k) => 1u8,
        SerWord::VerbSeq(_k) => 2u8,
        SerWord::UncondRelativeJump { .. } => 3u8,
        SerWord::CondRelativeJump { .. } => 4u8,
    }
}

/// Reading an encoded word back into its tag and payload ranges.
proof fn lemma_word_at_parts(bytes: Seq<u8>, pos: int, w: SerWord, e: int)
    requires
        word_at(bytes, pos, w, e),
    ensures
        pos < e,
        bytes[pos] == tag_of(w),
        match w {
            SerWord::LiteralVal(v) => varint_at(bytes, pos + 1, spec_zig(v), e),
            SerWord::Verb(k) => varint_at(bytes, pos + 1, k as nat, e),
            SerWord::VerbSeq(k) => varint_at(bytes, pos + 1, k as nat, e),
            SerWord::UncondRelativeJump { offset } => varint_at(bytes, pos + 1, spec_zig(offset), e),
            SerWord::CondRelativeJump { offset, jump_on } => pos + 1 <= e - 1 && varint_at(
                bytes,
                pos + 1,
                spec_zig(offset),
                e - 1,
            ) && bytes[e - 1] == (if jump_on {
                1u8
            } else {
                0u8
            }),
        },
{
    assert(bytes.subrange(pos, e).len() == e - pos);
    assert(e - pos == spec_enc_word(w).len());
    assert(spec_enc_word(w).len() >= 1);
    match w {
        SerWord::LiteralVal(v) => {
            lemma_subrange_shift(bytes, pos, e, 0u8, spec_enc_i32(v));
        },
        SerWord::Verb(k) => {
            lemma_subrange_shift(bytes, pos, e, 1u8, spec_enc_varint(k as nat));
        },
        SerWord::VerbSeq(k) => {
            lemma_subrange_shift(bytes, pos, e, 2u8, spec_enc_varint(k as nat));
        },
        SerWord::UncondRelativeJump { offset } => {
            lemma_subrange_shift(bytes, pos, e, 3u8, spec_enc_i32(offset));
        },
        SerWord::CondRelativeJump { offset, jump_on } => {
            let fb: u8 = if jump_on {
                1u8
            } else {
                0u8
            };
            assert(spec_enc_word(w) =~= seq![4u8] + (spec_enc_i32(offset) + seq![fb]));
            lemma_subrange_shift(bytes, pos, e, 4u8, spec_enc_i32(offset) + seq![fb]);
            lemma_subrange_split(bytes, pos + 1, e, spec_enc_i32(offset), seq![fb]);
            assert(bytes.subrange(e - 1, e)[0] == bytes[e - 1]);
        },
    }
}

/// Decodes one bytecode word.
pub fn dec_word(bytes: &Vec<u8>, pos: usize) -> (r: Option<(SerWord, usize)>)
    ensures
        r matches Some(t) ==> pos <= t.1 <= bytes@.len() && bytes@.subrange(
            pos as int,
            t.1 as int,
        ) == spec_enc_word(t.0),
        forall|w: SerWord, e: int|
            #[trigger] word_at(bytes@, pos as int, w, e) ==> (r matches Some(t) && t.0 == w && t.1
                == e),
{
    proof {
        assert forall|w: SerWord, e: int| #[trigger] word_at(bytes@, pos as int, w, e)
            implies pos < e && bytes@[pos as int] == tag_of(w) by {
            lemma_word_at_parts(bytes@, pos as int, w, e);
        }
    }
    if pos >= bytes.len() {
        return None;
    }
    let tag = bytes[pos];
    proof {
        assert(bytes@.subrange(pos as int, pos + 1) =~= seq![tag]);
    }
    if tag == 0 {
        proof {
            assert forall|w: SerWord, e: int| #[trigger] word_at(bytes@, pos as int, w, e)
                implies w matches SerWord::LiteralVal(v) && varint_at(
                bytes@,
                pos + 1,
                spec_zig(v),
                e,
            ) by {
                lemma_word_at_parts(bytes@, pos as int, w, e);
            }
        }
        let (v, p2) = match dec_i32(bytes, pos + 1) {
            Some(t) => t,
            None => {
                return None;
            },
        };
        proof {
            assert(bytes@.subrange(pos as int, p2 as int) =~= seq![tag] + bytes@.subrange(
                pos + 1,
                p2 as int,
            ));
        }
        Some((SerWord::LiteralVal(v), p2))
    } else if tag == 1 {
        proof {
            assert forall|w: SerWord, e: int| #[trigger] word_at(bytes@, pos as int, w, e)
                implies w matches SerWord::Verb(k) && varint_at(bytes@, pos + 1, k as nat, e) by {
                lemma_word_at_parts(bytes@, pos as int, w, e);
            }
        }
        let (k, p2) = match dec_u16(bytes, pos + 1) {
            Some(t) => t,
            None => {
                return None;
            },
        };
        proof {
            assert(bytes@.subrange(pos as int, p2 as int) =~= seq![tag] + bytes@.subrange(
                pos + 1,
                p2 as int,
            ));
        }
        Some((SerWord::Verb(k), p2))
    } else if tag == 2 {
        proof {
            assert forall|w: SerWord, e: int| #[trigger] word_at(bytes@, pos as int, w, e)
                implies w matches SerWord::VerbSeq(k) && varint_at(
                bytes@,
                pos + 1,
                k as nat,
                e,
            ) by {
                lemma_word_at_parts(bytes@, pos as int, w, e);
            }
        }
        let (k, p2) = match dec_u16(bytes, pos + 1) {
            Some(t) => t,
            None => {
                return None;
            },
        };
        proof {
            assert(bytes@.subrange(pos as int, p2 as int) =~= seq![tag] + bytes@.subrange(
                pos + 1,
                p2 as int,
            ));
        }
        Some((SerWord::VerbSeq(k), p2))
    } else if tag == 3 {
        proof {
            assert forall|w: SerWord, e: int| #[trigger] word_at(bytes@, pos as int, w, e)
                implies w matches SerWord::UncondRelativeJump { offset } && varint_at(
                bytes@,
                pos + 1,
                spec_zig(offset),
                e,
            ) by {
                lemma_word_at_parts(bytes@, pos as int, w, e);
            }
        }
        let (v, p2) = match dec_i32(bytes, pos + 1) {
            Some(t) => t,
            None => {
                return None;
            },
        };
        proof {
            assert(bytes@.subrange(pos as int, p2 as int) =~= seq![tag] + bytes@.subrange(
                pos + 1,
                p2 as int,
            ));
        }
        Some((SerWord::UncondRelativeJump { offset: v }, p2))
    } else if tag == 4 {
        proof {
            assert forall|w: SerWord, e: int| #[trigger] word_at(bytes@, pos as int, w, e)
                implies (w matches SerWord::CondRelativeJump { offset, jump_on } && varint_at(
                bytes@,
                pos + 1,
                spec_zig(offset),
                e - 1,
            ) && bytes@[e - 1] == (if jump_on {
                1u8
            } else {
                0u8
            })) by {
                lemma_word_at_parts(bytes@, pos as int, w, e);
            }
        }
        let (v, p2) = match dec_i32(bytes, pos + 1) {
            Some(t) => t,
            None => {
                return None;
            },
        };
        if p2 >= bytes.len() {
            return None;
        }
        let fb = bytes[p2];
        if fb > 1 {
            return None;
        }
        let jump_on = fb == 1;
        proof {
            assert(bytes@.subrange(p2 as int, p2 + 1) =~= seq![fb]);
            assert(bytes@.subrange(pos as int, p2 + 1) =~= seq![tag] + bytes@.subrange(
                pos + 1,
                p2 as int,
            ) + seq![fb]);
        }
        Some((SerWord::CondRelativeJump { offset: v, jump_on }, p2 + 1))
    } else {
        None
    }
}


/// A definition encoding of `ws` occupies `bytes[pos..e]`.
pub open spec fn words_at(bytes: Seq<u8>, pos: int, ws: Seq<SerWord>, e: int) -> bool {
    0 <= pos <= e <= bytes.len() && bytes.subrange(pos, e) == spec_enc_words(ws)
}

/// Decodes one definition.
fn dec_words(bytes: &Vec<u8>, pos: usize) -> (r: Option<(Vec<SerWord>, usize)>)
    ensures
        r matches Some(t) ==> pos <= t.1 <= bytes@.len() && bytes@.subrange(
            pos as int,
            t.1 as int,
        ) == spec_enc_words(t.0@),
        forall|ws: Seq<SerWord>, e: int|
            #[trigger] words_at(bytes@, pos as int, ws, e) ==> (r matches Some(t) && t.0@ == ws
                && t.1 == e),
{
    let total = bytes.len();
    proof {
        assert forall|ws: Seq<SerWord>, e: int| #[trigger] words_at(bytes@, pos as int, ws, e)
            implies varint_at(bytes@, pos as int, ws.len(), pos + spec_enc_varint(
            ws.len(),
        ).len()) && ws.len() <= u64::MAX by {
            lemma_subrange_split(
                bytes@,
                pos as int,
                e,
                spec_enc_varint(ws.len()),
                spec_enc_words_body(ws),
            );
            lemma_enc_words_body_min(ws);
            assert(e - pos <= total);
        }
    }
    let (n, p1) = match dec_varint(bytes, pos) {
        Some(t) => t,
        None => {
            return None;
        },
    };
    proof {
        assert forall|ws: Seq<SerWord>, e: int| #[trigger] words_at(bytes@, pos as int, ws, e)
            implies ws.len() == n && p1 <= e <= bytes@.len() && bytes@.subrange(p1 as int, e)
            == spec_enc_words_body(ws) && e - p1 >= ws.len() by {
            lemma_subrange_split(
                bytes@,
                pos as int,
                e,
                spec_enc_varint(ws.len()),
                spec_enc_words_body(ws),
            );
            lemma_enc_words_body_min(ws);
        }
    }
    if n > (bytes.len() - p1) as u64 {
        return None;
    }
    let cnt = n as usize;
    let mut out: Vec<SerWord> = Vec::new();
    let mut p = p1;
    let mut i: usize = 0;
    proof {
        assert(bytes@.subrange(p1 as int, p1 as int) =~= Seq::<u8>::empty());
        assert(spec_enc_words_body(out@) == Seq::<u8>::empty());
    }
    while i < cnt
        invariant
            i <= cnt,
            cnt == n,
            pos <= p1 <= p <= bytes@.len(),
            out@.len() == i,
            bytes@.subrange(p1 as int, p as int) == spec_enc_words_body(out@),
            forall|ws: Seq<SerWord>, e: int|
                #[trigger] words_at(bytes@, pos as int, ws, e) ==> ws.len() == n && p1 <= e
                    <= bytes@.len() && bytes@.subrange(p1 as int, e) == spec_enc_words_body(ws)
                    && out@ == ws.subrange(0, i as int) && p == p1 + spec_enc_words_body(
                    ws.subrange(0, i as int),
                ).len(),
        decreases cnt - i,
    {
        proof {
            assert forall|ws: Seq<SerWord>, e: int| #[trigger] words_at(bytes@, pos as int, ws, e)
                implies word_at(bytes@, p as int, ws[i as int], p + spec_enc_word(
                ws[i as int],
            ).len()) by {
                assert(ws.subrange(0, cnt as int) =~= ws);
                assert(ws.subrange(0, i as int) + (seq![ws[i as int]] + ws.subrange(
                    i + 1,
                    cnt as int,
                )) =~= ws);
                lemma_enc_words_body_cat(
                    ws.subrange(0, i as int),
                    seq![ws[i as int]] + ws.subrange(i + 1, cnt as int),
                );
                lemma_subrange_split(
                    bytes@,
                    p1 as int,
                    e,
                    spec_enc_words_body(ws.subrange(0, i as int)),
                    spec_enc_words_body(seq![ws[i as int]] + ws.subrange(i + 1, cnt as int)),
                );
                lemma_enc_words_body_cat(seq![ws[i as int]], ws.subrange(i + 1, cnt as int));
                assert(spec_enc_words_body(seq![ws[i as int]]) =~= spec_enc_word(ws[i as int]))
                    by {
                    assert(seq![ws[i as int]].drop_first() =~= Seq::<SerWord>::empty());
                    assert(spec_enc_words_body(Seq::<SerWord>::empty()) == Seq::<u8>::empty());
                };
                lemma_subrange_split(
                    bytes@,
                    p as int,
                    e,
                    spec_enc_word(ws[i as int]),
                    spec_enc_words_body(ws.subrange(i + 1, cnt as int)),
                );
            }
        }
        let (w, p2) = match dec_word(bytes, p) {
            Some(t) => t,
            None => {
                return None;
            },
        };
        proof {
            lemma_enc_words_body_push(out@, w);
            assert(bytes@.subrange(p1 as int, p2 as int) =~= bytes@.subrange(p1 as int, p as int)
                + bytes@.subrange(p as int, p2 as int));
            assert forall|ws: Seq<SerWord>, e: int| #[trigger] words_at(bytes@, pos as int, ws, e)
                implies out@.push(w) == ws.subrange(0, i + 1) && p2 == p1
                + spec_enc_words_body(ws.subrange(0, i + 1)).len() by {
                assert(word_at(bytes@, p as int, ws[i as int], p + spec_enc_word(
                    ws[i as int],
                ).len()));
                assert(w == ws[i as int] && p2 == p + spec_enc_word(ws[i as int]).len());
                assert(out@.push(w) =~= ws.subrange(0, i + 1)) by {
                    assert(out@ == ws.subrange(0, i as int));
                    assert(forall|k: int|
                        0 <= k < i ==> ws.subrange(0, i as int)[k] == #[trigger] ws.subrange(
                            0,
                            i + 1,
                        )[k]);
                }
                lemma_enc_words_body_push(ws.subrange(0, i as int), ws[i as int]);
                assert(ws.subrange(0, i as int).push(ws[i as int]) =~= ws.subrange(0, i + 1));
            }
        }
        out.push(w);
        p = p2;
        i = i + 1;
    }
    proof {
        assert(out@.len() == cnt == n);
        assert(bytes@.subrange(pos as int, p as int) =~= bytes@.subrange(pos as int, p1 as int)
            + bytes@.subrange(p1 as int, p as int));
        assert forall|ws: Seq<SerWord>, e: int| #[trigger] words_at(bytes@, pos as int, ws, e)
            implies out@ == ws && p == e by {
            assert(ws.subrange(0, cnt as int) =~= ws);
            assert(bytes@.subrange(p1 as int, e).len() == spec_enc_words_body(ws).len());
        }
    }
    Some((out, p))
}


/// A name-array encoding of `ss` occupies `bytes[pos..e]`.
pub open spec fn strs_at(bytes: Seq<u8>, pos: int, ss: Seq<Seq<char>>, e: int) -> bool {
    0 <= pos <= e <= bytes.len() && bytes.subrange(pos, e) == spec_enc_varint(ss.len())
        + spec_enc_strs(ss)
}

/// Decodes a name array.
fn dec_strs(bytes: &Vec<u8>, pos: usize) -> (r: Option<(Vec<String>, usize)>)
    ensures
        r matches Some(t) ==> pos <= t.1 <= bytes@.len() && bytes@.subrange(
            pos as int,
            t.1 as int,
        ) == spec_enc_varint(t.0@.len()) + spec_enc_strs(toks_view(t.0@)),
        forall|ss: Seq<Seq<char>>, e: int|
            valid_strs(ss) && #[trigger] strs_at(bytes@, pos as int, ss, e) ==> (r matches Some(t)
                && toks_view(t.0@) == ss && t.1 == e),
{
    let total = bytes.len();
    proof {
        assert forall|ss: Seq<Seq<char>>, e: int|
            valid_strs(ss) && #[trigger] strs_at(bytes@, pos as int, ss, e) implies varint_at(
            bytes@,
            pos as int,
            ss.len(),
            pos + spec_enc_varint(ss.len()).len(),
        ) && ss.len() <= u64::MAX by {
            lemma_subrange_split(bytes@, pos as int, e, spec_enc_varint(ss.len()), spec_enc_strs(ss));
            lemma_enc_strs_min(ss);
            assert(e - pos <= total);
        }
    }
    let (n, p1) = match dec_varint(bytes, pos) {
        Some(t) => t,
        None => {
            return None;
        },
    };
    proof {
        assert forall|ss: Seq<Seq<char>>, e: int|
            valid_strs(ss) && #[trigger] strs_at(bytes@, pos as int, ss, e) implies ss.len() == n
            && p1 <= e <= bytes@.len() && bytes@.subrange(p1 as int, e) == spec_enc_strs(ss)
            && e - p1 >= ss.len() by {
            lemma_subrange_split(bytes@, pos as int, e, spec_enc_varint(ss.len()), spec_enc_strs(ss));
            lemma_enc_strs_min(ss);
        }
    }
    if n > (bytes.len() - p1) as u64 {
        return None;
    }
    let cnt = n as usize;
    let mut out: Vec<String> = Vec::new();
    let mut p = p1;
    let mut i: usize = 0;
    proof {
        assert(bytes@.subrange(p1 as int, p1 as int) =~= Seq::<u8>::empty());
        assert(spec_enc_strs(toks_view(out@)) == Seq::<u8>::empty()) by {
            assert(toks_view(out@) =~= Seq::<Seq<char>>::empty());
        }
    }
    while i < cnt
        invariant
            i <= cnt,
            cnt == n,
            pos <= p1 <= p <= bytes@.len(),
            out@.len() == i,
            bytes@.subrange(p1 as int, p as int) == spec_enc_strs(toks_view(out@)),
            forall|ss: Seq<Seq<char>>, e: int|
                valid_strs(ss) && #[trigger] strs_at(bytes@, pos as int, ss, e) ==> ss.len() == n
                    && p1 <= e <= bytes@.len() && bytes@.subrange(p1 as int, e)
                    == spec_enc_strs(ss) && toks_view(out@) == ss.subrange(0, i as int) && p == p1
                    + spec_enc_strs(ss.subrange(0, i as int)).len(),
        decreases cnt - i,
    {
        proof {
            assert forall|ss: Seq<Seq<char>>, e: int|
                valid_strs(ss) && #[trigger] strs_at(bytes@, pos as int, ss, e) implies str_at(
                bytes@,
                p as int,
                ss[i as int],
                p + spec_enc_str(ss[i as int]).len(),
            ) && valid_chars(ss[i as int]) by {
                assert(ss.subrange(0, cnt as int) =~= ss);
                assert(ss.subrange(0, i as int) + (seq![ss[i as int]] + ss.subrange(
                    i + 1,
                    cnt as int,
                )) =~= ss);
                lemma_enc_strs_cat(
                    ss.subrange(0, i as int),
                    seq![ss[i as int]] + ss.subrange(i + 1, cnt as int),
                );
                lemma_subrange_split(
                    bytes@,
                    p1 as int,
                    e,
                    spec_enc_strs(ss.subrange(0, i as int)),
                    spec_enc_strs(seq![ss[i as int]] + ss.subrange(i + 1, cnt as int)),
                );
                lemma_enc_strs_cat(seq![ss[i as int]], ss.subrange(i + 1, cnt as int));
                assert(spec_enc_strs(seq![ss[i as int]]) =~= spec_enc_str(ss[i as int])) by {
                    assert(seq![ss[i as int]].drop_first() =~= Seq::<Seq<char>>::empty());
                    assert(spec_enc_strs(Seq::<Seq<char>>::empty()) == Seq::<u8>::empty());
                };
                lemma_subrange_split(
                    bytes@,
                    p as int,
                    e,
                    spec_enc_str(ss[i as int]),
                    spec_enc_strs(ss.subrange(i + 1, cnt as int)),
                );
            }
        }
        let (item, p2) = match dec_str(bytes, p) {
            Some(t) => t,
            None => {
                return None;
            },
        };
        proof {
            lemma_enc_strs_push(toks_view(out@), item@);
            assert(bytes@.subrange(p1 as int, p2 as int) =~= bytes@.subrange(p1 as int, p as int)
                + bytes@.subrange(p as int, p2 as int));
            assert forall|ss: Seq<Seq<char>>, e: int|
                valid_strs(ss) && #[trigger] strs_at(bytes@, pos as int, ss, e) implies toks_view(
                out@,
            ).push(item@) == ss.subrange(0, i + 1) && p2 == p1 + spec_enc_strs(
                ss.subrange(0, i + 1),
            ).len() by {
                assert(str_at(bytes@, p as int, ss[i as int], p + spec_enc_str(
                    ss[i as int],
                ).len()));
                assert(item@ == ss[i as int] && p2 == p + spec_enc_str(ss[i as int]).len());
                assert(toks_view(out@).push(item@) =~= ss.subrange(0, i + 1)) by {
                    assert(toks_view(out@) == ss.subrange(0, i as int));
                    assert(forall|k: int|
                        0 <= k < i ==> ss.subrange(0, i as int)[k] == #[trigger] ss.subrange(
                            0,
                            i + 1,
                        )[k]);
                }
                lemma_enc_strs_push(ss.subrange(0, i as int), ss[i as int]);
                assert(ss.subrange(0, i as int).push(ss[i as int]) =~= ss.subrange(0, i + 1));
            }
        }
        let ghost outv = toks_view(out@);
        out.push(item);
        proof {
            assert(toks_view(out@) =~= outv.push(out@.last()@));
        }
        p = p2;
        i = i + 1;
    }
    proof {
        assert(out@.len() == cnt == n);
        assert(bytes@.subrange(pos as int, p as int) =~= bytes@.subrange(pos as int, p1 as int)
            + bytes@.subrange(p1 as int, p as int));
        assert forall|ss: Seq<Seq<char>>, e: int|
            valid_strs(ss) && #[trigger] strs_at(bytes@, pos as int, ss, e) implies toks_view(out@)
            == ss && p == e by {
            assert(ss.subrange(0, cnt as int) =~= ss);
            assert(bytes@.subrange(p1 as int, e).len() == spec_enc_strs(ss).len());
        }
    }
    Some((out, p))
}

/// Decodes a whole artifact; the input must be consumed exactly, and a
/// successful decode pins the input as the artifact's canonical wire form,
/// which is what makes the bytes-to-dictionary-to-bytes round trip stable.
#[verifier::rlimit(100)]
#[verifier::spinoff_prover]
pub fn decode_dict(bytes: &Vec<u8>) -> (r: Option<SerDict>)
    ensures
        r matches Some(sd) ==> bytes@ == spec_enc_dict(sd),
        forall|sd2: SerDict|
            dict_wire_wf(sd2) && bytes@ == #[trigger] spec_enc_dict(sd2) ==> r is Some,
{
    let total = bytes.len();
    proof {
        assert forall|sd2: SerDict|
            dict_wire_wf(sd2) && bytes@ == #[trigger] spec_enc_dict(sd2) implies dict_parts(
            bytes@,
            sd2,
        ) && sd2.data@.len() <= u64::MAX by {
            lemma_dict_at_parts(bytes@, sd2);
            lemma_enc_defs_min(defs_bytes_view(sd2.data@));
            assert(spec_enc_defs(defs_bytes_view(sd2.data@)).len() <= total);
        }
    }
    let (nd, p1) = match dec_varint(bytes, 0) {
        Some(t) => t,
        None => {
            proof {
                assert forall|sd2: SerDict|
                    dict_wire_wf(sd2) && bytes@ == #[trigger] spec_enc_dict(sd2)
                    implies false by {
                    assert(varint_at(bytes@, 0, sd2.data@.len(), defs_pos(bytes@, sd2)));
                }
            }
            return None;
        },
    };
    proof {
        assert forall|sd2: SerDict|
            dict_wire_wf(sd2) && bytes@ == #[trigger] spec_enc_dict(sd2) implies sd2.data@.len()
            == nd && defs_pos(bytes@, sd2) == p1 by {
            assert(dict_parts(bytes@, sd2));
        }
    }
    if nd > (bytes.len() - p1) as u64 {
        proof {
            assert forall|sd2: SerDict|
                dict_wire_wf(sd2) && bytes@ == #[trigger] spec_enc_dict(sd2) implies false by {
                assert(dict_parts(bytes@, sd2));
                lemma_enc_defs_min(defs_bytes_view(sd2.data@));
            }
        }
        return None;
    }
    let cnt = nd as usize;
    let mut data: Vec<Vec<SerWord>> = Vec::new();
    let mut p = p1;
    let mut i: usize = 0;
    proof {
        assert(bytes@.subrange(p1 as int, p1 as int) =~= Seq::<u8>::empty());
        assert(spec_enc_defs(defs_bytes_view(data@)) == Seq::<u8>::empty()) by {
            assert(defs_bytes_view(data@) =~= Seq::<Seq<SerWord>>::empty());
        }
    }
    while i < cnt
        invariant
            i <= cnt,
            cnt == nd,
            p1 <= p <= bytes@.len(),
            data@.len() == i,
            bytes@.subrange(p1 as int, p as int) == spec_enc_defs(defs_bytes_view(data@)),
            forall|sd2: SerDict|
                dict_wire_wf(sd2) && bytes@ == #[trigger] spec_enc_dict(sd2) ==> dict_parts(
                    bytes@,
                    sd2,
                ) && sd2.data@.len() == nd && defs_pos(bytes@, sd2) == p1 && defs_bytes_view(
                    data@,
                ) == defs_bytes_view(sd2.data@).subrange(0, i as int) && p == p1 + spec_enc_defs(
                    defs_bytes_view(sd2.data@).subrange(0, i as int),
                ).len(),
        decreases cnt - i,
    {
        proof {
            assert forall|sd2: SerDict|
                dict_wire_wf(sd2) && bytes@ == #[trigger] spec_enc_dict(sd2) implies words_at(
                bytes@,
                p as int,
                defs_bytes_view(sd2.data@)[i as int],
                p + spec_enc_words(defs_bytes_view(sd2.data@)[i as int]).len(),
            ) by {
                let dsv = defs_bytes_view(sd2.data@);
                let q1 = p1 + spec_enc_defs(dsv).len();
                assert(bytes@.subrange(p1 as int, q1 as int) == spec_enc_defs(dsv));
                assert(dsv.subrange(0, cnt as int) =~= dsv);
                assert(dsv.subrange(0, i as int) + (seq![dsv[i as int]] + dsv.subrange(
                    i + 1,
                    cnt as int,
                )) =~= dsv);
                lemma_enc_defs_cat(
                    dsv.subrange(0, i as int),
                    seq![dsv[i as int]] + dsv.subrange(i + 1, cnt as int),
                );
                lemma_subrange_split(
                    bytes@,
                    p1 as int,
                    q1,
                    spec_enc_defs(dsv.subrange(0, i as int)),
                    spec_enc_defs(seq![dsv[i as int]] + dsv.subrange(i + 1, cnt as int)),
                );
                lemma_enc_defs_cat(seq![dsv[i as int]], dsv.subrange(i + 1, cnt as int));
                assert(spec_enc_defs(seq![dsv[i as int]]) =~= spec_enc_words(dsv[i as int])) by {
                    assert(seq![dsv[i as int]].drop_first() =~= Seq::<Seq<SerWord>>::empty());
                    assert(spec_enc_defs(Seq::<Seq<SerWord>>::empty()) == Seq::<u8>::empty());
                };
                lemma_subrange_split(
                    bytes@,
                    p as int,
                    q1,
                    spec_enc_words(dsv[i as int]),
                    spec_enc_defs(dsv.subrange(i + 1, cnt as int)),
                );
            }
        }
        let (d, p2) = match dec_words(bytes, p) {
            Some(t) => t,
            None => {
                return None;
            },
        };
        proof {
            lemma_enc_defs_push(defs_bytes_view(data@), d@);
            assert(bytes@.subrange(p1 as int, p2 as int) =~= bytes@.subrange(p1 as int, p as int)
                + bytes@.subrange(p as int, p2 as int));
        }
        let ghost dv = defs_bytes_view(data@);
        data.push(d);
        proof {
            assert(defs_bytes_view(data@) =~= dv.push(data@.last()@));
            assert forall|sd2: SerDict|
                dict_wire_wf(sd2) && bytes@ == #[trigger] spec_enc_dict(sd2) implies
                defs_bytes_view(data@) == defs_bytes_view(sd2.data@).subrange(0, i + 1) && p2
                == p1 + spec_enc_defs(defs_bytes_view(sd2.data@).subrange(0, i + 1)).len() by {
                let dsv = defs_bytes_view(sd2.data@);
                assert(words_at(bytes@, p as int, dsv[i as int], p + spec_enc_words(
                    dsv[i as int],
                ).len()));
                assert(d@ == dsv[i as int] && p2 == p + spec_enc_words(dsv[i as int]).len());
                assert(defs_bytes_view(data@) =~= dsv.subrange(0, i + 1)) by {
                    assert(dv == dsv.subrange(0, i as int));
                    assert(forall|k: int|
                        0 <= k < i ==> dsv.subrange(0, i as int)[k] == #[trigger] dsv.subrange(
                            0,
                            i + 1,
                        )[k]);
                }
                lemma_enc_defs_push(dsv.subrange(0, i as int), dsv[i as int]);
                assert(dsv.subrange(0, i as int).push(dsv[i as int]) =~= dsv.subrange(0, i + 1));
            }
        }
        p = p2;
        i = i + 1;
    }
    proof {
        assert forall|sd2: SerDict|
            dict_wire_wf(sd2) && bytes@ == #[trigger] spec_enc_dict(sd2) implies flag_pos(
            bytes@,
            sd2,
        ) == p by {
            let dsv = defs_bytes_view(sd2.data@);
            assert(dsv.subrange(0, cnt as int) =~= dsv);
        }
    }
    if p >= bytes.len() {
        return None;
    }
    let flag = bytes[p];
    proof {
        assert(bytes@.subrange(p as int, p + 1) =~= seq![flag]);
    }
    let pf = p + 1;
    let data_map: Option<Vec<String>>;
    let p3: usize;
    if flag == 1 {
        proof {
            assert forall|sd2: SerDict|
                dict_wire_wf(sd2) && bytes@ == #[trigger] spec_enc_dict(sd2) implies (
                sd2.data_map matches Some(dm) && valid_strs(toks_view(dm@)) && strs_at(
                    bytes@,
                    pf as int,
                    toks_view(dm@),
                    bis_pos(bytes@, sd2),
                )) by {
                assert(dict_parts(bytes@, sd2));
            }
        }
        let (dm, p2) = match dec_strs(bytes, pf) {
            Some(t) => t,
            None => {
                return None;
            },
        };
        data_map = Some(dm);
        p3 = p2;
    } else if flag == 0 {
        data_map = None;
        p3 = pf;
    } else {
        return None;
    }
    proof {
        assert forall|sd2: SerDict|
            dict_wire_wf(sd2) && bytes@ == #[trigger] spec_enc_dict(sd2) implies bis_pos(
            bytes@,
            sd2,
        ) == p3 && strs_at(bytes@, p3 as int, toks_view(sd2.bis@), bytes@.len() as int) by {
            assert(dict_parts(bytes@, sd2));
        }
    }
    let (bis, p4) = match dec_strs(bytes, p3) {
        Some(t) => t,
        None => {
            return None;
        },
    };
    if p4 != bytes.len() {
        return None;
    }
    let sd = SerDict { data, data_map, bis };
    proof {
        assert(data@.len() == cnt == nd);
        assert(bytes@ =~= bytes@.subrange(0, p1 as int) + bytes@.subrange(p1 as int, p as int)
            + bytes@.subrange(p as int, p + 1) + bytes@.subrange(pf as int, p3 as int)
            + bytes@.subrange(p3 as int, p4 as int));
        assert(bytes@ =~= spec_enc_dict(sd));
    }
    Some(sd)
}

/// Where the definition array's encoding starts.
pub open spec fn defs_pos(bytes: Seq<u8>, sd: SerDict) -> int {
    spec_enc_varint(sd.data@.len()).len() as int
}

/// Where the presence byte of the name array sits.
pub open spec fn flag_pos(bytes: Seq<u8>, sd: SerDict) -> int {
    defs_pos(bytes, sd) + spec_enc_defs(defs_bytes_view(sd.data@)).len()
}

/// Where the primitive-name array's encoding starts.
pub open spec fn bis_pos(bytes: Seq<u8>, sd: SerDict) -> int {
    flag_pos(bytes, sd) + 1 + (match sd.data_map {
        Some(dm) => spec_enc_varint(dm@.len()).len() + spec_enc_strs(toks_view(dm@)).len(),
        None => 0,
    })
}

/// How an artifact's wire form decomposes into its parts.
pub open spec fn dict_parts(bytes: Seq<u8>, sd: SerDict) -> bool {
    &&& varint_at(bytes, 0, sd.data@.len(), defs_pos(bytes, sd))
    &&& flag_pos(bytes, sd) < bytes.len()
    &&& bytes.subrange(defs_pos(bytes, sd), flag_pos(bytes, sd)) == spec_enc_defs(
        defs_bytes_view(sd.data@),
    )
    &&& bytes[flag_pos(bytes, sd)] == (match sd.data_map {
        Some(_dm) => 1u8,
        None => 0u8,
    })
    &&& match sd.data_map {
        Some(dm) => strs_at(bytes, flag_pos(bytes, sd) + 1, toks_view(dm@), bis_pos(bytes, sd)),
        None => true,
    }
    &&& strs_at(bytes, bis_pos(bytes, sd), toks_view(sd.bis@), bytes.len() as int)
}

/// A whole artifact encoding decomposes at its part boundaries.
proof fn lemma_dict_at_parts(bytes: Seq<u8>, sd: SerDict)
    requires
        bytes == spec_enc_dict(sd),
    ensures
        dict_parts(bytes, sd),
{
    let a = spec_enc_varint(sd.data@.len());
    let b = spec_enc_defs(defs_bytes_view(sd.data@));
    let m = match sd.data_map {
        Some(dm) => seq![1u8] + spec_enc_varint(dm@.len()) + spec_enc_strs(toks_view(dm@)),
        None => seq![0u8],
    };
    let d = spec_enc_varint(sd.bis@.len());
    let e = spec_enc_strs(toks_view(sd.bis@));
    assert(bytes.subrange(0, bytes.len() as int) =~= bytes);
    assert(bytes == a + b + m + d + e);
    assert(a + b + m + d + e =~= a + (b + (m + (d + e))));
    lemma_subrange_split(bytes, 0, bytes.len() as int, a, b + (m + (d + e)));
    lemma_subrange_split(bytes, a.len() as int, bytes.len() as int, b, m + (d + e));
    lemma_subrange_split(bytes, a.len() + b.len() as int, bytes.len() as int, m, d + e);
    match sd.data_map {
        Some(dm) => {
            assert(m =~= seq![1u8] + (spec_enc_varint(dm@.len()) + spec_enc_strs(
                toks_view(dm@),
            )));
            lemma_subrange_shift(
                bytes,
                a.len() + b.len() as int,
                a.len() + b.len() + m.len() as int,
                1u8,
                spec_enc_varint(dm@.len()) + spec_enc_strs(toks_view(dm@)),
            );
        },
        None => {
            assert(bytes.subrange(a.len() + b.len() as int, a.len() + b.len() + 1 as int)[0]
                == bytes[a.len() + b.len() as int]);
        },
    }
    assert(bytes.subrange(bis_pos(bytes, sd), bytes.len() as int) =~= d + e);
}

/// What rzcobs::encode produces for a given message: a pure function of the
/// message bytes alone.
pub uninterp spec fn rz_of(s: Seq<u8>) -> Seq<u8>;

/// Relies on rzcobs::encode: reverse-COBS byte stuffing, a pure function of
/// the message; the stuffed form contains no zero byte (the frame
/// terminator).
#[verifier::external_body]
fn rz_encode(data: &Vec<u8>) -> (r: Vec<u8>)
    ensures
        r@ == rz_of(data@),
        forall|i: int| 0 <= i < r@.len() ==> r@[i] != 0u8,
{
    rzcobs::encode(data.as_slice())
}

/// Relies on rzcobs::decode: it inverts rzcobs::encode up to trailing zero
/// bytes (the stuffing does not preserve how many zeros ended the message,
/// so the decoded form may extend the message with zeros).
#[verifier::external_body]
fn rz_decode(data: &Vec<u8>) -> (r: Option<Vec<u8>>)
    ensures
        (exists|s: Seq<u8>| data@ == rz_of(s)) ==> r is Some,
        r matches Some(v) ==> forall|s: Seq<u8>|
            data@ == rz_of(s) ==> s.len() <= v@.len() && v@.subrange(0, s.len() as int) == s && (
            forall|i: int| s.len() <= i < v@.len() ==> v@[i] == 0u8),
{
    match rzcobs::decode(data.as_slice()) {
        Ok(v) => Some(v),
        Err(_) => None,
    }
}

/// The framed wire form of a payload: its length and bytes, stuffed so that
/// no zero byte remains, then the zero terminator.
pub open spec fn spec_frame(payload: Seq<u8>) -> Seq<u8> {
    rz_of(spec_enc_varint(payload.len()) + payload) + seq![0u8]
}

/// Frames a serialized dictionary as a self-contained binary artifact.
pub fn dict_to_bytes(sd: &SerDict) -> (r: Vec<u8>)
    ensures
        r@ == spec_frame(spec_enc_dict(*sd)),
{
    let payload = encode_dict(sd);
    let mut framed: Vec<u8> = Vec::new();
    enc_varint(&mut framed, payload.len() as u64);
    let n = payload.len();
    let mut i: usize = 0;
    proof {
        assert(framed@ + payload@.subrange(0, 0) =~= framed@);
    }
    let ghost pre = framed@;
    while i < n
        invariant
            i <= n,
            n == payload@.len(),
            framed@ == pre + payload@.subrange(0, i as int),
        decreases n - i,
    {
        framed.push(payload[i]);
        proof {
            assert(framed@ =~= pre + payload@.subrange(0, i + 1));
        }
        i = i + 1;
    }
    proof {
        assert(payload@.subrange(0, n as int) =~= payload@);
    }
    let mut out = rz_encode(&framed);
    out.push(0u8);
    proof {
        assert(out@ =~= spec_frame(payload@));
    }
    out
}

/// Unframes and decodes a binary artifact; anything inconsistent refuses the
/// load. A successful decode cannot name the wrong dictionary: whenever the
/// input is the frame of some payload, the result is exactly that payload's
/// dictionary. (Whether a given frame is accepted at all depends on the byte
/// stuffing, which the stuffing crate owns; the tests drive whole round
/// trips through it.)
pub fn dict_from_bytes(bytes: &Vec<u8>) -> (r: Result<SerDict, Error>)
    ensures
        r matches Ok(sd) ==> forall|orig: Seq<u8>|
            bytes@ == #[trigger] spec_frame(orig) && orig.len() <= u64::MAX ==> orig
                == spec_enc_dict(sd),
        forall|sd2: SerDict|
            dict_wire_wf(sd2) && spec_enc_dict(sd2).len() <= u64::MAX && bytes@
                == #[trigger] spec_frame(spec_enc_dict(sd2)) ==> r is Ok,
{
    let nb = bytes.len();
    if nb == 0 {
        proof {
            assert forall|sd2: SerDict|
                dict_wire_wf(sd2) && spec_enc_dict(sd2).len() <= u64::MAX && bytes@
                    == #[trigger] spec_frame(spec_enc_dict(sd2)) implies false by {
            }
        }
        return Err(Error::InternalError);
    }
    if bytes[nb - 1] != 0 {
        proof {
            assert forall|sd2: SerDict|
                dict_wire_wf(sd2) && spec_enc_dict(sd2).len() <= u64::MAX && bytes@
                    == #[trigger] spec_frame(spec_enc_dict(sd2)) implies false by {
                let orig = spec_enc_dict(sd2);
                let msg = spec_enc_varint(orig.len()) + orig;
                assert(bytes@[nb - 1] == (rz_of(msg) + seq![0u8])[nb - 1]);
            }
        }
        return Err(Error::InternalError);
    }
    let mut stuffed: Vec<u8> = Vec::new();
    let mut i: usize = 0;
    while i < nb - 1
        invariant
            i <= nb - 1,
            nb == bytes@.len(),
            stuffed@ == bytes@.subrange(0, i as int),
        decreases nb - 1 - i,
    {
        stuffed.push(bytes[i]);
        proof {
            assert(stuffed@ =~= bytes@.subrange(0, i + 1));
        }
        i = i + 1;
    }
    proof {
        assert(bytes@ =~= bytes@.subrange(0, nb - 1) + seq![0u8]);
        assert forall|sd2: SerDict|
            dict_wire_wf(sd2) && spec_enc_dict(sd2).len() <= u64::MAX && bytes@
                == #[trigger] spec_frame(spec_enc_dict(sd2)) implies stuffed@ == rz_of(
            spec_enc_varint(spec_enc_dict(sd2).len()) + spec_enc_dict(sd2),
        ) by {
            let orig = spec_enc_dict(sd2);
            let msg = spec_enc_varint(orig.len()) + orig;
            assert(stuffed@ =~= rz_of(msg)) by {
                assert(forall|k: int|
                    0 <= k < rz_of(msg).len() ==> #[trigger] rz_of(msg)[k] == (rz_of(msg) + seq![
                        0u8,
                    ])[k]);
            }
        }
    }
    let padded = match rz_decode(&stuffed) {
        Some(v) => v,
        None => {
            return Err(Error::InternalError);
        },
    };
    proof {
        assert forall|sd2: SerDict|
            dict_wire_wf(sd2) && spec_enc_dict(sd2).len() <= u64::MAX && bytes@
                == #[trigger] spec_frame(spec_enc_dict(sd2)) implies varint_at(
            padded@,
            0,
            spec_enc_dict(sd2).len(),
            spec_enc_varint(spec_enc_dict(sd2).len()).len() as int,
        ) && spec_enc_dict(sd2).len() + spec_enc_varint(spec_enc_dict(sd2).len()).len()
            <= padded@.len() by {
            let orig = spec_enc_dict(sd2);
            let msg = spec_enc_varint(orig.len()) + orig;
            assert(stuffed@ == rz_of(msg));
            assert(msg.len() <= padded@.len() && padded@.subrange(0, msg.len() as int) == msg);
            lemma_subrange_split(
                padded@,
                0,
                msg.len() as int,
                spec_enc_varint(orig.len()),
                orig,
            );
        }
    }
    let (plen, p1) = match dec_varint(&padded, 0) {
        Some(t) => t,
        None => {
            return Err(Error::InternalError);
        },
    };
    if plen > (padded.len() - p1) as u64 {
        return Err(Error::InternalError);
    }
    let end = p1 + (plen as usize);
    let mut payload: Vec<u8> = Vec::new();
    let mut j: usize = p1;
    while j < end
        invariant
            p1 <= j <= end,
            end <= padded@.len(),
            payload@ == padded@.subrange(p1 as int, j as int),
        decreases end - j,
    {
        payload.push(padded[j]);
        proof {
            assert(payload@ =~= padded@.subrange(p1 as int, j + 1));
        }
        j = j + 1;
    }
    proof {
        lemma_from_bytes_canonical(bytes@, stuffed@, padded@, payload@, p1 as int, plen);
        assert forall|sd2: SerDict|
            dict_wire_wf(sd2) && spec_enc_dict(sd2).len() <= u64::MAX && bytes@
                == #[trigger] spec_frame(spec_enc_dict(sd2)) implies payload@ == spec_enc_dict(
            sd2,
        ) by {
            assert(bytes@ == spec_frame(spec_enc_dict(sd2)));
        }
    }
    let sd = match decode_dict(&payload) {
        Some(sd) => sd,
        None => {
            return Err(Error::InternalError);
        },
    };
    Ok(sd)
}

/// Gluing the unframing steps: when the input is a well-formed frame of some
/// payload, the cut payload is exactly that payload.
proof fn lemma_from_bytes_canonical(
    bytes: Seq<u8>,
    stuffed: Seq<u8>,
    padded: Seq<u8>,
    payload: Seq<u8>,
    p1: int,
    plen: u64,
)
    requires
        bytes == stuffed + seq![0u8],
        0 <= p1 <= padded.len(),
        plen as int + p1 <= padded.len(),
        payload == padded.subrange(p1, p1 + plen as int),
        padded.subrange(0, p1) == spec_enc_varint(plen as nat),
        forall|s: Seq<u8>|
            stuffed == rz_of(s) ==> s.len() <= padded.len() && padded.subrange(0, s.len() as int)
                == s && (forall|i: int| s.len() <= i < padded.len() ==> padded[i] == 0u8),
    ensures
        forall|orig: Seq<u8>|
            bytes == #[trigger] spec_frame(orig) && orig.len() <= u64::MAX ==> payload == orig,
{
    assert forall|orig: Seq<u8>|
        bytes == #[trigger] spec_frame(orig) && orig.len() <= u64::MAX implies payload
        == orig by {
        let msg = spec_enc_varint(orig.len()) + orig;
        assert(bytes == rz_of(msg) + seq![0u8]);
        assert(stuffed =~= rz_of(msg)) by {
            assert(forall|k: int| 0 <= k < stuffed.len() ==> stuffed[k] == bytes[k]);
            assert(forall|k: int| 0 <= k < rz_of(msg).len() ==> rz_of(msg)[k] == bytes[k]);
        }
        assert(msg.len() <= padded.len() && padded.subrange(0, msg.len() as int) == msg);
        let vl = spec_enc_varint(orig.len());
        assert(vl.len() <= msg.len());
        assert(padded.subrange(0, vl.len() as int) =~= vl) by {
            assert(forall|k: int| 0 <= k < vl.len() ==> msg[k] == vl[k]);
            assert(forall|k: int|
                0 <= k < msg.len() ==> padded.subrange(0, msg.len() as int)[k] == padded[k]);
        }
        lemma_varint_prefix_free(padded, plen as nat, orig.len(), p1, vl.len() as int);
        assert(p1 == vl.len() && plen as nat == orig.len());
        assert(payload =~= orig) by {
            assert(forall|k: int| 0 <= k < orig.len() ==> msg[vl.len() + k] == orig[k]);
            assert(forall|k: int|
                0 <= k < msg.len() ==> padded.subrange(0, msg.len() as int)[k] == padded[k]);
        }
    }
}

/// Two varint encodings that both begin the same byte sequence encode the
/// same value over the same bytes: the code is prefix-free.
proof fn lemma_varint_prefix_free(bytes: Seq<u8>, n1: nat, n2: nat, e1: int, e2: int)
    requires
        0 <= e1 <= bytes.len(),
        0 <= e2 <= bytes.len(),
        bytes.subrange(0, e1) == spec_enc_varint(n1),
        bytes.subrange(0, e2) == spec_enc_varint(n2),
    ensures
        n1 == n2,
        e1 == e2,
    decreases e1,
{
    let s1 = spec_enc_varint(n1);
    let s2 = spec_enc_varint(n2);
    assert(s1.len() >= 1 && s2.len() >= 1);
    assert(s1[0] == bytes[0] && s2[0] == bytes[0]);
    if n1 < 128 && n2 < 128 {
        assert(n1 == s1[0] && n2 == s2[0]);
    } else if n1 >= 128 && n2 >= 128 {
        let rest = bytes.subrange(1, bytes.len() as int);
        assert(rest.subrange(0, e1 - 1) =~= spec_enc_varint(n1 / 128)) by {
            assert(forall|k: int| 0 <= k < e1 - 1 ==> rest[k] == bytes[k + 1]);
            assert(forall|k: int| 1 <= k < e1 ==> s1[k] == bytes[k]);
            assert(forall|k: int|
                1 <= k < e1 ==> s1[k] == spec_enc_varint(n1 / 128)[k - 1]);
        }
        assert(rest.subrange(0, e2 - 1) =~= spec_enc_varint(n2 / 128)) by {
            assert(forall|k: int| 0 <= k < e2 - 1 ==> rest[k] == bytes[k + 1]);
            assert(forall|k: int| 1 <= k < e2 ==> s2[k] == bytes[k]);
            assert(forall|k: int|
                1 <= k < e2 ==> s2[k] == spec_enc_varint(n2 / 128)[k - 1]);
        }
        lemma_varint_prefix_free(rest, n1 / 128, n2 / 128, e1 - 1, e2 - 1);
        assert((128 + (n1 % 128)) as u8 == (128 + (n2 % 128)) as u8);
        assert(n1 % 128 == n2 % 128);
        assert(n1 == 128 * (n1 / 128) + n1 % 128) by (nonlinear_arith);
        assert(n2 == 128 * (n2 / 128) + n2 % 128) by (nonlinear_arith);
    } else {
        if n1 < 128 {
            assert(s1[0] == n1 as u8 && n1 < 128);
            assert(s2[0] == (128 + (n2 % 128)) as u8);
            assert(false);
        } else {
            assert(false);
        }
    }
}

} // verus!
