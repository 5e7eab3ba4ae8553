use vstd::prelude::*;
use crate::Error;
use crate::compiler::toks_view;
use crate::text::str_eq;
use crate::words::{FuncSeq, NamedWord, NamedWordV, Prim, RuntimeWord, WordV};

verus! {

/// A bytecode word in wire form: primitive and definition references are
/// 16-bit indices into the artifact's `bis` and `data` arrays; the call
/// cursor is not serialized (it is zero on load).
#[derive(Debug, Clone, Copy, PartialEq, Eq, Structural)]
pub enum SerWord {
    LiteralVal(i32),
    Verb(u16),
    VerbSeq(u16),
    UncondRelativeJump { offset: i32 },
    CondRelativeJump { offset: i32, jump_on: bool },
}

/// The serialized dictionary: the definitions in interned order, their names
/// (optional: producers may omit them), and the names of the primitives that
/// the definitions reference.
#[derive(Debug)]
pub struct SerDict {
    pub data: Vec<Vec<SerWord>>,
    pub data_map: Option<Vec<String>>,
    pub bis: Vec<String>,
}

/// The index of the first occurrence of `w`, or `-1`.
pub open spec fn str_idx(s: Seq<Seq<char>>, w: Seq<char>) -> int
    decreases s.len(),
{
    if s.len() == 0 {
        -1
    } else if s[0] == w {
        0
    } else {
        let r = str_idx(s.drop_first(), w);
        if r < 0 {
            -1
        } else {
            r + 1
        }
    }
}

/// What `str_idx` finds: a first occurrence, or nothing anywhere.
pub proof fn lemma_str_idx(s: Seq<Seq<char>>, w: Seq<char>)
    ensures
        str_idx(s, w) == -1 ==> forall|j: int| 0 <= j < s.len() ==> #[trigger] s[j] != w,
        str_idx(s, w) >= 0 ==> str_idx(s, w) < s.len() && s[str_idx(s, w)] == w && forall|j: int|
            0 <= j < str_idx(s, w) ==> #[trigger] s[j] != w,
    decreases s.len(),
{
    if s.len() > 0 && s[0] != w {
        lemma_str_idx(s.drop_first(), w);
        assert(forall|j: int| 1 <= j < s.len() ==> #[trigger] s[j] == s.drop_first()[j - 1]);
    }
}

/// `str_idx` is `i` when `s[i]` is the first occurrence of `w`.
pub proof fn lemma_str_idx_at(s: Seq<Seq<char>>, w: Seq<char>, i: int)
    requires
        0 <= i < s.len(),
        s[i] == w,
        forall|j: int| 0 <= j < i ==> #[trigger] s[j] != w,
    ensures
        str_idx(s, w) == i,
    decreases i,
{
    if i > 0 {
        assert(forall|j: int| 0 <= j < i - 1 ==> #[trigger] s.drop_first()[j] == s[j + 1]);
        lemma_str_idx_at(s.drop_first(), w, i - 1);
    }
}

/// `str_idx` is `-1` when `w` occurs nowhere.
pub proof fn lemma_str_idx_none(s: Seq<Seq<char>>, w: Seq<char>)
    requires
        forall|j: int| 0 <= j < s.len() ==> #[trigger] s[j] != w,
    ensures
        str_idx(s, w) == -1,
    decreases s.len(),
{
    if s.len() > 0 {
        assert(forall|j: int|
            0 <= j < s.len() - 1 ==> #[trigger] s.drop_first()[j] == s[j + 1]);
        lemma_str_idx_none(s.drop_first(), w);
    }
}

/// Finds the first position of `w` in a vector of names.
pub fn find_str(v: &Vec<String>, w: &str) -> (r: Option<usize>)
    ensures
        match r {
            Some(i) => str_idx(toks_view(v@), w@) == i && i < v@.len() && v@[i as int]@ == w@,
            None => str_idx(toks_view(v@), w@) == -1,
        },
{
    let n = v.len();
    let mut i: usize = 0;
    while i < n
        invariant
            i <= n,
            n == v@.len(),
            forall|j: int| 0 <= j < i ==> (#[trigger] v@[j])@ != w@,
        decreases n - i,
    {
        if str_eq(v[i].as_str(), w) {
            proof {
                assert(forall|j: int|
                    0 <= j < i ==> #[trigger] toks_view(v@)[j] == v@[j]@);
                lemma_str_idx_at(toks_view(v@), w@, i as int);
            }
            return Some(i);
        }
        i = i + 1;
    }
    proof {
        assert(forall|j: int| 0 <= j < n ==> #[trigger] toks_view(v@)[j] == v@[j]@);
        lemma_str_idx_none(toks_view(v@), w@);
    }
    None
}

/// Interning a name: an existing entry keeps its index; a new name is
/// appended and gets the next index. First-encounter order is what fixes the
/// wire indices.
pub open spec fn spec_intern(s: Seq<Seq<char>>, w: Seq<char>) -> (Seq<Seq<char>>, int) {
    if str_idx(s, w) >= 0 {
        (s, str_idx(s, w))
    } else {
        (s.push(w), s.len() as int)
    }
}

/// The two intern tables the serializer builds: primitive names and
/// definition names, each in first-encounter order.
pub struct SerContext {
    pub bis: Vec<String>,
    pub seqs: Vec<String>,
}

/// What one word encodes to, and how it advances the intern tables. An
/// intern index beyond 16 bits cannot be represented on the wire.
pub open spec fn spec_encode_word(
    bis: Seq<Seq<char>>,
    seqs: Seq<Seq<char>>,
    nw: NamedWordV,
) -> Result<((Seq<Seq<char>>, Seq<Seq<char>>), SerWord), Error> {
    match nw.word {
        WordV::Lit(v) => Ok(((bis, seqs), SerWord::LiteralVal(v))),
        WordV::Verb(_p) => {
            let (b2, k) = spec_intern(bis, nw.name);
            if k > 0xFFFF {
                Err(Error::BadMath)
            } else {
                Ok(((b2, seqs), SerWord::Verb(k as u16)))
            }
        },
        WordV::Call(tok, _idx) => {
            let (s2, k) = spec_intern(seqs, tok);
            if k > 0xFFFF {
                Err(Error::BadMath)
            } else {
                Ok(((bis, s2), SerWord::VerbSeq(k as u16)))
            }
        },
        WordV::Jump(offset) => Ok(((bis, seqs), SerWord::UncondRelativeJump { offset })),
        WordV::CondJump(offset, jump_on) => Ok(
            ((bis, seqs), SerWord::CondRelativeJump { offset, jump_on }),
        ),
    }
}

/// What a definition's words encode to, in order.
pub open spec fn spec_encode_words(
    bis: Seq<Seq<char>>,
    seqs: Seq<Seq<char>>,
    ws: Seq<NamedWordV>,
) -> Result<((Seq<Seq<char>>, Seq<Seq<char>>), Seq<SerWord>), Error>
    decreases ws.len(),
{
    if ws.len() == 0 {
        Ok(((bis, seqs), Seq::<SerWord>::empty()))
    } else {
        match spec_encode_word(bis, seqs, ws[0]) {
            Ok(((b2, s2), sw)) => match spec_encode_words(b2, s2, ws.drop_first()) {
                Ok(((b3, s3), rest)) => Ok(((b3, s3), seq![sw] + rest)),
                Err(e) => Err(e),
            },
            Err(e) => Err(e),
        }
    }
}

/// What serializing one named definition does: the definition's own name is
/// interned first, so self-references and forward references are well
/// defined, then its words are encoded in order.
pub open spec fn spec_ser_srw(
    bis: Seq<Seq<char>>,
    seqs: Seq<Seq<char>>,
    name: Seq<char>,
    ws: Seq<NamedWordV>,
) -> Result<((Seq<Seq<char>>, Seq<Seq<char>>), Seq<SerWord>), Error> {
    let (s2, k) = spec_intern(seqs, name);
    if k > 0xFFFF {
        Err(Error::BadMath)
    } else {
        spec_encode_words(bis, s2, ws)
    }
}

impl SerContext {
    pub fn new() -> (r: Self)
        ensures
            r.bis@ == Seq::<String>::empty(),
            r.seqs@ == Seq::<String>::empty(),
    {
        SerContext { bis: Vec::new(), seqs: Vec::new() }
    }

    /// Interns a primitive name, handing back its 16-bit wire index.
    pub fn intern_bis(&mut self, word: &str) -> (r: Result<u16, Error>)
        ensures
            final(self).seqs == old(self).seqs,
            ({
                let (s2, k) = spec_intern(toks_view(old(self).bis@), word@);
                if k > 0xFFFF {
                    r == Err::<u16, Error>(Error::BadMath) && final(self).bis@ == old(self).bis@
                } else {
                    r == Ok::<u16, Error>(k as u16) && toks_view(final(self).bis@) == s2
                }
            }),
    {
        intern(&mut self.bis, word)
    }

    /// Interns a definition name, handing back its 16-bit wire index.
    pub fn intern_seq(&mut self, word: &str) -> (r: Result<u16, Error>)
        ensures
            final(self).bis == old(self).bis,
            ({
                let (s2, k) = spec_intern(toks_view(old(self).seqs@), word@);
                if k > 0xFFFF {
                    r == Err::<u16, Error>(Error::BadMath) && final(self).seqs@ == old(self).seqs@
                } else {
                    r == Ok::<u16, Error>(k as u16) && toks_view(final(self).seqs@) == s2
                }
            }),
    {
        intern(&mut self.seqs, word)
    }

    /// Encodes one named word against the intern tables.
    pub fn encode_rtw(&mut self, word: &NamedWord) -> (r: Result<SerWord, Error>)
        ensures
            match spec_encode_word(
                toks_view(old(self).bis@),
                toks_view(old(self).seqs@),
                word@,
            ) {
                Ok(((b2, s2), sw)) => r == Ok::<SerWord, Error>(sw) && toks_view(final(self).bis@)
                    == b2 && toks_view(final(self).seqs@) == s2,
                Err(e) => r == Err::<SerWord, Error>(e) && final(self).bis@ == old(self).bis@
                    && final(self).seqs@ == old(self).seqs@,
            },
    {
        match &word.word {
            RuntimeWord::LiteralVal(v) => Ok(SerWord::LiteralVal(*v)),
            RuntimeWord::Verb(_p) => {
                let k = match self.intern_bis(word.name.as_str()) {
                    Ok(k) => k,
                    Err(e) => {
                        return Err(e);
                    },
                };
                Ok(SerWord::Verb(k))
            },
            RuntimeWord::VerbSeq(vsi) => {
                let k = match self.intern_seq(vsi.tok.as_str()) {
                    Ok(k) => k,
                    Err(e) => {
                        return Err(e);
                    },
                };
                Ok(SerWord::VerbSeq(k))
            },
            RuntimeWord::UncondRelativeJump { offset } => Ok(
                SerWord::UncondRelativeJump { offset: *offset },
            ),
            RuntimeWord::CondRelativeJump { offset, jump_on } => Ok(
                SerWord::CondRelativeJump { offset: *offset, jump_on: *jump_on },
            ),
        }
    }
}

/// Interns a name into one table.
fn intern(v: &mut Vec<String>, word: &str) -> (r: Result<u16, Error>)
    ensures
        ({
            let (s2, k) = spec_intern(toks_view(old(v)@), word@);
            if k > 0xFFFF {
                r == Err::<u16, Error>(Error::BadMath) && final(v)@ == old(v)@
            } else {
                r == Ok::<u16, Error>(k as u16) && toks_view(final(v)@) == s2
            }
        }),
{
    match find_str(v, word) {
        Some(i) => {
            if i > 0xFFFF {
                return Err(Error::BadMath);
            }
            Ok(i as u16)
        },
        None => {
            if v.len() > 0xFFFF {
                return Err(Error::BadMath);
            }
            let i = v.len();
            v.push(word.to_string());
            proof {
                assert(toks_view(v@) =~= toks_view(old(v)@).push(word@));
            }
            Ok(i as u16)
        },
    }
}


/// `a` is an initial segment of `b`.
pub open spec fn names_prefix(a: Seq<Seq<char>>, b: Seq<Seq<char>>) -> bool {
    a.len() <= b.len() && forall|i: int| 0 <= i < a.len() ==> a[i] == #[trigger] b[i]
}

/// No name occurs twice.
pub open spec fn distinct_names(s: Seq<Seq<char>>) -> bool {
    forall|i: int, j: int| 0 <= i < j < s.len() ==> s[i] != s[j]
}

/// The definitions' names are pairwise distinct: the dictionary is a mapping.
pub open spec fn names_unique(defs: Seq<(String, FuncSeq)>) -> bool {
    forall|i: int, j: int| 0 <= i < j < defs.len() ==> (#[trigger] defs[i].0)@ != (
    #[trigger] defs[j].0)@
}

/// In a mapping, each definition is found under its own name.
pub proof fn lemma_unique_assoc(defs: Seq<(String, FuncSeq)>)
    requires
        names_unique(defs),
    ensures
        forall|k: int|
            0 <= k < defs.len() ==> crate::dict::assoc_idx(defs, (#[trigger] defs[k].0)@) == k,
{
    assert forall|k: int|
        0 <= k < defs.len() implies crate::dict::assoc_idx(defs, (#[trigger] defs[k].0)@)
        == k by {
        crate::dict::lemma_assoc_idx_at(defs, defs[k].0@, k);
    }
}

/// Inserting a pair under its own key keeps the names pairwise distinct:
/// a dictionary grown through insertion stays a mapping.
pub proof fn lemma_assoc_insert_unique(
    s: Seq<(String, FuncSeq)>,
    k: Seq<char>,
    kv: (String, FuncSeq),
)
    requires
        names_unique(s),
        kv.0@ == k,
    ensures
        names_unique(crate::dict::assoc_insert(s, k, kv)),
{
    crate::dict::lemma_assoc_idx(s, k);
    let s2 = crate::dict::assoc_insert(s, k, kv);
    if crate::dict::assoc_has(s, k) {
        let i = crate::dict::assoc_idx(s, k);
        assert forall|a: int, b: int| 0 <= a < b < s2.len() implies (#[trigger] s2[a].0)@ != (
        #[trigger] s2[b].0)@ by {
            if a != i && b != i {
                assert(s2[a] == s[a] && s2[b] == s[b]);
            } else if a == i {
                assert(s2[a].0@ == s[i].0@ && s2[b] == s[b]);
            } else {
                assert(s2[b].0@ == s[i].0@ && s2[a] == s[a]);
            }
        }
    } else {
        assert forall|a: int, b: int| 0 <= a < b < s2.len() implies (#[trigger] s2[a].0)@ != (
        #[trigger] s2[b].0)@ by {
            if b == s.len() {
                assert(s2[a] == s[a]);
                assert(s2[b].0@ == k);
            } else {
                assert(s2[a] == s[a] && s2[b] == s[b]);
            }
        }
    }
}

/// How one wire word corresponds to the bytecode word it was encoded from,
/// read against the artifact's name arrays: a primitive reference points at
/// the word's name, a call reference points at the called definition's name,
/// and literals and jumps carry the same payload.
pub open spec fn sw_matches(
    sw: SerWord,
    nw: NamedWordV,
    dm: Seq<Seq<char>>,
    bis: Seq<Seq<char>>,
) -> bool {
    match sw {
        SerWord::LiteralVal(a) => nw.word matches WordV::Lit(b) && a == b,
        SerWord::Verb(k) => (nw.word matches WordV::Verb(_)) && k < bis.len() && bis[k as int]
            == nw.name,
        SerWord::VerbSeq(k) => match nw.word {
            WordV::Call(tok, _idx) => k < dm.len() && dm[k as int] == tok,
            _ => false,
        },
        SerWord::UncondRelativeJump { offset } => nw.word matches WordV::Jump(b) && offset == b,
        SerWord::CondRelativeJump { offset, jump_on } => match nw.word {
            WordV::CondJump(b, jb) => offset == b && jump_on == jb,
            _ => false,
        },
    }
}

/// A match survives extending the name arrays: indices below the old length
/// keep their entries.
pub proof fn lemma_sw_matches_mono(
    sw: SerWord,
    nw: NamedWordV,
    dm: Seq<Seq<char>>,
    bis: Seq<Seq<char>>,
    dm2: Seq<Seq<char>>,
    bis2: Seq<Seq<char>>,
)
    requires
        sw_matches(sw, nw, dm, bis),
        names_prefix(dm, dm2),
        names_prefix(bis, bis2),
    ensures
        sw_matches(sw, nw, dm2, bis2),
{
}

/// An existing name keeps its index when another is appended.
pub proof fn lemma_str_idx_push(s: Seq<Seq<char>>, w: Seq<char>, x: Seq<char>)
    requires
        str_idx(s, x) >= 0,
    ensures
        str_idx(s.push(w), x) == str_idx(s, x),
    decreases s.len(),
{
    if s.len() > 0 && s[0] != x {
        lemma_str_idx_push(s.drop_first(), w, x);
        assert(s.push(w).drop_first() =~= s.drop_first().push(w));
    }
}

/// Some word of the list is a primitive reference with wire index `b`.
pub open spec fn verb_ref_in(sws: Seq<SerWord>, b: int) -> bool {
    exists|j: int| 0 <= j < sws.len() && sws[j] == SerWord::Verb(b as u16)
}

/// What `spec_encode_word` guarantees of its outcome: the tables only grow,
/// stay distinct, keep every present name, and the wire word matches the
/// encoded word against the grown tables.
pub proof fn lemma_encode_word_props(bis: Seq<Seq<char>>, seqs: Seq<Seq<char>>, nw: NamedWordV)
    ensures
        spec_encode_word(bis, seqs, nw) matches Ok(((b2, s2), sw)) ==> names_prefix(bis, b2)
            && names_prefix(seqs, s2) && sw_matches(sw, nw, s2, b2) && (distinct_names(bis)
            ==> distinct_names(b2)) && (distinct_names(seqs) ==> distinct_names(s2)) && (forall|
            w: Seq<char>,
        |
            str_idx(seqs, w) >= 0 ==> #[trigger] str_idx(s2, w) >= 0),
{
    if spec_encode_word(bis, seqs, nw) is Ok {
        match nw.word {
            WordV::Verb(_p) => {
                lemma_str_idx(bis, nw.name);
                if str_idx(bis, nw.name) < 0 {
                    assert(distinct_names(bis) ==> distinct_names(bis.push(nw.name)));
                }
            },
            WordV::Call(tok, _idx) => {
                lemma_str_idx(seqs, tok);
                if str_idx(seqs, tok) < 0 {
                    assert(distinct_names(seqs) ==> distinct_names(seqs.push(tok)));
                    assert forall|w: Seq<char>| str_idx(seqs, w) >= 0 implies #[trigger] str_idx(
                        seqs.push(tok),
                        w,
                    ) >= 0 by {
                        lemma_str_idx_push(seqs, tok, w);
                    }
                }
            },
            _ => {},
        }
    }
}

/// `lemma_encode_word_props` lifted over a definition's words.
pub proof fn lemma_encode_words_props(
    bis: Seq<Seq<char>>,
    seqs: Seq<Seq<char>>,
    ws: Seq<NamedWordV>,
)
    ensures
        spec_encode_words(bis, seqs, ws) matches Ok(((b3, s3), sws)) ==> names_prefix(bis, b3)
            && names_prefix(seqs, s3) && sws.len() == ws.len() && (forall|j: int|
            0 <= j < ws.len() ==> sw_matches(#[trigger] sws[j], ws[j], s3, b3)) && (distinct_names(
            bis,
        ) ==> distinct_names(b3)) && (distinct_names(seqs) ==> distinct_names(s3)) && (forall|
            w: Seq<char>,
        |
            str_idx(seqs, w) >= 0 ==> #[trigger] str_idx(s3, w) >= 0),
    decreases ws.len(),
{
    if ws.len() > 0 && spec_encode_words(bis, seqs, ws) is Ok {
        lemma_encode_word_props(bis, seqs, ws[0]);
        let ((b2, s2), sw) = spec_encode_word(bis, seqs, ws[0])->Ok_0;
        lemma_encode_words_props(b2, s2, ws.drop_first());
        let ((b3, s3), rest) = spec_encode_words(b2, s2, ws.drop_first())->Ok_0;
        lemma_sw_matches_mono(sw, ws[0], s2, b2, s3, b3);
        let sws = spec_encode_words(bis, seqs, ws)->Ok_0.1;
        assert forall|j: int| 0 <= j < ws.len() implies sw_matches(
            #[trigger] sws[j],
            ws[j],
            s3,
            b3,
        ) by {
            if j > 0 {
                assert(sws[j] == rest[j - 1]);
                assert(ws.drop_first()[j - 1] == ws[j]);
            }
        }
    }
}

/// Each primitive-table entry the encoder added while walking `ws` is
/// referenced by one of the emitted wire words.
pub proof fn lemma_encode_words_ref_at(
    bis: Seq<Seq<char>>,
    seqs: Seq<Seq<char>>,
    ws: Seq<NamedWordV>,
    b: int,
)
    requires
        spec_encode_words(bis, seqs, ws) is Ok,
        bis.len() <= b < spec_encode_words(bis, seqs, ws)->Ok_0.0.0.len(),
    ensures
        b <= 0xFFFF,
        verb_ref_in(spec_encode_words(bis, seqs, ws)->Ok_0.1, b),
    decreases ws.len(),
{
    let sws = spec_encode_words(bis, seqs, ws)->Ok_0.1;
    assert(ws.len() > 0) by {
        if ws.len() == 0 {
            assert(spec_encode_words(bis, seqs, ws)->Ok_0.0.0 == bis);
        }
    }
    let ((b2, s2), sw) = spec_encode_word(bis, seqs, ws[0])->Ok_0;
    let ((b3r, s3r), rest) = spec_encode_words(b2, s2, ws.drop_first())->Ok_0;
    if b < b2.len() {
        assert(b == bis.len() && sw == SerWord::Verb(b as u16) && b <= 0xFFFF) by {
            lemma_str_idx(bis, ws[0].name);
        }
        assert(sws[0] == sw);
        assert(verb_ref_in(sws, b));
    } else {
        lemma_encode_words_ref_at(b2, s2, ws.drop_first(), b);
        assert(verb_ref_in(rest, b));
        let j0 = choose|j0: int| 0 <= j0 < rest.len() && rest[j0] == SerWord::Verb(b as u16);
        assert(sws[j0 + 1] == rest[j0]);
        assert(verb_ref_in(sws, b));
    }
}

/// Serializes one named definition, interning its own name first.
pub fn ser_srw(ctxt: &mut SerContext, name: &str, words: &FuncSeq) -> (r: Result<
    Vec<SerWord>,
    Error,
>)
    ensures
        match spec_ser_srw(
            toks_view(old(ctxt).bis@),
            toks_view(old(ctxt).seqs@),
            name@,
            words@,
        ) {
            Ok(((b3, s3), sws)) => (r matches Ok(v) && v@ == sws) && toks_view(final(ctxt).bis@)
                == b3 && toks_view(final(ctxt).seqs@) == s3,
            Err(e) => r == Err::<Vec<SerWord>, Error>(e),
        },
{
    let ghost b0 = toks_view(ctxt.bis@);
    let ghost s0 = toks_view(ctxt.seqs@);
    match ctxt.intern_seq(name) {
        Ok(_k) => {},
        Err(e) => {
            return Err(e);
        },
    }
    let ghost s1 = toks_view(ctxt.seqs@);
    let ghost ws = words@;
    let n = words.inner.len();
    let mut out: Vec<SerWord> = Vec::new();
    let mut i: usize = 0;
    proof {
        assert(ws.subrange(0, ws.len() as int) =~= ws);
        assert(ws.len() == n);
    }
    while i < n
        invariant
            i <= n,
            n == words.inner@.len(),
            ws == words@,
            ws.len() == n,
            b0 == toks_view(old(ctxt).bis@),
            s0 == toks_view(old(ctxt).seqs@),
            spec_ser_srw(b0, s0, name@, ws) == spec_encode_words(b0, s1, ws),
            match spec_encode_words(
                toks_view(ctxt.bis@),
                toks_view(ctxt.seqs@),
                ws.subrange(i as int, n as int),
            ) {
                Ok(((bf, sf), rest)) => spec_encode_words(b0, s1, ws) == Ok::<
                    ((Seq<Seq<char>>, Seq<Seq<char>>), Seq<SerWord>),
                    Error,
                >(((bf, sf), out@ + rest)),
                Err(e) => spec_encode_words(b0, s1, ws) == Err::<
                    ((Seq<Seq<char>>, Seq<Seq<char>>), Seq<SerWord>),
                    Error,
                >(e),
            },
        decreases n - i,
    {
        let ghost pend = ws.subrange(i as int, n as int);
        proof {
            assert(pend[0] == ws[i as int]);
            assert(ws[i as int] == words.inner@[i as int]@);
            assert(pend.drop_first() =~= ws.subrange(i + 1, n as int));
        }
        let sw = match ctxt.encode_rtw(&words.inner[i]) {
            Ok(sw) => sw,
            Err(e) => {
                return Err(e);
            },
        };
        let ghost outv = out@;
        out.push(sw);
        proof {
            if spec_encode_words(
                toks_view(ctxt.bis@),
                toks_view(ctxt.seqs@),
                pend.drop_first(),
            ) is Ok {
                let rest = spec_encode_words(
                    toks_view(ctxt.bis@),
                    toks_view(ctxt.seqs@),
                    pend.drop_first(),
                )->Ok_0.1;
                assert(out@ =~= outv.push(sw));
                assert((outv.push(sw)) + rest =~= outv + (seq![sw] + rest));
            }
        }
        i = i + 1;
    }
    proof {
        assert(ws.subrange(n as int, n as int) =~= Seq::<NamedWordV>::empty());
        if spec_encode_words(b0, s1, ws) is Ok {
            assert(out@ + Seq::<SerWord>::empty() =~= out@);
        }
    }
    Ok(out)
}


/// Walking every definition through the serializer: how the two intern
/// tables end up, or the first failure.
pub open spec fn spec_ser_phase1(
    bis: Seq<Seq<char>>,
    seqs: Seq<Seq<char>>,
    defs: Seq<(String, FuncSeq)>,
) -> Result<(Seq<Seq<char>>, Seq<Seq<char>>), Error>
    decreases defs.len(),
{
    if defs.len() == 0 {
        Ok((bis, seqs))
    } else {
        match spec_ser_srw(bis, seqs, defs[0].0@, defs[0].1@) {
            Ok(((b2, s2), _sws)) => spec_ser_phase1(b2, s2, defs.drop_first()),
            Err(e) => Err(e),
        }
    }
}

/// What a produced artifact guarantees about the dictionary it came from:
/// the name array is present, as long as the definition array and duplicate
/// free; every listed name is a definition and every definition is listed;
/// and each wire word matches the corresponding word of the definition
/// serialized under that name.
pub open spec fn serialized_form(defs: Seq<(String, FuncSeq)>, sd: SerDict) -> bool {
    match sd.data_map {
        Some(dm) => {
            let dmv = toks_view(dm@);
            let bisv = toks_view(sd.bis@);
            &&& dm@.len() == sd.data@.len()
            &&& distinct_names(dmv)
            &&& forall|i: int|
                0 <= i < dmv.len() ==> crate::dict::assoc_has(defs, #[trigger] dmv[i])
            &&& forall|k: int| 0 <= k < defs.len() ==> str_idx(dmv, (#[trigger] defs[k].0)@) >= 0
            &&& forall|i: int|
                0 <= i < dmv.len() ==> (#[trigger] sd.data@[i])@.len() == crate::dict::assoc_get(
                    defs,
                    dmv[i],
                )@.len()
            &&& forall|i: int, j: int|
                0 <= i < dmv.len() && 0 <= j < sd.data@[i]@.len() ==> sw_matches(
                    #[trigger] sd.data@[i]@[j],
                    crate::dict::assoc_get(defs, dmv[i])@[j],
                    dmv,
                    bisv,
                )
        },
        None => false,
    }
}

/// Some word of some serialized definition is a primitive reference with
/// wire index `b`.
pub open spec fn verb_ref_in_defs(data: Seq<Vec<SerWord>>, b: int) -> bool {
    exists|i: int, j: int|
        0 <= i < data.len() && 0 <= j < data[i]@.len() && #[trigger] data[i]@[j]
            == SerWord::Verb(b as u16)
}

/// Every primitive name of the artifact is referenced by some primitive
/// word of some serialized definition: the names "actually referenced".
pub open spec fn bis_all_referenced(sd: SerDict) -> bool {
    forall|b: int| 0 <= b < sd.bis@.len() ==> #[trigger] verb_ref_in_defs(sd.data@, b)
}

/// A name just pushed is present.
pub proof fn lemma_str_idx_push_self(s: Seq<Seq<char>>, w: Seq<char>)
    ensures
        str_idx(s.push(w), w) >= 0,
    decreases s.len(),
{
    if s.len() > 0 && s[0] != w {
        lemma_str_idx_push_self(s.drop_first(), w);
        assert(s.push(w).drop_first() =~= s.drop_first().push(w));
    }
}

/// An explicit copy of a wire-word vector.
fn copy_sws(v: &Vec<SerWord>) -> (r: Vec<SerWord>)
    ensures
        r@ == v@,
{
    let n = v.len();
    let mut out: Vec<SerWord> = Vec::new();
    let mut i: usize = 0;
    while i < n
        invariant
            i <= n,
            n == v@.len(),
            out@ == v@.subrange(0, i as int),
        decreases n - i,
    {
        out.push(v[i]);
        proof {
            assert(out@ =~= v@.subrange(0, i + 1));
        }
        i = i + 1;
    }
    proof {
        assert(v@.subrange(0, n as int) =~= v@);
    }
    out
}

impl crate::dict::Dict {
    /// Serializes every definition: each is walked in order, its own name
    /// interned before its words, and the output arrays are materialized in
    /// interned order with the name array alongside. Fails with `BadMath`
    /// when an intern table outgrows 16-bit indices, and with
    /// `InternalError` when a definition calls a name the dictionary does
    /// not hold.
    #[verifier::rlimit(60)]
    #[verifier::spinoff_prover]
    pub fn serialize(&self) -> (r: Result<SerDict, Error>)
        ensures
            match spec_ser_phase1(
                Seq::<Seq<char>>::empty(),
                Seq::<Seq<char>>::empty(),
                self.data@,
            ) {
                Ok(t) => if forall|i: int|
                    0 <= i < t.1.len() ==> crate::dict::assoc_has(self.data@, #[trigger] t.1[i]) {
                    r matches Ok(sd) && serialized_form(self.data@, sd) && toks_view(sd.bis@)
                        == t.0 && (sd.data_map matches Some(dm) && toks_view(dm@) == t.1) && (
                    names_unique(self.data@) ==> bis_all_referenced(sd))
                } else {
                    r == Err::<SerDict, Error>(Error::InternalError)
                },
                Err(e) => r == Err::<SerDict, Error>(e),
            },
    {
        let ghost defs = self.data@;
        let mut ctxt = SerContext::new();
        let mut encoded: Vec<Vec<SerWord>> = Vec::new();
        let n = self.data.len();
        let mut k: usize = 0;
        proof {
            assert(defs.subrange(0, n as int) =~= defs);
            assert(toks_view(ctxt.bis@) =~= Seq::<Seq<char>>::empty());
            assert(toks_view(ctxt.seqs@) =~= Seq::<Seq<char>>::empty());
        }
        while k < n
            invariant
                k <= n,
                n == self.data@.len(),
                defs == self.data@,
                encoded@.len() == k,
                distinct_names(toks_view(ctxt.seqs@)),
                match spec_ser_phase1(
                    toks_view(ctxt.bis@),
                    toks_view(ctxt.seqs@),
                    defs.subrange(k as int, n as int),
                ) {
                    Ok(t) => spec_ser_phase1(
                        Seq::<Seq<char>>::empty(),
                        Seq::<Seq<char>>::empty(),
                        defs,
                    ) == Ok::<(Seq<Seq<char>>, Seq<Seq<char>>), Error>(t),
                    Err(e) => spec_ser_phase1(
                        Seq::<Seq<char>>::empty(),
                        Seq::<Seq<char>>::empty(),
                        defs,
                    ) == Err::<(Seq<Seq<char>>, Seq<Seq<char>>), Error>(e),
                },
                forall|kk: int|
                    0 <= kk < k ==> str_idx(toks_view(ctxt.seqs@), (#[trigger] defs[kk].0)@)
                        >= 0,
                forall|kk: int|
                    0 <= kk < k ==> (#[trigger] encoded@[kk])@.len() == defs[kk].1@.len(),
                forall|kk: int, j: int|
                    0 <= kk < k && 0 <= j < encoded@[kk]@.len() ==> sw_matches(
                        #[trigger] encoded@[kk]@[j],
                        defs[kk].1@[j],
                        toks_view(ctxt.seqs@),
                        toks_view(ctxt.bis@),
                    ),
                toks_view(ctxt.bis@).len() <= 0x10000,
                forall|b: int|
                    0 <= b < toks_view(ctxt.bis@).len() ==> #[trigger] verb_ref_in_defs(
                        encoded@,
                        b,
                    ),
            decreases n - k,
        {
            let ghost pend = defs.subrange(k as int, n as int);
            let ghost b0 = toks_view(ctxt.bis@);
            let ghost s0 = toks_view(ctxt.seqs@);
            proof {
                assert(pend[0] == defs[k as int]);
                assert(pend.drop_first() =~= defs.subrange(k + 1, n as int));
            }
            let sws = match ser_srw(&mut ctxt, self.data[k].0.as_str(), &self.data[k].1) {
                Ok(v) => v,
                Err(e) => {
                    return Err(e);
                },
            };
            proof {
                let name = defs[k as int].0@;
                let (s1, _ki) = spec_intern(s0, name);
                lemma_str_idx(s0, name);
                if str_idx(s0, name) < 0 {
                    assert(distinct_names(s1));
                    lemma_str_idx_push_self(s0, name);
                } else {
                    assert(s1 == s0);
                }
                assert(names_prefix(s0, s1));
                assert(str_idx(s1, name) >= 0) by {
                    if str_idx(s0, name) >= 0 {
                    } else {
                        lemma_str_idx_push_self(s0, name);
                    }
                }
                lemma_encode_words_props(b0, s1, defs[k as int].1@);
                let bf = toks_view(ctxt.bis@);
                let sf = toks_view(ctxt.seqs@);
                assert(names_prefix(s0, sf));
                assert(str_idx(sf, name) >= 0) by {
                    assert(str_idx(s1, name) >= 0);
                }
                assert forall|kk: int| 0 <= kk < k + 1 implies str_idx(
                    sf,
                    (#[trigger] defs[kk].0)@,
                ) >= 0 by {
                    if kk < k {
                        lemma_str_idx(s0, defs[kk].0@);
                        let j = str_idx(s0, defs[kk].0@);
                        lemma_str_idx_at(sf, defs[kk].0@, j);
                    }
                }
            }
            let ghost encv = encoded@;
            encoded.push(sws);
            proof {
                let bf = toks_view(ctxt.bis@);
                let sf = toks_view(ctxt.seqs@);
                assert forall|kk: int, j: int|
                    0 <= kk < k + 1 && 0 <= j < encoded@[kk]@.len() implies sw_matches(
                    #[trigger] encoded@[kk]@[j],
                    defs[kk].1@[j],
                    sf,
                    bf,
                ) by {
                    if kk < k {
                        assert(encoded@[kk] == encv[kk]);
                        assert(sw_matches(encv[kk]@[j], defs[kk].1@[j], s0, b0));
                        lemma_sw_matches_mono(
                            encv[kk]@[j],
                            defs[kk].1@[j],
                            s0,
                            b0,
                            sf,
                            bf,
                        );
                    }
                }
                let name = defs[k as int].0@;
                let ws = defs[k as int].1@;
                let (s1, _ki) = spec_intern(s0, name);
                assert(spec_encode_words(b0, s1, ws) is Ok);
                assert(spec_encode_words(b0, s1, ws)->Ok_0.0.0 == bf);
                assert(spec_encode_words(b0, s1, ws)->Ok_0.1 == sws@);
                if bf.len() > b0.len() {
                    lemma_encode_words_ref_at(b0, s1, ws, bf.len() - 1);
                }
                assert forall|b: int|
                    0 <= b < toks_view(ctxt.bis@).len() implies #[trigger] verb_ref_in_defs(
                    encoded@,
                    b,
                ) by {
                    if b < b0.len() {
                        assert(verb_ref_in_defs(encv, b));
                        let (i0, j0) = choose|i0: int, j0: int|
                            0 <= i0 < encv.len() && 0 <= j0 < encv[i0]@.len() && encv[i0]@[j0]
                                == SerWord::Verb(b as u16);
                        assert(encoded@[i0]@[j0] == SerWord::Verb(b as u16));
                    } else {
                        lemma_encode_words_ref_at(b0, s1, ws, b);
                        assert(verb_ref_in(sws@, b));
                        let j0 = choose|j0: int|
                            0 <= j0 < sws@.len() && sws@[j0] == SerWord::Verb(b as u16);
                        assert(encoded@[k as int]@[j0] == SerWord::Verb(b as u16));
                    }
                }
            }
            k = k + 1;
        }
        proof {
            assert(defs.subrange(n as int, n as int) =~= Seq::<(String, FuncSeq)>::empty());
        }
        let ghost seqsf = toks_view(ctxt.seqs@);
        let ghost bisf = toks_view(ctxt.bis@);
        let m = ctxt.seqs.len();
        let mut out_data: Vec<Vec<SerWord>> = Vec::new();
        let mut dm: Vec<String> = Vec::new();
        let mut i: usize = 0;
        while i < m
            invariant
                i <= m,
                m == ctxt.seqs@.len(),
                defs == self.data@,
                n == defs.len(),
                seqsf == toks_view(ctxt.seqs@),
                bisf == toks_view(ctxt.bis@),
                spec_ser_phase1(Seq::<Seq<char>>::empty(), Seq::<Seq<char>>::empty(), defs)
                    == Ok::<(Seq<Seq<char>>, Seq<Seq<char>>), Error>((bisf, seqsf)),
                encoded@.len() == n,
                distinct_names(seqsf),
                out_data@.len() == i,
                dm@.len() == i,
                forall|kk: int|
                    0 <= kk < n ==> str_idx(seqsf, (#[trigger] defs[kk].0)@) >= 0,
                forall|kk: int|
                    0 <= kk < n ==> (#[trigger] encoded@[kk])@.len() == defs[kk].1@.len(),
                forall|kk: int, j: int|
                    0 <= kk < n && 0 <= j < encoded@[kk]@.len() ==> sw_matches(
                        #[trigger] encoded@[kk]@[j],
                        defs[kk].1@[j],
                        seqsf,
                        bisf,
                    ),
                forall|ii: int| 0 <= ii < i ==> (#[trigger] dm@[ii])@ == seqsf[ii],
                forall|ii: int|
                    0 <= ii < i ==> crate::dict::assoc_has(defs, #[trigger] seqsf[ii]),
                forall|ii: int|
                    0 <= ii < i ==> (#[trigger] out_data@[ii])@.len() == crate::dict::assoc_get(
                        defs,
                        seqsf[ii],
                    )@.len(),
                forall|ii: int, j: int|
                    0 <= ii < i && 0 <= j < out_data@[ii]@.len() ==> sw_matches(
                        #[trigger] out_data@[ii]@[j],
                        crate::dict::assoc_get(defs, seqsf[ii])@[j],
                        seqsf,
                        bisf,
                    ),
                bisf.len() <= 0x10000,
                forall|b: int|
                    0 <= b < bisf.len() ==> #[trigger] verb_ref_in_defs(encoded@, b),
                forall|ii: int|
                    0 <= ii < i ==> (#[trigger] out_data@[ii])@ == encoded@[crate::dict::assoc_idx(
                        defs,
                        seqsf[ii],
                    )]@,
            decreases m - i,
        {
            let name = ctxt.seqs[i].clone();
            let j = match crate::dict::assoc_index(&self.data, name.as_str()) {
                Some(j) => j,
                None => {
                    proof {
                        let ph = spec_ser_phase1(
                            Seq::<Seq<char>>::empty(),
                            Seq::<Seq<char>>::empty(),
                            self.data@,
                        );
                        assert(ph is Ok);
                        let t = ph->Ok_0;
                        assert(t.1 == seqsf);
                        assert(0 <= i < t.1.len());
                        assert(!crate::dict::assoc_has(self.data@, t.1[i as int]));
                    }
                    return Err(Error::InternalError);
                },
            };
            let words = copy_sws(&encoded[j]);
            proof {
                assert(crate::dict::assoc_idx(defs, seqsf[i as int]) == j);
                assert(crate::dict::assoc_get(defs, seqsf[i as int]) == defs[j as int].1);
            }
            out_data.push(words);
            dm.push(name);
            i = i + 1;
        }
        let sd = SerDict { data: out_data, data_map: Some(dm), bis: ctxt.bis };
        proof {
            assert(toks_view(sd.data_map->0@) =~= seqsf);
            if names_unique(defs) {
                lemma_unique_assoc(defs);
                assert forall|b: int|
                    0 <= b < sd.bis@.len() implies #[trigger] verb_ref_in_defs(
                    sd.data@,
                    b,
                ) by {
                    assert(bisf.len() == sd.bis@.len());
                    assert(verb_ref_in_defs(encoded@, b));
                    let (kk, j0) = choose|kk: int, j0: int|
                        0 <= kk < encoded@.len() && 0 <= j0 < encoded@[kk]@.len()
                            && encoded@[kk]@[j0] == SerWord::Verb(b as u16);
                    let nm = defs[kk].0@;
                    assert(str_idx(seqsf, nm) >= 0);
                    let p = str_idx(seqsf, nm);
                    lemma_str_idx(seqsf, nm);
                    assert(seqsf[p] == nm);
                    assert(crate::dict::assoc_idx(defs, seqsf[p]) == kk);
                    assert(out_data@[p]@ == encoded@[kk]@);
                    assert(sd.data@[p]@[j0] == SerWord::Verb(b as u16));
                }
            }
        }
        Ok(sd)
    }
}

impl crate::context::Context {
    /// Serializes this context's dictionary.
    pub fn serialize(&self) -> (r: Result<SerDict, Error>)
        ensures
            match spec_ser_phase1(
                Seq::<Seq<char>>::empty(),
                Seq::<Seq<char>>::empty(),
                self.dict.data@,
            ) {
                Ok(t) => if forall|i: int|
                    0 <= i < t.1.len() ==> crate::dict::assoc_has(
                        self.dict.data@,
                        #[trigger] t.1[i],
                    ) {
                    r matches Ok(sd) && serialized_form(self.dict.data@, sd) && toks_view(
                        sd.bis@,
                    ) == t.0 && (sd.data_map matches Some(dm) && toks_view(dm@) == t.1) && (
                    names_unique(self.dict.data@) ==> bis_all_referenced(sd))
                } else {
                    r == Err::<SerDict, Error>(Error::InternalError)
                },
                Err(e) => r == Err::<SerDict, Error>(e),
            },
    {
        self.dict.serialize()
    }
}


/// The name the loader regenerates for an unconditional jump.
pub open spec fn ucrj_name(o: i32) -> Seq<char> {
    seq!['U', 'C', 'R', 'J', '('] + crate::text::spec_dec_i64(o as int) + seq![')']
}

/// The name the loader regenerates for a conditional jump.
pub open spec fn crj_name(o: i32) -> Seq<char> {
    seq!['C', 'R', 'J', '('] + crate::text::spec_dec_i64(o as int) + seq![')']
}

/// How the loader turns one wire word back into a bytecode word: references
/// resolve through the artifact's name arrays and the loader's primitive
/// registry; a call frame's cursor is zero on load. Any reference that does
/// not resolve fails the load.
pub open spec fn spec_translate_word(
    sw: SerWord,
    dm: Seq<Seq<char>>,
    bis: Seq<Seq<char>>,
    registry: Seq<(String, Prim)>,
) -> Result<NamedWordV, Error> {
    match sw {
        SerWord::LiteralVal(v) => Ok(
            NamedWordV { name: crate::compiler::lit_name(v as int), word: WordV::Lit(v) },
        ),
        SerWord::Verb(k) => if k >= bis.len() {
            Err(Error::InternalError)
        } else if !crate::dict::assoc_has(registry, bis[k as int]) {
            Err(Error::InternalError)
        } else {
            Ok(
                NamedWordV {
                    name: bis[k as int],
                    word: WordV::Verb(crate::dict::assoc_get(registry, bis[k as int])),
                },
            )
        },
        SerWord::VerbSeq(k) => if k >= dm.len() {
            Err(Error::InternalError)
        } else {
            Ok(NamedWordV { name: dm[k as int], word: WordV::Call(dm[k as int], 0) })
        },
        SerWord::UncondRelativeJump { offset } => Ok(
            NamedWordV { name: ucrj_name(offset), word: WordV::Jump(offset) },
        ),
        SerWord::CondRelativeJump { offset, jump_on } => Ok(
            NamedWordV { name: crj_name(offset), word: WordV::CondJump(offset, jump_on) },
        ),
    }
}

/// How the loader turns one serialized definition back into bytecode.
pub open spec fn spec_translate_def(
    ws: Seq<SerWord>,
    dm: Seq<Seq<char>>,
    bis: Seq<Seq<char>>,
    registry: Seq<(String, Prim)>,
) -> Result<Seq<NamedWordV>, Error>
    decreases ws.len(),
{
    if ws.len() == 0 {
        Ok(Seq::<NamedWordV>::empty())
    } else {
        match spec_translate_word(ws[0], dm, bis, registry) {
            Ok(nw) => match spec_translate_def(ws.drop_first(), dm, bis, registry) {
                Ok(rest) => Ok(seq![nw] + rest),
                Err(e) => Err(e),
            },
            Err(e) => Err(e),
        }
    }
}

/// The ways a load is refused, exactly: a missing name array, a primitive
/// the registry does not hold, a name array whose length differs from the
/// definition array's, or a reference that does not resolve.
pub open spec fn spec_load_err(sd: SerDict, registry: Seq<(String, Prim)>) -> bool {
    ||| sd.data_map is None
    ||| exists|k: int|
        0 <= k < sd.bis@.len() && !crate::dict::assoc_has(registry, (#[trigger] sd.bis@[k])@)
    ||| sd.data_map->0@.len() != sd.data@.len()
    ||| exists|i: int|
        0 <= i < sd.data@.len() && spec_translate_def(
            (#[trigger] sd.data@[i])@,
            toks_view(sd.data_map->0@),
            toks_view(sd.bis@),
            registry,
        ) is Err
}

/// What a successful load leaves in the target's definition table, looked at
/// through the association view: each loaded name (its last occurrence, were
/// the artifact to repeat one) resolves to the translated definition, and
/// every other name resolves as before.
pub open spec fn loaded_form(
    before: Seq<(String, FuncSeq)>,
    after: Seq<(String, FuncSeq)>,
    sd: SerDict,
    registry: Seq<(String, Prim)>,
) -> bool {
    match sd.data_map {
        Some(dm) => {
            let dmv = toks_view(dm@);
            &&& forall|i: int|
                0 <= i < dmv.len() ==> spec_translate_def(
                    (#[trigger] sd.data@[i])@,
                    dmv,
                    toks_view(sd.bis@),
                    registry,
                ) is Ok
            &&& forall|i: int|
                0 <= i < dmv.len() && (forall|j: int| i < j < dmv.len() ==> dmv[j] != dmv[i])
                    ==> crate::dict::assoc_has(after, #[trigger] dmv[i])
                    && crate::dict::assoc_get(after, dmv[i])@ == spec_translate_def(
                    sd.data@[i]@,
                    dmv,
                    toks_view(sd.bis@),
                    registry,
                )->Ok_0
            &&& forall|w: Seq<char>|
                str_idx(dmv, w) == -1 ==> (crate::dict::assoc_has(after, w)
                    == crate::dict::assoc_has(before, w)) && (crate::dict::assoc_has(before, w)
                    ==> #[trigger] crate::dict::assoc_get(after, w) == crate::dict::assoc_get(
                    before,
                    w,
                ))
        },
        None => false,
    }
}

/// Inserting one pair changes exactly its own key's resolution.
pub proof fn lemma_assoc_insert_props(
    s: Seq<(String, FuncSeq)>,
    k: Seq<char>,
    kv: (String, FuncSeq),
)
    requires
        kv.0@ == k,
    ensures
        crate::dict::assoc_has(crate::dict::assoc_insert(s, k, kv), k),
        crate::dict::assoc_get(crate::dict::assoc_insert(s, k, kv), k) == kv.1,
        forall|w: Seq<char>|
            w != k ==> (#[trigger] crate::dict::assoc_idx(crate::dict::assoc_insert(s, k, kv), w))
                == crate::dict::assoc_idx(s, w),
        forall|w: Seq<char>|
            w != k && crate::dict::assoc_has(s, w) ==> #[trigger] crate::dict::assoc_get(
                crate::dict::assoc_insert(s, k, kv),
                w,
            ) == crate::dict::assoc_get(s, w),
    decreases s.len(),
{
    crate::dict::lemma_assoc_idx(s, k);
    let s2 = crate::dict::assoc_insert(s, k, kv);
    if crate::dict::assoc_has(s, k) {
        let i = crate::dict::assoc_idx(s, k);
        crate::dict::lemma_assoc_idx_at(s2, k, i);
        assert forall|w: Seq<char>| w != k implies (#[trigger] crate::dict::assoc_idx(s2, w))
            == crate::dict::assoc_idx(s, w) by {
            crate::dict::lemma_assoc_idx(s, w);
            if crate::dict::assoc_idx(s, w) >= 0 {
                crate::dict::lemma_assoc_idx_at(s2, w, crate::dict::assoc_idx(s, w));
            } else {
                crate::dict::lemma_assoc_idx_none(s2, w);
            }
        }
        assert forall|w: Seq<char>| w != k && crate::dict::assoc_has(s, w) implies (
        #[trigger] crate::dict::assoc_get(s2, w)) == crate::dict::assoc_get(s, w) by {
            crate::dict::lemma_assoc_idx(s, w);
            let iw = crate::dict::assoc_idx(s, w);
            assert(iw != i);
            assert(s2[iw] == s[iw]);
        }
    } else {
        crate::dict::lemma_assoc_idx_at(s2, k, s.len() as int);
        assert forall|w: Seq<char>| w != k implies (#[trigger] crate::dict::assoc_idx(s2, w))
            == crate::dict::assoc_idx(s, w) by {
            crate::dict::lemma_assoc_idx(s, w);
            if crate::dict::assoc_idx(s, w) >= 0 {
                crate::dict::lemma_assoc_idx_at(s2, w, crate::dict::assoc_idx(s, w));
            } else {
                crate::dict::lemma_assoc_idx_none(s2, w);
            }
        }
        assert forall|w: Seq<char>| w != k && crate::dict::assoc_has(s, w) implies (
        #[trigger] crate::dict::assoc_get(s2, w)) == crate::dict::assoc_get(s, w) by {
            crate::dict::lemma_assoc_idx(s, w);
            let iw = crate::dict::assoc_idx(s, w);
            assert(s2[iw] == s[iw]);
        }
    }
}


/// Builds the loader's regenerated name for a literal.
fn mk_lit_name(v: i32) -> (r: String)
    ensures
        r@ == crate::compiler::lit_name(v as int),
{
    let mut nm = "LIT(".to_string();
    crate::text::push_dec_i64(&mut nm, v as i64);
    crate::text::push_char(&mut nm, ')');
    proof {
        reveal_strlit("LIT(");
        assert(nm@ =~= crate::compiler::lit_name(v as int));
    }
    nm
}

/// Builds the loader's regenerated name for an unconditional jump.
fn mk_ucrj_name(v: i32) -> (r: String)
    ensures
        r@ == ucrj_name(v),
{
    let mut nm = "UCRJ(".to_string();
    crate::text::push_dec_i64(&mut nm, v as i64);
    crate::text::push_char(&mut nm, ')');
    proof {
        reveal_strlit("UCRJ(");
        assert(nm@ =~= ucrj_name(v));
    }
    nm
}

/// Builds the loader's regenerated name for a conditional jump.
fn mk_crj_name(v: i32) -> (r: String)
    ensures
        r@ == crj_name(v),
{
    let mut nm = "CRJ(".to_string();
    crate::text::push_dec_i64(&mut nm, v as i64);
    crate::text::push_char(&mut nm, ')');
    proof {
        reveal_strlit("CRJ(");
        assert(nm@ =~= crj_name(v));
    }
    nm
}

/// Translates one serialized definition back into bytecode words.
fn translate_def(
    dict: &crate::dict::Dict,
    bis: &Vec<String>,
    dm: &Vec<String>,
    ws: &Vec<SerWord>,
) -> (r: Result<FuncSeq, Error>)
    ensures
        match spec_translate_def(ws@, toks_view(dm@), toks_view(bis@), dict.bis@) {
            Ok(nws) => r matches Ok(fs) && fs@ == nws,
            Err(e) => r == Err::<FuncSeq, Error>(e),
        },
{
    let ghost dmv = toks_view(dm@);
    let ghost bisv = toks_view(bis@);
    let n = ws.len();
    let mut out: Vec<NamedWord> = Vec::new();
    let mut i: usize = 0;
    proof {
        assert(ws@.subrange(0, n as int) =~= ws@);
    }
    while i < n
        invariant
            i <= n,
            n == ws@.len(),
            dmv == toks_view(dm@),
            bisv == toks_view(bis@),
            match spec_translate_def(ws@.subrange(i as int, n as int), dmv, bisv, dict.bis@) {
                Ok(rest) => spec_translate_def(ws@, dmv, bisv, dict.bis@) == Ok::<
                    Seq<NamedWordV>,
                    Error,
                >(out@.map_values(|w: NamedWord| w@) + rest),
                Err(e) => spec_translate_def(ws@, dmv, bisv, dict.bis@) == Err::<
                    Seq<NamedWordV>,
                    Error,
                >(e),
            },
        decreases n - i,
    {
        let ghost pend = ws@.subrange(i as int, n as int);
        proof {
            assert(pend[0] == ws@[i as int]);
            assert(pend.drop_first() =~= ws@.subrange(i + 1, n as int));
        }
        let nw: NamedWord = match ws[i] {
            SerWord::LiteralVal(v) => NamedWord {
                name: mk_lit_name(v),
                word: RuntimeWord::LiteralVal(v),
            },
            SerWord::Verb(k) => {
                if (k as usize) >= bis.len() {
                    return Err(Error::InternalError);
                }
                let name = bis[k as usize].clone();
                let p = match dict.get_bi(name.as_str()) {
                    Some(p) => p,
                    None => {
                        return Err(Error::InternalError);
                    },
                };
                NamedWord { name, word: RuntimeWord::Verb(p) }
            },
            SerWord::VerbSeq(k) => {
                if (k as usize) >= dm.len() {
                    return Err(Error::InternalError);
                }
                let name = dm[k as usize].clone();
                let tok = name.clone();
                NamedWord {
                    name,
                    word: RuntimeWord::VerbSeq(crate::words::VerbSeqInner { tok, idx: 0 }),
                }
            },
            SerWord::UncondRelativeJump { offset } => NamedWord {
                name: mk_ucrj_name(offset),
                word: RuntimeWord::UncondRelativeJump { offset },
            },
            SerWord::CondRelativeJump { offset, jump_on } => NamedWord {
                name: mk_crj_name(offset),
                word: RuntimeWord::CondRelativeJump { offset, jump_on },
            },
        };
        let ghost outv = out@.map_values(|w: NamedWord| w@);
        let ghost nwv = nw@;
        out.push(nw);
        proof {
            assert(out@.map_values(|w: NamedWord| w@) =~= outv.push(nwv));
            if spec_translate_def(pend.drop_first(), dmv, bisv, dict.bis@) is Ok {
                let rest = spec_translate_def(pend.drop_first(), dmv, bisv, dict.bis@)->Ok_0;
                assert(outv.push(nwv) + rest =~= outv + (seq![nwv] + rest));
            }
        }
        i = i + 1;
    }
    proof {
        assert(ws@.subrange(n as int, n as int) =~= Seq::<SerWord>::empty());
        if spec_translate_def(ws@, dmv, bisv, dict.bis@) is Ok {
            assert(out@.map_values(|w: NamedWord| w@) + Seq::<NamedWordV>::empty()
                =~= out@.map_values(|w: NamedWord| w@));
        }
    }
    Ok(FuncSeq { inner: out })
}

impl crate::context::Context {
    /// Loads a serialized dictionary into this context. The artifact must
    /// carry its name array, the array must be as long as the definition
    /// array, every primitive it names must be registered here, and every
    /// reference must resolve; any inconsistency refuses the load and leaves
    /// the dictionary unchanged (fail-closed).
    #[verifier::rlimit(100)]
    #[verifier::spinoff_prover]
    pub fn load_ser_dict(&mut self, data: &SerDict) -> (r: Result<(), Error>)
        ensures
            final(self).dict.bis == old(self).dict.bis,
            final(self).dict.shame_idx == old(self).dict.shame_idx,
            final(self).rt == old(self).rt,
            (r is Err) <==> spec_load_err(*data, old(self).dict.bis@),
            r is Err ==> r == Err::<(), Error>(Error::InternalError) && final(self).dict.data@
                == old(self).dict.data@,
            r is Ok ==> loaded_form(
                old(self).dict.data@,
                final(self).dict.data@,
                *data,
                old(self).dict.bis@,
            ),
    {
        let dm: &Vec<String> = match &data.data_map {
            Some(dm) => dm,
            None => {
                return Err(Error::InternalError);
            },
        };
        let nb = data.bis.len();
        let mut k: usize = 0;
        while k < nb
            invariant
                k <= nb,
                nb == data.bis@.len(),
                *self == *old(self),
                forall|kk: int|
                    0 <= kk < k ==> crate::dict::assoc_has(
                        self.dict.bis@,
                        (#[trigger] data.bis@[kk])@,
                    ),
            decreases nb - k,
        {
            match self.dict.get_bi(data.bis[k].as_str()) {
                Some(_p) => {},
                None => {
                    return Err(Error::InternalError);
                },
            }
            k = k + 1;
        }
        if dm.len() != data.data.len() {
            return Err(Error::InternalError);
        }
        let ghost dmv = toks_view(dm@);
        let ghost bisv = toks_view(data.bis@);
        let nd = data.data.len();
        let mut translated: Vec<FuncSeq> = Vec::new();
        let mut i: usize = 0;
        while i < nd
            invariant
                i <= nd,
                nd == data.data@.len(),
                *self == *old(self),
                data.data_map matches Some(d) && d@ == dm@,
                dmv == toks_view(dm@),
                bisv == toks_view(data.bis@),
                translated@.len() == i,
                forall|ii: int|
                    0 <= ii < i ==> spec_translate_def(
                        (#[trigger] data.data@[ii])@,
                        dmv,
                        bisv,
                        self.dict.bis@,
                    ) is Ok,
                forall|ii: int|
                    0 <= ii < i ==> (#[trigger] translated@[ii])@ == spec_translate_def(
                        data.data@[ii]@,
                        dmv,
                        bisv,
                        self.dict.bis@,
                    )->Ok_0,
            decreases nd - i,
        {
            let fs = match translate_def(&self.dict, &data.bis, dm, &data.data[i]) {
                Ok(fs) => fs,
                Err(_e) => {
                    return Err(Error::InternalError);
                },
            };
            translated.push(fs);
            i = i + 1;
        }
        let m = dm.len();
        let ghost before = self.dict.data@;
        let ghost tview = translated@.map_values(|fs: FuncSeq| fs@);
        let mut j: usize = 0;
        let mut rest = translated;
        while j < m
            invariant
                j <= m,
                m == dmv.len(),
                m == nd,
                nd == data.data@.len(),
                self.dict.bis == old(self).dict.bis,
                self.dict.shame_idx == old(self).dict.shame_idx,
                self.rt == old(self).rt,
                before == old(self).dict.data@,
                data.data_map matches Some(d) && d@ == dm@,
                dmv == toks_view(dm@),
                bisv == toks_view(data.bis@),
                tview.len() == m,
                rest@.len() == m - j,
                forall|ii: int| 0 <= ii < m - j ==> (#[trigger] rest@[ii])@ == tview[j + ii],
                forall|ii: int|
                    0 <= ii < m ==> spec_translate_def(
                        (#[trigger] data.data@[ii])@,
                        dmv,
                        bisv,
                        old(self).dict.bis@,
                    ) is Ok,
                forall|ii: int|
                    0 <= ii < m ==> #[trigger] tview[ii] == spec_translate_def(
                        data.data@[ii]@,
                        dmv,
                        bisv,
                        old(self).dict.bis@,
                    )->Ok_0,
                forall|w: Seq<char>|
                    str_idx(dmv, w) == -1 ==> #[trigger] crate::dict::assoc_idx(
                        self.dict.data@,
                        w,
                    ) == crate::dict::assoc_idx(before, w) && (crate::dict::assoc_has(before, w)
                        ==> crate::dict::assoc_get(self.dict.data@, w) == crate::dict::assoc_get(
                        before,
                        w,
                    )),
                forall|ii: int|
                    0 <= ii < j && (forall|jj: int| ii < jj < j ==> dmv[jj] != dmv[ii])
                        ==> crate::dict::assoc_has(self.dict.data@, #[trigger] dmv[ii])
                        && crate::dict::assoc_get(self.dict.data@, dmv[ii])@ == tview[ii],
            decreases m - j,
        {
            let name = dm[j].clone();
            let fs = rest.remove(0);
            let ghost pre = self.dict.data@;
            let ghost nm = name;
            let ghost fsg = fs;
            self.dict.insert_data(name, fs);
            proof {
                assert(fsg@ == tview[j as int]);
                lemma_assoc_insert_props(pre, nm@, (nm, fsg));
                lemma_str_idx(dmv, nm@);
                assert(str_idx(dmv, nm@) >= 0) by {
                    if str_idx(dmv, nm@) == -1 {
                        assert(dmv[j as int] != nm@);
                    }
                }
                let cur = self.dict.data@;
                assert forall|w: Seq<char>| str_idx(dmv, w) == -1 implies #[trigger] crate::dict::assoc_idx(
                    cur,
                    w,
                ) == crate::dict::assoc_idx(before, w) && (crate::dict::assoc_has(before, w)
                    ==> crate::dict::assoc_get(cur, w) == crate::dict::assoc_get(before, w)) by {
                    assert(w != nm@);
                    assert(crate::dict::assoc_idx(pre, w) == crate::dict::assoc_idx(before, w));
                    assert(crate::dict::assoc_idx(cur, w) == crate::dict::assoc_idx(pre, w));
                    if crate::dict::assoc_has(before, w) {
                        assert(crate::dict::assoc_get(cur, w) == crate::dict::assoc_get(pre, w));
                        assert(crate::dict::assoc_get(pre, w) == crate::dict::assoc_get(
                            before,
                            w,
                        ));
                    }
                }
                assert forall|ii: int|
                    0 <= ii < j + 1 && (forall|jj: int|
                        ii < jj < j + 1 ==> dmv[jj] != dmv[ii]) implies crate::dict::assoc_has(
                    cur,
                    #[trigger] dmv[ii],
                ) && crate::dict::assoc_get(cur, dmv[ii])@ == tview[ii] by {
                    if ii == j {
                        assert(dmv[ii] == nm@);
                        assert(crate::dict::assoc_get(cur, nm@) == fsg);
                    } else {
                        assert(dmv[j as int] != dmv[ii]);
                        assert(forall|jj: int| ii < jj < j ==> dmv[jj] != dmv[ii]);
                        assert(crate::dict::assoc_has(pre, dmv[ii]) && crate::dict::assoc_get(
                            pre,
                            dmv[ii],
                        )@ == tview[ii]);
                        assert(dmv[ii] != nm@);
                        assert(crate::dict::assoc_idx(cur, dmv[ii]) == crate::dict::assoc_idx(
                            pre,
                            dmv[ii],
                        ));
                        assert(crate::dict::assoc_get(cur, dmv[ii]) == crate::dict::assoc_get(
                            pre,
                            dmv[ii],
                        ));
                    }
                }
            }
            j = j + 1;
        }
        proof {
            let after = self.dict.data@;
            assert forall|w: Seq<char>| str_idx(dmv, w) == -1 implies (crate::dict::assoc_has(
                after,
                w,
            ) == crate::dict::assoc_has(before, w)) && (crate::dict::assoc_has(before, w)
                ==> #[trigger] crate::dict::assoc_get(after, w) == crate::dict::assoc_get(
                before,
                w,
            )) by {
                assert(crate::dict::assoc_idx(after, w) == crate::dict::assoc_idx(before, w));
            }
            assert(loaded_form(before, after, *data, old(self).dict.bis@));
        }
        Ok(())
    }
}


/// The bytecode words alone, stripped of their debug names.
pub open spec fn words_of(s: Seq<NamedWordV>) -> Seq<WordV> {
    s.map_values(|nw: NamedWordV| nw.word)
}

/// One word agrees with the loader's registry: a primitive word's name
/// resolves to that very primitive, and a call frame is at cursor zero (as
/// the compiler and the loader leave them).
pub open spec fn word_coherent(nw: NamedWordV, registry: Seq<(String, Prim)>) -> bool {
    match nw.word {
        WordV::Verb(p) => crate::dict::assoc_has(registry, nw.name) && crate::dict::assoc_get(
            registry,
            nw.name,
        ) == p,
        WordV::Call(_tok, idx) => idx == 0,
        _ => true,
    }
}

/// Every word of every definition agrees with the registry.
pub open spec fn dict_coherent(
    defs: Seq<(String, FuncSeq)>,
    registry: Seq<(String, Prim)>,
) -> bool {
    forall|k: int, j: int|
        0 <= k < defs.len() && 0 <= j < defs[k].1@.len() ==> word_coherent(
            #[trigger] defs[k].1@[j],
            registry,
        )
}

/// A serialized definition whose words match coherent originals translates
/// back to the same bytecode, word for word.
#[verifier::rlimit(60)]
#[verifier::spinoff_prover]
proof fn lemma_translate_matches(
    ws: Seq<SerWord>,
    orig: Seq<NamedWordV>,
    dmv: Seq<Seq<char>>,
    bisv: Seq<Seq<char>>,
    registry: Seq<(String, Prim)>,
)
    requires
        ws.len() == orig.len(),
        forall|j: int| 0 <= j < ws.len() ==> sw_matches(#[trigger] ws[j], orig[j], dmv, bisv),
        forall|j: int| 0 <= j < orig.len() ==> word_coherent(#[trigger] orig[j], registry),
    ensures
        spec_translate_def(ws, dmv, bisv, registry) is Ok,
        words_of(spec_translate_def(ws, dmv, bisv, registry)->Ok_0) == words_of(orig),
    decreases ws.len(),
{
    if ws.len() > 0 {
        assert(sw_matches(ws[0], orig[0], dmv, bisv));
        assert(spec_translate_word(ws[0], dmv, bisv, registry) is Ok);
        let nw0 = spec_translate_word(ws[0], dmv, bisv, registry)->Ok_0;
        assert(nw0.word == orig[0].word);
        assert forall|j: int| 0 <= j < ws.drop_first().len() implies sw_matches(
            #[trigger] ws.drop_first()[j],
            orig.drop_first()[j],
            dmv,
            bisv,
        ) by {
            assert(ws.drop_first()[j] == ws[j + 1]);
            assert(orig.drop_first()[j] == orig[j + 1]);
        }
        assert forall|j: int| 0 <= j < orig.drop_first().len() implies word_coherent(
            #[trigger] orig.drop_first()[j],
            registry,
        ) by {
            assert(orig.drop_first()[j] == orig[j + 1]);
        }
        lemma_translate_matches(ws.drop_first(), orig.drop_first(), dmv, bisv, registry);
        let rest = spec_translate_def(ws.drop_first(), dmv, bisv, registry)->Ok_0;
        assert(words_of(seq![nw0] + rest) =~= words_of(orig)) by {
            assert(words_of(rest) == words_of(orig.drop_first()));
            assert forall|j: int| 0 <= j < orig.len() implies words_of(seq![nw0] + rest)[j]
                == words_of(orig)[j] by {
                if j > 0 {
                    assert(words_of(rest)[j - 1] == words_of(orig.drop_first())[j - 1]);
                    assert(orig.drop_first()[j - 1] == orig[j]);
                }
            }
        }
    }
}

/// The round-trip law: serialize a dictionary, load the artifact into a
/// context whose registry agrees with the dictionary, and every original
/// definition comes back under its own name with word-identical bytecode.
/// Since a definition's behavior is a function of its words alone, a
/// reloaded dictionary runs exactly as the original did.
pub proof fn lemma_serialize_load_round_trip(
    defs: Seq<(String, FuncSeq)>,
    registry: Seq<(String, Prim)>,
    sd: SerDict,
    before: Seq<(String, FuncSeq)>,
    after: Seq<(String, FuncSeq)>,
)
    requires
        names_unique(defs),
        dict_coherent(defs, registry),
        serialized_form(defs, sd),
        loaded_form(before, after, sd, registry),
    ensures
        forall|k: int|
            0 <= k < defs.len() ==> crate::dict::assoc_has(after, (#[trigger] defs[k].0)@)
                && words_of(crate::dict::assoc_get(after, defs[k].0@)@) == words_of(defs[k].1@),
{
    let dm = sd.data_map->0;
    let dmv = toks_view(dm@);
    let bisv = toks_view(sd.bis@);
    lemma_unique_assoc(defs);
    assert forall|k: int| 0 <= k < defs.len() implies crate::dict::assoc_has(
        after,
        (#[trigger] defs[k].0)@,
    ) && words_of(crate::dict::assoc_get(after, defs[k].0@)@) == words_of(defs[k].1@) by {
        let name = defs[k].0@;
        let i = str_idx(dmv, name);
        lemma_str_idx(dmv, name);
        assert(i >= 0);
        assert(dmv[i] == name);
        assert(crate::dict::assoc_idx(defs, name) == k);
        assert(crate::dict::assoc_get(defs, name) == defs[k].1);
        assert(forall|j: int| i < j < dmv.len() ==> dmv[j] != dmv[i]);
        assert(crate::dict::assoc_has(after, name));
        assert(crate::dict::assoc_get(after, name)@ == spec_translate_def(
            sd.data@[i]@,
            dmv,
            bisv,
            registry,
        )->Ok_0);
        assert(sd.data@[i]@.len() == defs[k].1@.len());
        assert forall|j: int| 0 <= j < sd.data@[i]@.len() implies sw_matches(
            #[trigger] sd.data@[i]@[j],
            defs[k].1@[j],
            dmv,
            bisv,
        ) by {
        }
        assert forall|j: int| 0 <= j < defs[k].1@.len() implies word_coherent(
            #[trigger] defs[k].1@[j],
            registry,
        ) by {
        }
        lemma_translate_matches(sd.data@[i]@, defs[k].1@, dmv, bisv, registry);
    }
}

} // verus!
