use vstd::prelude::*;

verus! {

/// A primitive operation of the virtual machine. The host registers these
/// under textual names before compilation; the compiler also emits `RetPush`
/// and `PrivLoop` directly when lowering `do`/`loop`.
#[derive(Debug, Clone, Copy, PartialEq, Eq, Structural)]
pub enum Prim {
    /// `emit`: pop a value, write it as a Unicode character (fallback `‽`).
    Emit,
    /// `.`: pop a value, write its decimal representation and a newline.
    PrintTop,
    /// `cr`: write a newline.
    Cr,
    /// `>r`: move the data-stack top to the return stack.
    RetPush,
    /// `r>`: move the return-stack top to the data stack.
    RetPop,
    /// `=`: pop two values, push `-1` if equal else `0`.
    Equal,
    /// `<`: pop two values, push `-1` if the second popped is less.
    Less,
    /// `>`: pop two values, push `-1` if the second popped is greater.
    Greater,
    /// `dup`: duplicate the data-stack top.
    Dup,
    /// `drop`: discard the data-stack top.
    DropTop,
    /// `swap`: exchange the two top data-stack values.
    Swap,
    /// `rot`: rotate the three top data-stack values.
    Rot,
    /// `pick`: copy the element `n` below the top.
    Pick,
    /// `roll`: move the element `n` below the top to the top.
    Roll,
    /// `+`: wrapping 32-bit addition.
    Add,
    /// `2dup`: duplicate the two top data-stack values.
    TwoDup,
    /// duplicate the return-stack top.
    RetDup,
    /// exchange the two top return-stack values.
    RetSwap,
    /// duplicate the two top return-stack values.
    RetTwoDup,
    /// the internal loop-step primitive emitted for `loop`.
    PrivLoop,
}

/// A reference to a definition together with a cursor into its bytecode.
/// A `VerbSeq` word holding one of these doubles as the execution frame of
/// the definition while it sits on the flow stack.
#[derive(Debug, Clone)]
pub struct VerbSeqInner {
    pub tok: String,
    pub idx: usize,
}

impl VerbSeqInner {
    /// A frame for `tok` whose cursor is at the start of the definition.
    pub fn from_word(tok: String) -> (r: Self)
        ensures
            r.tok@ == tok@,
            r.idx == 0,
    {
        VerbSeqInner { tok, idx: 0 }
    }
}

/// One bytecode word: the instruction of the virtual machine.
#[derive(Debug, Clone)]
pub enum RuntimeWord {
    /// Push the integer onto the data stack.
    LiteralVal(i32),
    /// Call a host-registered primitive.
    Verb(Prim),
    /// Enter a sub-definition, addressed by name.
    VerbSeq(VerbSeqInner),
    /// Adjust the enclosing frame's cursor by `offset`.
    UncondRelativeJump { offset: i32 },
    /// Pop the data stack; adjust the enclosing frame's cursor by `offset`
    /// iff `(top == 0) XOR jump_on`.
    CondRelativeJump { offset: i32, jump_on: bool },
}

/// The mathematical value of a bytecode word.
pub enum WordV {
    Lit(i32),
    Verb(Prim),
    Call(Seq<char>, nat),
    Jump(i32),
    CondJump(i32, bool),
}

impl View for RuntimeWord {
    type V = WordV;

    open spec fn view(&self) -> WordV {
        match self {
            RuntimeWord::LiteralVal(v) => WordV::Lit(*v),
            RuntimeWord::Verb(p) => WordV::Verb(*p),
            RuntimeWord::VerbSeq(s) => WordV::Call(s.tok@, s.idx as nat),
            RuntimeWord::UncondRelativeJump { offset } => WordV::Jump(*offset),
            RuntimeWord::CondRelativeJump { offset, jump_on } => WordV::CondJump(
                *offset,
                *jump_on,
            ),
        }
    }
}

impl RuntimeWord {
    /// The call frame inside a `VerbSeq` word; any other word is an internal
    /// error, since only call frames carry a cursor.
    pub fn as_seq_inner(&self) -> (r: Result<&VerbSeqInner, crate::Error>)
        ensures
            match r {
                Ok(v) => self@ == WordV::Call(v.tok@, v.idx as nat),
                Err(e) => e == crate::Error::InternalError && !(self@ matches WordV::Call(_t, _i)),
            },
    {
        match self {
            RuntimeWord::VerbSeq(seq) => Ok(seq),
            _ => Err(crate::Error::InternalError),
        }
    }

    /// An explicit copy whose mathematical value equals the original's.
    pub fn duplicate(&self) -> (r: Self)
        ensures
            r@ == self@,
    {
        match self {
            RuntimeWord::LiteralVal(v) => RuntimeWord::LiteralVal(*v),
            RuntimeWord::Verb(p) => RuntimeWord::Verb(*p),
            RuntimeWord::VerbSeq(s) => RuntimeWord::VerbSeq(
                VerbSeqInner { tok: s.tok.clone(), idx: s.idx },
            ),
            RuntimeWord::UncondRelativeJump { offset } => RuntimeWord::UncondRelativeJump {
                offset: *offset,
            },
            RuntimeWord::CondRelativeJump { offset, jump_on } => RuntimeWord::CondRelativeJump {
                offset: *offset,
                jump_on: *jump_on,
            },
        }
    }
}

/// What the interpreter yields to the host: either a primitive to execute or
/// a reference to a sub-definition to resolve.
pub enum WhichToken {
    Single(Prim),
    Ref(VerbSeqInner),
}

/// The result of one interpreter step.
pub enum StepResult {
    /// The flow stack is empty; nothing is left to run.
    Done,
    /// The host must act on the yielded token and step again.
    Working(WhichToken),
}

/// A bytecode word together with the source name it was compiled from; the
/// name is what the serializer interns.
#[derive(Debug, Clone)]
pub struct NamedWord {
    pub name: String,
    pub word: RuntimeWord,
}

/// The mathematical value of a named word.
pub struct NamedWordV {
    pub name: Seq<char>,
    pub word: WordV,
}

impl View for NamedWord {
    type V = NamedWordV;

    open spec fn view(&self) -> NamedWordV {
        NamedWordV { name: self.name@, word: self.word@ }
    }
}

/// An ordered sequence of named bytecode words: one definition's body.
#[derive(Debug, Clone)]
pub struct FuncSeq {
    pub inner: Vec<NamedWord>,
}

impl View for FuncSeq {
    type V = Seq<NamedWordV>;

    open spec fn view(&self) -> Seq<NamedWordV> {
        self.inner@.map_values(|w: NamedWord| w@)
    }
}

} // verus!
