//! A Forth-inspired scripting core: a compiler that lowers structured
//! control flow to relative jumps, a serialization codec that writes and
//! reloads the compiled dictionary as a self-contained binary artifact, and
//! a stepwise bytecode interpreter that yields to its host before every
//! primitive call and sub-definition entry.

pub mod stack;
pub mod words;
pub mod runtime;
pub mod text;
pub mod builtins;
pub mod dict;
pub mod compiler;
pub mod context;
pub mod ser_de;
pub mod codec;

use vstd::prelude::*;

verus! {

/// The error kinds surfaced by the compiler, the serialization codec and the
/// interpreter.
#[derive(Debug, Clone, Copy, PartialEq, Eq, Structural)]
pub enum Error {
    /// A write to the output sink failed.
    OutputFormat,
    /// A read from the driver's input failed.
    Input,
    /// The data stack underflowed on a pop.
    DataStackUnderflow,
    /// The data stack was empty when an element was needed.
    DataStackEmpty,
    /// The return stack was empty when an element was needed.
    RetStackEmpty,
    /// The flow (execution) stack was empty when a frame was needed.
    FlowStackEmpty,
    /// A bounded stack was full on a push.
    StackOverflow,
    /// Checked arithmetic failed (loop-counter or cursor overflow).
    BadMath,
    /// An `if` without a matching `then` or `else`.
    MissingIfPair,
    /// An `else` without a matching `then`.
    MissingElsePair,
    /// A `loop` without a matching `do`.
    MissingLoopPair,
    /// A `do` without a matching `loop`.
    MissingDoPair,
    /// An unreachable code path was reached.
    InternalError,
}

} // verus!
