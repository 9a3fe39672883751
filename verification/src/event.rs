//! The events that a decoder emits and a code generator consumes.

use vstd::prelude::*;

verus! {

/// The result type of a `Block`, `Loop` or `If`.
#[derive(Clone, Copy, Debug, PartialEq, Eq, Structural)]
pub enum BlockType {
    /// The block leaves nothing on the operand stack.
    Empty,
    I32,
    I64,
    F32,
    F64,
    V128,
    AnyFunc,
    AnyRef,
    NullRef,
    Func,
    /// The block has the function type with this index.
    FuncType(u32),
}

/// A WebAssembly operator, as far as metering looks at it.
///
/// Structured control flow is kept by kind. An operator that plays no part in
/// block structure is either one of the few that the metering code itself
/// emits, or `Other`.
#[allow(inconsistent_fields)]
#[derive(Clone, Copy, Debug, PartialEq, Eq, Structural)]
pub enum Operator {
    Unreachable,
    Nop,
    Block { ty: BlockType },
    Loop { ty: BlockType },
    If { ty: BlockType },
    Else,
    End,
    Br { relative_depth: u32 },
    BrIf { relative_depth: u32 },
    /// A branch table; `table` is the embedder's handle for its targets.
    BrTable { table: u32 },
    Return,
    Call { function_index: u32 },
    Drop,
    I32Const { value: i32 },
    I64Const { value: i64 },
    I64Add,
    I64GtU,
    /// Any other operator; `id` is the embedder's handle for it.
    Other { id: u32 },
}

impl Operator {
    /// Operators after which the running block is over: its cost is final.
    pub open spec fn is_terminator(self) -> bool {
        match self {
            Operator::End
            | Operator::If { .. }
            | Operator::Else
            | Operator::Br { .. }
            | Operator::BrIf { .. }
            | Operator::BrTable { .. }
            | Operator::Return => true,
            _ => false,
        }
    }

    /// Operators behind which a new block starts, and with it a new charge.
    ///
    /// `Block` is not among them: what runs inside a plain block is charged
    /// where the enclosing block is charged.
    pub open spec fn is_opener(self) -> bool {
        match self {
            Operator::Loop { .. }
            | Operator::End
            | Operator::If { .. }
            | Operator::Else
            | Operator::BrIf { .. } => true,
            _ => false,
        }
    }

    /// Whether this operator ends the running block.
    pub fn ends_block(&self) -> (r: bool)
        ensures
            r == self.is_terminator(),
    {
        match self {
            Operator::End
            | Operator::If { .. }
            | Operator::Else
            | Operator::Br { .. }
            | Operator::BrIf { .. }
            | Operator::BrTable { .. }
            | Operator::Return => true,
            _ => false,
        }
    }

    /// Whether a new block starts behind this operator.
    pub fn starts_block(&self) -> (r: bool)
        ensures
            r == self.is_opener(),
    {
        match self {
            Operator::Loop { .. }
            | Operator::End
            | Operator::If { .. }
            | Operator::Else
            | Operator::BrIf { .. } => true,
            _ => false,
        }
    }
}

/// What a breakpoint does when the running code reaches it.
#[derive(Clone, Copy, Debug, PartialEq, Eq, Structural)]
pub enum BreakpointHandler {
    /// Fails the call with [`crate::metering::ExecutionLimitExceededError`].
    ExecutionLimitExceeded,
    /// A handler of the embedder, by its handle.
    Other { id: u32 },
}

/// A pseudo-operator that the code generator understands.
#[derive(Clone, Copy, Debug, PartialEq, Eq, Structural)]
pub enum InternalEvent {
    /// The body of the function with this index begins.
    FunctionBegin(u32),
    /// The running function body is complete.
    FunctionEnd,
    /// Calls the handler; if it fails, the running call traps.
    Breakpoint(BreakpointHandler),
    /// Pops a 64-bit value and stores it in the internal field with this index.
    SetInternal(u32),
    /// Pushes the 64-bit value of the internal field with this index.
    GetInternal(u32),
}

/// One element of the stream between decoder and code generator.
#[derive(Clone, Copy, Debug, PartialEq, Eq, Structural)]
pub enum Event {
    /// A pseudo-operator.
    Internal(InternalEvent),
    /// An operator that the decoder lends out.
    Wasm(Operator),
    /// An operator that the event owns, such as one made up by a middleware.
    WasmOwned(Operator),
}

impl Event {
    /// Events that close a block: a terminator, or the end of the function.
    pub open spec fn closes_block(self) -> bool {
        match self {
            Event::Internal(InternalEvent::FunctionEnd) => true,
            Event::Internal(_) => false,
            Event::Wasm(op) => op.is_terminator(),
            Event::WasmOwned(op) => op.is_terminator(),
        }
    }

    /// Events that open a block, and behind which a charging sequence is
    /// inserted: an opener, or the begin of a function.
    pub open spec fn opens_block(self) -> bool {
        match self {
            Event::Internal(InternalEvent::FunctionBegin(_)) => true,
            Event::Internal(_) => false,
            Event::Wasm(op) => op.is_opener(),
            Event::WasmOwned(op) => op.is_opener(),
        }
    }

    /// Block boundaries: the events that close a block or open one. The
    /// running block ends at every one of them, and its cost is written.
    pub open spec fn is_boundary(self) -> bool {
        self.closes_block() || self.opens_block()
    }

    /// Whether this is the end of a function body.
    pub open spec fn is_function_end(self) -> bool {
        self == Event::Internal(InternalEvent::FunctionEnd)
    }

    /// Whether this event closes a block.
    pub fn ends_block(&self) -> (r: bool)
        ensures
            r == self.closes_block(),
    {
        match self {
            Event::Internal(InternalEvent::FunctionEnd) => true,
            Event::Internal(_) => false,
            Event::Wasm(op) => op.ends_block(),
            Event::WasmOwned(op) => op.ends_block(),
        }
    }

    /// Whether this event opens a block.
    pub fn starts_block(&self) -> (r: bool)
        ensures
            r == self.opens_block(),
    {
        match self {
            Event::Internal(InternalEvent::FunctionBegin(_)) => true,
            Event::Internal(_) => false,
            Event::Wasm(op) => op.starts_block(),
            Event::WasmOwned(op) => op.starts_block(),
        }
    }
}

} // verus!
