//! Intermediate representation for parsed JVM classes and methods, together
//! with the mathematical models (deep views) that the contracts speak of.
use vstd::prelude::*;

verus! {

/// Why decoding a method's bytecode failed.
#[derive(Clone, Copy, Debug, PartialEq, Eq, Structural)]
pub enum DecodeError {
    /// Computing an opcode length or reading an operand would run past the
    /// end of the code buffer.
    TruncatedRead,
    /// A `tableswitch` with `high < low`, an overflowing case count, or a
    /// `lookupswitch` with a negative pair count.
    InvalidSwitchTable,
    /// An invoke or string-load instruction points at a constant-pool slot of
    /// the wrong kind or at an out-of-range index.
    InvalidConstantPool,
}

impl DecodeError {
    /// A short human-readable description of the failure.
    pub fn message(&self) -> (r: &'static str) {
        match self {
            DecodeError::TruncatedRead => "read past the end of the code buffer",
            DecodeError::InvalidSwitchTable => "invalid switch table",
            DecodeError::InvalidConstantPool => "unresolvable constant-pool reference",
        }
    }
}

/// Edge classification used for CFG inspection.
#[derive(Clone, Copy, Debug, Eq, PartialEq, Structural)]
pub enum EdgeKind {
    FallThrough,
    Branch,
    Exception,
}

/// Call opcode classification used by call-graph construction.
#[derive(Clone, Copy, Debug, Eq, PartialEq, Structural)]
pub enum CallKind {
    Virtual,
    Interface,
    Special,
    Static,
}

/// Edge between basic blocks; `from` and `to` are block start offsets.
#[derive(Clone, Copy, Debug, Eq, PartialEq, Structural)]
pub struct FlowEdge {
    pub from: u32,
    pub to: u32,
    pub kind: EdgeKind,
}

/// Method access flags used for rule filtering.
#[derive(Clone, Copy, Debug, Eq, PartialEq, Structural)]
pub struct MethodAccess {
    pub is_public: bool,
    pub is_static: bool,
    pub is_abstract: bool,
}

/// Call site extracted from bytecode.
#[derive(Debug)]
pub struct CallSite {
    pub owner: String,
    pub name: String,
    pub descriptor: String,
    pub kind: CallKind,
    pub offset: u32,
}

/// Model of a call site: the strings as character sequences.
#[verifier::ext_equal]
pub ghost struct CallSiteV {
    pub owner: Seq<char>,
    pub name: Seq<char>,
    pub descriptor: Seq<char>,
    pub kind: CallKind,
    pub offset: u32,
}

impl DeepView for CallSite {
    type V = CallSiteV;

    open spec fn deep_view(&self) -> CallSiteV {
        CallSiteV {
            owner: self.owner@,
            name: self.name@,
            descriptor: self.descriptor@,
            kind: self.kind,
            offset: self.offset,
        }
    }
}

impl Clone for CallSite {
    fn clone(&self) -> (r: Self)
        ensures
            r == *self,
    {
        CallSite {
            owner: self.owner.clone(),
            name: self.name.clone(),
            descriptor: self.descriptor.clone(),
            kind: self.kind,
            offset: self.offset,
        }
    }
}

/// Instruction kinds needed for call-graph construction.
#[derive(Debug)]
pub enum InstructionKind {
    Invoke(CallSite),
    ConstString(String),
    Other(u8),
}

/// Model of an instruction kind.
#[verifier::ext_equal]
pub ghost enum InstructionKindV {
    Invoke(CallSiteV),
    ConstString(Seq<char>),
    Other(u8),
}

impl DeepView for InstructionKind {
    type V = InstructionKindV;

    open spec fn deep_view(&self) -> InstructionKindV {
        match self {
            InstructionKind::Invoke(c) => InstructionKindV::Invoke(c.deep_view()),
            InstructionKind::ConstString(s) => InstructionKindV::ConstString(s@),
            InstructionKind::Other(op) => InstructionKindV::Other(*op),
        }
    }
}

impl Clone for InstructionKind {
    fn clone(&self) -> (r: Self)
        ensures
            r == *self,
    {
        match self {
            InstructionKind::Invoke(c) => InstructionKind::Invoke(c.clone()),
            InstructionKind::ConstString(s) => InstructionKind::ConstString(s.clone()),
            InstructionKind::Other(op) => InstructionKind::Other(*op),
        }
    }
}

/// Bytecode instruction captured for analysis.
#[derive(Debug)]
pub struct Instruction {
    pub offset: u32,
    pub opcode: u8,
    pub kind: InstructionKind,
}

/// Model of an instruction.
#[verifier::ext_equal]
pub ghost struct InstructionV {
    pub offset: u32,
    pub opcode: u8,
    pub kind: InstructionKindV,
}

impl DeepView for Instruction {
    type V = InstructionV;

    open spec fn deep_view(&self) -> InstructionV {
        InstructionV { offset: self.offset, opcode: self.opcode, kind: self.kind.deep_view() }
    }
}

impl Clone for Instruction {
    fn clone(&self) -> (r: Self)
        ensures
            r == *self,
    {
        Instruction { offset: self.offset, opcode: self.opcode, kind: self.kind.clone() }
    }
}

/// Basic block covering the half-open range `[start_offset, end_offset)` of
/// bytecode offsets.
#[derive(Debug)]
pub struct BasicBlock {
    pub start_offset: u32,
    pub end_offset: u32,
    pub instructions: Vec<Instruction>,
}

/// Model of a basic block.
#[verifier::ext_equal]
pub ghost struct BasicBlockV {
    pub start_offset: u32,
    pub end_offset: u32,
    pub instructions: Seq<InstructionV>,
}

impl DeepView for BasicBlock {
    type V = BasicBlockV;

    open spec fn deep_view(&self) -> BasicBlockV {
        BasicBlockV {
            start_offset: self.start_offset,
            end_offset: self.end_offset,
            instructions: self.instructions.deep_view(),
        }
    }
}

/// Basic block graph for method bytecode.
#[derive(Debug)]
pub struct ControlFlowGraph {
    pub blocks: Vec<BasicBlock>,
    pub edges: Vec<FlowEdge>,
}

/// Model of a control flow graph.
#[verifier::ext_equal]
pub ghost struct ControlFlowGraphV {
    pub blocks: Seq<BasicBlockV>,
    pub edges: Seq<FlowEdge>,
}

impl DeepView for ControlFlowGraph {
    type V = ControlFlowGraphV;

    open spec fn deep_view(&self) -> ControlFlowGraphV {
        ControlFlowGraphV { blocks: self.blocks.deep_view(), edges: self.edges@ }
    }
}

/// Exception handler metadata from a method's code attribute.
#[derive(Debug)]
pub struct ExceptionHandler {
    pub start_pc: u32,
    pub end_pc: u32,
    pub handler_pc: u32,
    pub catch_type: Option<String>,
}

/// Model of an exception handler.
#[verifier::ext_equal]
pub ghost struct ExceptionHandlerV {
    pub start_pc: u32,
    pub end_pc: u32,
    pub handler_pc: u32,
    pub catch_type: Option<Seq<char>>,
}

impl DeepView for ExceptionHandler {
    type V = ExceptionHandlerV;

    open spec fn deep_view(&self) -> ExceptionHandlerV {
        ExceptionHandlerV {
            start_pc: self.start_pc,
            end_pc: self.end_pc,
            handler_pc: self.handler_pc,
            catch_type: match self.catch_type {
                Some(ref s) => Some(s@),
                None => None,
            },
        }
    }
}

impl Clone for ExceptionHandler {
    fn clone(&self) -> (r: Self)
        ensures
            r.deep_view() == self.deep_view(),
    {
        ExceptionHandler {
            start_pc: self.start_pc,
            end_pc: self.end_pc,
            handler_pc: self.handler_pc,
            catch_type: match &self.catch_type {
                Some(s) => Some(s.clone()),
                None => None,
            },
        }
    }
}

/// A method: its bytecode buffer and everything derived from it in one
/// decoding pass, plus the exception-handler table passed in.
#[derive(Debug)]
pub struct Method {
    pub name: String,
    pub descriptor: String,
    pub access: MethodAccess,
    pub bytecode: Vec<u8>,
    pub cfg: ControlFlowGraph,
    pub calls: Vec<CallSite>,
    pub string_literals: Vec<String>,
    pub exception_handlers: Vec<ExceptionHandler>,
}

/// Model of a method.
#[verifier::ext_equal]
pub ghost struct MethodV {
    pub name: Seq<char>,
    pub descriptor: Seq<char>,
    pub access: MethodAccess,
    pub bytecode: Seq<u8>,
    pub cfg: ControlFlowGraphV,
    pub calls: Seq<CallSiteV>,
    pub string_literals: Seq<Seq<char>>,
    pub exception_handlers: Seq<ExceptionHandlerV>,
}

impl DeepView for Method {
    type V = MethodV;

    open spec fn deep_view(&self) -> MethodV {
        MethodV {
            name: self.name@,
            descriptor: self.descriptor@,
            access: self.access,
            bytecode: self.bytecode@,
            cfg: self.cfg.deep_view(),
            calls: self.calls.deep_view(),
            string_literals: self.string_literals.deep_view(),
            exception_handlers: self.exception_handlers.deep_view(),
        }
    }
}

/// A class: its methods, names, and the classes it textually references.
#[derive(Debug)]
pub struct Class {
    pub name: String,
    pub super_name: Option<String>,
    pub referenced_classes: Vec<String>,
    pub methods: Vec<Method>,
    pub artifact_index: i64,
}

/// Model of a class.
#[verifier::ext_equal]
pub ghost struct ClassV {
    pub name: Seq<char>,
    pub super_name: Option<Seq<char>>,
    pub referenced_classes: Seq<Seq<char>>,
    pub methods: Seq<MethodV>,
    pub artifact_index: i64,
}

impl DeepView for Class {
    type V = ClassV;

    open spec fn deep_view(&self) -> ClassV {
        ClassV {
            name: self.name@,
            super_name: match self.super_name {
                Some(ref s) => Some(s@),
                None => None,
            },
            referenced_classes: self.referenced_classes.deep_view(),
            methods: self.methods.deep_view(),
            artifact_index: self.artifact_index,
        }
    }
}

} // verus!
