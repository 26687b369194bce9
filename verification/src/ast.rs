//! The syntax tree of an assembly program: one [`AstNode`] per statement, with
//! the operands of an instruction as nested nodes.

use vstd::prelude::*;

verus! {

/// Instructions without operands.
#[derive(PartialEq, Eq, Debug, Clone, Copy, Structural)]
pub enum InstructionZero {
    Nop,
    Halt,
    Brk,
    Ret,
    Reti,
    Ise,
    Icl,
    Mse,
    Mcl,
}

/// Instructions with one operand.
#[derive(PartialEq, Eq, Debug, Clone, Copy, Structural)]
pub enum InstructionOne {
    Not,
    Jmp,
    Call,
    Loop,
    Rjmp,
    Rcall,
    Rloop,
    Push,
    Pop,
    Int,
    Tlb,
    Flp,
}

/// Instructions with one operand and an optional step of 1, 2, 4 or 8.
#[derive(PartialEq, Eq, Debug, Clone, Copy, Structural)]
pub enum InstructionIncDec {
    Inc,
    Dec,
}

/// Instructions with two operands.
#[derive(PartialEq, Eq, Debug, Clone, Copy, Structural)]
pub enum InstructionTwo {
    Add,
    Sub,
    Mul,
    Imul,
    Div,
    Idiv,
    Rem,
    Irem,
    And,
    Or,
    Xor,
    Sla,
    Sra,
    Srl,
    Rol,
    Ror,
    Bse,
    Bcl,
    Bts,
    Cmp,
    Mov,
    Movz,
    Rta,
    In,
    Out,
}

/// The width of the values that an instruction works on.
#[derive(PartialEq, Eq, Debug, Clone, Copy, Structural)]
pub enum Size {
    Byte,
    Half,
    Word,
}

/// The condition under which an instruction is executed. "Greater than or equal"
/// is the same as `NotCarry`, and "less than" the same as `Carry`.
#[derive(PartialEq, Eq, Debug, Clone, Copy, Structural)]
pub enum Condition {
    Always,
    Zero,
    NotZero,
    Carry,
    NotCarry,
    GreaterThan,
    LessThanEqualTo,
}

/// How a label is visible outside its program.
#[derive(PartialEq, Eq, Debug, Clone, Copy, Structural)]
pub enum LabelKind {
    Internal,
    External,
    Global,
}

#[derive(PartialEq, Eq, Debug, Clone, Copy, Structural)]
pub struct OperationZero {
    pub size: Size,
    pub condition: Condition,
    pub instruction: InstructionZero,
}

#[derive(PartialEq, Eq, Debug)]
pub struct OperationOne {
    pub size: Size,
    pub condition: Condition,
    pub instruction: InstructionOne,
    pub operand: Box<AstNode>,
}

#[derive(PartialEq, Eq, Debug)]
pub struct OperationIncDec {
    pub size: Size,
    pub condition: Condition,
    pub instruction: InstructionIncDec,
    pub lhs: Box<AstNode>,
    pub rhs: Box<AstNode>,
}

#[derive(PartialEq, Eq, Debug)]
pub struct OperationTwo {
    pub size: Size,
    pub condition: Condition,
    pub instruction: InstructionTwo,
    pub lhs: Box<AstNode>,
    pub rhs: Box<AstNode>,
}

/// A statement of a program, or an operand of one.
#[allow(inconsistent_fields)]
#[derive(PartialEq, Eq, Debug)]
pub enum AstNode {
    OperationZero(OperationZero),
    OperationOne(OperationOne),
    OperationIncDec(OperationIncDec),
    OperationTwo(OperationTwo),
    Immediate8(u8),
    Immediate16(u16),
    Immediate32(u32),
    Register(u8),
    ImmediatePointer(u32),
    RegisterPointer(u8),
    RegisterPointerOffset(u8, u8),
    Constant { name: String, address: u32 },
    LabelDefine { name: String, kind: LabelKind },
    LabelOperand { name: String, size: Size, is_relative: bool },
    LabelOperandPointer { name: String, is_relative: bool },
    DataByte(u8),
    DataHalf(u16),
    DataWord(u32),
    DataStr(String),
    DataStrZero(String),
    DataFill { value: u8, size: u32 },
    /// A binary file that is still to be read.
    IncludeBinary { path: String, optional: bool },
    IncludedBinary(Vec<u8>),
    Origin(u32),
    OriginPadded(u32),
    Optimize(bool),
}

/// The mathematical form of [`OperationOne`].
pub struct OneView {
    pub size: Size,
    pub condition: Condition,
    pub instruction: InstructionOne,
    pub operand: Box<NodeView>,
}

/// The mathematical form of [`OperationIncDec`].
pub struct IncDecView {
    pub size: Size,
    pub condition: Condition,
    pub instruction: InstructionIncDec,
    pub lhs: Box<NodeView>,
    pub rhs: Box<NodeView>,
}

/// The mathematical form of [`OperationTwo`].
pub struct TwoView {
    pub size: Size,
    pub condition: Condition,
    pub instruction: InstructionTwo,
    pub lhs: Box<NodeView>,
    pub rhs: Box<NodeView>,
}

/// The mathematical form of an [`AstNode`]: text is a sequence of characters and
/// file contents are a sequence of bytes.
#[allow(inconsistent_fields)]
pub enum NodeView {
    OperationZero(OperationZero),
    OperationOne(OneView),
    OperationIncDec(IncDecView),
    OperationTwo(TwoView),
    Immediate8(u8),
    Immediate16(u16),
    Immediate32(u32),
    Register(u8),
    ImmediatePointer(u32),
    RegisterPointer(u8),
    RegisterPointerOffset(u8, u8),
    Constant { name: Seq<char>, address: u32 },
    LabelDefine { name: Seq<char>, kind: LabelKind },
    LabelOperand { name: Seq<char>, size: Size, is_relative: bool },
    LabelOperandPointer { name: Seq<char>, is_relative: bool },
    DataByte(u8),
    DataHalf(u16),
    DataWord(u32),
    DataStr(Seq<char>),
    DataStrZero(Seq<char>),
    DataFill { value: u8, size: u32 },
    IncludeBinary { path: Seq<char>, optional: bool },
    IncludedBinary(Seq<u8>),
    Origin(u32),
    OriginPadded(u32),
    Optimize(bool),
}

impl AstNode {
    /// The mathematical form of this node.
    pub open spec fn node(&self) -> NodeView
        decreases self,
    {
        match self {
            AstNode::OperationZero(op) => NodeView::OperationZero(*op),
            AstNode::OperationOne(op) => NodeView::OperationOne(
                OneView {
                    size: op.size,
                    condition: op.condition,
                    instruction: op.instruction,
                    operand: Box::new(op.operand.node()),
                },
            ),
            AstNode::OperationIncDec(op) => NodeView::OperationIncDec(
                IncDecView {
                    size: op.size,
                    condition: op.condition,
                    instruction: op.instruction,
                    lhs: Box::new(op.lhs.node()),
                    rhs: Box::new(op.rhs.node()),
                },
            ),
            AstNode::OperationTwo(op) => NodeView::OperationTwo(
                TwoView {
                    size: op.size,
                    condition: op.condition,
                    instruction: op.instruction,
                    lhs: Box::new(op.lhs.node()),
                    rhs: Box::new(op.rhs.node()),
                },
            ),
            AstNode::Immediate8(n) => NodeView::Immediate8(*n),
            AstNode::Immediate16(n) => NodeView::Immediate16(*n),
            AstNode::Immediate32(n) => NodeView::Immediate32(*n),
            AstNode::Register(r) => NodeView::Register(*r),
            AstNode::ImmediatePointer(n) => NodeView::ImmediatePointer(*n),
            AstNode::RegisterPointer(r) => NodeView::RegisterPointer(*r),
            AstNode::RegisterPointerOffset(r, o) => NodeView::RegisterPointerOffset(*r, *o),
            AstNode::Constant { name, address } => NodeView::Constant {
                name: name@,
                address: *address,
            },
            AstNode::LabelDefine { name, kind } => NodeView::LabelDefine {
                name: name@,
                kind: *kind,
            },
            AstNode::LabelOperand { name, size, is_relative } => NodeView::LabelOperand {
                name: name@,
                size: *size,
                is_relative: *is_relative,
            },
            AstNode::LabelOperandPointer { name, is_relative } => NodeView::LabelOperandPointer {
                name: name@,
                is_relative: *is_relative,
            },
            AstNode::DataByte(n) => NodeView::DataByte(*n),
            AstNode::DataHalf(n) => NodeView::DataHalf(*n),
            AstNode::DataWord(n) => NodeView::DataWord(*n),
            AstNode::DataStr(s) => NodeView::DataStr(s@),
            AstNode::DataStrZero(s) => NodeView::DataStrZero(s@),
            AstNode::DataFill { value, size } => NodeView::DataFill { value: *value, size: *size },
            AstNode::IncludeBinary { path, optional } => NodeView::IncludeBinary {
                path: path@,
                optional: *optional,
            },
            AstNode::IncludedBinary(data) => NodeView::IncludedBinary(data@),
            AstNode::Origin(n) => NodeView::Origin(*n),
            AstNode::OriginPadded(n) => NodeView::OriginPadded(*n),
            AstNode::Optimize(b) => NodeView::Optimize(*b),
        }
    }
}

impl View for AstNode {
    type V = NodeView;

    open spec fn view(&self) -> NodeView {
        self.node()
    }
}

/// The sequence of the mathematical forms of `nodes`.
pub open spec fn node_views(nodes: Seq<AstNode>) -> Seq<NodeView> {
    Seq::new(nodes.len(), |i: int| nodes[i]@)
}

} // verus!
