//! The syntax tree of a function body, after name resolution and type checking.
use vstd::prelude::*;
use crate::types::{IntClass, TypeRef};

verus! {

#[derive(Clone, Copy, Debug, PartialEq, Eq, Structural)]
pub enum UniOp {
    Neg,
    BitNot,
    LogicNot,
    PreInc,
    PreDec,
    PostInc,
    PostDec,
    Address,
    Deref,
}

#[derive(Clone, Copy, Debug, PartialEq, Eq, Structural)]
pub enum BinOp {
    LogicAnd,
    LogicOr,
    BitAnd,
    BitOr,
    BitXor,
    ShiftLeft,
    ShiftRight,
    Add,
    Sub,
    Mul,
    Div,
    Mod,
    CmpEqu,
    CmpNEqu,
    CmpLt,
    CmpGt,
    CmpLtE,
    CmpGtE,
}

/// What an identifier was resolved to.
#[derive(Clone, Copy, Debug, PartialEq, Eq, Structural)]
pub enum IdentRef {
    /// An entry of the function's variable table
    Local(usize),
    StaticItem,
    Function,
    Enumeration,
}

/// What type checking found out about an expression.
#[derive(Debug)]
pub struct NodeMeta {
    pub ty: TypeRef,
    pub is_lvalue: bool,
}

/// An expression.
#[derive(Debug)]
pub struct Node {
    pub kind: NodeKind,
    pub meta: Option<NodeMeta>,
}

#[derive(Debug)]
pub enum NodeKind {
    /// Expressions separated by commas
    StmtList(Vec<Node>),
    Identifier(String, Option<IdentRef>),
    Integer(u64, IntClass),
    String(String),
    FunctionCall(Box<Node>, Vec<Node>),
    Assign(Box<Node>, Box<Node>),
    AssignOp(BinOp, Box<Node>, Box<Node>),
    Cast(TypeRef, Box<Node>),
    ImplicitCast(TypeRef, Box<Node>),
    Ternary(Box<Node>, Box<Node>, Box<Node>),
    UniOp(UniOp, Box<Node>),
    BinOp(BinOp, Box<Node>, Box<Node>),
    Index(Box<Node>, Box<Node>),
    DerefMember(Box<Node>, String),
    Member(Box<Node>, String),
}

/// The value that a variable is given where it is defined.
#[derive(Debug)]
pub enum Initialiser {
    Uninitialised,
    Value(Node),
    ListLiteral(Vec<Node>),
}

#[derive(Debug)]
pub struct VariableDefinition {
    /// The entry of the function's variable table
    pub index: Option<usize>,
    pub value: Initialiser,
}

/// The condition of an `if` or a loop.
#[derive(Debug)]
pub enum ExprOrDef {
    Expr(Node),
    Definition(Vec<VariableDefinition>),
}

pub type StatementList = Vec<Statement>;

#[derive(Debug)]
#[allow(inconsistent_fields)]
pub enum Statement {
    Empty,
    VarDef(Vec<VariableDefinition>),
    Expr(Node),
    Block(StatementList),
    IfStatement { cond: ExprOrDef, true_arm: StatementList, else_arm: Option<StatementList> },
    WhileLoop { cond: ExprOrDef, body: StatementList },
    DoWhileLoop { body: StatementList, cond: Node },
    ForLoop { init: Option<ExprOrDef>, cond: Option<Node>, inc: Option<Node>, body: StatementList },
    Switch(Node, StatementList),
    Continue,
    Break,
    Return(Option<Node>),
    Label(String),
    Goto(String),
}

/// A local variable or argument.
#[derive(Debug)]
pub struct VarTableEntry {
    pub name: String,
    pub ty: TypeRef,
}

/// A function body: its variables, the arguments first, and its code.
#[derive(Debug)]
pub struct FunctionBody {
    pub var_table: Vec<VarTableEntry>,
    pub code: StatementList,
}

} // verus!
