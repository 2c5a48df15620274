//! The statement and expression tree that structuring produces.
//!
//! Bytecode references (registers, types, functions, strings) are held as
//! plain indices, the same numbers the bytecode tables use.
use vstd::prelude::*;

verus! {

/// A virtual register of the function being structured.
#[derive(Clone, Copy, Debug, PartialEq, Eq, Structural)]
pub struct Reg(pub u32);

/// Index into the bytecode's type table.
#[derive(Clone, Copy, Debug, PartialEq, Eq, Structural)]
pub struct RefType(pub usize);

/// Index into the bytecode's function table.
#[derive(Clone, Copy, Debug, PartialEq, Eq, Structural)]
pub struct RefFun(pub usize);

/// Index into the bytecode's string table.
#[derive(Clone, Copy, Debug, PartialEq, Eq, Structural)]
pub struct RefString(pub usize);

/// Index into the bytecode's integer table.
#[derive(Clone, Copy, Debug, PartialEq, Eq, Structural)]
pub struct RefInt(pub usize);

/// Index of an enum constructor inside its enum type.
#[derive(Clone, Copy, Debug, PartialEq, Eq, Structural)]
pub struct RefEnumConstruct(pub usize);

/// A literal value.
#[derive(Clone, Copy, Debug, PartialEq, Eq, Structural)]
pub enum Constant {
    Int(RefInt),
    InlineInt(usize),
    Bool(bool),
    Bytes(usize),
    String(RefString),
    Null,
    This,
    TypeRef(RefType),
}

/// A function call: the callee expression and its arguments.
#[derive(Debug)]
pub struct Call {
    pub fun: Expr,
    pub args: Vec<Expr>,
}

/// A constructor call `new T(args)`.
#[derive(Debug)]
pub struct ConstructorCall {
    pub ty: RefType,
    pub args: Vec<Expr>,
}

/// Unary and binary operators.
#[derive(Debug)]
pub enum Operation {
    Add(Box<Expr>, Box<Expr>),
    Sub(Box<Expr>, Box<Expr>),
    Mul(Box<Expr>, Box<Expr>),
    Div(Box<Expr>, Box<Expr>),
    Mod(Box<Expr>, Box<Expr>),
    Shl(Box<Expr>, Box<Expr>),
    Shr(Box<Expr>, Box<Expr>),
    And(Box<Expr>, Box<Expr>),
    Or(Box<Expr>, Box<Expr>),
    Xor(Box<Expr>, Box<Expr>),
    Eq(Box<Expr>, Box<Expr>),
    NotEq(Box<Expr>, Box<Expr>),
    Gt(Box<Expr>, Box<Expr>),
    Gte(Box<Expr>, Box<Expr>),
    Lt(Box<Expr>, Box<Expr>),
    Lte(Box<Expr>, Box<Expr>),
    Neg(Box<Expr>),
    Not(Box<Expr>),
    Incr(Box<Expr>),
    Decr(Box<Expr>),
}

/// An expression.
#[derive(Debug)]
pub enum Expr {
    /// An anonymous structure literal: its type and its named fields.
    Anonymous(RefType, Vec<(String, Expr)>),
    Array(Box<Expr>, Box<Expr>),
    ArrayLiteral(Vec<Expr>),
    Call(Box<Call>),
    Cast(Box<Expr>, RefType),
    Closure(RefFun, Vec<Statement>),
    Constant(Constant),
    Constructor(ConstructorCall),
    EnumConstr(RefType, RefEnumConstruct, Vec<Expr>),
    Field(Box<Expr>, String),
    FunRef(RefFun),
    Ident(String),
    IfElse { cond: Box<Expr>, if_: Vec<Statement>, else_: Vec<Statement> },
    Op(Operation),
    TypeAnnotated(Box<Expr>, RefType),
    Unknown(String),
    /// A register, with the source-level name chosen for it, if any.
    Variable(Reg, Option<String>),
}

/// A statement.
#[derive(Debug)]
pub enum Statement {
    Assign { declaration: bool, variable: Expr, assign: Expr },
    ExprStatement(Expr),
    Return(Option<Expr>),
    IfElse { cond: Expr, if_: Vec<Statement>, else_: Vec<Statement> },
    IfElseChain { branches: Vec<(Expr, Vec<Statement>)>, else_: Vec<Statement> },
    Switch {
        arg: Expr,
        default: Vec<Statement>,
        cases: Vec<(Vec<Expr>, Vec<Statement>)>,
        enum_type: Option<RefType>,
    },
    While { cond: Expr, stmts: Vec<Statement> },
    Block { stmts: Vec<Statement> },
    Sequence { stmts: Vec<Statement> },
    TryCatch { try_stmts: Vec<Statement>, catch_var: Expr, catch_stmts: Vec<Statement> },
    Throw(Expr),
    Break,
    Continue,
    Comment(String),
    VarDecl { name: String, type_hint: Option<RefType> },
}

} // verus!
