use vstd::prelude::*;

verus! {

/// A literal as the lowering sees it.
#[derive(Debug, PartialEq, Eq)]
pub enum HirLiteral {
    Bool(bool),
    Int(i64),
    Str(String),
    /// A literal the front end could not read.
    Invalid,
}

#[derive(Clone, Copy, Debug, PartialEq, Eq, Structural)]
pub enum HirUnaryOp {
    Not,
    Negate,
}

#[derive(Clone, Copy, Debug, PartialEq, Eq, Structural)]
pub enum HirBinaryOp {
    Add,
    Sub,
    Mul,
    Div,
    Rem,
    Less,
    LessEqual,
    Greater,
    GreaterEqual,
    Equal,
    NotEqual,
    IdentityEqual,
    IdentityNotEqual,
    And,
    Or,
    Range,
    RangeInclusive,
}

/// An expression of the lowered syntax tree; operands the front end could
/// not read are absent.
#[derive(Debug, PartialEq, Eq)]
pub enum HirExpr {
    Literal(HirLiteral),
    Path(Vec<String>),
    Paren(Option<Box<HirExpr>>),
    Unit,
    Tuple(Vec<HirExpr>),
    Array(Vec<HirExpr>),
    Unary { op: Option<HirUnaryOp>, operand: Option<Box<HirExpr>> },
    Binary { op: Option<HirBinaryOp>, lhs: Option<Box<HirExpr>>, rhs: Option<Box<HirExpr>> },
    Block(HirBlock),
    If(HirIf),
    Match(HirMatch),
    MapLiteral(Vec<HirMapEntry>),
    /// A record constructor: its path, the declaration the path resolves
    /// to when it resolves, and the fields given.
    Record { path: Option<Vec<String>>, declaration: Option<u32>, fields: Vec<HirRecordFieldInit> },
    Field { receiver: Box<HirExpr>, name: String },
    Index { receiver: Box<HirExpr>, index: Box<HirExpr> },
    Try(Option<Box<HirExpr>>),
    Call { callee: Box<HirExpr>, arguments: Vec<HirCallArgument> },
    /// A closure: the names of its parameters and its body.
    Lambda { params: Vec<String>, body: HirLambdaBody },
    /// A string with values spliced in: its text pieces and expressions in order.
    Interpolated(Vec<HirInterpolatedPart>),
    Missing,
}

/// A piece of an interpolated string.
#[derive(Debug, PartialEq, Eq)]
pub enum HirInterpolatedPart {
    Text(String),
    Expr(HirExpr),
}

#[derive(Debug, PartialEq, Eq)]
pub struct HirMapEntry {
    pub key: Option<HirExpr>,
    /// The name the entry is stored under, when the key gives one.
    pub logical_key: Option<String>,
    pub value: Option<HirExpr>,
}

#[derive(Debug, PartialEq, Eq)]
pub struct HirRecordFieldInit {
    pub name: String,
    pub value: Option<HirExpr>,
}

#[derive(Debug, PartialEq, Eq)]
pub struct HirCallArgument {
    pub name: Option<String>,
    pub value: Option<HirExpr>,
}

#[derive(Debug, PartialEq, Eq)]
pub enum HirLambdaBody {
    Expr(Box<HirExpr>),
    Block(HirBlock),
    Empty,
}

/// What a function body consists of: a block, a single expression, or nothing.
#[derive(Debug, PartialEq, Eq)]
pub enum HirBodyRoot {
    Block(HirBlock),
    Expr(HirExpr),
    Empty,
}

/// A block: its statements in order; a last expression statement gives its value.
#[derive(Debug, PartialEq, Eq)]
pub struct HirBlock {
    pub statements: Vec<HirStmt>,
}

#[derive(Debug, PartialEq, Eq)]
pub enum HirStmt {
    /// Binds the pattern (a name, or a destructuring pattern) to the
    /// initializer's value, `()` without one.
    Let { pattern: Option<HirPattern>, initializer: Option<HirExpr> },
    Return { value: Option<HirExpr> },
    Block(HirBlock),
    Expr { expression: Option<HirExpr> },
    If(HirIf),
    Match(HirMatch),
    /// Runs the body for each item of the iterable (each number of a range
    /// written `a..b` or `a..=b`), binding the last pattern to the item and,
    /// when there are two or more patterns, the first to the item's index.
    For { patterns: Vec<HirPattern>, iterable: Option<HirExpr>, body: Option<HirBlock> },
}

#[derive(Debug, PartialEq, Eq)]
pub struct HirIf {
    pub condition: Option<Box<HirExpr>>,
    pub then_block: Option<HirBlock>,
    pub else_branch: Option<Box<HirElseBranch>>,
}

#[derive(Debug, PartialEq, Eq)]
pub enum HirElseBranch {
    If(HirIf),
    Block(HirBlock),
}

/// A pattern of a `match` arm or a `let`.
#[derive(Debug, PartialEq, Eq)]
pub enum HirPattern {
    Wildcard,
    /// Binds the matched value to a local, when the front end named one.
    Binding { local: Option<String> },
    Literal(Option<HirLiteral>),
    /// An enum variant without fields.
    Path { path: Option<Vec<String>> },
    /// A tuple, or a tuple variant when a path is given.
    TupleVariant { path: Option<Vec<String>>, fields: Vec<HirPattern> },
    RecordVariant { path: Option<Vec<String>>, fields: Vec<HirRecordPatternField> },
    Missing,
}

#[derive(Debug, PartialEq, Eq)]
pub struct HirRecordPatternField {
    pub name: String,
    pub pattern: Option<HirPattern>,
}

#[derive(Debug, PartialEq, Eq)]
pub struct HirMatch {
    pub scrutinee: Option<Box<HirExpr>>,
    pub arms: Vec<HirMatchArm>,
}

#[derive(Debug, PartialEq, Eq)]
pub struct HirMatchArm {
    pub pattern: Option<HirPattern>,
    pub guard: Option<HirExpr>,
    pub body: Option<HirMatchArmBody>,
}

#[derive(Debug, PartialEq, Eq)]
pub enum HirMatchArmBody {
    Expr(HirExpr),
    Block(HirBlock),
}

} // verus!
