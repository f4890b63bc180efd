//! The Python syntax tree that the analyzer reads: the statements and
//! expressions of a module, with what the analysis needs of each.

use vstd::prelude::*;

verus! {

/// Which comprehension form an expression is.
#[derive(Debug, Clone, Copy, PartialEq, Eq, Structural)]
pub enum CompKind {
    ListComp,
    SetComp,
    DictComp,
    GeneratorExp,
}

/// A Python expression.
#[derive(Debug)]
pub enum PyExpr {
    /// A name; `load` is false for store and delete contexts.
    Name { id: String, load: bool },
    /// `value.attr`; `load` is false for store and delete contexts.
    Attribute { value: Box<PyExpr>, attr: String, load: bool },
    /// A call with its positional arguments and keyword argument values.
    Call { func: Box<PyExpr>, args: Vec<PyExpr>, keywords: Vec<PyExpr> },
    /// `lambda params: body`.
    Lambda { params: Option<Box<PyParams>>, body: Box<PyExpr> },
    /// A list, set or dict comprehension or a generator expression; `value`
    /// is the value expression of a dict comprehension.
    Comp { kind: CompKind, elt: Box<PyExpr>, value: Option<Box<PyExpr>>, generators: Vec<PyComprehension> },
    /// `a and b and ...` / `a or b or ...`.
    BoolOp { values: Vec<PyExpr> },
    /// A binary operation.
    BinOp { left: Box<PyExpr>, right: Box<PyExpr> },
    /// A unary operation; `negate` marks unary minus.
    UnaryOp { negate: bool, operand: Box<PyExpr> },
    /// `body if test else orelse`.
    IfExp { test: Box<PyExpr>, body: Box<PyExpr>, orelse: Box<PyExpr> },
    /// A dict display; a key is `None` for `**mapping` items.
    Dict { items: Vec<PyDictItem> },
    /// A set display.
    SetDisplay { elts: Vec<PyExpr> },
    /// A tuple display or target.
    Tuple { elts: Vec<PyExpr> },
    /// A list display or target.
    List { elts: Vec<PyExpr> },
    /// `value[slice]`.
    Subscript { value: Box<PyExpr>, slice: Box<PyExpr> },
    /// `*value`.
    Starred { value: Box<PyExpr> },
    /// `await value` or `yield from value`.
    Await { value: Box<PyExpr> },
    /// `yield` with an optional value.
    Yield { value: Option<Box<PyExpr>> },
    /// A comparison chain.
    Compare { left: Box<PyExpr>, comparators: Vec<PyExpr> },
    /// A slice `lower:upper:step`.
    Slice { lower: Option<Box<PyExpr>>, upper: Option<Box<PyExpr>>, step: Option<Box<PyExpr>> },
    /// `target := value`.
    Named { target: Box<PyExpr>, value: Box<PyExpr> },
    /// An f-string or t-string, with its interpolated expressions.
    FString { exprs: Vec<PyExpr> },
    /// A string literal.
    StrLit { value: String },
    /// An integer literal; `None` when it does not fit in an `i64`.
    IntLit { value: Option<i64> },
    /// Any other literal (bytes, float, complex, bool, None, ...).
    OtherLit,
}

/// An item of a dict display.
#[derive(Debug)]
pub struct PyDictItem {
    pub key: Option<PyExpr>,
    pub value: PyExpr,
}

/// One `for ... in ... if ...` clause of a comprehension.
#[derive(Debug)]
pub struct PyComprehension {
    pub target: PyExpr,
    pub iter: PyExpr,
    pub ifs: Vec<PyExpr>,
    pub is_async: bool,
}

/// A function or lambda parameter.
#[derive(Debug)]
pub struct PyParam {
    pub name: String,
    pub annotation: Option<PyExpr>,
    pub default: Option<PyExpr>,
}

/// The parameters of a function or lambda.
#[derive(Debug)]
pub struct PyParams {
    pub posonlyargs: Vec<PyParam>,
    pub args: Vec<PyParam>,
    pub vararg: Option<PyParam>,
    pub kwonlyargs: Vec<PyParam>,
    pub kwarg: Option<PyParam>,
}

/// `name as asname` in an import.
#[derive(Debug)]
pub struct PyAlias {
    pub name: String,
    pub asname: Option<String>,
}

/// An `elif` or `else` clause; `test` is `None` for `else`.
#[derive(Debug)]
pub struct PyElifClause {
    pub test: Option<PyExpr>,
    pub body: Vec<PyStmt>,
}

/// One item of a `with` statement.
#[derive(Debug)]
pub struct PyWithItem {
    pub context_expr: PyExpr,
    pub optional_vars: Option<PyExpr>,
}

/// An `except` handler.
#[derive(Debug)]
pub struct PyHandler {
    pub type_: Option<PyExpr>,
    pub name: Option<String>,
    pub body: Vec<PyStmt>,
}

/// A `case` of a `match` statement.
#[derive(Debug)]
pub struct PyMatchCase {
    pub pattern: PyPattern,
    pub guard: Option<PyExpr>,
    pub body: Vec<PyStmt>,
}

/// A `match` pattern.
#[derive(Debug)]
pub enum PyPattern {
    Value { value: PyExpr },
    Singleton,
    Sequence { patterns: Vec<PyPattern> },
    Mapping { keys: Vec<PyExpr>, patterns: Vec<PyPattern>, rest: Option<String> },
    Class { cls: PyExpr, patterns: Vec<PyPattern>, kw_patterns: Vec<PyPattern> },
    Star { name: Option<String> },
    As { pattern: Option<Box<PyPattern>>, name: Option<String> },
    Or { patterns: Vec<PyPattern> },
}

/// A Python statement; `line` is the 1-based line where it starts.
#[derive(Debug)]
pub enum PyStmt {
    FunctionDef {
        name: String,
        line: usize,
        decorators: Vec<PyExpr>,
        params: PyParams,
        return_annotation: Option<PyExpr>,
        body: Vec<PyStmt>,
    },
    ClassDef { name: String, line: usize, bases: Vec<PyExpr>, body: Vec<PyStmt> },
    Import { names: Vec<PyAlias> },
    ImportFrom { module: Option<String>, level: u32, names: Vec<PyAlias> },
    Assign { targets: Vec<PyExpr>, value: PyExpr },
    AugAssign { target: PyExpr, value: PyExpr },
    AnnAssign { target: PyExpr, annotation: PyExpr, value: Option<PyExpr> },
    For { is_async: bool, target: PyExpr, iter: PyExpr, body: Vec<PyStmt>, orelse: Vec<PyStmt> },
    While { test: PyExpr, body: Vec<PyStmt>, orelse: Vec<PyStmt> },
    If { test: PyExpr, body: Vec<PyStmt>, clauses: Vec<PyElifClause> },
    With { is_async: bool, items: Vec<PyWithItem>, body: Vec<PyStmt> },
    Return { value: Option<PyExpr> },
    Delete { targets: Vec<PyExpr> },
    Expr { value: PyExpr },
    Try { body: Vec<PyStmt>, handlers: Vec<PyHandler>, orelse: Vec<PyStmt>, finalbody: Vec<PyStmt> },
    Raise { exc: Option<PyExpr>, cause: Option<PyExpr> },
    Assert { test: PyExpr, msg: Option<PyExpr> },
    Match { subject: PyExpr, cases: Vec<PyMatchCase> },
    TypeAlias { name: PyExpr, value: PyExpr, line: usize },
    /// `pass`, `break`, `continue`, `global`, `nonlocal` and the like.
    Other,
}

/// A parsed module: its statements and the line where it starts.
#[derive(Debug)]
pub struct PyModule {
    pub body: Vec<PyStmt>,
    pub line: usize,
}

} // verus!
