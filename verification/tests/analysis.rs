//! Analysis tests over small Python programs: each program is parsed with
//! ruff, turned into the library's syntax tree and analyzed.

use std::collections::HashSet;

use pycg_rs::analyzer::graph::CallGraph;
use pycg_rs::analyzer::pipeline::SourceFile;
use pycg_rs::node::Flavor;
use pycg_rs::json::{JsonGraph, JsonTool};
use pycg_rs::query::{
    callees, callers, neighbors, path, summary, symbols_in, uses_edge_total, MatchMode, QueryDocument, QueryGraphMode,
    QueryRenderOptions, QueryResponseInner, TargetKind,
};
use pycg_rs::visgraph::{VisualGraph, VisualOptions};
use pycg_rs::writer::{write_dot, write_json, write_text, write_tgf, JsonGraphMode, JsonOutputOptions};
use pycg_rs::pyast::{
    CompKind, PyAlias, PyComprehension, PyDictItem, PyElifClause, PyExpr, PyHandler, PyMatchCase, PyModule,
    PyParam, PyParams, PyPattern, PyStmt, PyWithItem,
};
use ruff_python_ast as ast;
use ruff_python_parser::{parse_unchecked, Mode, ParseOptions};
use ruff_source_file::LineIndex;
use ruff_text_size::Ranged;

// ---------------------------------------------------------------------------
// From ruff's syntax tree to the library's
// ---------------------------------------------------------------------------

fn conv_exprs<'a>(es: impl Iterator<Item = &'a ast::Expr>) -> Vec<PyExpr> {
    es.map(conv_expr).collect()
}

fn conv_opt(e: &Option<Box<ast::Expr>>) -> Option<Box<PyExpr>> {
    e.as_ref().map(|x| Box::new(conv_expr(x)))
}

fn conv_comprehensions(gens: &[ast::Comprehension]) -> Vec<PyComprehension> {
    gens.iter()
        .map(|g| PyComprehension {
            target: conv_expr(&g.target),
            iter: conv_expr(&g.iter),
            ifs: conv_exprs(g.ifs.iter()),
            is_async: g.is_async,
        })
        .collect()
}

fn conv_param(p: &ast::Parameter, default: Option<&ast::Expr>) -> PyParam {
    PyParam {
        name: p.name.id.to_string(),
        annotation: p.annotation.as_ref().map(|a| conv_expr(a)),
        default: default.map(conv_expr),
    }
}

fn conv_params(p: &ast::Parameters) -> PyParams {
    PyParams {
        posonlyargs: p.posonlyargs.iter().map(|a| conv_param(&a.parameter, a.default.as_deref())).collect(),
        args: p.args.iter().map(|a| conv_param(&a.parameter, a.default.as_deref())).collect(),
        vararg: p.vararg.as_ref().map(|v| conv_param(v, None)),
        kwonlyargs: p.kwonlyargs.iter().map(|a| conv_param(&a.parameter, a.default.as_deref())).collect(),
        kwarg: p.kwarg.as_ref().map(|v| conv_param(v, None)),
    }
}

fn interpolations<'a>(elements: impl Iterator<Item = &'a ast::InterpolatedStringElement>) -> Vec<PyExpr> {
    elements
        .filter_map(|el| match el {
            ast::InterpolatedStringElement::Interpolation(i) => Some(conv_expr(&i.expression)),
            ast::InterpolatedStringElement::Literal(_) => None,
        })
        .collect()
}

fn conv_expr(e: &ast::Expr) -> PyExpr {
    match e {
        ast::Expr::Name(n) => PyExpr::Name { id: n.id.to_string(), load: n.ctx == ast::ExprContext::Load },
        ast::Expr::Attribute(a) => PyExpr::Attribute {
            value: Box::new(conv_expr(&a.value)),
            attr: a.attr.id.to_string(),
            load: a.ctx == ast::ExprContext::Load,
        },
        ast::Expr::Call(c) => PyExpr::Call {
            func: Box::new(conv_expr(&c.func)),
            args: conv_exprs(c.arguments.args.iter()),
            keywords: c.arguments.keywords.iter().map(|k| conv_expr(&k.value)).collect(),
        },
        ast::Expr::Lambda(l) => PyExpr::Lambda {
            params: l.parameters.as_ref().map(|p| Box::new(conv_params(p))),
            body: Box::new(conv_expr(&l.body)),
        },
        ast::Expr::ListComp(c) => PyExpr::Comp {
            kind: CompKind::ListComp,
            elt: Box::new(conv_expr(&c.elt)),
            value: None,
            generators: conv_comprehensions(&c.generators),
        },
        ast::Expr::SetComp(c) => PyExpr::Comp {
            kind: CompKind::SetComp,
            elt: Box::new(conv_expr(&c.elt)),
            value: None,
            generators: conv_comprehensions(&c.generators),
        },
        ast::Expr::DictComp(c) => PyExpr::Comp {
            kind: CompKind::DictComp,
            elt: Box::new(c.key.as_ref().map(|k| conv_expr(k)).unwrap_or(PyExpr::OtherLit)),
            value: Some(Box::new(conv_expr(&c.value))),
            generators: conv_comprehensions(&c.generators),
        },
        ast::Expr::Generator(c) => PyExpr::Comp {
            kind: CompKind::GeneratorExp,
            elt: Box::new(conv_expr(&c.elt)),
            value: None,
            generators: conv_comprehensions(&c.generators),
        },
        ast::Expr::BoolOp(b) => PyExpr::BoolOp { values: conv_exprs(b.values.iter()) },
        ast::Expr::BinOp(b) => PyExpr::BinOp { left: Box::new(conv_expr(&b.left)), right: Box::new(conv_expr(&b.right)) },
        ast::Expr::UnaryOp(u) => PyExpr::UnaryOp {
            negate: matches!(u.op, ast::UnaryOp::USub),
            operand: Box::new(conv_expr(&u.operand)),
        },
        ast::Expr::If(i) => PyExpr::IfExp {
            test: Box::new(conv_expr(&i.test)),
            body: Box::new(conv_expr(&i.body)),
            orelse: Box::new(conv_expr(&i.orelse)),
        },
        ast::Expr::Dict(d) => PyExpr::Dict {
            items: d
                .items
                .iter()
                .map(|it| PyDictItem { key: it.key.as_ref().map(conv_expr), value: conv_expr(&it.value) })
                .collect(),
        },
        ast::Expr::Set(s) => PyExpr::SetDisplay { elts: conv_exprs(s.elts.iter()) },
        ast::Expr::Tuple(t) => PyExpr::Tuple { elts: conv_exprs(t.elts.iter()) },
        ast::Expr::List(l) => PyExpr::List { elts: conv_exprs(l.elts.iter()) },
        ast::Expr::Subscript(s) => PyExpr::Subscript {
            value: Box::new(conv_expr(&s.value)),
            slice: Box::new(conv_expr(&s.slice)),
        },
        ast::Expr::Starred(s) => PyExpr::Starred { value: Box::new(conv_expr(&s.value)) },
        ast::Expr::Await(a) => PyExpr::Await { value: Box::new(conv_expr(&a.value)) },
        ast::Expr::YieldFrom(y) => PyExpr::Await { value: Box::new(conv_expr(&y.value)) },
        ast::Expr::Yield(y) => PyExpr::Yield { value: conv_opt(&y.value) },
        ast::Expr::Compare(c) => PyExpr::Compare {
            left: Box::new(conv_expr(&c.left)),
            comparators: conv_exprs(c.comparators.iter()),
        },
        ast::Expr::Slice(s) => PyExpr::Slice { lower: conv_opt(&s.lower), upper: conv_opt(&s.upper), step: conv_opt(&s.step) },
        ast::Expr::Named(n) => PyExpr::Named { target: Box::new(conv_expr(&n.target)), value: Box::new(conv_expr(&n.value)) },
        ast::Expr::FString(f) => PyExpr::FString { exprs: interpolations(f.value.elements()) },
        ast::Expr::TString(t) => PyExpr::FString { exprs: interpolations(t.value.elements()) },
        ast::Expr::StringLiteral(s) => PyExpr::StrLit { value: s.value.to_str().to_string() },
        ast::Expr::NumberLiteral(n) => match &n.value {
            ast::Number::Int(i) => PyExpr::IntLit { value: i.as_i64() },
            _ => PyExpr::OtherLit,
        },
        _ => PyExpr::OtherLit,
    }
}

fn conv_pattern(p: &ast::Pattern) -> PyPattern {
    match p {
        ast::Pattern::MatchValue(v) => PyPattern::Value { value: conv_expr(&v.value) },
        ast::Pattern::MatchSingleton(_) => PyPattern::Singleton,
        ast::Pattern::MatchSequence(s) => PyPattern::Sequence { patterns: s.patterns.iter().map(conv_pattern).collect() },
        ast::Pattern::MatchMapping(m) => PyPattern::Mapping {
            keys: conv_exprs(m.keys.iter()),
            patterns: m.patterns.iter().map(conv_pattern).collect(),
            rest: m.rest.as_ref().map(|r| r.id.to_string()),
        },
        ast::Pattern::MatchClass(c) => PyPattern::Class {
            cls: conv_expr(&c.cls),
            patterns: c.arguments.patterns.iter().map(conv_pattern).collect(),
            kw_patterns: c.arguments.keywords.iter().map(|k| conv_pattern(&k.pattern)).collect(),
        },
        ast::Pattern::MatchStar(s) => PyPattern::Star { name: s.name.as_ref().map(|n| n.id.to_string()) },
        ast::Pattern::MatchAs(a) => PyPattern::As {
            pattern: a.pattern.as_ref().map(|p| Box::new(conv_pattern(p))),
            name: a.name.as_ref().map(|n| n.id.to_string()),
        },
        ast::Pattern::MatchOr(o) => PyPattern::Or { patterns: o.patterns.iter().map(conv_pattern).collect() },
    }
}

fn conv_alias(a: &ast::Alias) -> PyAlias {
    PyAlias { name: a.name.id.to_string(), asname: a.asname.as_ref().map(|n| n.id.to_string()) }
}

fn conv_body(body: &[ast::Stmt], li: &LineIndex) -> Vec<PyStmt> {
    body.iter().map(|s| conv_stmt(s, li)).collect()
}

fn conv_stmt(s: &ast::Stmt, li: &LineIndex) -> PyStmt {
    let line = li.line_index(s.range().start()).get();
    match s {
        ast::Stmt::FunctionDef(f) => PyStmt::FunctionDef {
            name: f.name.id.to_string(),
            line,
            decorators: f.decorator_list.iter().map(|d| conv_expr(&d.expression)).collect(),
            params: conv_params(&f.parameters),
            return_annotation: f.returns.as_ref().map(|r| conv_expr(r)),
            body: conv_body(&f.body, li),
        },
        ast::Stmt::ClassDef(c) => PyStmt::ClassDef {
            name: c.name.id.to_string(),
            line,
            bases: c.arguments.as_ref().map(|a| conv_exprs(a.args.iter())).unwrap_or_default(),
            body: conv_body(&c.body, li),
        },
        ast::Stmt::Return(r) => PyStmt::Return { value: r.value.as_ref().map(|v| conv_expr(v)) },
        ast::Stmt::Delete(d) => PyStmt::Delete { targets: conv_exprs(d.targets.iter()) },
        ast::Stmt::TypeAlias(t) => PyStmt::TypeAlias { name: conv_expr(&t.name), value: conv_expr(&t.value), line },
        ast::Stmt::Assign(a) => PyStmt::Assign { targets: conv_exprs(a.targets.iter()), value: conv_expr(&a.value) },
        ast::Stmt::AugAssign(a) => PyStmt::AugAssign { target: conv_expr(&a.target), value: conv_expr(&a.value) },
        ast::Stmt::AnnAssign(a) => PyStmt::AnnAssign {
            target: conv_expr(&a.target),
            annotation: conv_expr(&a.annotation),
            value: a.value.as_ref().map(|v| conv_expr(v)),
        },
        ast::Stmt::For(f) => PyStmt::For {
            is_async: f.is_async,
            target: conv_expr(&f.target),
            iter: conv_expr(&f.iter),
            body: conv_body(&f.body, li),
            orelse: conv_body(&f.orelse, li),
        },
        ast::Stmt::While(w) => PyStmt::While { test: conv_expr(&w.test), body: conv_body(&w.body, li), orelse: conv_body(&w.orelse, li) },
        ast::Stmt::If(i) => PyStmt::If {
            test: conv_expr(&i.test),
            body: conv_body(&i.body, li),
            clauses: i
                .elif_else_clauses
                .iter()
                .map(|c| PyElifClause { test: c.test.as_ref().map(conv_expr), body: conv_body(&c.body, li) })
                .collect(),
        },
        ast::Stmt::With(w) => PyStmt::With {
            is_async: w.is_async,
            items: w
                .items
                .iter()
                .map(|it| PyWithItem {
                    context_expr: conv_expr(&it.context_expr),
                    optional_vars: it.optional_vars.as_ref().map(|v| conv_expr(v)),
                })
                .collect(),
            body: conv_body(&w.body, li),
        },
        ast::Stmt::Match(m) => PyStmt::Match {
            subject: conv_expr(&m.subject),
            cases: m
                .cases
                .iter()
                .map(|c| PyMatchCase {
                    pattern: conv_pattern(&c.pattern),
                    guard: c.guard.as_ref().map(|g| conv_expr(g)),
                    body: conv_body(&c.body, li),
                })
                .collect(),
        },
        ast::Stmt::Raise(r) => PyStmt::Raise {
            exc: r.exc.as_ref().map(|e| conv_expr(e)),
            cause: r.cause.as_ref().map(|e| conv_expr(e)),
        },
        ast::Stmt::Try(t) => PyStmt::Try {
            body: conv_body(&t.body, li),
            handlers: t
                .handlers
                .iter()
                .map(|h| {
                    let ast::ExceptHandler::ExceptHandler(h) = h;
                    PyHandler {
                        type_: h.type_.as_ref().map(|e| conv_expr(e)),
                        name: h.name.as_ref().map(|n| n.id.to_string()),
                        body: conv_body(&h.body, li),
                    }
                })
                .collect(),
            orelse: conv_body(&t.orelse, li),
            finalbody: conv_body(&t.finalbody, li),
        },
        ast::Stmt::Assert(a) => PyStmt::Assert { test: conv_expr(&a.test), msg: a.msg.as_ref().map(|m| conv_expr(m)) },
        ast::Stmt::Import(i) => PyStmt::Import { names: i.names.iter().map(conv_alias).collect() },
        ast::Stmt::ImportFrom(i) => PyStmt::ImportFrom {
            module: i.module.as_ref().map(|m| m.id.to_string()),
            level: i.level,
            names: i.names.iter().map(conv_alias).collect(),
        },
        ast::Stmt::Expr(e) => PyStmt::Expr { value: conv_expr(&e.value) },
        _ => PyStmt::Other,
    }
}

fn parse(source: &str) -> PyModule {
    let parsed = parse_unchecked(source, ParseOptions::from(Mode::Module));
    let li = LineIndex::from_source_text(source);
    match parsed.into_syntax() {
        ast::Mod::Module(m) => PyModule { body: conv_body(&m.body, &li), line: 1 },
        _ => panic!("expected a module"),
    }
}

// ---------------------------------------------------------------------------
// The Python programs under test
// ---------------------------------------------------------------------------

const STMT_COVERAGE: &str = r#"
class Worker:
    def __init__(self):
        self.value = 0

    def __enter__(self):
        return self

    def __exit__(self, *args):
        return False


def process(x=None):
    return x


def assist():
    return None


def uses_while():
    n = 0
    while n < 3:
        process(n)
        n += 1


def uses_try():
    try:
        process(1)
    except ValueError:
        pass


def uses_try_except_body():
    try:
        raise ValueError()
    except ValueError:
        assist()


def uses_match(cmd):
    match cmd:
        case "go":
            process(cmd)
        case _:
            pass


def uses_ann_assign():
    result: int = process(2)
    return result


def uses_lambda():
    f = lambda v: process(v)
    return f


def uses_defaults(w=Worker()):
    return w


def uses_for(items):
    for item in items:
        Worker()


def uses_with():
    with Worker() as w:
        process(w)


CONFIG = None


def uses_global():
    global CONFIG
    CONFIG = Worker()


def outer():
    holder = None

    def inner():
        nonlocal holder
        holder = Worker()

    inner()
    return holder
"#;

const BINDING_COVERAGE: &str = r#"
class X:
    def x_method(self):
        pass


class Y:
    def y_method(self):
        pass


class Z:
    def z_method(self):
        pass


def tuple_unpack():
    a, b = X(), Y()
    a.x_method()
    b.y_method()


def list_unpack():
    [a, b] = [X(), Y()]
    a.x_method()
    b.y_method()


def nested_tuple_unpack():
    a, (b, c) = X(), (Y(), Z())
    a.x_method()
    b.y_method()


def starred_unpack():
    a, *rest = X(), Y(), Z()
    a.x_method()


class Holder:
    def __init__(self):
        self.item = X()

    def use_item(self):
        self.item.x_method()


def aug_assign():
    total = X()
    total += Y()
"#;

const RESOLUTION_COVERAGE: &str = r#"
class Inner:
    def deep_method(self):
        pass


class Outer:
    def __init__(self):
        self.inner = Inner()


class GrandParent:
    def inherited(self):
        pass


class Parent(GrandParent):
    pass


class GrandChild(Parent):
    pass


def chained_attr():
    o = Outer()
    o.inner.deep_method()


def call_then_attr():
    Outer().inner.deep_method()


def mro_grandchild():
    g = GrandChild()
    g.inherited()


def subscript_call():
    items = {"key": Inner()}
    items["key"].deep_method()
"#;

const SUPER_COVERAGE: &str = r#"
class Base:
    def greet(self):
        return "hello"


class Derived(Base):
    def greet(self):
        return super().greet()


def call_greet():
    inst = Derived()
    return inst.greet()
"#;

const POSTPROCESS_EFFECTS: &str = r#"
class Parent:
    def inherited_method(self):
        pass


class Child(Parent):
    def own_method(self):
        pass


def caller_uses_child():
    c = Child()
    c.inherited_method()
    c.own_method()


def caller_with_lambda():
    c = Child()
    f = lambda: c.own_method()
    return f


def caller_with_listcomp():
    return [Child() for _ in range(3)]
"#;

const POSTPROCESS_EXACTNESS: &str = r#"
class Parent:
    def ping(self):
        pass


class Child(Parent):
    def ping(self):
        pass


class Sibling:
    def ping(self):
        pass


def wildcard_ping_caller():
    ping()
"#;

const COMPREHENSION_COVERAGE: &str = r#"
class Sequence:
    def __iter__(self):
        return self

    def __next__(self):
        raise StopIteration


def set_comp_protocol():
    return {x for x in Sequence()}


def dict_comp_protocol():
    return {x: x for x in Sequence()}


def genexpr_protocol():
    return list(x for x in Sequence())
"#;

const REGRESSION_ISSUE2: &str = r#"
a: int = 3
b: str


def annotated_fn(x: int) -> int:
    y: int = x
    return y


class Container:
    value: int = 0

    def set_value(self, v: int) -> None:
        self.value: int = v
"#;

const REGRESSION_ISSUE3: &str = r#"
def f(rows):
    return [[cell for cell in row] for row in rows]


def g(rows):
    return [{"k": v} for v in rows]


def h(rows):
    return sum(x for x in (y for y in rows))


def set_comp(rows):
    return {r for r in rows if r}


def dict_comp(rows):
    return {k: v for k, v in rows}
"#;

const REGRESSION_ISSUE5: &str = r#"import numpy as np
import pandas as pd
from .missing import helper
from ..nowhere import other


class MyProcessor:
    def __init__(self, data):
        self.data = np.array(data)

    def process(self):
        frame = pd.DataFrame(self.data)
        return helper(frame)
"#;

const ACCURACY_ALIAS: &str = r#"
def target_one():
    pass


def target_two():
    pass


def func_a():
    pass


def bar():
    pass


def simple_alias_caller():
    a = target_one
    a()


def chained_alias_caller():
    a = b = target_one
    b()
    a = b = target_two
    a()


def local_rebind_caller(flag):
    if flag:
        foo = func_a
    else:
        foo = bar
    foo()
"#;

const ACCURACY_FACTORY: &str = r#"
class Product:
    def make(self):
        pass


def factory():
    return Product()


def consumer():
    result = factory()
    result.make()
"#;

const ACCURACY_DECORATOR: &str = r#"
def simple_decorator(func):
    return func


def factory_decorator(arg):
    def decorator(func):
        return func

    return decorator


@simple_decorator
def simple_decorated():
    pass


@factory_decorator("arg")
def factory_decorated():
    pass


def call_decorated():
    simple_decorated()
    factory_decorated()
"#;

const ACCURACY_CONTAINER: &str = r#"
def func_a():
    pass


def func_b():
    pass


def func_c():
    pass


class HandlerA:
    def handle_a(self):
        pass


class HandlerB:
    def handle_b(self):
        pass


def list_subscript_caller():
    funcs = [func_a, func_b]
    funcs[0]()
    funcs[1]()


def dict_subscript_caller():
    dispatch = {"a": func_a, "c": func_c}
    dispatch["a"]()
    dispatch["c"]()


def list_subscript_method_caller():
    handlers = [HandlerA(), HandlerB()]
    handlers[0].handle_a()
    handlers[1].handle_b()


def dict_subscript_method_caller():
    handlers = {"a": HandlerA(), "b": HandlerB()}
    handlers["a"].handle_a()
    handlers["b"].handle_b()
"#;

const ACCURACY_HIGHER_ORDER: &str = r#"
def greet():
    pass


def make_greeter():
    return greet


def call_via_factory():
    fn = make_greeter()
    fn()


def add_nums(a, b):
    return a + b


def get_adder():
    return add_nums


def call_returned_fn():
    adder = get_adder()
    adder(1, 2)
"#;

const ACCURACY_CHAINED_CALL: &str = r#"
class Widget:
    def render(self):
        pass


def make():
    return Widget()


def direct_chain_caller():
    make().render()
"#;

const ACCURACY_MULTI_RETURN: &str = r#"
class A:
    def method(self):
        pass


class B:
    def method(self):
        pass


def choose(flag):
    if flag:
        return A()
    return B()


def multi_return_caller(flag):
    obj = choose(flag)
    obj.method()


def wrap(flag):
    return choose(flag)


def wrapped_multi_return_caller(flag):
    obj = wrap(flag)
    obj.method()
"#;

const ACCURACY_STAR_SRC: &str = r#"
def exported_func1():
    pass


def exported_func2():
    pass


def _private_helper():
    pass
"#;

const ACCURACY_STAR_USER: &str = r#"
from test_code.accuracy_star_src import *


def star_import_caller():
    exported_func1()
    exported_func2()
"#;

const REEXPORT_INIT: &str = r#"
from test_code.accuracy_reexport.impl import reexport_func
"#;

const REEXPORT_IMPL: &str = r#"
def reexport_func():
    return 42
"#;

const REEXPORT_USER: &str = r#"
from test_code.accuracy_reexport import reexport_func


def reexport_caller():
    return reexport_func()
"#;

const IMPORT_SIBLING: &str = r#"
def sibling_func():
    pass
"#;

const IMPORT_DEEP_INNER: &str = r#"
def deep_func():
    pass
"#;

const IMPORT_USER: &str = r#"
from .sibling import sibling_func
from .deep.inner import deep_func
from . import sibling


def caller():
    sibling_func()
    deep_func()
"#;

const SUBMODULE1: &str = r#"
from test_code import subpackage1
from test_code.subpackage1 import A


def test_func1(a):
    return a


def test_func2(a):
    return a


class B:
    def __init__(self, k):
        self.a = k

    def to_A(self):
        return subpackage1.A(self)

    def get_a_via_A(self):
        return test_func1(self.to_A().b.a)
"#;

const SUBMODULE2: &str = r#"
from . import submodule1
from test_code.submodule1 import test_func1, test_func2


def test_2(a, b):
    return test_func1(a) + test_func2(b)
"#;

const SUBPACKAGE1_INIT: &str = r#"
from test_code.subpackage1.submodule1 import A
"#;

const SUBPACKAGE1_SUBMODULE1: &str = r#"
from test_code.submodule1 import test_func1


class A:
    def __init__(self, b):
        self.b = test_func1(b)
"#;

const FEATURES: &str = r#"
import functools


class Decorated:
    @staticmethod
    def static_method():
        pass

    @classmethod
    def class_method(cls):
        return cls()

    @property
    def my_prop(self):
        return 1

    def regular(self):
        return self.my_prop


class Base:
    def base_method(self):
        pass


class Derived(Base):
    def derived_method(self):
        self.base_method()


class MixinA:
    def mixin_a(self):
        pass


class MixinB:
    def mixin_b(self):
        pass


class Combined(MixinA, MixinB):
    def combined(self):
        self.mixin_a()
        self.mixin_b()


def foo():
    pass


def bar():
    foo()


class Sequence:
    def __iter__(self):
        return self

    def __next__(self):
        raise StopIteration


def iterate_sequence():
    for item in Sequence():
        pass


def comprehend_sequence():
    return [item for item in Sequence()]


def process_items(items):
    for item in items:
        item.handle()


class MyCtx:
    def __enter__(self):
        return self

    def __exit__(self, exc_type, exc, tb):
        return False


def use_ctx():
    with MyCtx() as ctx:
        pass


class AsyncCM:
    async def __aenter__(self):
        return self

    async def __aexit__(self, exc_type, exc, tb):
        return False


async def use_async_cm():
    async with AsyncCM() as cm:
        pass


class AsyncStream:
    def __aiter__(self):
        return self

    async def __anext__(self):
        raise StopAsyncIteration


async def iterate_async_stream():
    async for chunk in AsyncStream():
        pass


class Alpha:
    def alpha_method(self):
        pass


class Beta:
    def beta_method(self):
        pass


class Gamma:
    def gamma_method(self):
        pass


class Delta:
    def delta_method(self):
        pass


def star_at_end():
    a, b, *c = Alpha(), Beta(), Gamma(), Delta()
    a.alpha_method()
    b.beta_method()


def star_in_middle():
    a, *b, c = Alpha(), Beta(), Gamma(), Delta()
    a.alpha_method()
    c.delta_method()


def star_at_start():
    *a, b = Alpha(), Beta(), Gamma()
    b.gamma_method()


class Registry:
    def __delattr__(self, name):
        pass

    def __delitem__(self, key):
        pass


def clear_entry():
    registry = Registry()
    del registry.entry


def remove_item():
    registry = Registry()
    del registry["key"]


def unbind_local():
    tmp = 1
    del tmp


class Printable:
    def __str__(self):
        return "printable"

    def __repr__(self):
        return "Printable()"


def call_str_repr():
    obj = Printable()
    str(obj)
    repr(obj)


class WorkerA:
    def do_work(self):
        pass


class WorkerB:
    def do_work(self):
        pass


def precision_caller():
    a = WorkerA()
    a.do_work()
    do_work()


def match_demo(command):
    match command:
        case ["go", direction]:
            return direction
        case {"action": action, **rest}:
            return action
        case Point(x=0) as p:
            return p
        case _:
            return None


type Alias = list[int]
"#;

/// Every program, by its path under the tests directory.
const FIXTURES: &[(&str, &str)] = &[
    ("test_code/__init__.py", ""),
    ("test_code/accuracy_alias.py", ACCURACY_ALIAS),
    ("test_code/accuracy_chained_call.py", ACCURACY_CHAINED_CALL),
    ("test_code/accuracy_container.py", ACCURACY_CONTAINER),
    ("test_code/accuracy_decorator.py", ACCURACY_DECORATOR),
    ("test_code/accuracy_factory.py", ACCURACY_FACTORY),
    ("test_code/accuracy_higher_order.py", ACCURACY_HIGHER_ORDER),
    ("test_code/accuracy_multi_return.py", ACCURACY_MULTI_RETURN),
    ("test_code/accuracy_reexport/__init__.py", REEXPORT_INIT),
    ("test_code/accuracy_reexport/impl.py", REEXPORT_IMPL),
    ("test_code/accuracy_reexport/user.py", REEXPORT_USER),
    ("test_code/accuracy_star_src.py", ACCURACY_STAR_SRC),
    ("test_code/accuracy_star_user.py", ACCURACY_STAR_USER),
    ("test_code/binding_coverage.py", BINDING_COVERAGE),
    ("test_code/comprehension_coverage.py", COMPREHENSION_COVERAGE),
    ("test_code/features.py", FEATURES),
    ("test_code/import_coverage/__init__.py", ""),
    ("test_code/import_coverage/deep/__init__.py", ""),
    ("test_code/import_coverage/deep/inner.py", IMPORT_DEEP_INNER),
    ("test_code/import_coverage/sibling.py", IMPORT_SIBLING),
    ("test_code/import_coverage/user.py", IMPORT_USER),
    ("test_code/postprocess_effects.py", POSTPROCESS_EFFECTS),
    ("test_code/postprocess_exactness.py", POSTPROCESS_EXACTNESS),
    ("test_code/regression_issue2.py", REGRESSION_ISSUE2),
    ("test_code/regression_issue3.py", REGRESSION_ISSUE3),
    ("test_code/regression_issue5.py", REGRESSION_ISSUE5),
    ("test_code/resolution_coverage.py", RESOLUTION_COVERAGE),
    ("test_code/stmt_coverage.py", STMT_COVERAGE),
    ("test_code/submodule1.py", SUBMODULE1),
    ("test_code/submodule2.py", SUBMODULE2),
    ("test_code/subpackage1/__init__.py", SUBPACKAGE1_INIT),
    ("test_code/subpackage1/submodule1.py", SUBPACKAGE1_SUBMODULE1),
    ("test_code/super_coverage.py", SUPER_COVERAGE),
];

/// The files of the whole `test_code` package that the package-wide tests
/// analyze together.
const PACKAGE_FILES: &[&str] = &[
    "test_code/__init__.py",
    "test_code/submodule1.py",
    "test_code/submodule2.py",
    "test_code/subpackage1/__init__.py",
    "test_code/subpackage1/submodule1.py",
];

fn source_of(rel: &str) -> &'static str {
    FIXTURES
        .iter()
        .find(|(p, _)| *p == rel)
        .map(|(_, s)| *s)
        .unwrap_or_else(|| panic!("no program {rel}"))
}

/// The dotted module name of a file path relative to a root.
fn module_name_for(rel: &str) -> String {
    let stem = rel.strip_suffix(".py").unwrap_or(rel);
    let stem = stem.strip_suffix("/__init__").unwrap_or(stem);
    stem.replace('/', ".")
}

/// Analyze the given files (paths under the tests directory), naming
/// modules relative to `root` (a prefix of the paths, possibly empty).
fn analyze(paths: &[&str], root: &str) -> CallGraph {
    let mut sorted: Vec<&str> = paths.to_vec();
    sorted.sort();
    let files: Vec<SourceFile> = sorted
        .iter()
        .map(|p| {
            let rel = p.strip_prefix(root).unwrap_or(p);
            SourceFile {
                filename: format!("tests/{p}"),
                module_name: module_name_for(rel),
                module: parse(source_of(p)),
            }
        })
        .collect();
    CallGraph::from_modules(&files)
}

fn make_fixture_graph(name: &str) -> CallGraph {
    analyze(&[&format!("test_code/{name}")], "")
}

fn make_single_fixture_graph(name: &str) -> CallGraph {
    make_fixture_graph(name)
}

fn make_features_graph() -> CallGraph {
    make_fixture_graph("features.py")
}

fn make_multi_fixture_graph(paths: &[&str]) -> CallGraph {
    analyze(paths, "")
}

fn make_fixture_dir_graph(subdir: &str) -> CallGraph {
    let prefix = format!("test_code/{subdir}/");
    let paths: Vec<&str> = FIXTURES.iter().map(|(p, _)| *p).filter(|p| p.starts_with(&prefix)).collect();
    analyze(&paths, "test_code/")
}

fn make_package_graph() -> CallGraph {
    analyze(PACKAGE_FILES, "")
}

// ---------------------------------------------------------------------------
// Reading the graph
// ---------------------------------------------------------------------------

fn full_name(cg: &CallGraph, id: usize) -> String {
    cg.nodes_arena[id].get_name(&cg.interner)
}

fn short_name(cg: &CallGraph, id: usize) -> String {
    cg.interner.resolve(cg.nodes_arena[id].name).to_string()
}

/// Nodes whose short name is `name`, or whose full name is `name` or ends
/// with `.name`.
fn find_nodes_by_name(cg: &CallGraph, name: &str) -> Vec<usize> {
    let suffix = format!(".{name}");
    (0..cg.nodes_arena.len())
        .filter(|&id| {
            let full = full_name(cg, id);
            short_name(cg, id) == name || full == name || full.ends_with(&suffix)
        })
        .collect()
}

fn targets(edges: &[pycg_rs::scope::ValueSet], id: usize) -> Vec<usize> {
    edges.get(id).map(|s| s.iter()).unwrap_or_default()
}

fn get_defines(cg: &CallGraph, source_name: &str) -> HashSet<String> {
    let mut out = HashSet::new();
    for id in find_nodes_by_name(cg, source_name) {
        for t in targets(&cg.defines_edges, id) {
            out.insert(short_name(cg, t));
        }
    }
    out
}

fn get_uses(cg: &CallGraph, source_name: &str) -> HashSet<String> {
    let mut out = HashSet::new();
    for id in find_nodes_by_name(cg, source_name) {
        for t in targets(&cg.uses_edges, id) {
            out.insert(short_name(cg, t));
        }
    }
    out
}

fn get_full_uses(cg: &CallGraph, source_name: &str) -> HashSet<String> {
    let mut out = HashSet::new();
    for id in find_nodes_by_name(cg, source_name) {
        for t in targets(&cg.uses_edges, id) {
            out.insert(full_name(cg, t));
        }
    }
    out
}

fn has_defines_edge(cg: &CallGraph, from: &str, to: &str) -> bool {
    find_nodes_by_name(cg, from)
        .into_iter()
        .any(|f| targets(&cg.defines_edges, f).into_iter().any(|t| short_name(cg, t) == to))
}

fn has_uses_edge(cg: &CallGraph, from: &str, to: &str) -> bool {
    find_nodes_by_name(cg, from)
        .into_iter()
        .any(|f| targets(&cg.uses_edges, f).into_iter().any(|t| short_name(cg, t) == to))
}

fn uses_node(cg: &CallGraph, from_ids: &[usize], to: usize) -> bool {
    from_ids.iter().any(|&f| targets(&cg.uses_edges, f).contains(&to))
}

fn has_concrete_uses_edge_for_name(cg: &CallGraph, from: &str, short: &str) -> bool {
    find_nodes_by_name(cg, from).into_iter().any(|f| {
        targets(&cg.uses_edges, f)
            .into_iter()
            .any(|t| short_name(cg, t) == short && cg.nodes_arena[t].namespace.is_some())
    })
}

fn namespace_of(cg: &CallGraph, id: usize) -> String {
    cg.nodes_arena[id].namespace.map(|s| cg.interner.resolve(s).to_string()).unwrap_or_default()
}

// ---------------------------------------------------------------------------
// Statement coverage
// ---------------------------------------------------------------------------

#[test]
fn test_stmt_while_produces_edge() {
    let cg = make_fixture_graph("stmt_coverage.py");
    assert!(has_uses_edge(&cg, "uses_while", "process"), "call inside while body must produce uses edge");
}

#[test]
fn test_stmt_try_produces_edge() {
    let cg = make_fixture_graph("stmt_coverage.py");
    assert!(has_uses_edge(&cg, "uses_try", "process"), "call inside try body must produce uses edge");
}

#[test]
fn test_stmt_try_except_body_produces_edge() {
    let cg = make_fixture_graph("stmt_coverage.py");
    assert!(has_uses_edge(&cg, "uses_try_except_body", "assist"), "call inside except body must produce uses edge");
}

#[test]
fn test_stmt_match_produces_edge() {
    let cg = make_fixture_graph("stmt_coverage.py");
    assert!(has_uses_edge(&cg, "uses_match", "process"), "call inside match arm must produce uses edge");
}

#[test]
fn test_stmt_ann_assign_produces_edge() {
    let cg = make_fixture_graph("stmt_coverage.py");
    assert!(has_uses_edge(&cg, "uses_ann_assign", "process"), "annotated assignment + call must produce uses edge");
}

#[test]
fn test_stmt_lambda_produces_edge() {
    let cg = make_fixture_graph("stmt_coverage.py");
    assert!(has_uses_edge(&cg, "uses_lambda", "process"), "lambda body call must produce uses edge (after collapse_inner)");
}

#[test]
fn test_stmt_default_arg_produces_edge() {
    let cg = make_fixture_graph("stmt_coverage.py");
    assert!(has_uses_edge(&cg, "uses_defaults", "Worker"), "default argument call must produce uses edge");
}

#[test]
fn test_stmt_for_produces_edge() {
    let cg = make_fixture_graph("stmt_coverage.py");
    assert!(has_uses_edge(&cg, "uses_for", "Worker"), "call inside for body must produce uses edge to constructor");
}

#[test]
fn test_stmt_with_produces_edge() {
    let cg = make_fixture_graph("stmt_coverage.py");
    assert!(has_uses_edge(&cg, "uses_with", "process"), "call inside with body must produce uses edge");
}

#[test]
fn test_stmt_global_scope_defs() {
    let cg = make_fixture_graph("stmt_coverage.py");
    assert!(has_uses_edge(&cg, "uses_global", "Worker"), "global var assignment must produce uses edge to class");
}

#[test]
fn test_stmt_nonlocal_scope_defs() {
    let cg = make_fixture_graph("stmt_coverage.py");
    assert!(has_uses_edge(&cg, "inner", "Worker"), "nonlocal var assignment must produce uses edge to class");
}

// ---------------------------------------------------------------------------
// Binding coverage
// ---------------------------------------------------------------------------

#[test]
fn test_binding_tuple_unpack() {
    let cg = make_fixture_graph("binding_coverage.py");
    assert!(has_uses_edge(&cg, "tuple_unpack", "x_method"), "first tuple element should resolve to X");
    assert!(has_uses_edge(&cg, "tuple_unpack", "y_method"), "second tuple element should resolve to Y");
}

#[test]
fn test_binding_list_unpack() {
    let cg = make_fixture_graph("binding_coverage.py");
    assert!(has_uses_edge(&cg, "list_unpack", "x_method"), "first list element should resolve to X");
    assert!(has_uses_edge(&cg, "list_unpack", "y_method"), "second list element should resolve to Y");
}

#[test]
fn test_binding_nested_tuple() {
    let cg = make_fixture_graph("binding_coverage.py");
    assert!(has_uses_edge(&cg, "nested_tuple_unpack", "x_method"), "first element of nested tuple should resolve");
    assert!(
        has_uses_edge(&cg, "nested_tuple_unpack", "Y") || has_uses_edge(&cg, "nested_tuple_unpack", "Z"),
        "nested tuple constructors should be tracked"
    );
}

#[test]
fn test_binding_starred() {
    let cg = make_fixture_graph("binding_coverage.py");
    assert!(has_uses_edge(&cg, "starred_unpack", "x_method"), "first element before star should resolve");
}

#[test]
fn test_binding_attr_assignment() {
    let cg = make_fixture_graph("binding_coverage.py");
    assert!(has_uses_edge(&cg, "__init__", "X"), "self.item = X() should track constructor call");
}

#[test]
fn test_binding_aug_assign() {
    let cg = make_fixture_graph("binding_coverage.py");
    assert!(
        has_uses_edge(&cg, "aug_assign", "X") || has_uses_edge(&cg, "aug_assign", "Y"),
        "augmented assignment should produce edge to constructor"
    );
}

// ---------------------------------------------------------------------------
// Resolution coverage
// ---------------------------------------------------------------------------

#[test]
fn test_resolution_chained_attr() {
    let cg = make_fixture_graph("resolution_coverage.py");
    assert!(has_uses_edge(&cg, "chained_attr", "Outer"), "chained attr should track constructor");
    assert!(
        has_uses_edge(&cg, "chained_attr", "inner") || has_uses_edge(&cg, "chained_attr", "deep_method"),
        "chained attr should track attribute access"
    );
}

#[test]
fn test_resolution_call_then_attr() {
    let cg = make_fixture_graph("resolution_coverage.py");
    assert!(has_uses_edge(&cg, "call_then_attr", "Outer"), "call-then-attr should track constructor");
}

#[test]
fn test_resolution_mro_grandchild() {
    let cg = make_fixture_graph("resolution_coverage.py");
    assert!(
        has_uses_edge(&cg, "mro_grandchild", "inherited"),
        "GrandChild.inherited() should resolve via MRO to GrandParent"
    );
}

#[test]
fn test_resolution_subscript_call() {
    let cg = make_fixture_graph("resolution_coverage.py");
    assert!(
        has_uses_edge(&cg, "subscript_call", "deep_method"),
        "items['key'].deep_method() should resolve through subscript"
    );
}

#[test]
fn test_resolution_super_targets_parent_method() {
    let cg = make_fixture_graph("super_coverage.py");
    let uses = get_full_uses(&cg, "Derived.greet");
    assert!(
        uses.contains("test_code.super_coverage.Base.greet"),
        "Derived.greet should resolve super().greet() to Base.greet, got: {uses:?}"
    );
}

// ---------------------------------------------------------------------------
// Postprocessing effects
// ---------------------------------------------------------------------------

#[test]
fn test_postprocess_cull_inherited() {
    let cg = make_fixture_graph("postprocess_effects.py");
    let uses = get_full_uses(&cg, "caller_uses_child");
    let inherited: Vec<_> = uses.iter().filter(|n| n.ends_with(".inherited_method")).cloned().collect();
    assert!(
        uses.contains("test_code.postprocess_effects.Parent.inherited_method"),
        "inherited method call must resolve concretely, got: {uses:?}"
    );
    assert_eq!(inherited.len(), 1, "cull_inherited should leave exactly one inherited_method target, got: {inherited:?}");
    assert!(has_uses_edge(&cg, "caller_uses_child", "own_method"), "own method call must resolve");
}

#[test]
fn test_postprocess_expand_unknowns_creates_concrete_edges() {
    let cg = make_fixture_graph("postprocess_exactness.py");
    let uses = get_full_uses(&cg, "wildcard_ping_caller");
    let ping: HashSet<_> = uses.iter().filter(|n| n.ends_with(".ping")).cloned().collect();
    assert_eq!(
        ping,
        HashSet::from([
            String::from("test_code.postprocess_exactness.Child.ping"),
            String::from("test_code.postprocess_exactness.Sibling.ping"),
        ]),
        "wildcard expansion should produce the concrete ping targets that remain after cull_inherited"
    );
}

#[test]
fn test_postprocess_cull_inherited_removes_parent_duplicate() {
    let cg = make_fixture_graph("postprocess_exactness.py");
    let uses = get_full_uses(&cg, "wildcard_ping_caller");
    assert!(
        !uses.contains("test_code.postprocess_exactness.Parent.ping"),
        "cull_inherited should remove Parent.ping when Child.ping is also present, got: {uses:?}"
    );
}

#[test]
fn test_postprocess_collapse_inner_lambda() {
    let cg = make_fixture_graph("postprocess_effects.py");
    assert!(has_uses_edge(&cg, "caller_with_lambda", "own_method"), "lambda body edges should collapse into parent function");
}

#[test]
fn test_postprocess_collapse_inner_listcomp() {
    let cg = make_fixture_graph("postprocess_effects.py");
    assert!(has_uses_edge(&cg, "caller_with_listcomp", "Child"), "listcomp edges should collapse into parent function");
}

#[test]
fn test_postprocess_resolve_imports() {
    let cg = make_multi_fixture_graph(&[
        "test_code/accuracy_reexport/__init__.py",
        "test_code/accuracy_reexport/impl.py",
        "test_code/accuracy_reexport/user.py",
    ]);
    let uses = get_full_uses(&cg, "reexport_caller");
    assert!(
        uses.contains("test_code.accuracy_reexport.impl.reexport_func"),
        "import resolution must remap reexport_caller to the concrete implementation, got: {uses:?}"
    );
    let imported = cg
        .nodes_arena
        .iter()
        .filter(|n| cg.interner.resolve(n.name) == "reexport_func" && n.flavor == Flavor::ImportedItem)
        .count();
    assert_eq!(imported, 0, "resolve_imports should not leave ImportedItem placeholders for reexport_func");
}

#[test]
fn test_postprocess_resolve_imports_module_alias_to_concrete_class() {
    let cg = make_package_graph();
    let uses = get_full_uses(&cg, "submodule1");
    let class_targets: HashSet<_> = uses.iter().filter(|n| n.ends_with(".A")).cloned().collect();
    assert!(uses.contains("test_code.subpackage1"), "submodule1 should keep the package module edge, got: {uses:?}");
    assert_eq!(
        class_targets,
        HashSet::from([String::from("test_code.subpackage1.submodule1.A")]),
        "resolve_imports should remap A to the concrete class implementation"
    );
}

#[test]
fn test_postprocess_changes_graph() {
    let cg = make_package_graph();
    let module_count = cg
        .nodes_arena
        .iter()
        .enumerate()
        .filter(|(id, n)| n.flavor == Flavor::Module && cg.defined[*id])
        .count();
    assert!(module_count >= 3, "postprocessing should keep module nodes defined, got {module_count}");
}

// ---------------------------------------------------------------------------
// Imports
// ---------------------------------------------------------------------------

#[test]
fn test_import_relative_resolution() {
    let cg = make_fixture_dir_graph("import_coverage");
    assert!(has_uses_edge(&cg, "caller", "sibling_func"), "relative import from .sibling should resolve sibling_func");
    assert!(has_uses_edge(&cg, "caller", "deep_func"), "relative import from .deep.inner should resolve deep_func");
}

#[test]
fn test_import_module_reference() {
    let cg = make_fixture_dir_graph("import_coverage");
    let uses = get_uses(&cg, "user");
    assert!(uses.iter().any(|n| n.contains("sibling")), "from . import sibling should create module edge, got: {uses:?}");
}

#[test]
fn test_visit_import_produces_module_edge() {
    let cg = make_package_graph();
    let uses = get_uses(&cg, "submodule2");
    assert!(uses.iter().any(|n| n.contains("submodule1")), "import statement should produce uses edge to module, got: {uses:?}");
}

// ---------------------------------------------------------------------------
// Core analysis
// ---------------------------------------------------------------------------

#[test]
fn test_class_found() {
    let cg = make_package_graph();
    let classes: Vec<String> = (0..cg.nodes_arena.len())
        .filter(|&id| cg.nodes_arena[id].flavor == Flavor::Class)
        .map(|id| short_name(&cg, id))
        .collect();
    assert!(classes.contains(&"A".to_string()), "Class A not found, got: {classes:?}");
}

#[test]
fn test_function_found() {
    let cg = make_package_graph();
    let functions: Vec<String> = (0..cg.nodes_arena.len())
        .filter(|&id| matches!(cg.nodes_arena[id].flavor, Flavor::Function | Flavor::Method))
        .map(|id| short_name(&cg, id))
        .collect();
    assert!(functions.contains(&"test_func1".to_string()), "test_func1 not found, got: {functions:?}");
}

#[test]
fn test_submodule_defines() {
    let cg = make_package_graph();
    let defs = get_defines(&cg, "submodule2");
    assert!(defs.contains("test_2"), "submodule2 should define test_2, got: {defs:?}");
}

#[test]
fn test_uses_edge_exists() {
    let cg = make_package_graph();
    let uses = get_uses(&cg, "test_2");
    assert!(
        uses.contains("test_func1") || uses.contains("test_func2"),
        "test_2 should use test_func1 or test_func2, got: {uses:?}"
    );
}

#[test]
fn test_regression_annotated_assignments() {
    let cg = make_fixture_graph("regression_issue2.py");
    assert!(has_defines_edge(&cg, "regression_issue2", "annotated_fn"), "issue2: module should define annotated_fn");
    assert!(has_defines_edge(&cg, "regression_issue2", "Container"), "issue2: module should define Container");
    assert!(has_defines_edge(&cg, "Container", "set_value"), "issue2: Container should define set_value");
}

#[test]
fn test_regression_comprehensions() {
    let cg = make_fixture_graph("regression_issue3.py");
    let defs = get_defines(&cg, "regression_issue3");
    for name in &["f", "g", "h", "set_comp", "dict_comp"] {
        assert!(defs.contains(*name), "issue3: module should define {name}, got: {defs:?}");
    }
}

#[test]
fn test_regression_external_deps() {
    let cg = make_fixture_graph("regression_issue5.py");
    assert!(has_defines_edge(&cg, "regression_issue5", "MyProcessor"), "issue5: module should define MyProcessor");
    assert!(has_defines_edge(&cg, "MyProcessor", "__init__"), "issue5: MyProcessor should define __init__");
    assert!(has_defines_edge(&cg, "MyProcessor", "process"), "issue5: MyProcessor should define process");
}

// ---------------------------------------------------------------------------
// Language features
// ---------------------------------------------------------------------------

#[test]
fn test_features_classes_found() {
    let cg = make_features_graph();
    let class_names: HashSet<String> = (0..cg.nodes_arena.len())
        .filter(|&id| cg.nodes_arena[id].flavor == Flavor::Class)
        .map(|id| short_name(&cg, id))
        .collect();
    for expected in ["Decorated", "Base", "Derived", "MixinA", "MixinB", "Combined"] {
        assert!(class_names.contains(expected), "Class {expected} not found, got: {class_names:?}");
    }
}

#[test]
fn test_features_decorators() {
    let cg = make_features_graph();
    assert!(has_defines_edge(&cg, "Decorated", "static_method"));
    assert!(has_defines_edge(&cg, "Decorated", "class_method"));
    assert!(has_defines_edge(&cg, "Decorated", "my_prop"));
    assert!(has_defines_edge(&cg, "Decorated", "regular"));
    let sm: Vec<_> = find_nodes_by_name(&cg, "static_method")
        .into_iter()
        .filter(|&id| cg.nodes_arena[id].flavor == Flavor::StaticMethod)
        .collect();
    assert!(!sm.is_empty(), "static_method should have StaticMethod flavor");
    let cm: Vec<_> = find_nodes_by_name(&cg, "class_method")
        .into_iter()
        .filter(|&id| cg.nodes_arena[id].flavor == Flavor::ClassMethod)
        .collect();
    assert!(!cm.is_empty(), "class_method should have ClassMethod flavor");
}

#[test]
fn test_features_inheritance() {
    let cg = make_features_graph();
    assert!(has_uses_edge(&cg, "Derived", "Base"), "Derived should use Base (inheritance)");
    assert!(has_uses_edge(&cg, "bar", "foo"), "bar should use foo");
}

#[test]
fn test_features_multiple_inheritance() {
    let cg = make_features_graph();
    assert!(has_uses_edge(&cg, "Combined", "MixinA"), "Combined should use MixinA");
    assert!(has_uses_edge(&cg, "Combined", "MixinB"), "Combined should use MixinB");
}

#[test]
fn test_iterator_protocol_for_loop() {
    let cg = make_features_graph();
    assert!(has_uses_edge(&cg, "iterate_sequence", "__iter__"), "iterate_sequence should use Sequence.__iter__");
    assert!(has_uses_edge(&cg, "iterate_sequence", "__next__"), "iterate_sequence should use Sequence.__next__");
}

#[test]
fn test_iterator_protocol_comprehension() {
    let cg = make_features_graph();
    assert!(has_uses_edge(&cg, "comprehend_sequence", "__iter__"), "comprehend_sequence should use Sequence.__iter__");
    assert!(has_uses_edge(&cg, "comprehend_sequence", "__next__"), "comprehend_sequence should use Sequence.__next__");
}

#[test]
fn test_iterator_protocol_set_comprehension() {
    let cg = make_fixture_graph("comprehension_coverage.py");
    assert!(has_uses_edge(&cg, "set_comp_protocol", "__iter__"), "set_comp_protocol should use Sequence.__iter__");
    assert!(has_uses_edge(&cg, "set_comp_protocol", "__next__"), "set_comp_protocol should use Sequence.__next__");
}

#[test]
fn test_iterator_protocol_dict_comprehension() {
    let cg = make_fixture_graph("comprehension_coverage.py");
    assert!(has_uses_edge(&cg, "dict_comp_protocol", "__iter__"), "dict_comp_protocol should use Sequence.__iter__");
    assert!(has_uses_edge(&cg, "dict_comp_protocol", "__next__"), "dict_comp_protocol should use Sequence.__next__");
}

#[test]
fn test_iterator_protocol_generator_expression() {
    let cg = make_fixture_graph("comprehension_coverage.py");
    assert!(has_uses_edge(&cg, "genexpr_protocol", "__iter__"), "genexpr_protocol should use Sequence.__iter__");
    assert!(has_uses_edge(&cg, "genexpr_protocol", "__next__"), "genexpr_protocol should use Sequence.__next__");
}

#[test]
fn test_iterator_protocol_not_emitted_for_unknowns() {
    let cg = make_features_graph();
    let uses = get_uses(&cg, "process_items");
    assert!(!uses.contains("__iter__"), "process_items iterates an arg, should NOT produce __iter__ edge, got: {uses:?}");
    assert!(!uses.contains("__next__"), "process_items iterates an arg, should NOT produce __next__ edge, got: {uses:?}");
}

#[test]
fn test_context_manager_protocol_sync() {
    let cg = make_features_graph();
    assert!(has_uses_edge(&cg, "use_ctx", "__enter__"), "use_ctx should use MyCtx.__enter__");
    assert!(has_uses_edge(&cg, "use_ctx", "__exit__"), "use_ctx should use MyCtx.__exit__");
}

#[test]
fn test_context_manager_protocol_async() {
    let cg = make_features_graph();
    assert!(has_uses_edge(&cg, "use_async_cm", "__aenter__"), "use_async_cm should use AsyncCM.__aenter__");
    assert!(has_uses_edge(&cg, "use_async_cm", "__aexit__"), "use_async_cm should use AsyncCM.__aexit__");
}

#[test]
fn test_features_async_iterator_protocol() {
    let cg = make_features_graph();
    assert!(has_uses_edge(&cg, "iterate_async_stream", "__aiter__"), "iterate_async_stream should use AsyncStream.__aiter__");
    assert!(has_uses_edge(&cg, "iterate_async_stream", "__anext__"), "iterate_async_stream should use AsyncStream.__anext__");
}

// ---------------------------------------------------------------------------
// Accuracy
// ---------------------------------------------------------------------------

#[test]
fn test_accuracy_simple_alias() {
    let cg = make_single_fixture_graph("accuracy_alias.py");
    assert!(has_uses_edge(&cg, "simple_alias_caller", "target_one"), "simple_alias_caller should use target_one via alias");
    let uses = get_uses(&cg, "simple_alias_caller");
    assert!(!uses.contains("target_two"), "simple_alias_caller must not use target_two, got: {uses:?}");
}

#[test]
fn test_accuracy_chained_alias() {
    let cg = make_single_fixture_graph("accuracy_alias.py");
    assert!(has_uses_edge(&cg, "chained_alias_caller", "target_one"), "chained_alias_caller should use target_one");
    assert!(has_uses_edge(&cg, "chained_alias_caller", "target_two"), "chained_alias_caller should use target_two");
}

#[test]
fn test_accuracy_factory_call_tracked() {
    let cg = make_single_fixture_graph("accuracy_factory.py");
    assert!(has_uses_edge(&cg, "consumer", "factory"), "consumer should use factory (direct function call)");
}

#[test]
fn test_accuracy_factory_constructs_product() {
    let cg = make_single_fixture_graph("accuracy_factory.py");
    assert!(has_uses_edge(&cg, "factory", "Product"), "factory should use Product");
}

#[test]
fn test_accuracy_factory_return_method() {
    let cg = make_single_fixture_graph("accuracy_factory.py");
    assert!(has_uses_edge(&cg, "consumer", "make"), "consumer should use Product.make via return-value propagation");
}

#[test]
fn test_accuracy_simple_decorator_applied() {
    let cg = make_single_fixture_graph("accuracy_decorator.py");
    assert!(has_uses_edge(&cg, "accuracy_decorator", "simple_decorator"), "module should use simple_decorator");
}

#[test]
fn test_accuracy_factory_decorator_applied() {
    let cg = make_single_fixture_graph("accuracy_decorator.py");
    assert!(has_uses_edge(&cg, "accuracy_decorator", "factory_decorator"), "module should use factory_decorator");
    assert!(
        has_uses_edge(&cg, "decorator", "factory_decorated"),
        "the inner decorator returned by factory_decorator should use factory_decorated"
    );
}

#[test]
fn test_accuracy_caller_uses_decorated_functions() {
    let cg = make_single_fixture_graph("accuracy_decorator.py");
    assert!(has_uses_edge(&cg, "call_decorated", "simple_decorated"), "call_decorated should use simple_decorated");
    assert!(has_uses_edge(&cg, "call_decorated", "factory_decorated"), "call_decorated should use factory_decorated");
}

#[test]
fn test_accuracy_list_subscript_call() {
    let cg = make_single_fixture_graph("accuracy_container.py");
    assert!(has_uses_edge(&cg, "list_subscript_caller", "func_a"), "list_subscript_caller should use func_a");
    assert!(has_uses_edge(&cg, "list_subscript_caller", "func_b"), "list_subscript_caller should use func_b");
}

#[test]
fn test_accuracy_dict_subscript_call() {
    let cg = make_single_fixture_graph("accuracy_container.py");
    assert!(has_uses_edge(&cg, "dict_subscript_caller", "func_a"), "dict_subscript_caller should use func_a");
    assert!(has_uses_edge(&cg, "dict_subscript_caller", "func_c"), "dict_subscript_caller should use func_c");
}

#[test]
fn test_accuracy_list_subscript_method_resolution() {
    let cg = make_single_fixture_graph("accuracy_container.py");
    assert!(has_uses_edge(&cg, "list_subscript_method_caller", "handle_a"), "should use handle_a via handlers[0]");
    assert!(has_uses_edge(&cg, "list_subscript_method_caller", "handle_b"), "should use handle_b via handlers[1]");
}

#[test]
fn test_accuracy_dict_subscript_method_resolution() {
    let cg = make_single_fixture_graph("accuracy_container.py");
    assert!(has_uses_edge(&cg, "dict_subscript_method_caller", "handle_a"), "should use handle_a via handlers[\"a\"]");
    assert!(has_uses_edge(&cg, "dict_subscript_method_caller", "handle_b"), "should use handle_b via handlers[\"b\"]");
}

#[test]
fn test_accuracy_star_import_calls_resolve() {
    let cg = make_multi_fixture_graph(&["test_code/accuracy_star_src.py", "test_code/accuracy_star_user.py"]);
    assert!(has_uses_edge(&cg, "star_import_caller", "exported_func1"), "star_import_caller should use exported_func1");
    assert!(has_uses_edge(&cg, "star_import_caller", "exported_func2"), "star_import_caller should use exported_func2");
}

fn reexport_graph() -> CallGraph {
    make_multi_fixture_graph(&[
        "test_code/accuracy_reexport/__init__.py",
        "test_code/accuracy_reexport/impl.py",
        "test_code/accuracy_reexport/user.py",
    ])
}

#[test]
fn test_accuracy_reexport_package_import_tracked() {
    let cg = reexport_graph();
    assert!(has_uses_edge(&cg, "accuracy_reexport", "reexport_func"), "accuracy_reexport package __init__ should use reexport_func");
}

#[test]
fn test_accuracy_reexport_chain_caller() {
    let cg = reexport_graph();
    assert!(has_uses_edge(&cg, "reexport_caller", "reexport_func"), "reexport_caller should use reexport_func via package re-export chain");
}

#[test]
fn test_accuracy_starred_unpack_constructors_tracked() {
    let cg = make_features_graph();
    assert!(has_uses_edge(&cg, "star_at_end", "Alpha"), "star_at_end must use Alpha");
    assert!(has_uses_edge(&cg, "star_at_end", "Beta"), "star_at_end must use Beta");
    assert!(has_uses_edge(&cg, "star_at_end", "Gamma"), "star_at_end must use Gamma");
    assert!(has_uses_edge(&cg, "star_at_end", "Delta"), "star_at_end must use Delta");
    assert!(has_uses_edge(&cg, "star_in_middle", "Alpha"), "star_in_middle must use Alpha");
    assert!(has_uses_edge(&cg, "star_in_middle", "Delta"), "star_in_middle must use Delta");
    assert!(has_uses_edge(&cg, "star_at_start", "Gamma"), "star_at_start must use Gamma");
}

#[test]
fn test_accuracy_starred_unpack_explicit_target_methods() {
    let cg = make_features_graph();
    assert!(has_uses_edge(&cg, "star_at_end", "alpha_method"), "star_at_end should use alpha_method");
    assert!(has_uses_edge(&cg, "star_at_end", "beta_method"), "star_at_end should use beta_method");
}

#[test]
fn test_positional_unpack_correct_class_binding() {
    let cg = make_features_graph();
    let alpha_method_in_alpha: Vec<usize> = find_nodes_by_name(&cg, "alpha_method")
        .into_iter()
        .filter(|&id| namespace_of(&cg, id).contains("Alpha"))
        .collect();
    assert!(!alpha_method_in_alpha.is_empty(), "Alpha.alpha_method node must exist");
    let star_at_end_ids = find_nodes_by_name(&cg, "star_at_end");
    assert!(!star_at_end_ids.is_empty(), "star_at_end must exist");
    assert!(
        alpha_method_in_alpha.iter().any(|&m| uses_node(&cg, &star_at_end_ids, m)),
        "star_at_end should use Alpha.alpha_method specifically"
    );
    let delta_method_in_delta: Vec<usize> = find_nodes_by_name(&cg, "delta_method")
        .into_iter()
        .filter(|&id| namespace_of(&cg, id).contains("Delta"))
        .collect();
    assert!(!delta_method_in_delta.is_empty(), "Delta.delta_method node must exist");
    let star_in_middle_ids = find_nodes_by_name(&cg, "star_in_middle");
    assert!(
        delta_method_in_delta.iter().any(|&m| uses_node(&cg, &star_in_middle_ids, m)),
        "star_in_middle should use Delta.delta_method specifically"
    );
}

#[test]
fn test_accuracy_higher_order_factory_call() {
    let cg = make_single_fixture_graph("accuracy_higher_order.py");
    assert!(has_uses_edge(&cg, "call_via_factory", "make_greeter"), "call_via_factory should use make_greeter");
}

#[test]
fn test_accuracy_higher_order_return_resolved() {
    let cg = make_single_fixture_graph("accuracy_higher_order.py");
    assert!(has_uses_edge(&cg, "call_via_factory", "greet"), "call_via_factory should use greet via return-value propagation");
}

#[test]
fn test_accuracy_higher_order_assigned_return() {
    let cg = make_single_fixture_graph("accuracy_higher_order.py");
    assert!(has_uses_edge(&cg, "call_returned_fn", "get_adder"), "call_returned_fn should use get_adder");
    assert!(has_uses_edge(&cg, "call_returned_fn", "add_nums"), "call_returned_fn should use add_nums via return-value propagation");
}

#[test]
fn test_accuracy_direct_chain_call_tracked() {
    let cg = make_single_fixture_graph("accuracy_chained_call.py");
    assert!(has_uses_edge(&cg, "direct_chain_caller", "make"), "direct_chain_caller should use make");
}

#[test]
fn test_accuracy_direct_chain_method_resolved() {
    let cg = make_single_fixture_graph("accuracy_chained_call.py");
    assert!(has_uses_edge(&cg, "direct_chain_caller", "render"), "direct_chain_caller should use render via make() return type");
}

#[test]
fn test_accuracy_multi_return_caller_uses_choose() {
    let cg = make_single_fixture_graph("accuracy_multi_return.py");
    assert!(has_uses_edge(&cg, "multi_return_caller", "choose"), "multi_return_caller should use choose");
}

#[test]
fn test_accuracy_multi_return_both_methods_reachable() {
    let cg = make_single_fixture_graph("accuracy_multi_return.py");
    let caller_ids = find_nodes_by_name(&cg, "multi_return_caller");
    let method_nodes: Vec<usize> =
        find_nodes_by_name(&cg, "method").into_iter().filter(|&id| uses_node(&cg, &caller_ids, id)).collect();
    assert!(method_nodes.len() >= 2, "multi_return_caller should use method from both A and B, found {}", method_nodes.len());
}

#[test]
fn test_accuracy_nested_multi_return_wrapper_preserves_all_candidates() {
    let cg = make_single_fixture_graph("accuracy_multi_return.py");
    assert!(has_uses_edge(&cg, "wrapped_multi_return_caller", "wrap"), "wrapped_multi_return_caller should use wrap");
    assert!(has_uses_edge(&cg, "wrap", "choose"), "wrap should use choose when returning choose(flag)");
    let caller_ids = find_nodes_by_name(&cg, "wrapped_multi_return_caller");
    let method_nodes: Vec<usize> =
        find_nodes_by_name(&cg, "method").into_iter().filter(|&id| uses_node(&cg, &caller_ids, id)).collect();
    assert!(method_nodes.len() >= 2, "wrapped_multi_return_caller should use method from both A and B, found {}", method_nodes.len());
}

#[test]
fn test_inv3_single_binding_still_resolves() {
    let cg = make_features_graph();
    assert!(has_uses_edge(&cg, "bar", "foo"), "bar should still use foo");
}

#[test]
fn test_inv3_inheritance_still_resolves() {
    let cg = make_features_graph();
    assert!(has_uses_edge(&cg, "Derived", "Base"), "Derived should still use Base");
}

#[test]
fn test_inv3_reexport_no_spurious_fanout() {
    let cg = reexport_graph();
    let uses = get_uses(&cg, "reexport_caller");
    assert!(uses.contains("reexport_func"), "reexport_caller must use reexport_func, got: {uses:?}");
    assert_eq!(uses, HashSet::from([String::from("reexport_func")]), "reexport_caller should only use reexport_func");
}

#[test]
fn test_del_delattr_protocol_known_receiver() {
    let cg = make_features_graph();
    assert!(has_uses_edge(&cg, "clear_entry", "__delattr__"), "clear_entry should use Registry.__delattr__");
}

#[test]
fn test_del_delitem_protocol_known_receiver() {
    let cg = make_features_graph();
    assert!(has_uses_edge(&cg, "remove_item", "__delitem__"), "remove_item should use Registry.__delitem__");
}

#[test]
fn test_del_local_no_protocol_edge() {
    let cg = make_features_graph();
    let uses = get_uses(&cg, "unbind_local");
    assert!(!uses.contains("__delattr__"), "unbind_local must not emit __delattr__, got: {uses:?}");
    assert!(!uses.contains("__delitem__"), "unbind_local must not emit __delitem__, got: {uses:?}");
}

#[test]
fn test_del_protocol_edges_are_concrete() {
    let cg = make_features_graph();
    for method in ["__delattr__", "__delitem__"] {
        for id in 0..cg.nodes_arena.len() {
            if short_name(&cg, id) == method {
                assert!(cg.nodes_arena[id].namespace.is_some(), "del protocol method {method} must resolve to a concrete node");
            }
        }
    }
}

#[test]
fn test_str_builtin_emits_dunder_str() {
    let cg = make_features_graph();
    assert!(has_uses_edge(&cg, "call_str_repr", "__str__"), "call_str_repr should use Printable.__str__ via str(obj)");
}

#[test]
fn test_repr_builtin_emits_dunder_repr() {
    let cg = make_features_graph();
    assert!(has_uses_edge(&cg, "call_str_repr", "__repr__"), "call_str_repr should use Printable.__repr__ via repr(obj)");
}

#[test]
fn test_accuracy_decorator_uses_decorated_function() {
    let cg = make_single_fixture_graph("accuracy_decorator.py");
    assert!(has_uses_edge(&cg, "simple_decorator", "simple_decorated"), "simple_decorator should use simple_decorated");
}

#[test]
fn test_expand_unknowns_scoped_by_concrete_resolution() {
    let cg = make_features_graph();
    assert!(
        has_uses_edge(&cg, "precision_caller", "do_work"),
        "precision_caller must use do_work via concrete a.do_work(), got: {:?}",
        get_uses(&cg, "precision_caller")
    );
    let worker_b: Vec<usize> =
        find_nodes_by_name(&cg, "do_work").into_iter().filter(|&id| namespace_of(&cg, id).contains("WorkerB")).collect();
    let callers = find_nodes_by_name(&cg, "precision_caller");
    assert!(
        !worker_b.iter().any(|&m| uses_node(&cg, &callers, m)),
        "precision_caller must not use WorkerB.do_work"
    );
}

#[test]
fn test_expand_unknowns_fanout_count_bounded() {
    let cg = make_features_graph();
    assert!(
        has_concrete_uses_edge_for_name(&cg, "precision_caller", "do_work"),
        "precision_caller must have at least one concrete 'do_work' uses edge"
    );
    let callers = find_nodes_by_name(&cg, "precision_caller");
    let count = find_nodes_by_name(&cg, "do_work")
        .into_iter()
        .filter(|&m| cg.nodes_arena[m].namespace.is_some() && uses_node(&cg, &callers, m))
        .count();
    assert!(count <= 1, "precision_caller should use at most 1 concrete 'do_work' node, got {count}");
}

// ---------------------------------------------------------------------------
// Rendering
// ---------------------------------------------------------------------------

fn no_fill(_group: usize, _hues: usize, _level: usize) -> String {
    "#ffffffb2".to_string()
}

fn render_text(cg: &CallGraph, options: &VisualOptions) -> String {
    let vg = VisualGraph::from_call_graph(
        &cg.nodes_arena,
        &cg.defined,
        &cg.defines_edges,
        &cg.uses_edges,
        options,
        &cg.interner,
        &no_fill,
    );
    write_text(&vg)
}

#[test]
fn cli_defaults_to_uses_edges_only() {
    let cg = make_fixture_graph("accuracy_factory.py");
    let stdout = render_text(&cg, &VisualOptions::from_flags(false, false, false, false, false));
    assert!(stdout.contains("[U]"), "default output should include uses edges");
    assert!(!stdout.contains("[D]"), "default output should not include defines edges");
}

#[test]
fn cli_can_render_defines_and_uses() {
    let cg = make_fixture_graph("accuracy_factory.py");
    let stdout = render_text(&cg, &VisualOptions::from_flags(true, true, false, false, false));
    assert!(stdout.contains("[U]"), "combined output should include uses edges");
    assert!(stdout.contains("[D]"), "combined output should include defines edges");
}

// ---------------------------------------------------------------------------
// Queries
// ---------------------------------------------------------------------------

/// Render options as the command line gives them for a run with root
/// `tests` on the given inputs.
fn query_options(inputs: &[&str]) -> QueryRenderOptions {
    QueryRenderOptions {
        analysis_root: Some("tests".to_string()),
        inputs: inputs.iter().map(|s| s.to_string()).collect(),
        cwd: "/work".to_string(),
    }
}

fn factory_options() -> QueryRenderOptions {
    query_options(&["tests/test_code/accuracy_factory.py"])
}

#[test]
fn path_query_text_output_is_human_readable() {
    let cg = make_fixture_graph("accuracy_factory.py");
    let response = path(
        &cg,
        "test_code.accuracy_factory.consumer",
        "test_code.accuracy_factory.Product.make",
        MatchMode::Exact,
        &factory_options(),
    );
    let stdout = response.render_text();
    assert!(
        stdout.contains("test_code.accuracy_factory.consumer -> test_code.accuracy_factory.Product.make"),
        "expected readable path output, got: {stdout}"
    );
}

#[test]
fn summary_stats_text_includes_stats_section() {
    let mut cg = make_fixture_graph("accuracy_factory.py");
    assert!(uses_edge_total(&cg).is_some());
    let response = summary(
        &mut cg,
        "tests/test_code/accuracy_factory.py",
        TargetKind::Path,
        QueryGraphMode::Symbol,
        &factory_options(),
        true,
    );
    let stdout = response.render_text();
    assert!(stdout.contains("symbol stats"), "expected 'symbol stats' section header, got: {stdout}");
    assert!(stdout.contains("callers:"), "expected 'callers:' in stats output, got: {stdout}");
    assert!(stdout.contains("callees:"), "expected 'callees:' in stats output, got: {stdout}");
}

#[test]
fn symbols_in_path_query_emits_schema_valid_results() {
    let mut cg = make_fixture_graph("accuracy_factory.py");
    let response = symbols_in(
        &mut cg,
        "tests/test_code/accuracy_factory.py",
        TargetKind::Path,
        QueryGraphMode::Symbol,
        &factory_options(),
    );
    let QueryResponseInner::SymbolsIn(QueryDocument::Answered { payload: symbols, .. }) = &response.0 else {
        panic!("expected symbols");
    };
    assert_eq!(symbols.len(), 5);
    assert!(
        symbols.iter().any(|symbol| symbol.canonical_name == "test_code.accuracy_factory.consumer"),
        "expected consumer symbol in result"
    );
}

#[test]
fn symbols_in_module_query_supports_module_mode() {
    let paths: Vec<&str> = FIXTURES.iter().map(|(p, _)| *p).filter(|p| p.starts_with("test_code/import_coverage/")).collect();
    let mut cg = analyze(&paths, "");
    let response = symbols_in(
        &mut cg,
        "test_code.import_coverage",
        TargetKind::Module,
        QueryGraphMode::Module,
        &query_options(&["tests/test_code/import_coverage"]),
    );
    let QueryResponseInner::SymbolsIn(QueryDocument::Answered { payload: symbols, .. }) = &response.0 else {
        panic!("expected symbols");
    };
    assert!(symbols.len() >= 5, "expected import_coverage module graph symbols, got {}", symbols.len());
}

#[test]
fn summary_query_emits_counts_and_schema_valid_output() {
    let mut cg = make_fixture_graph("accuracy_factory.py");
    let response = summary(
        &mut cg,
        "tests/test_code/accuracy_factory.py",
        TargetKind::Path,
        QueryGraphMode::Symbol,
        &factory_options(),
        false,
    );
    let QueryResponseInner::Summary(QueryDocument::Answered { payload, .. }) = &response.0 else {
        panic!("expected a summary");
    };
    assert_eq!(payload.file_count, 1);
    let count = |kind: &str| payload.symbol_counts.iter().find(|(k, _)| k == kind).map(|(_, c)| *c);
    assert_eq!(count("class"), Some(1));
    assert_eq!(count("function"), Some(2));
}

#[test]
fn summary_stats_json_includes_per_symbol_counts() {
    let mut cg = make_fixture_graph("accuracy_factory.py");
    let response = summary(
        &mut cg,
        "tests/test_code/accuracy_factory.py",
        TargetKind::Path,
        QueryGraphMode::Symbol,
        &factory_options(),
        true,
    );
    let QueryResponseInner::Summary(QueryDocument::Answered { payload, .. }) = &response.0 else {
        panic!("expected a summary");
    };
    let stats = payload.symbol_stats.as_ref().expect("symbol_stats should be present with --stats");
    assert!(!stats.is_empty(), "symbol_stats should not be empty");
    let counts: Vec<usize> = stats.iter().map(|s| s.caller_count).collect();
    for window in counts.windows(2) {
        assert!(window[0] <= window[1], "symbol_stats should be sorted by caller_count ascending, got: {counts:?}");
    }
}

#[test]
fn summary_stats_module_mode_omits_stats() {
    let paths: Vec<&str> = FIXTURES.iter().map(|(p, _)| *p).filter(|p| p.starts_with("test_code/import_coverage/")).collect();
    let mut cg = analyze(&paths, "");
    let response = summary(
        &mut cg,
        "test_code.import_coverage",
        TargetKind::Module,
        QueryGraphMode::Module,
        &query_options(&["tests/test_code/import_coverage"]),
        true,
    );
    let QueryResponseInner::Summary(QueryDocument::Answered { payload, .. }) = &response.0 else {
        panic!("expected a summary");
    };
    assert!(payload.symbol_stats.is_none(), "symbol_stats should be absent in module mode");
}

#[test]
fn callees_query_emits_expected_targets() {
    let cg = make_fixture_graph("accuracy_factory.py");
    let response = callees(&cg, "test_code.accuracy_factory.consumer", MatchMode::Exact, &factory_options());
    let QueryResponseInner::Callees(QueryDocument::Answered { payload: (_, edges), .. }) = &response.0 else {
        panic!("expected callees");
    };
    assert!(
        edges.iter().any(|edge| edge.target.canonical_name == "test_code.accuracy_factory.factory"),
        "expected factory in callees"
    );
    assert!(
        edges.iter().any(|edge| edge.target.canonical_name == "test_code.accuracy_factory.Product.make"),
        "expected Product.make in callees"
    );
}

#[test]
fn callers_query_emits_expected_sources() {
    let cg = make_fixture_graph("accuracy_factory.py");
    let response = callers(&cg, "test_code.accuracy_factory.factory", MatchMode::Exact, &factory_options());
    let QueryResponseInner::Callers(QueryDocument::Answered { payload: (_, edges), .. }) = &response.0 else {
        panic!("expected callers");
    };
    assert!(
        edges.iter().any(|edge| edge.source.canonical_name == "test_code.accuracy_factory.consumer"),
        "expected consumer in callers"
    );
}

#[test]
fn neighbors_query_emits_incoming_and_outgoing_neighbors() {
    let cg = make_fixture_graph("accuracy_factory.py");
    let response = neighbors(&cg, "test_code.accuracy_factory.consumer", MatchMode::Exact, &factory_options());
    let QueryResponseInner::Neighbors(QueryDocument::Answered { payload: (_, incoming, outgoing), .. }) = &response.0 else {
        panic!("expected neighbors");
    };
    assert_eq!(incoming.len(), 0, "consumer should not have direct callers in this fixture");
    assert_eq!(outgoing.len(), 3, "consumer should have three outgoing neighbors");
}

#[test]
fn path_query_emits_shortest_path() {
    let cg = make_fixture_graph("accuracy_factory.py");
    let response = path(
        &cg,
        "test_code.accuracy_factory.consumer",
        "test_code.accuracy_factory.Product.make",
        MatchMode::Exact,
        &factory_options(),
    );
    let QueryResponseInner::Path(QueryDocument::Answered { payload: paths, .. }) = &response.0 else {
        panic!("expected a path");
    };
    assert_eq!(paths.len(), 1);
    assert_eq!(paths[0].nodes.len(), 2);
}

#[test]
fn callees_text_lists_targets_by_name() {
    let cg = make_fixture_graph("accuracy_factory.py");
    let response = callees(&cg, "test_code.accuracy_factory.consumer", MatchMode::Exact, &factory_options());
    let text = response.render_text();
    let lines: Vec<&str> = text.lines().collect();
    assert_eq!(lines[0], "test_code.accuracy_factory.consumer");
    let targets: Vec<&str> = lines[1..].iter().map(|l| l.strip_prefix("  [uses] ").expect("an edge line")).collect();
    let mut sorted = targets.clone();
    sorted.sort();
    assert_eq!(targets, sorted);
    assert!(text.ends_with('\n'));
}

#[test]
fn unknown_symbol_query_reports_not_found() {
    let cg = make_fixture_graph("accuracy_factory.py");
    let response = callees(&cg, "nothing.here", MatchMode::Exact, &factory_options());
    assert!(response.is_error());
    assert_eq!(response.render_text(), "error: No symbol matched query 'nothing.here'\n");
}

#[test]
fn suffix_query_resolves_a_unique_suffix() {
    let cg = make_fixture_graph("accuracy_factory.py");
    let response = callers(&cg, "factory", MatchMode::Suffix, &factory_options());
    assert!(!response.is_error());
    let exact = callers(&cg, "factory", MatchMode::Exact, &factory_options());
    assert!(exact.is_error());
}

#[test]
fn ambiguous_suffix_query_lists_the_matches() {
    let cg = make_fixture_graph("accuracy_multi_return.py");
    let response = callees(&cg, "method", MatchMode::Suffix, &query_options(&["tests/test_code/accuracy_multi_return.py"]));
    let QueryResponseInner::Callees(QueryDocument::Failed { error, .. }) = &response.0 else {
        panic!("expected an error");
    };
    assert_eq!(error.code, "ambiguous_query");
    assert_eq!(error.message, "Query 'method' matched multiple symbols");
    assert_eq!(error.matches, vec!["test_code.accuracy_multi_return.A.method", "test_code.accuracy_multi_return.B.method"]);
}

#[test]
fn path_query_without_a_connection_reports_path_not_found() {
    let cg = make_fixture_graph("accuracy_factory.py");
    let response = path(
        &cg,
        "test_code.accuracy_factory.Product.make",
        "test_code.accuracy_factory.consumer",
        MatchMode::Exact,
        &factory_options(),
    );
    assert!(response.is_error());
    assert_eq!(
        response.render_text(),
        "error: No path connected 'test_code.accuracy_factory.Product.make' to 'test_code.accuracy_factory.consumer'\n"
    );
}

#[test]
fn path_from_a_symbol_to_itself_is_the_symbol() {
    let cg = make_fixture_graph("accuracy_factory.py");
    let response = path(
        &cg,
        "test_code.accuracy_factory.consumer",
        "test_code.accuracy_factory.consumer",
        MatchMode::Exact,
        &factory_options(),
    );
    assert_eq!(response.render_text(), "test_code.accuracy_factory.consumer\n");
}

// ---------------------------------------------------------------------------
// Graph output
// ---------------------------------------------------------------------------

fn package_visual(options: &VisualOptions) -> VisualGraph {
    let cg = make_package_graph();
    VisualGraph::from_call_graph(&cg.nodes_arena, &cg.defined, &cg.defines_edges, &cg.uses_edges, options, &cg.interner, &no_fill)
}

#[test]
fn test_modules_found() {
    let cg = make_package_graph();
    let module_names: Vec<String> = (0..cg.nodes_arena.len())
        .filter(|&id| cg.nodes_arena[id].flavor == Flavor::Module)
        .map(|id| full_name(&cg, id))
        .collect();
    assert!(module_names.iter().any(|n| n.contains("submodule1")), "submodule1 not found");
    assert!(module_names.iter().any(|n| n.contains("submodule2")), "submodule2 not found");
}

#[test]
fn test_dot_output_valid() {
    let vg = package_visual(&VisualOptions { draw_defines: true, draw_uses: true, colored: true, grouped: false, annotated: false });
    let dot = write_dot(&vg, &vec!["rankdir=TB".to_string()]);
    assert!(dot.starts_with("digraph G {"), "DOT output should start with 'digraph G {{'");
    assert!(dot.trim().ends_with('}'), "DOT output should end with '}}'");
    assert!(dot.contains("->"), "DOT output should contain edges");
    assert!(dot.contains("style=\"dashed\""), "DOT output should have defines edges (dashed)");
}

#[test]
fn test_dot_output_grouped() {
    let vg = package_visual(&VisualOptions { draw_defines: true, draw_uses: true, colored: true, grouped: true, annotated: false });
    let dot = write_dot(&vg, &vec!["rankdir=TB".to_string()]);
    assert!(dot.contains("subgraph cluster_"), "Grouped DOT should have subgraphs");
}

#[test]
fn test_module_graph() {
    let mut cg = make_package_graph();
    let (mod_nodes, mod_uses, mod_defined) = cg.derive_module_graph();
    assert!(mod_nodes.len() >= 5, "module graph should have several modules, got {}", mod_nodes.len());
    assert_eq!(mod_defined.len(), mod_nodes.len());
    let total_edges: usize = mod_uses.iter().map(|s| s.len()).sum();
    assert!(total_edges >= 3, "module graph should have cross-module edges, got {total_edges}");
    let opts = VisualOptions { draw_defines: false, draw_uses: true, colored: false, grouped: false, annotated: false };
    let no_defines: Vec<pycg_rs::scope::ValueSet> = (0..mod_nodes.len()).map(|_| pycg_rs::scope::ValueSet::empty()).collect();
    let vg = VisualGraph::from_call_graph(&mod_nodes, &mod_defined, &no_defines, &mod_uses, &opts, &cg.interner, &no_fill);
    let dot = write_dot(&vg, &vec!["rankdir=TB".to_string()]);
    assert!(dot.starts_with("digraph G {"));
    assert!(dot.contains("->"), "module DOT should contain edges");
}

#[test]
fn test_tgf_output_valid() {
    let vg = package_visual(&VisualOptions { draw_defines: true, draw_uses: true, colored: false, grouped: false, annotated: false });
    let tgf = write_tgf(&vg);
    assert!(tgf.contains('#'), "TGF should have # separator");
    let parts: Vec<&str> = tgf.splitn(2, '#').collect();
    assert_eq!(parts.len(), 2);
    let edges_section = parts[1].trim();
    assert!(!edges_section.is_empty(), "TGF should have edges");
}

#[test]
fn test_text_output_valid() {
    let vg = package_visual(&VisualOptions { draw_defines: true, draw_uses: true, colored: false, grouped: false, annotated: false });
    let text = write_text(&vg);
    assert!(text.contains("[D]") || text.contains("[U]"), "Text should have tagged edges");
    for line in text.lines() {
        if line.starts_with("    ") {
            assert!(line.contains("[D]") || line.contains("[U]"), "Indented lines should be tagged edges: {line}");
        }
    }
}

// ---------------------------------------------------------------------------
// The JSON document
// ---------------------------------------------------------------------------

fn tool() -> JsonTool {
    JsonTool { name: "pycg-rs".to_string(), version: "0.1.0".to_string(), commit: None }
}

fn json_options(mode: JsonGraphMode, inputs: &[&str]) -> JsonOutputOptions {
    JsonOutputOptions {
        graph_mode: mode,
        analysis_root: Some("tests".to_string()),
        inputs: inputs.iter().map(|s| s.to_string()).collect(),
        cwd: "/work".to_string(),
    }
}

fn symbol_json(name: &str) -> JsonGraph {
    let cg = make_fixture_graph(name);
    write_json(&cg, &json_options(JsonGraphMode::Symbol, &[&format!("tests/test_code/{name}")]), tool())
}

#[test]
fn cli_json_reports_external_references() {
    let json = symbol_json("regression_issue5.py");
    let external_refs = &json.diagnostics.external_references;
    assert!(
        external_refs.iter().any(|e| e.canonical_name == "numpy" || e.canonical_name == "os.path" || e.canonical_name == "pandas.io.parsers"),
        "expected diagnostics to include unresolved external imports"
    );
    let numpy = external_refs.iter().find(|e| e.canonical_name == "numpy").expect("expected numpy external reference");
    assert_eq!(numpy.kind, "module");
    assert_eq!(numpy.path.as_deref(), Some("test_code/regression_issue5.py"));
    assert_eq!(numpy.line, Some(1));
}

#[test]
fn cli_json_reports_external_references_in_module_mode() {
    let mut cg = make_fixture_graph("regression_issue5.py");
    let modules = cg.module_graph();
    let json = write_json(&modules, &json_options(JsonGraphMode::Module, &["tests/test_code/regression_issue5.py"]), tool());
    let node_ids: HashSet<&str> = json.nodes.iter().map(|n| n.id.as_str()).collect();
    let external_refs = &json.diagnostics.external_references;
    assert!(!external_refs.is_empty(), "expected module-mode external reference diagnostics");
    assert!(
        external_refs.iter().all(|e| node_ids.contains(e.source.as_str())),
        "expected module-mode external refs to point at emitted module nodes"
    );
    assert_eq!(json.graph_mode, "module");
}

#[test]
fn cli_json_suppresses_external_and_synthetic_unresolved_noise() {
    let json = symbol_json("regression_issue5.py");
    let unresolved: HashSet<&str> = json.diagnostics.unresolved_references.iter().map(|e| e.symbol.as_str()).collect();
    for suppressed in ["numpy", "os.path", "pandas.io.parsers", "^^^argument^^^"] {
        assert!(!unresolved.contains(suppressed), "expected unresolved diagnostics to suppress {suppressed}");
    }
}

#[test]
fn json_document_numbers_nodes_in_name_order() {
    let json = symbol_json("accuracy_factory.py");
    assert_eq!(json.schema_version, "1");
    assert_eq!(json.graph_mode, "symbol");
    assert_eq!(json.analysis.node_inclusion_policy, "defined_only");
    assert_eq!(json.analysis.path_kind, "root_relative");
    assert_eq!(json.analysis.root.as_deref(), Some("tests"));
    assert_eq!(json.analysis.inputs, vec!["test_code/accuracy_factory.py"]);
    let names: Vec<&str> = json.nodes.iter().map(|n| n.canonical_name.as_str()).collect();
    assert_eq!(
        names,
        vec![
            "test_code.accuracy_factory",
            "test_code.accuracy_factory.Product",
            "test_code.accuracy_factory.consumer",
            "test_code.accuracy_factory.factory",
            "test_code.accuracy_factory.Product.make",
        ]
    );
    let ids: Vec<&str> = json.nodes.iter().map(|n| n.id.as_str()).collect();
    assert_eq!(ids, vec!["n1", "n2", "n3", "n4", "n5"]);
    let make = &json.nodes[4];
    assert_eq!(make.kind, "method");
    assert_eq!(make.name, "make");
    assert_eq!(make.namespace.as_deref(), Some("test_code.accuracy_factory.Product"));
    let loc = make.location.as_ref().expect("a location");
    assert_eq!(loc.path, "test_code/accuracy_factory.py");
    assert_eq!(json.stats.nodes, 5);
    assert_eq!(json.stats.files_analyzed, 1);
    assert_eq!(
        json.stats.by_node_kind,
        vec![("class".to_string(), 1), ("function".to_string(), 2), ("method".to_string(), 1), ("module".to_string(), 1)]
    );
}

#[test]
fn json_edges_are_sorted_by_source_target_and_kind() {
    let json = symbol_json("accuracy_factory.py");
    assert_eq!(json.stats.edges, json.edges.len());
    let keys: Vec<(&str, &str, &str)> = json.edges.iter().map(|e| (e.source.as_str(), e.target.as_str(), e.kind.as_str())).collect();
    let mut sorted = keys.clone();
    sorted.sort();
    assert_eq!(keys, sorted);
    // The module defines its class and functions.
    assert!(keys.contains(&("n1", "n2", "defines")));
    assert!(keys.contains(&("n1", "n3", "defines")));
    // consumer uses factory.
    assert!(keys.contains(&("n3", "n4", "uses")));
    let defines = json.edges.iter().filter(|e| e.kind == "defines").count();
    let uses = json.edges.iter().filter(|e| e.kind == "uses").count();
    assert_eq!(json.stats.by_edge_kind, vec![("defines".to_string(), defines), ("uses".to_string(), uses)]);
}

#[test]
fn json_reports_ambiguous_resolutions_and_approximations() {
    let json = symbol_json("accuracy_multi_return.py");
    let ambiguous = &json.diagnostics.ambiguous_resolutions;
    let entry = ambiguous.iter().find(|e| e.symbol == "method").expect("a method ambiguity");
    assert_eq!(entry.candidate_targets.len(), 2);
    let a = json.nodes.iter().find(|n| n.canonical_name == "test_code.accuracy_multi_return.A.method").unwrap();
    let b = json.nodes.iter().find(|n| n.canonical_name == "test_code.accuracy_multi_return.B.method").unwrap();
    assert!(entry.candidate_targets.contains(&a.id) && entry.candidate_targets.contains(&b.id));
    let approximation = json.diagnostics.approximations.iter().find(|e| e.symbol.as_deref() == Some("method")).expect("a widening");
    assert_eq!(approximation.reason, "multiple_candidate_targets");
    assert_eq!(approximation.candidate_targets, entry.candidate_targets);
    assert_eq!(json.diagnostics.summary.ambiguous_resolutions, ambiguous.len());
    assert_eq!(json.diagnostics.summary.approximations, json.diagnostics.approximations.len());
}

#[test]
fn module_graph_links_modules_that_use_each_other() {
    let mut cg = make_fixture_dir_graph("import_coverage");
    let (nodes, uses, defined) = cg.derive_module_graph();
    let names: Vec<String> = nodes.iter().map(|n| n.get_name(&cg.interner)).collect();
    let mut sorted = names.clone();
    sorted.sort();
    sorted.dedup();
    assert_eq!(sorted.len(), names.len(), "module names are distinct: {names:?}");
    for m in ["import_coverage", "import_coverage.deep", "import_coverage.deep.inner", "import_coverage.sibling", "import_coverage.user"] {
        assert!(names.iter().any(|n| n == m), "{m} should be a module node, got {names:?}");
    }
    assert!(defined.iter().all(|d| *d));
    let index = |m: &str| names.iter().position(|n| n == m).unwrap();
    let user = index("import_coverage.user");
    let sibling = index("import_coverage.sibling");
    let inner = index("import_coverage.deep.inner");
    assert!(uses[user].contains(sibling), "user depends on sibling");
    assert!(uses[user].contains(inner), "user depends on deep.inner");
    assert!(uses[sibling].is_empty(), "sibling depends on nothing");
    for (i, targets) in uses.iter().enumerate() {
        assert!(!targets.contains(i), "no module depends on itself");
    }
    assert_eq!(nodes[user].filename.as_deref(), Some("tests/test_code/import_coverage/user.py"));
}

#[test]
fn empty_file_list_gives_empty_graph_and_no_match() {
    let files: Vec<SourceFile> = Vec::new();
    let cg = CallGraph::from_modules(&files);
    assert_eq!(cg.nodes_arena.len(), 0);
    let options = QueryRenderOptions { analysis_root: None, inputs: Vec::new(), cwd: "/work".to_string() };
    let response = callees(&cg, "x", MatchMode::Exact, &options);
    assert!(response.is_error());
    assert_eq!(response.render_text(), "error: No symbol matched query 'x'\n");
}
