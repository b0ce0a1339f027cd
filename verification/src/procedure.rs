//! The procedures that the lowering engine takes: parameters, an ordered
//! list of statements with suspension markers between them, and a final
//! expression.
//!
//! Statements work on named variables that hold a number or a text. What a
//! statement does is defined here, by `eval` and `run_stmt`; the spec functions
//! `chunks`, `emissions` and `declared` say how the markers divide a body.

use crate::text::{decimal, truncated};
use vstd::prelude::*;
use vstd::utf8::is_ascii_chars;

verus! {

/// A variable with its declared type: a parameter, or a local variable that
/// is kept across a suspension.
#[derive(Debug, PartialEq, Eq)]
pub struct Variable {
    pub name: String,
    pub ty: String,
}

/// A variable that a `let` introduces. The type is there when the procedure
/// wrote it down.
#[derive(Debug, PartialEq, Eq)]
pub struct Binding {
    pub name: String,
    pub ty: Option<String>,
}

/// An expression over the variables in scope.
#[derive(Debug, PartialEq, Eq)]
pub enum Expr {
    /// The value of a variable.
    Variable(String),
    /// A number.
    Number(u8),
    /// A text.
    Text(String),
    /// The sum of two numbers.
    Sum(Box<Expr>, Box<Expr>),
    /// The difference of two numbers.
    Difference(Box<Expr>, Box<Expr>),
    /// The product of two numbers.
    Product(Box<Expr>, Box<Expr>),
    /// A number written out in decimal.
    Decimal(Box<Expr>),
}

/// What a suspension marker hands back to the caller.
#[derive(Debug, PartialEq, Eq)]
pub enum Emission {
    /// Nothing.
    Silent,
    /// The value of the named variable.
    Variable(String),
    /// The marker holds something other than the name of a variable.
    Expression,
}

/// A statement of a procedure.
#[derive(Debug, PartialEq, Eq)]
pub enum Stmt {
    /// Introduces variables, one per value. The values are computed before
    /// any of the variables comes into scope.
    Let { bindings: Vec<Binding>, values: Vec<Expr> },
    /// Gives a variable a new value.
    Assign { target: String, value: Expr },
    /// Appends a text to a variable that holds a text.
    Append { target: String, text: Expr },
    /// Cuts a variable that holds a text down to its first `len` characters.
    Truncate { target: String, len: usize },
    /// A suspension marker.
    Freeze(Emission),
}

/// A sequential procedure with suspension markers.
#[derive(Debug, PartialEq, Eq)]
pub struct Procedure {
    pub parameters: Vec<Variable>,
    pub body: Vec<Stmt>,
    pub result: Expr,
}

/// A value that a variable holds.
#[derive(Debug, PartialEq, Eq)]
pub enum Value {
    Number(u8),
    Text(String),
}

/// A value as a mathematical object.
pub enum ValueModel {
    Number(u8),
    Text(Seq<char>),
}

impl View for Value {
    type V = ValueModel;

    open spec fn view(&self) -> ValueModel {
        match *self {
            Value::Number(n) => ValueModel::Number(n),
            Value::Text(text) => ValueModel::Text(text@),
        }
    }
}

/// The variables in scope with their values: `names[i]` holds `values[i]`.
/// Where a name occurs twice, the later one is meant.
pub struct ScopeModel {
    pub names: Seq<Seq<char>>,
    pub values: Seq<ValueModel>,
}

/// The names of a list of strings.
pub open spec fn texts(names: Seq<String>) -> Seq<Seq<char>> {
    Seq::new(names.len(), |i: int| names[i]@)
}

/// The values of a list, each as a mathematical object.
pub open spec fn models(values: Seq<Value>) -> Seq<ValueModel> {
    Seq::new(values.len(), |i: int| values[i]@)
}

/// An optional value as a mathematical object.
pub open spec fn option_model(value: Option<Value>) -> Option<ValueModel> {
    match value {
        Some(v) => Some(v@),
        None => None,
    }
}

/// The position of the variable that a name refers to: the last one of that
/// name.
pub open spec fn lookup(names: Seq<Seq<char>>, name: Seq<char>) -> Option<int>
    decreases names.len(),
{
    if names.len() == 0 {
        None
    } else if names.last() == name {
        Some(names.len() - 1)
    } else {
        lookup(names.drop_last(), name)
    }
}

/// The value of an expression, or `None` where it has none: a name that is
/// not in scope, an operand of the wrong kind, or a number beyond `u8`.
pub open spec fn eval(expr: Expr, scope: ScopeModel) -> Option<ValueModel>
    decreases expr,
{
    match expr {
        Expr::Variable(name) => match lookup(scope.names, name@) {
            Some(slot) => Some(scope.values[slot]),
            None => None,
        },
        Expr::Number(n) => Some(ValueModel::Number(n)),
        Expr::Text(text) => Some(ValueModel::Text(text@)),
        Expr::Sum(left, right) => match (eval(*left, scope), eval(*right, scope)) {
            (Some(ValueModel::Number(a)), Some(ValueModel::Number(b))) => if a + b <= u8::MAX {
                Some(ValueModel::Number((a + b) as u8))
            } else {
                None
            },
            _ => None,
        },
        Expr::Difference(left, right) => match (eval(*left, scope), eval(*right, scope)) {
            (Some(ValueModel::Number(a)), Some(ValueModel::Number(b))) => if b <= a {
                Some(ValueModel::Number((a - b) as u8))
            } else {
                None
            },
            _ => None,
        },
        Expr::Product(left, right) => match (eval(*left, scope), eval(*right, scope)) {
            (Some(ValueModel::Number(a)), Some(ValueModel::Number(b))) => if a * b <= u8::MAX {
                Some(ValueModel::Number((a * b) as u8))
            } else {
                None
            },
            _ => None,
        },
        Expr::Decimal(inner) => match eval(*inner, scope) {
            Some(ValueModel::Number(n)) => Some(ValueModel::Text(decimal(n as nat))),
            _ => None,
        },
    }
}

/// The values of a list of expressions, all in the same scope; `None` where
/// one of them has no value.
pub open spec fn eval_all(exprs: Seq<Expr>, scope: ScopeModel) -> Option<Seq<ValueModel>>
    decreases exprs.len(),
{
    if exprs.len() == 0 {
        Some(Seq::empty())
    } else {
        match (eval_all(exprs.drop_last(), scope), eval(exprs.last(), scope)) {
            (Some(values), Some(value)) => Some(values.push(value)),
            _ => None,
        }
    }
}

/// The names that a list of bindings introduces.
pub open spec fn bound_names(bindings: Seq<Binding>) -> Seq<Seq<char>> {
    Seq::new(bindings.len(), |i: int| bindings[i].name@)
}

/// The scope after a statement, or `None` where the statement cannot run.
///
/// A `let` needs as many values as names. An assignment needs its target in
/// scope. Appending needs a text on both sides. Truncating needs a text of
/// ASCII characters, in which every length is a character boundary. A
/// suspension marker leaves the scope as it is.
pub open spec fn run_stmt(stmt: Stmt, scope: ScopeModel) -> Option<ScopeModel> {
    match stmt {
        Stmt::Let { bindings, values } => match eval_all(values@, scope) {
            Some(computed) => if bindings.len() == values.len() {
                Some(
                    ScopeModel {
                        names: scope.names + bound_names(bindings@),
                        values: scope.values + computed,
                    },
                )
            } else {
                None
            },
            None => None,
        },
        Stmt::Assign { target, value } => match (lookup(scope.names, target@), eval(value, scope)) {
            (Some(slot), Some(computed)) => Some(
                ScopeModel { names: scope.names, values: scope.values.update(slot, computed) },
            ),
            _ => None,
        },
        Stmt::Append { target, text } => match (lookup(scope.names, target@), eval(text, scope)) {
            (Some(slot), Some(ValueModel::Text(tail))) => match scope.values[slot] {
                ValueModel::Text(head) => Some(
                    ScopeModel {
                        names: scope.names,
                        values: scope.values.update(slot, ValueModel::Text(head + tail)),
                    },
                ),
                _ => None,
            },
            _ => None,
        },
        Stmt::Truncate { target, len } => match lookup(scope.names, target@) {
            Some(slot) => match scope.values[slot] {
                ValueModel::Text(text) => if is_ascii_chars(text) {
                    Some(
                        ScopeModel {
                            names: scope.names,
                            values: scope.values.update(
                                slot,
                                ValueModel::Text(truncated(text, len as nat)),
                            ),
                        },
                    )
                } else {
                    None
                },
                _ => None,
            },
            None => None,
        },
        Stmt::Freeze(_) => Some(scope),
    }
}

/// The scope after a list of statements, run in order.
pub open spec fn run_all(stmts: Seq<Stmt>, scope: ScopeModel) -> Option<ScopeModel>
    decreases stmts.len(),
{
    if stmts.len() == 0 {
        Some(scope)
    } else {
        match run_all(stmts.drop_last(), scope) {
            Some(before) => run_stmt(stmts.last(), before),
            None => None,
        }
    }
}

/// A variable with its declared type as a mathematical object.
pub struct VariableModel {
    pub name: Seq<char>,
    pub ty: Seq<char>,
}

impl View for Variable {
    type V = VariableModel;

    open spec fn view(&self) -> VariableModel {
        VariableModel { name: self.name@, ty: self.ty@ }
    }
}

/// The variables of a list, each as a mathematical object.
pub open spec fn variables(list: Seq<Variable>) -> Seq<VariableModel> {
    Seq::new(list.len(), |i: int| list[i]@)
}

/// The names of a list of variables.
pub open spec fn names(list: Seq<VariableModel>) -> Seq<Seq<char>> {
    Seq::new(list.len(), |i: int| list[i].name)
}

/// The statement is a `let` that leaves out the type of a variable.
pub open spec fn lacks_type(stmt: Stmt) -> bool {
    match stmt {
        Stmt::Let { bindings, .. } => exists|i: int|
            0 <= i < bindings.len() && (#[trigger] bindings[i]).ty is None,
        _ => false,
    }
}

/// The variables among `bindings` that have a declared type, in order.
pub open spec fn typed(bindings: Seq<Binding>) -> Seq<VariableModel>
    decreases bindings.len(),
{
    if bindings.len() == 0 {
        Seq::empty()
    } else {
        match bindings.last().ty {
            Some(ty) => typed(bindings.drop_last()).push(
                VariableModel { name: bindings.last().name@, ty: ty@ },
            ),
            None => typed(bindings.drop_last()),
        }
    }
}

/// The variables that a list of statements declares with a type, in order.
pub open spec fn declared(stmts: Seq<Stmt>) -> Seq<VariableModel>
    decreases stmts.len(),
{
    if stmts.len() == 0 {
        Seq::empty()
    } else {
        match stmts.last() {
            Stmt::Let { bindings, .. } => declared(stmts.drop_last()) + typed(bindings@),
            _ => declared(stmts.drop_last()),
        }
    }
}

/// The names that a list of statements brings into scope, in order.
pub open spec fn let_names(stmts: Seq<Stmt>) -> Seq<Seq<char>>
    decreases stmts.len(),
{
    if stmts.len() == 0 {
        Seq::empty()
    } else {
        match stmts.last() {
            Stmt::Let { bindings, .. } => let_names(stmts.drop_last()) + bound_names(bindings@),
            _ => let_names(stmts.drop_last()),
        }
    }
}

/// The chunks of a body: the maximal runs of statements between two
/// consecutive suspension markers, or between a marker and an end of the body.
/// A body with `k` markers has `k + 1` chunks, some of them possibly empty.
pub open spec fn chunks(stmts: Seq<Stmt>) -> Seq<Seq<Stmt>>
    decreases stmts.len(),
{
    if stmts.len() == 0 {
        seq![Seq::empty()]
    } else {
        let before = chunks(stmts.drop_last());
        if stmts.last() is Freeze {
            before.push(Seq::empty())
        } else {
            before.update(before.len() - 1, before.last().push(stmts.last()))
        }
    }
}

/// What the suspension markers of a body hand back, in order.
pub open spec fn emissions(stmts: Seq<Stmt>) -> Seq<Emission>
    decreases stmts.len(),
{
    if stmts.len() == 0 {
        Seq::empty()
    } else {
        match stmts.last() {
            Stmt::Freeze(emission) => emissions(stmts.drop_last()).push(emission),
            _ => emissions(stmts.drop_last()),
        }
    }
}

/// The number of suspension markers in a list of statements.
pub open spec fn marker_count(stmts: Seq<Stmt>) -> nat
    decreases stmts.len(),
{
    if stmts.len() == 0 {
        0
    } else if stmts.last() is Freeze {
        marker_count(stmts.drop_last()) + 1
    } else {
        marker_count(stmts.drop_last())
    }
}

} // verus!
