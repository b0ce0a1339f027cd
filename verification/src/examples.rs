//! The two hand-written tasks as procedures, the proof that each task hands
//! back what the machine of its procedure hands back, and instances of those
//! machines that are known to run.

use crate::equivalence::{
    direct, lemma_lowering_keeps_outcome, lemma_runs_when_procedure_runs, payloads, run_through,
    Outcome,
};
use crate::lowering::{
    any_lacks_type, capture_set, fault_at, lemma_chunk_count, lower, lowers, StateMachine,
};
use crate::machine::{contents, filled, runs_from, Instance, StateModel};
use crate::complex::ComplexModel;
use crate::generator::FreezableGenerator4;
use crate::procedure::{
    bound_names, chunks, declared, emissions, eval, eval_all, lacks_type, lookup, models, names,
    run_stmt, typed, variables, Binding, Emission, Expr, Procedure, ScopeModel, Stmt, Value,
    ValueModel, Variable, VariableModel,
};
use crate::task::Freezable;
use crate::task::{FreezableError, FreezableState};
use crate::text::{decimal, lemma_decimal_is_ascii, truncated};
use vstd::pervasive::unreached;
use vstd::prelude::*;
use vstd::string::*;
use vstd::utf8::is_ascii_chars;

verus! {

/// The expression is the variable of the given name.
pub open spec fn is_variable(expr: Expr, name: Seq<char>) -> bool {
    expr matches Expr::Variable(n) && n@ == name
}

/// The statement is `let name: ty = init;` for a variable `init`.
pub open spec fn is_let(stmt: Stmt, name: Seq<char>, ty: Seq<char>, init: Seq<char>) -> bool {
    &&& stmt matches Stmt::Let { bindings, values }
    &&& bindings.len() == 1
    &&& bindings[0].name@ == name
    &&& bindings[0].ty matches Some(t)
    &&& t@ == ty
    &&& values.len() == 1
    &&& is_variable(values[0], init)
}

/// The statement is `name += 1;`.
pub open spec fn is_increment(stmt: Stmt, name: Seq<char>) -> bool {
    &&& stmt matches Stmt::Assign { target, value }
    &&& target@ == name
    &&& value matches Expr::Sum(left, right)
    &&& is_variable(*left, name)
    &&& *right == Expr::Number(1)
}

/// The statement is `freeze!(name);`.
pub open spec fn is_emission(stmt: Stmt, name: Seq<char>) -> bool {
    stmt matches Stmt::Freeze(Emission::Variable(n)) && n@ == name
}

/// The statement is `let (first, second): (ty, ty) = (source + 1, source - 1);`.
pub open spec fn is_neighbours(
    stmt: Stmt,
    first: Seq<char>,
    second: Seq<char>,
    ty: Seq<char>,
    source: Seq<char>,
) -> bool {
    &&& stmt matches Stmt::Let { bindings, values }
    &&& bindings.len() == 2
    &&& bindings[0].name@ == first
    &&& bindings[0].ty matches Some(t)
    &&& t@ == ty
    &&& bindings[1].name@ == second
    &&& bindings[1].ty matches Some(t)
    &&& t@ == ty
    &&& values.len() == 2
    &&& values[0] matches Expr::Sum(left, right)
    &&& is_variable(*left, source)
    &&& *right == Expr::Number(1)
    &&& values[1] matches Expr::Difference(left, right)
    &&& is_variable(*left, source)
    &&& *right == Expr::Number(1)
}

/// The statement is `let name: ty = (left * right).to_string();`.
pub open spec fn is_product_text(
    stmt: Stmt,
    name: Seq<char>,
    ty: Seq<char>,
    left: Seq<char>,
    right: Seq<char>,
) -> bool {
    &&& stmt matches Stmt::Let { bindings, values }
    &&& bindings.len() == 1
    &&& bindings[0].name@ == name
    &&& bindings[0].ty matches Some(t)
    &&& t@ == ty
    &&& values.len() == 1
    &&& values[0] matches Expr::Decimal(product)
    &&& *product matches Expr::Product(l, r)
    &&& is_variable(*l, left)
    &&& is_variable(*r, right)
}

/// The procedure is the generator of four consecutive numbers:
///
/// ```text
/// fn freezable_generator_4(begin: u8) -> u8 {
///     let mut next: u8 = begin;
///     freeze!(next);
///     next += 1;
///     freeze!(next);
///     next += 1;
///     freeze!(next);
///     next += 1;
///     next
/// }
/// ```
pub open spec fn is_generator_4(procedure: Procedure) -> bool {
    &&& procedure.parameters.len() == 1
    &&& procedure.parameters[0].name@ == "begin"@
    &&& procedure.parameters[0].ty@ == "u8"@
    &&& procedure.body.len() == 7
    &&& is_let(procedure.body[0], "next"@, "u8"@, "begin"@)
    &&& is_emission(procedure.body[1], "next"@)
    &&& is_increment(procedure.body[2], "next"@)
    &&& is_emission(procedure.body[3], "next"@)
    &&& is_increment(procedure.body[4], "next"@)
    &&& is_emission(procedure.body[5], "next"@)
    &&& is_increment(procedure.body[6], "next"@)
    &&& is_variable(procedure.result, "next"@)
}

/// The procedure is the task of three silent suspensions:
///
/// ```text
/// fn freezable_complex(begin: u8) -> String {
///     let current_num: u8 = begin;
///     freeze!();
///     let (num1, num2): (u8, u8) = (current_num + 1, current_num - 1);
///     freeze!();
///     let mut mult_str: String = (num1 * num2).to_string();
///     freeze!();
///     mult_str.push_str(" a random text");
///     mult_str.truncate(10);
///     mult_str
/// }
/// ```
pub open spec fn is_complex(procedure: Procedure) -> bool {
    &&& procedure.parameters.len() == 1
    &&& procedure.parameters[0].name@ == "begin"@
    &&& procedure.parameters[0].ty@ == "u8"@
    &&& procedure.body.len() == 8
    &&& is_let(procedure.body[0], "current_num"@, "u8"@, "begin"@)
    &&& procedure.body[1] == Stmt::Freeze(Emission::Silent)
    &&& is_neighbours(procedure.body[2], "num1"@, "num2"@, "u8"@, "current_num"@)
    &&& procedure.body[3] == Stmt::Freeze(Emission::Silent)
    &&& is_product_text(procedure.body[4], "mult_str"@, "String"@, "num1"@, "num2"@)
    &&& procedure.body[5] == Stmt::Freeze(Emission::Silent)
    &&& procedure.body[6] matches Stmt::Append { target, text }
    &&& target@ == "mult_str"@
    &&& text matches Expr::Text(suffix)
    &&& suffix@ == " a random text"@
    &&& procedure.body[7] matches Stmt::Truncate { target, len }
    &&& target@ == "mult_str"@
    &&& len == 10
    &&& is_variable(procedure.result, "mult_str"@)
}

/// The statement `let name: ty = init;`.
fn declare(name: &str, ty: &str, init: &str) -> (stmt: Stmt)
    ensures
        is_let(stmt, name@, ty@, init@),
{
    let mut bindings: Vec<Binding> = Vec::new();
    bindings.push(Binding { name: String::from_str(name), ty: Some(String::from_str(ty)) });
    let mut values: Vec<Expr> = Vec::new();
    values.push(Expr::Variable(String::from_str(init)));
    Stmt::Let { bindings, values }
}

/// The statement `name += 1;`.
fn increment(name: &str) -> (stmt: Stmt)
    ensures
        is_increment(stmt, name@),
{
    Stmt::Assign {
        target: String::from_str(name),
        value: Expr::Sum(
            Box::new(Expr::Variable(String::from_str(name))),
            Box::new(Expr::Number(1)),
        ),
    }
}

/// The statement `freeze!(name);`.
fn emit(name: &str) -> (stmt: Stmt)
    ensures
        is_emission(stmt, name@),
{
    Stmt::Freeze(Emission::Variable(String::from_str(name)))
}

/// The generator of four consecutive numbers as a procedure.
pub fn freezable_generator_4() -> (procedure: Procedure)
    ensures
        is_generator_4(procedure),
{
    let mut parameters: Vec<Variable> = Vec::new();
    parameters.push(Variable { name: String::from_str("begin"), ty: String::from_str("u8") });
    let mut body: Vec<Stmt> = Vec::new();
    body.push(declare("next", "u8", "begin"));
    body.push(emit("next"));
    body.push(increment("next"));
    body.push(emit("next"));
    body.push(increment("next"));
    body.push(emit("next"));
    body.push(increment("next"));
    Procedure { parameters, body, result: Expr::Variable(String::from_str("next")) }
}

/// The task of three silent suspensions as a procedure.
pub fn freezable_complex() -> (procedure: Procedure)
    ensures
        is_complex(procedure),
{
    let mut parameters: Vec<Variable> = Vec::new();
    parameters.push(Variable { name: String::from_str("begin"), ty: String::from_str("u8") });
    let mut pair: Vec<Binding> = Vec::new();
    pair.push(Binding { name: String::from_str("num1"), ty: Some(String::from_str("u8")) });
    pair.push(Binding { name: String::from_str("num2"), ty: Some(String::from_str("u8")) });
    let mut neighbours: Vec<Expr> = Vec::new();
    neighbours.push(
        Expr::Sum(
            Box::new(Expr::Variable(String::from_str("current_num"))),
            Box::new(Expr::Number(1)),
        ),
    );
    neighbours.push(
        Expr::Difference(
            Box::new(Expr::Variable(String::from_str("current_num"))),
            Box::new(Expr::Number(1)),
        ),
    );
    let mut text: Vec<Binding> = Vec::new();
    text.push(Binding { name: String::from_str("mult_str"), ty: Some(String::from_str("String")) });
    let mut product: Vec<Expr> = Vec::new();
    product.push(
        Expr::Decimal(
            Box::new(
                Expr::Product(
                    Box::new(Expr::Variable(String::from_str("num1"))),
                    Box::new(Expr::Variable(String::from_str("num2"))),
                ),
            ),
        ),
    );
    let mut body: Vec<Stmt> = Vec::new();
    body.push(declare("current_num", "u8", "begin"));
    body.push(Stmt::Freeze(Emission::Silent));
    body.push(Stmt::Let { bindings: pair, values: neighbours });
    body.push(Stmt::Freeze(Emission::Silent));
    body.push(Stmt::Let { bindings: text, values: product });
    body.push(Stmt::Freeze(Emission::Silent));
    body.push(
        Stmt::Append {
            target: String::from_str("mult_str"),
            text: Expr::Text(String::from_str(" a random text")),
        },
    );
    body.push(Stmt::Truncate { target: String::from_str("mult_str"), len: 10 });
    Procedure { parameters, body, result: Expr::Variable(String::from_str("mult_str")) }
}

/// The value that a result of the hand-written generator carries.
pub open spec fn carried(result: Result<FreezableState<u8>, FreezableError>) -> Option<ValueModel> {
    match result {
        Ok(FreezableState::Finished(n)) => Some(ValueModel::Number(n)),
        Ok(FreezableState::Frozen(Some(n))) => Some(ValueModel::Number(n)),
        _ => None,
    }
}

/// What the hand-written generator hands back in its four steps.
pub open spec fn generator_4_outcome(begin: u8) -> Outcome {
    let (first, emitted1) = FreezableGenerator4::Chunk0(begin).next();
    let (second, emitted2) = first.next();
    let (third, emitted3) = second.next();
    let (_, finished) = third.next();
    Outcome {
        emissions: seq![carried(emitted1), carried(emitted2), carried(emitted3)],
        result: carried(finished)->0,
    }
}

/// The value that a result of the hand-written complex task carries.
pub open spec fn carried_text(
    result: Result<FreezableState<Seq<char>>, FreezableError>,
) -> Option<ValueModel> {
    match result {
        Ok(FreezableState::Finished(text)) => Some(ValueModel::Text(text)),
        Ok(FreezableState::Frozen(Some(text))) => Some(ValueModel::Text(text)),
        _ => None,
    }
}

/// What the hand-written complex task hands back in its four steps.
pub open spec fn complex_outcome(begin: u8) -> Outcome {
    let (first, emitted1) = ComplexModel::Chunk0(begin).next();
    let (second, emitted2) = first.next();
    let (third, emitted3) = second.next();
    let (_, finished) = third.next();
    Outcome {
        emissions: seq![carried_text(emitted1), carried_text(emitted2), carried_text(emitted3)],
        result: carried_text(finished)->0,
    }
}

/// A `let` of one variable that starts from another brings the name into
/// scope with the value of that other variable.
proof fn lemma_let_runs(
    stmt: Stmt,
    scope: ScopeModel,
    name: Seq<char>,
    ty: Seq<char>,
    init: Seq<char>,
    slot: int,
)
    requires
        is_let(stmt, name, ty, init),
        lookup(scope.names, init) == Some(slot),
    ensures
        run_stmt(stmt, scope) == Some(
            ScopeModel {
                names: scope.names.push(name),
                values: scope.values.push(scope.values[slot]),
            },
        ),
{
    reveal_with_fuel(eval_all, 2);
    let bindings = stmt->Let_bindings@;
    let values = stmt->Let_values@;
    assert(values.drop_last() == Seq::<Expr>::empty());
    assert(Seq::<ValueModel>::empty().push(scope.values[slot]) == seq![scope.values[slot]]);
    assert(scope.values + seq![scope.values[slot]] == scope.values.push(scope.values[slot]));
    assert(bound_names(bindings) == seq![name]);
    assert(scope.names + seq![name] == scope.names.push(name));
}

/// An increment gives a variable that holds a number below the top of the
/// range the next number.
proof fn lemma_increment_runs(stmt: Stmt, scope: ScopeModel, name: Seq<char>, slot: int, n: u8)
    requires
        is_increment(stmt, name),
        lookup(scope.names, name) == Some(slot),
        scope.values[slot] == ValueModel::Number(n),
        n < u8::MAX,
    ensures
        run_stmt(stmt, scope) == Some(
            ScopeModel {
                names: scope.names,
                values: scope.values.update(slot, ValueModel::Number((n + 1) as u8)),
            },
        ),
{
    reveal_with_fuel(eval, 3);
}

/// The `let` of the two neighbours of a number brings both into scope.
proof fn lemma_neighbours_run(
    stmt: Stmt,
    scope: ScopeModel,
    first: Seq<char>,
    second: Seq<char>,
    ty: Seq<char>,
    source: Seq<char>,
    slot: int,
    n: u8,
)
    requires
        is_neighbours(stmt, first, second, ty, source),
        lookup(scope.names, source) == Some(slot),
        scope.values[slot] == ValueModel::Number(n),
        1 <= n < u8::MAX,
    ensures
        run_stmt(stmt, scope) == Some(
            ScopeModel {
                names: scope.names.push(first).push(second),
                values: scope.values.push(ValueModel::Number((n + 1) as u8)).push(
                    ValueModel::Number((n - 1) as u8),
                ),
            },
        ),
{
    reveal_with_fuel(eval_all, 3);
    reveal_with_fuel(eval, 3);
    let bindings = stmt->Let_bindings@;
    let values = stmt->Let_values@;
    let up = ValueModel::Number((n + 1) as u8);
    let down = ValueModel::Number((n - 1) as u8);
    assert(values.drop_last().drop_last() == Seq::<Expr>::empty());
    assert(values.drop_last().last() == values[0]);
    assert(eval(values[0], scope) == Some(up));
    assert(eval(values[1], scope) == Some(down));
    assert(Seq::<ValueModel>::empty().push(up).push(down) == seq![up, down]);
    assert(eval_all(values, scope) == Some(seq![up, down]));
    assert(scope.values + seq![up, down] == scope.values.push(up).push(down));
    assert(bound_names(bindings) == seq![first, second]);
    assert(scope.names + seq![first, second] == scope.names.push(first).push(second));
}

/// The `let` of the product of two numbers, written in decimal, brings the
/// text into scope.
proof fn lemma_product_text_runs(
    stmt: Stmt,
    scope: ScopeModel,
    name: Seq<char>,
    ty: Seq<char>,
    left: Seq<char>,
    right: Seq<char>,
    left_slot: int,
    right_slot: int,
    a: u8,
    b: u8,
)
    requires
        is_product_text(stmt, name, ty, left, right),
        lookup(scope.names, left) == Some(left_slot),
        lookup(scope.names, right) == Some(right_slot),
        scope.values[left_slot] == ValueModel::Number(a),
        scope.values[right_slot] == ValueModel::Number(b),
        a * b <= u8::MAX,
    ensures
        run_stmt(stmt, scope) == Some(
            ScopeModel {
                names: scope.names.push(name),
                values: scope.values.push(ValueModel::Text(decimal((a * b) as nat))),
            },
        ),
{
    reveal_with_fuel(eval_all, 2);
    reveal_with_fuel(eval, 4);
    let bindings = stmt->Let_bindings@;
    let values = stmt->Let_values@;
    let text = ValueModel::Text(decimal((a * b) as nat));
    assert(values.drop_last() == Seq::<Expr>::empty());
    assert(eval(values[0], scope) == Some(text));
    assert(Seq::<ValueModel>::empty().push(text) == seq![text]);
    assert(scope.values + seq![text] == scope.values.push(text));
    assert(bound_names(bindings) == seq![name]);
    assert(scope.names + seq![name] == scope.names.push(name));
}

/// Running one statement more that is no marker.
proof fn lemma_through_statement(
    stmts: Seq<Stmt>,
    n: int,
    start: ScopeModel,
    before: ScopeModel,
    emitted: Seq<Option<ValueModel>>,
    after: ScopeModel,
)
    requires
        0 <= n < stmts.len(),
        run_through(stmts.take(n), start) == Some((before, emitted)),
        !(stmts[n] is Freeze),
        run_stmt(stmts[n], before) == Some(after),
    ensures
        run_through(stmts.take(n + 1), start) == Some((after, emitted)),
{
    assert(stmts.take(n + 1).drop_last() == stmts.take(n));
    assert(stmts.take(n + 1).last() == stmts[n]);
}

/// Running one statement more that is a marker for a variable in scope.
proof fn lemma_through_marker(
    stmts: Seq<Stmt>,
    n: int,
    start: ScopeModel,
    before: ScopeModel,
    emitted: Seq<Option<ValueModel>>,
    name: Seq<char>,
    slot: int,
)
    requires
        0 <= n < stmts.len(),
        run_through(stmts.take(n), start) == Some((before, emitted)),
        is_emission(stmts[n], name),
        lookup(before.names, name) == Some(slot),
    ensures
        run_through(stmts.take(n + 1), start) == Some(
            (before, emitted.push(Some(before.values[slot]))),
        ),
{
    assert(stmts.take(n + 1).drop_last() == stmts.take(n));
    assert(stmts.take(n + 1).last() == stmts[n]);
}

/// Running one statement more that is a silent marker.
proof fn lemma_through_silence(
    stmts: Seq<Stmt>,
    n: int,
    start: ScopeModel,
    before: ScopeModel,
    emitted: Seq<Option<ValueModel>>,
)
    requires
        0 <= n < stmts.len(),
        run_through(stmts.take(n), start) == Some((before, emitted)),
        stmts[n] == Stmt::Freeze(Emission::Silent),
    ensures
        run_through(stmts.take(n + 1), start) == Some((before, emitted.push(None))),
{
    assert(stmts.take(n + 1).drop_last() == stmts.take(n));
    assert(stmts.take(n + 1).last() == stmts[n]);
}

/// Run straight through, the generator procedure hands back what the
/// hand-written generator hands back.
pub proof fn lemma_generator_4_runs(procedure: Procedure, begin: u8)
    requires
        is_generator_4(procedure),
        begin + 3 <= u8::MAX,
    ensures
        direct(procedure, seq![ValueModel::Number(begin)]) == Some(generator_4_outcome(begin)),
{
    let body = procedure.body@;
    let start = ScopeModel {
        names: names(variables(procedure.parameters@)),
        values: seq![ValueModel::Number(begin)],
    };
    let names2 = seq!["begin"@, "next"@];
    let n0 = ValueModel::Number(begin);
    let n1 = ValueModel::Number((begin + 1) as u8);
    let n2 = ValueModel::Number((begin + 2) as u8);
    let n3 = ValueModel::Number((begin + 3) as u8);
    let s0 = ScopeModel { names: names2, values: seq![n0, n0] };
    let s1 = ScopeModel { names: names2, values: seq![n0, n1] };
    let s2 = ScopeModel { names: names2, values: seq![n0, n2] };
    let s3 = ScopeModel { names: names2, values: seq![n0, n3] };
    let none = Seq::<Option<ValueModel>>::empty();
    let e1 = seq![Some(n0)];
    let e2 = seq![Some(n0), Some(n1)];
    let e3 = seq![Some(n0), Some(n1), Some(n2)];
    assert(lookup(start.names, "begin"@) == Some(0int)) by {
        assert(start.names == seq!["begin"@]);
    }
    assert(lookup(names2, "next"@) == Some(1int));
    assert(start.names.push("next"@) == names2 && start.values.push(start.values[0]) == s0.values)
        by {
        assert(start.names == seq!["begin"@]);
    }
    assert(s0.values.update(1, n1) == s1.values);
    assert(s1.values.update(1, n2) == s2.values);
    assert(s2.values.update(1, n3) == s3.values);
    assert(none.push(Some(n0)) == e1);
    assert(e1.push(Some(n1)) == e2);
    assert(e2.push(Some(n2)) == e3);
    assert(run_through(body.take(0), start) == Some((start, none)));
    lemma_let_runs(body[0], start, "next"@, "u8"@, "begin"@, 0);
    lemma_through_statement(body, 0, start, start, none, s0);
    lemma_through_marker(body, 1, start, s0, none, "next"@, 1);
    lemma_increment_runs(body[2], s0, "next"@, 1, begin);
    lemma_through_statement(body, 2, start, s0, e1, s1);
    lemma_through_marker(body, 3, start, s1, e1, "next"@, 1);
    lemma_increment_runs(body[4], s1, "next"@, 1, (begin + 1) as u8);
    lemma_through_statement(body, 4, start, s1, e2, s2);
    lemma_through_marker(body, 5, start, s2, e2, "next"@, 1);
    lemma_increment_runs(body[6], s2, "next"@, 1, (begin + 2) as u8);
    lemma_through_statement(body, 6, start, s2, e3, s3);
    assert(body.take(7) == body);
    assert(eval(procedure.result, s3) == Some(n3));
}

/// Run straight through, the complex procedure hands back what the
/// hand-written complex task hands back.
pub proof fn lemma_complex_runs(procedure: Procedure, begin: u8)
    requires
        is_complex(procedure),
        1 <= begin,
        (begin + 1) * (begin - 1) <= u8::MAX,
    ensures
        direct(procedure, seq![ValueModel::Number(begin)]) == Some(complex_outcome(begin)),
{
    let body = procedure.body@;
    assert(begin < u8::MAX) by (nonlinear_arith)
        requires
            1 <= begin,
            (begin + 1) * (begin - 1) <= u8::MAX,
    ;
    let up = (begin + 1) as u8;
    let down = (begin - 1) as u8;
    let product = decimal((up * down) as nat);
    let suffix = " a random text"@;
    let n = ValueModel::Number(begin);
    let start = ScopeModel {
        names: names(variables(procedure.parameters@)),
        values: seq![n],
    };
    let names2 = seq!["begin"@, "current_num"@];
    let names4 = seq!["begin"@, "current_num"@, "num1"@, "num2"@];
    let names5 = seq!["begin"@, "current_num"@, "num1"@, "num2"@, "mult_str"@];
    let four = seq![n, n, ValueModel::Number(up), ValueModel::Number(down)];
    let s0 = ScopeModel { names: names2, values: seq![n, n] };
    let s1 = ScopeModel { names: names4, values: four };
    let s2 = ScopeModel { names: names5, values: four.push(ValueModel::Text(product)) };
    let s3 = ScopeModel { names: names5, values: four.push(ValueModel::Text(product + suffix)) };
    let s4 = ScopeModel {
        names: names5,
        values: four.push(ValueModel::Text(truncated(product + suffix, 10))),
    };
    let none = Seq::<Option<ValueModel>>::empty();
    let e1 = seq![None::<ValueModel>];
    let e2 = seq![None::<ValueModel>, None];
    let e3 = seq![None::<ValueModel>, None, None];
    assert(none.push(None) == e1);
    assert(e1.push(None) == e2);
    assert(e2.push(None) == e3);
    assert(start.names == seq!["begin"@]);
    assert(lookup(start.names, "begin"@) == Some(0int));
    assert(start.names.push("current_num"@) == names2);
    assert(start.values.push(start.values[0]) == s0.values);
    assert(lookup(names2, "current_num"@) == Some(1int));
    assert(names2.push("num1"@).push("num2"@) == names4);
    assert(s0.values.push(ValueModel::Number(up)).push(ValueModel::Number(down)) == four);
    assert(lookup(names4, "num2"@) == Some(3int));
    assert(lookup(names4, "num1"@) == Some(2int)) by {
        reveal_strlit("num1");
        reveal_strlit("num2");
        reveal_with_fuel(lookup, 2);
        assert("num1"@[3] != "num2"@[3]);
        assert(names4.drop_last().last() == "num1"@);
    }
    assert(names4.push("mult_str"@) == names5);
    assert(lookup(names5, "mult_str"@) == Some(4int));
    assert(is_ascii_chars(product + suffix)) by {
        lemma_decimal_is_ascii((up * down) as nat);
        reveal_strlit(" a random text");
    }
    assert(s2.values.update(4, ValueModel::Text(product + suffix)) == s3.values);
    assert(s3.values.update(4, ValueModel::Text(truncated(product + suffix, 10))) == s4.values);
    assert(run_through(body.take(0), start) == Some((start, none)));
    lemma_let_runs(body[0], start, "current_num"@, "u8"@, "begin"@, 0);
    lemma_through_statement(body, 0, start, start, none, s0);
    lemma_through_silence(body, 1, start, s0, none);
    lemma_neighbours_run(body[2], s0, "num1"@, "num2"@, "u8"@, "current_num"@, 1, begin);
    lemma_through_statement(body, 2, start, s0, e1, s1);
    lemma_through_silence(body, 3, start, s1, e1);
    lemma_product_text_runs(
        body[4],
        s1,
        "mult_str"@,
        "String"@,
        "num1"@,
        "num2"@,
        2,
        3,
        up,
        down,
    );
    lemma_through_statement(body, 4, start, s1, e2, s2);
    lemma_through_silence(body, 5, start, s2, e2);
    assert(run_stmt(body[6], s2) == Some(s3));
    lemma_through_statement(body, 6, start, s2, e3, s3);
    assert(run_stmt(body[7], s3) == Some(s4));
    lemma_through_statement(body, 7, start, s3, e3, s4);
    assert(body.take(8) == body);
    assert(eval(procedure.result, s4) == Some(ValueModel::Text(truncated(product + suffix, 10))));
}

/// Reading one statement more that is no marker adds it to the last chunk.
proof fn lemma_chunks_statement(stmts: Seq<Stmt>, n: int)
    requires
        0 <= n < stmts.len(),
        !(stmts[n] is Freeze),
    ensures
        chunks(stmts.take(n + 1)) == chunks(stmts.take(n)).update(
            chunks(stmts.take(n)).len() - 1,
            chunks(stmts.take(n)).last().push(stmts[n]),
        ),
        emissions(stmts.take(n + 1)) == emissions(stmts.take(n)),
{
    assert(stmts.take(n + 1).drop_last() == stmts.take(n));
    assert(stmts.take(n + 1).last() == stmts[n]);
}

/// Reading one statement more that is a marker opens a new chunk.
proof fn lemma_chunks_marker(stmts: Seq<Stmt>, n: int)
    requires
        0 <= n < stmts.len(),
        stmts[n] is Freeze,
    ensures
        chunks(stmts.take(n + 1)) == chunks(stmts.take(n)).push(Seq::empty()),
        emissions(stmts.take(n + 1)) == emissions(stmts.take(n)).push(stmts[n]->Freeze_0),
{
    assert(stmts.take(n + 1).drop_last() == stmts.take(n));
    assert(stmts.take(n + 1).last() == stmts[n]);
}

/// A chunk of statements that are no `let`s declares nothing and lacks no
/// type.
proof fn lemma_declares_nothing(stmts: Seq<Stmt>)
    requires
        forall|j: int| 0 <= j < stmts.len() ==> !(#[trigger] stmts[j] is Let),
    ensures
        declared(stmts) == Seq::<VariableModel>::empty(),
        !any_lacks_type(stmts),
    decreases stmts.len(),
{
    if stmts.len() > 0 {
        let shorter = stmts.drop_last();
        assert forall|j: int| 0 <= j < shorter.len() implies !(#[trigger] shorter[j] is Let) by {
            assert(shorter[j] == stmts[j]);
        }
        lemma_declares_nothing(shorter);
        assert(!(stmts[stmts.len() - 1] is Let));
        assert(declared(shorter) + Seq::<VariableModel>::empty() == declared(shorter));
    }
}

/// A chunk of one `let` of one typed variable declares that variable and
/// lacks no type.
proof fn lemma_declares_one(stmt: Stmt, name: Seq<char>, ty: Seq<char>, init: Seq<char>)
    requires
        is_let(stmt, name, ty, init),
    ensures
        declared(seq![stmt]) == seq![VariableModel { name, ty }],
        !any_lacks_type(seq![stmt]),
{
    reveal_with_fuel(declared, 2);
    reveal_with_fuel(typed, 2);
    let bindings = stmt->Let_bindings@;
    assert(seq![stmt].drop_last() == Seq::<Stmt>::empty());
    assert(bindings.drop_last() == Seq::<Binding>::empty());
    assert(Seq::<VariableModel>::empty() + Seq::<VariableModel>::empty().push(
        VariableModel { name, ty },
    ) == seq![VariableModel { name, ty }]);
    assert forall|j: int| 0 <= j < seq![stmt].len() implies !lacks_type(
        #[trigger] seq![stmt][j],
    ) by {
        assert forall|i: int| 0 <= i < bindings.len() implies !((#[trigger] bindings[i]).ty
            is None) by {
            assert(bindings[0].ty is Some);
        }
    }
}

/// A `let` that gives every variable its type lacks no type.
proof fn lemma_typed_let(stmt: Stmt)
    requires
        stmt is Let,
        forall|i: int|
            0 <= i < stmt->Let_bindings.len() ==> (#[trigger] stmt->Let_bindings[i]).ty is Some,
    ensures
        !any_lacks_type(seq![stmt]),
{
    assert forall|j: int| 0 <= j < seq![stmt].len() implies !lacks_type(
        #[trigger] seq![stmt][j],
    ) by {}
}

/// The generator procedure can be lowered: no suspension has a fault.
pub proof fn lemma_generator_4_lowers(procedure: Procedure)
    requires
        is_generator_4(procedure),
    ensures
        emissions(procedure.body@).len() == 3,
        forall|i: int|
            0 <= i < 3 ==> fault_at(variables(procedure.parameters@), procedure.body@, i) is None,
{
    let body = procedure.body@;
    let parameters = variables(procedure.parameters@);
    let none = Seq::<Stmt>::empty();
    let next = VariableModel { name: "next"@, ty: "u8"@ };
    assert(chunks(body.take(0)) == seq![none]);
    assert(emissions(body.take(0)) == Seq::<Emission>::empty());
    lemma_chunks_statement(body, 0);
    assert(chunks(body.take(1)) == seq![seq![body[0]]]);
    lemma_chunks_marker(body, 1);
    assert(chunks(body.take(2)) == seq![seq![body[0]], none]);
    lemma_chunks_statement(body, 2);
    assert(chunks(body.take(3)) == seq![seq![body[0]], seq![body[2]]]);
    lemma_chunks_marker(body, 3);
    assert(chunks(body.take(4)) == seq![seq![body[0]], seq![body[2]], none]);
    lemma_chunks_statement(body, 4);
    assert(chunks(body.take(5)) == seq![seq![body[0]], seq![body[2]], seq![body[4]]]);
    lemma_chunks_marker(body, 5);
    assert(chunks(body.take(6)) == seq![seq![body[0]], seq![body[2]], seq![body[4]], none]);
    lemma_chunks_statement(body, 6);
    assert(body.take(7) == body);
    let bodies = seq![seq![body[0]], seq![body[2]], seq![body[4]], seq![body[6]]];
    assert(chunks(body) == bodies);
    assert(emissions(body) == seq![
        body[1]->Freeze_0,
        body[3]->Freeze_0,
        body[5]->Freeze_0,
    ]);
    lemma_declares_one(body[0], "next"@, "u8"@, "begin"@);
    lemma_declares_nothing(seq![body[2]]);
    lemma_declares_nothing(seq![body[4]]);
    reveal_with_fuel(capture_set, 4);
    let scope = parameters + seq![next];
    assert(capture_set(parameters, bodies, 1) == scope);
    assert(capture_set(parameters, bodies, 2) == scope) by {
        assert(scope + Seq::<VariableModel>::empty() == scope);
    }
    assert(capture_set(parameters, bodies, 3) == scope) by {
        assert(scope + Seq::<VariableModel>::empty() == scope);
    }
    assert(names(scope).last() == "next"@);
    assert(lookup(names(scope), "next"@) is Some);
}

/// The complex procedure can be lowered: no suspension has a fault.
pub proof fn lemma_complex_lowers(procedure: Procedure)
    requires
        is_complex(procedure),
    ensures
        emissions(procedure.body@).len() == 3,
        forall|i: int|
            0 <= i < 3 ==> fault_at(variables(procedure.parameters@), procedure.body@, i) is None,
{
    let body = procedure.body@;
    let none = Seq::<Stmt>::empty();
    assert(chunks(body.take(0)) == seq![none]);
    assert(emissions(body.take(0)) == Seq::<Emission>::empty());
    lemma_chunks_statement(body, 0);
    assert(chunks(body.take(1)) == seq![seq![body[0]]]);
    lemma_chunks_marker(body, 1);
    assert(chunks(body.take(2)) == seq![seq![body[0]], none]);
    lemma_chunks_statement(body, 2);
    assert(chunks(body.take(3)) == seq![seq![body[0]], seq![body[2]]]);
    lemma_chunks_marker(body, 3);
    assert(chunks(body.take(4)) == seq![seq![body[0]], seq![body[2]], none]);
    lemma_chunks_statement(body, 4);
    assert(chunks(body.take(5)) == seq![seq![body[0]], seq![body[2]], seq![body[4]]]);
    lemma_chunks_marker(body, 5);
    assert(chunks(body.take(6)) == seq![seq![body[0]], seq![body[2]], seq![body[4]], none]);
    lemma_chunks_statement(body, 6);
    assert(chunks(body.take(7)) == seq![
        seq![body[0]],
        seq![body[2]],
        seq![body[4]],
        seq![body[6]],
    ]);
    lemma_chunks_statement(body, 7);
    assert(body.take(8) == body);
    assert(seq![body[6]].push(body[7]) == seq![body[6], body[7]]);
    assert(chunks(body) == seq![
        seq![body[0]],
        seq![body[2]],
        seq![body[4]],
        seq![body[6], body[7]],
    ]);
    assert(emissions(body) == seq![Emission::Silent, Emission::Silent, Emission::Silent]);
    lemma_typed_let(body[0]);
    lemma_typed_let(body[2]);
    lemma_typed_let(body[4]);
}

/// The machine that the generator procedure lowers to hands back, step by
/// step, what the hand-written generator hands back, for every number that
/// the generator can start from.
pub proof fn lemma_generator_4_equivalence(
    procedure: Procedure,
    machine: StateMachine,
    begin: u8,
)
    requires
        is_generator_4(procedure),
        lowers(machine, procedure),
        begin + 3 <= u8::MAX,
    ensures
        runs_from(machine, 0, seq![ValueModel::Number(begin)]),
        payloads(machine, 0, seq![ValueModel::Number(begin)]) == Some(generator_4_outcome(begin)),
{
    lemma_generator_4_lowers(procedure);
    lemma_generator_4_runs(procedure, begin);
    lemma_lowering_keeps_outcome(procedure, machine, seq![ValueModel::Number(begin)]);
    lemma_runs_when_procedure_runs(procedure, machine, seq![ValueModel::Number(begin)]);
}

/// The machine that the complex procedure lowers to hands back, step by
/// step, what the hand-written complex task hands back, for every number
/// that the task can start from.
pub proof fn lemma_complex_equivalence(procedure: Procedure, machine: StateMachine, begin: u8)
    requires
        is_complex(procedure),
        lowers(machine, procedure),
        1 <= begin,
        (begin + 1) * (begin - 1) <= u8::MAX,
    ensures
        runs_from(machine, 0, seq![ValueModel::Number(begin)]),
        payloads(machine, 0, seq![ValueModel::Number(begin)]) == Some(complex_outcome(begin)),
{
    lemma_complex_lowers(procedure);
    lemma_complex_runs(procedure, begin);
    lemma_lowering_keeps_outcome(procedure, machine, seq![ValueModel::Number(begin)]);
    lemma_runs_when_procedure_runs(procedure, machine, seq![ValueModel::Number(begin)]);
}

/// An instance of the machine that the generator procedure lowers to, at
/// its start. It can be stepped to its end where the generator can count
/// three numbers up from `begin`.
pub fn start_generator_4(begin: u8) -> (instance: Instance)
    ensures
        exists|procedure: Procedure|
            is_generator_4(procedure) && lowers(instance.machine, procedure),
        instance.state@ == StateModel::Chunk(0, filled(seq![ValueModel::Number(begin)])),
        instance.machine.chunks.len() == 4,
        begin + 3 <= u8::MAX ==> instance.well_formed(),
{
    let procedure = freezable_generator_4();
    let ghost lowered = procedure;
    proof {
        lemma_generator_4_lowers(procedure);
        lemma_chunk_count(procedure.body@);
    }
    let machine = match lower(procedure) {
        Ok(machine) => machine,
        Err(_) => unreached(),
    };
    let mut arguments: Vec<Value> = Vec::new();
    arguments.push(Value::Number(begin));
    proof {
        assert(models(arguments@) == seq![ValueModel::Number(begin)]);
        assert(contents(filled(seq![ValueModel::Number(begin)])) == seq![
            ValueModel::Number(begin),
        ]);
        if begin + 3 <= u8::MAX {
            lemma_generator_4_equivalence(lowered, machine, begin);
        }
    }
    Instance::start(machine, arguments)
}

/// An instance of the machine that the complex procedure lowers to, at its
/// start. It can be stepped to its end where the product of the two
/// neighbours of `begin` fits into a `u8`.
pub fn start_complex(begin: u8) -> (instance: Instance)
    ensures
        exists|procedure: Procedure| is_complex(procedure) && lowers(instance.machine, procedure),
        instance.state@ == StateModel::Chunk(0, filled(seq![ValueModel::Number(begin)])),
        instance.machine.chunks.len() == 4,
        1 <= begin && (begin + 1) * (begin - 1) <= u8::MAX ==> instance.well_formed(),
{
    let procedure = freezable_complex();
    let ghost lowered = procedure;
    proof {
        lemma_complex_lowers(procedure);
        lemma_chunk_count(procedure.body@);
    }
    let machine = match lower(procedure) {
        Ok(machine) => machine,
        Err(_) => unreached(),
    };
    let mut arguments: Vec<Value> = Vec::new();
    arguments.push(Value::Number(begin));
    proof {
        assert(models(arguments@) == seq![ValueModel::Number(begin)]);
        assert(contents(filled(seq![ValueModel::Number(begin)])) == seq![
            ValueModel::Number(begin),
        ]);
        if 1 <= begin && (begin + 1) * (begin - 1) <= u8::MAX {
            lemma_complex_equivalence(lowered, machine, begin);
        }
    }
    Instance::start(machine, arguments)
}

} // verus!
