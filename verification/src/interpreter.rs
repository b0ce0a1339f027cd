//! Runs the statements of a procedure on a scope of variables.

use crate::procedure::{
    bound_names, eval, eval_all, lookup, models, option_model, run_all, run_stmt, texts, Binding,
    Expr, ScopeModel, Stmt, Value, ValueModel,
};
use crate::text::{number_to_string, truncate_string};
use vstd::prelude::*;
use vstd::string::*;

verus! {

/// The variables in scope with their values, in the order in which they were
/// introduced.
pub struct Scope {
    pub names: Vec<String>,
    pub values: Vec<Value>,
}

impl View for Scope {
    type V = ScopeModel;

    open spec fn view(&self) -> ScopeModel {
        ScopeModel { names: texts(self.names@), values: models(self.values@) }
    }
}

impl Value {
    /// A copy of the value.
    pub fn duplicate(&self) -> (copy: Value)
        ensures
            copy@ == self@,
    {
        match self {
            Value::Number(n) => Value::Number(*n),
            Value::Text(text) => Value::Text(text.clone()),
        }
    }
}

impl Scope {
    /// Every name has a value.
    pub open spec fn well_formed(&self) -> bool {
        self.names.len() == self.values.len()
    }

    /// The scope of the given variables, or `None` where the names and the
    /// values are not equally many.
    pub fn new(names: Vec<String>, values: Vec<Value>) -> (scope: Option<Scope>)
        ensures
            match scope {
                Some(scope) => scope.names == names && scope.values == values
                    && scope.well_formed(),
                None => names.len() != values.len(),
            },
    {
        if names.len() == values.len() {
            Some(Scope { names, values })
        } else {
            None
        }
    }

    /// The position of the variable that `name` refers to.
    pub fn find(&self, name: &String) -> (slot: Option<usize>)
        ensures
            match slot {
                Some(position) => lookup(self@.names, name@) == Some(position as int)
                    && position < self.names.len(),
                None => lookup(self@.names, name@) is None,
            },
    {
        let mut position: usize = self.names.len();
        assert(self@.names.take(position as int) == self@.names);
        while position > 0
            invariant
                position <= self.names.len(),
                lookup(self@.names, name@) == lookup(self@.names.take(position as int), name@),
            decreases position,
        {
            let ghost prefix = self@.names.take(position as int);
            assert(prefix.last() == self.names@[position - 1]@);
            assert(prefix.drop_last() == self@.names.take(position - 1));
            if self.names[position - 1].eq(name) {
                return Some(position - 1);
            }
            position = position - 1;
        }
        None
    }

    /// The value of an expression in this scope.
    pub fn evaluate(&self, expr: &Expr) -> (value: Option<Value>)
        requires
            self.well_formed(),
        ensures
            option_model(value) == eval(*expr, self@),
        decreases expr,
    {
        match expr {
            Expr::Variable(name) => match self.find(name) {
                Some(slot) => Some(self.values[slot].duplicate()),
                None => None,
            },
            Expr::Number(n) => Some(Value::Number(*n)),
            Expr::Text(text) => Some(Value::Text(text.clone())),
            Expr::Sum(left, right) => match (self.evaluate(left), self.evaluate(right)) {
                (Some(Value::Number(a)), Some(Value::Number(b))) => match a.checked_add(b) {
                    Some(sum) => Some(Value::Number(sum)),
                    None => None,
                },
                _ => None,
            },
            Expr::Difference(left, right) => match (self.evaluate(left), self.evaluate(right)) {
                (Some(Value::Number(a)), Some(Value::Number(b))) => match a.checked_sub(b) {
                    Some(difference) => Some(Value::Number(difference)),
                    None => None,
                },
                _ => None,
            },
            Expr::Product(left, right) => match (self.evaluate(left), self.evaluate(right)) {
                (Some(Value::Number(a)), Some(Value::Number(b))) => match a.checked_mul(b) {
                    Some(product) => Some(Value::Number(product)),
                    None => None,
                },
                _ => None,
            },
            Expr::Decimal(inner) => match self.evaluate(inner) {
                Some(Value::Number(n)) => Some(Value::Text(number_to_string(n as usize))),
                _ => None,
            },
        }
    }
}

/// Where a prefix of a list of expressions has no value, the list has none.
proof fn lemma_eval_all_prefix(exprs: Seq<Expr>, scope: ScopeModel, n: int)
    requires
        0 <= n <= exprs.len(),
        eval_all(exprs.take(n), scope) is None,
    ensures
        eval_all(exprs, scope) is None,
    decreases exprs.len(),
{
    if n < exprs.len() {
        assert(exprs.drop_last().take(n) == exprs.take(n));
        lemma_eval_all_prefix(exprs.drop_last(), scope, n);
    } else {
        assert(exprs.take(n) == exprs);
    }
}

/// Where a prefix of a list of statements cannot run, the list cannot.
proof fn lemma_run_all_prefix(stmts: Seq<Stmt>, scope: ScopeModel, n: int)
    requires
        0 <= n <= stmts.len(),
        run_all(stmts.take(n), scope) is None,
    ensures
        run_all(stmts, scope) is None,
    decreases stmts.len(),
{
    if n < stmts.len() {
        assert(stmts.drop_last().take(n) == stmts.take(n));
        lemma_run_all_prefix(stmts.drop_last(), scope, n);
    } else {
        assert(stmts.take(n) == stmts);
    }
}

impl Scope {
    /// The values of a list of expressions, all computed in this scope.
    pub fn evaluate_all(&self, exprs: &Vec<Expr>) -> (values: Option<Vec<Value>>)
        requires
            self.well_formed(),
        ensures
            match values {
                Some(computed) => eval_all(exprs@, self@) == Some(models(computed@)),
                None => eval_all(exprs@, self@) is None,
            },
    {
        let mut computed: Vec<Value> = Vec::new();
        let mut done: usize = 0;
        assert(models(computed@) == Seq::<ValueModel>::empty());
        while done < exprs.len()
            invariant
                done <= exprs.len(),
                self.well_formed(),
                eval_all(exprs@.take(done as int), self@) == Some(models(computed@)),
            decreases exprs.len() - done,
        {
            let ghost longer = exprs@.take(done + 1);
            assert(longer.drop_last() == exprs@.take(done as int));
            assert(longer.last() == exprs@[done as int]);
            match self.evaluate(&exprs[done]) {
                Some(value) => {
                    assert(models(computed@.push(value)) == models(computed@).push(value@));
                    computed.push(value);
                },
                None => {
                    proof {
                        lemma_eval_all_prefix(exprs@, self@, done + 1);
                    }
                    return None;
                },
            }
            done = done + 1;
        }
        assert(exprs@.take(done as int) == exprs@);
        Some(computed)
    }

    /// Brings the names of a `let` into scope with the values computed for
    /// them.
    fn bind(&mut self, bindings: &Vec<Binding>, computed: Vec<Value>)
        requires
            old(self).well_formed(),
            bindings.len() == computed.len(),
        ensures
            final(self).well_formed(),
            final(self)@.names == old(self)@.names + bound_names(bindings@),
            final(self)@.values == old(self)@.values + models(computed@),
    {
        let mut computed = computed;
        let ghost added = computed@;
        assert(models(self.values@ + computed@) == models(self.values@) + models(computed@));
        self.values.append(&mut computed);
        let mut done: usize = 0;
        assert(bound_names(bindings@).take(0) == Seq::<Seq<char>>::empty());
        assert(self@.names + Seq::<Seq<char>>::empty() == self@.names);
        while done < bindings.len()
            invariant
                done <= bindings.len(),
                self.values@ == old(self).values@ + added,
                self@.names == old(self)@.names + bound_names(bindings@).take(done as int),
                self.names.len() == old(self).names.len() + done,
            decreases bindings.len() - done,
        {
            let name = bindings[done].name.clone();
            assert(texts(self.names@.push(name)) == texts(self.names@).push(name@));
            assert(bound_names(bindings@).take(done + 1) == bound_names(bindings@).take(
                done as int,
            ).push(bindings@[done as int].name@));
            self.names.push(name);
            done = done + 1;
        }
        assert(bound_names(bindings@).take(done as int) == bound_names(bindings@));
    }

    /// Runs one statement. Returns whether it could run; where it could not,
    /// the scope is as before.
    pub fn execute(&mut self, stmt: &Stmt) -> (ran: bool)
        requires
            old(self).well_formed(),
        ensures
            final(self).well_formed(),
            ran ==> run_stmt(*stmt, old(self)@) == Some(final(self)@),
            !ran ==> run_stmt(*stmt, old(self)@) is None && *final(self) == *old(self),
    {
        match stmt {
            Stmt::Let { bindings, values } => {
                if bindings.len() != values.len() {
                    return false;
                }
                match self.evaluate_all(values) {
                    Some(computed) => {
                        proof {
                            lemma_eval_all_len(values@, self@);
                        }
                        self.bind(bindings, computed);
                        true
                    },
                    None => false,
                }
            },
            Stmt::Assign { target, value } => {
                match self.find(target) {
                    Some(slot) => match self.evaluate(value) {
                        Some(computed) => {
                            assert(models(self.values@.update(slot as int, computed)) == models(
                                self.values@,
                            ).update(slot as int, computed@));
                            self.values.set(slot, computed);
                            true
                        },
                        None => false,
                    },
                    None => false,
                }
            },
            Stmt::Append { target, text } => {
                match self.find(target) {
                    Some(slot) => match self.evaluate(text) {
                        Some(Value::Text(tail)) => match &self.values[slot] {
                            Value::Text(head) => {
                                let mut joined = head.clone();
                                joined.append(tail.as_str());
                                let joined = Value::Text(joined);
                                assert(models(self.values@.update(slot as int, joined)) == models(
                                    self.values@,
                                ).update(slot as int, joined@));
                                self.values.set(slot, joined);
                                true
                            },
                            _ => false,
                        },
                        _ => false,
                    },
                    None => false,
                }
            },
            Stmt::Truncate { target, len } => {
                match self.find(target) {
                    Some(slot) => match &self.values[slot] {
                        Value::Text(text) => {
                            if text.is_ascii() {
                                let mut cut = text.clone();
                                truncate_string(&mut cut, *len);
                                let cut = Value::Text(cut);
                                assert(models(self.values@.update(slot as int, cut)) == models(
                                    self.values@,
                                ).update(slot as int, cut@));
                                self.values.set(slot, cut);
                                true
                            } else {
                                false
                            }
                        },
                        _ => false,
                    },
                    None => false,
                }
            },
            Stmt::Freeze(_) => true,
        }
    }

    /// Runs a list of statements in order, up to the first that cannot run.
    /// Returns whether all of them could run; where one could not, the
    /// scope is as the statements before it left it.
    pub fn execute_all(&mut self, stmts: &Vec<Stmt>) -> (ran: bool)
        requires
            old(self).well_formed(),
        ensures
            final(self).well_formed(),
            ran ==> run_all(stmts@, old(self)@) == Some(final(self)@),
            !ran ==> run_all(stmts@, old(self)@) is None && exists|n: int|
                0 <= n < stmts.len() && #[trigger] run_all(stmts@.take(n), old(self)@) == Some(
                    final(self)@,
                ) && run_stmt(stmts[n], final(self)@) is None,
    {
        let mut done: usize = 0;
        while done < stmts.len()
            invariant
                done <= stmts.len(),
                self.well_formed(),
                run_all(stmts@.take(done as int), old(self)@) == Some(self@),
            decreases stmts.len() - done,
        {
            let ghost longer = stmts@.take(done + 1);
            assert(longer.drop_last() == stmts@.take(done as int));
            assert(longer.last() == stmts@[done as int]);
            if !self.execute(&stmts[done]) {
                proof {
                    lemma_run_all_prefix(stmts@, old(self)@, done + 1);
                    assert(run_all(stmts@.take(done as int), old(self)@) == Some(self@));
                }
                return false;
            }
            done = done + 1;
        }
        assert(stmts@.take(done as int) == stmts@);
        true
    }
}

/// A list of expressions has as many values as members.
pub proof fn lemma_eval_all_len(exprs: Seq<Expr>, scope: ScopeModel)
    ensures
        eval_all(exprs, scope) is Some ==> eval_all(exprs, scope)->0.len() == exprs.len(),
    decreases exprs.len(),
{
    if exprs.len() > 0 {
        lemma_eval_all_len(exprs.drop_last(), scope);
    }
}

} // verus!
