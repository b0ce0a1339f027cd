use freezable::interpreter::Scope;
use freezable::procedure::{Binding, Emission, Expr, Stmt, Value};

fn var(name: &str) -> Expr {
    Expr::Variable(name.to_string())
}

fn number(n: u8) -> Box<Expr> {
    Box::new(Expr::Number(n))
}

fn scope(entries: &[(&str, Value)]) -> Scope {
    let mut names = vec![];
    let mut values = vec![];
    for (name, value) in entries {
        names.push(name.to_string());
        values.push(value.duplicate());
    }
    Scope::new(names, values).unwrap()
}

#[test]
fn a_scope_has_one_value_per_name() {
    assert!(Scope::new(vec![], vec![]).is_some());
    assert!(Scope::new(vec!["a".to_string()], vec![Value::Number(1)]).is_some());
    assert!(Scope::new(vec!["a".to_string()], vec![]).is_none());
    assert!(Scope::new(vec![], vec![Value::Number(1)]).is_none());
}

fn text(t: &str) -> Value {
    Value::Text(t.to_string())
}

#[test]
fn a_name_refers_to_the_last_variable_that_has_it() {
    let scope = scope(&[("a", Value::Number(1)), ("b", Value::Number(2)), ("a", Value::Number(3))]);
    assert_eq!(scope.find(&"a".to_string()), Some(2));
    assert_eq!(scope.find(&"b".to_string()), Some(1));
    assert_eq!(scope.find(&"c".to_string()), None);
    assert_eq!(scope.evaluate(&var("a")), Some(Value::Number(3)));
    assert_eq!(scope.evaluate(&var("c")), None);
}

#[test]
fn arithmetic_stays_within_a_byte() {
    let scope = scope(&[("a", Value::Number(200))]);
    let a = || Box::new(var("a"));
    assert_eq!(scope.evaluate(&Expr::Sum(a(), number(55))), Some(Value::Number(255)));
    assert_eq!(scope.evaluate(&Expr::Sum(a(), number(56))), None);
    assert_eq!(scope.evaluate(&Expr::Difference(a(), number(200))), Some(Value::Number(0)));
    assert_eq!(scope.evaluate(&Expr::Difference(number(199), a())), None);
    assert_eq!(scope.evaluate(&Expr::Product(number(15), number(17))), Some(Value::Number(255)));
    assert_eq!(scope.evaluate(&Expr::Product(number(16), number(16))), None);
    assert_eq!(scope.evaluate(&Expr::Product(a(), number(0))), Some(Value::Number(0)));
}

#[test]
fn arithmetic_takes_numbers_only() {
    let scope = scope(&[("t", text("x"))]);
    assert_eq!(scope.evaluate(&Expr::Sum(Box::new(var("t")), number(1))), None);
    assert_eq!(scope.evaluate(&Expr::Product(number(1), Box::new(var("t")))), None);
    assert_eq!(scope.evaluate(&Expr::Decimal(Box::new(var("t")))), None);
}

#[test]
fn numbers_are_written_in_decimal() {
    let scope = scope(&[]);
    for (n, expected) in [(0u8, "0"), (7, "7"), (10, "10"), (99, "99"), (100, "100"), (255, "255")] {
        assert_eq!(scope.evaluate(&Expr::Decimal(number(n))), Some(text(expected)));
    }
}

#[test]
fn a_let_computes_all_values_before_it_binds_any() {
    let mut scope = scope(&[("a", Value::Number(5))]);
    let swap = Stmt::Let {
        bindings: vec![
            Binding { name: "a".to_string(), ty: None },
            Binding { name: "b".to_string(), ty: Some("u8".to_string()) },
        ],
        values: vec![Expr::Sum(Box::new(var("a")), number(1)), var("a")],
    };
    assert!(scope.execute(&swap));
    assert_eq!(scope.names, vec!["a", "a", "b"]);
    assert_eq!(scope.values, vec![Value::Number(5), Value::Number(6), Value::Number(5)]);
}

#[test]
fn a_let_needs_one_value_per_name() {
    let mut scope = scope(&[]);
    let lopsided = Stmt::Let {
        bindings: vec![Binding { name: "a".to_string(), ty: None }],
        values: vec![Expr::Number(1), Expr::Number(2)],
    };
    assert!(!scope.execute(&lopsided));
    assert!(scope.names.is_empty());
    assert!(scope.values.is_empty());
}

#[test]
fn a_statement_that_cannot_run_leaves_the_scope_alone() {
    let mut scope = scope(&[("a", Value::Number(255)), ("t", text("héllo"))]);
    let failing = [
        Stmt::Assign { target: "a".to_string(), value: Expr::Sum(Box::new(var("a")), number(1)) },
        Stmt::Assign { target: "missing".to_string(), value: Expr::Number(1) },
        Stmt::Append { target: "a".to_string(), text: Expr::Text("x".to_string()) },
        Stmt::Append { target: "t".to_string(), text: Expr::Number(1) },
        Stmt::Truncate { target: "a".to_string(), len: 1 },
        Stmt::Truncate { target: "t".to_string(), len: 2 },
        Stmt::Truncate { target: "missing".to_string(), len: 2 },
        Stmt::Let {
            bindings: vec![Binding { name: "b".to_string(), ty: None }],
            values: vec![var("missing")],
        },
    ];
    for stmt in &failing {
        assert!(!scope.execute(stmt));
        assert_eq!(scope.names, vec!["a", "t"]);
        assert_eq!(scope.values, vec![Value::Number(255), text("héllo")]);
    }
}

#[test]
fn assignment_changes_the_variable_that_the_name_refers_to() {
    let mut scope = scope(&[("a", Value::Number(1)), ("a", Value::Number(2))]);
    assert!(scope.execute(&Stmt::Assign { target: "a".to_string(), value: Expr::Number(9) }));
    assert_eq!(scope.values, vec![Value::Number(1), Value::Number(9)]);
    assert!(scope.execute(&Stmt::Assign { target: "a".to_string(), value: Expr::Text("t".to_string()) }));
    assert_eq!(scope.values, vec![Value::Number(1), text("t")]);
}

#[test]
fn text_is_appended_and_truncated() {
    let mut scope = scope(&[("t", text("24"))]);
    assert!(scope.execute(&Stmt::Append {
        target: "t".to_string(),
        text: Expr::Text(" a random text".to_string()),
    }));
    assert_eq!(scope.values, vec![text("24 a random text")]);
    assert!(scope.execute(&Stmt::Truncate { target: "t".to_string(), len: 100 }));
    assert_eq!(scope.values, vec![text("24 a random text")]);
    assert!(scope.execute(&Stmt::Truncate { target: "t".to_string(), len: 16 }));
    assert_eq!(scope.values, vec![text("24 a random text")]);
    assert!(scope.execute(&Stmt::Truncate { target: "t".to_string(), len: 10 }));
    assert_eq!(scope.values, vec![text("24 a rando")]);
    assert!(scope.execute(&Stmt::Truncate { target: "t".to_string(), len: 0 }));
    assert_eq!(scope.values, vec![text("")]);
}

#[test]
fn a_marker_changes_nothing() {
    let mut scope = scope(&[("a", Value::Number(1))]);
    assert!(scope.execute(&Stmt::Freeze(Emission::Variable("a".to_string()))));
    assert!(scope.execute(&Stmt::Freeze(Emission::Expression)));
    assert_eq!(scope.values, vec![Value::Number(1)]);
}

#[test]
fn statements_run_in_order_until_one_cannot() {
    let mut scope = scope(&[("a", Value::Number(254))]);
    let up = || Stmt::Assign {
        target: "a".to_string(),
        value: Expr::Sum(Box::new(var("a")), number(1)),
    };
    assert!(scope.execute_all(&vec![up()]));
    assert_eq!(scope.values, vec![Value::Number(255)]);
    assert!(!scope.execute_all(&vec![up(), up()]));
    assert!(scope.execute_all(&vec![]));
}

#[test]
fn all_values_of_a_list_are_computed_or_none() {
    let scope = scope(&[("a", Value::Number(1))]);
    assert_eq!(
        scope.evaluate_all(&vec![var("a"), Expr::Number(2)]),
        Some(vec![Value::Number(1), Value::Number(2)])
    );
    assert_eq!(scope.evaluate_all(&vec![var("a"), var("b")]), None);
    assert_eq!(scope.evaluate_all(&vec![]), Some(vec![]));
}
