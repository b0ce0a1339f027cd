use freezable::examples::{
    freezable_complex, freezable_generator_4, start_complex, start_generator_4,
};
use freezable::lowering::lower;
use freezable::machine::Instance;
use freezable::procedure::{Binding, Emission, Expr, Procedure, Stmt, Value, Variable};
use freezable::{Freezable, FreezableError, FreezableState};

fn var(name: &str) -> Expr {
    Expr::Variable(name.to_string())
}

fn typed(name: &str, ty: &str) -> Binding {
    Binding { name: name.to_string(), ty: Some(ty.to_string()) }
}

fn parameter(name: &str, ty: &str) -> Variable {
    Variable { name: name.to_string(), ty: ty.to_string() }
}

fn increment(name: &str) -> Stmt {
    Stmt::Assign {
        target: name.to_string(),
        value: Expr::Sum(Box::new(var(name)), Box::new(Expr::Number(1))),
    }
}

fn freeze(name: &str) -> Stmt {
    Stmt::Freeze(Emission::Variable(name.to_string()))
}

fn frozen(n: u8) -> Result<FreezableState<Value>, FreezableError> {
    Ok(FreezableState::Frozen(Some(Value::Number(n))))
}

/// fn freezable_complex(begin: u8) -> String {
///     let current_num: u8 = begin;
///     freeze!();
///     let (num1, num2): (u8, u8) = (current_num + 1, current_num - 1);
///     freeze!();
///     let mut mult_str: String = (num1 * num2).to_string();
///     freeze!();
///     mult_str.push_str(" a random text");
///     mult_str.truncate(10);
///     mult_str
/// }
#[test]
fn the_complex_procedure_is_written_out() {
    let procedure = Procedure {
        parameters: vec![parameter("begin", "u8")],
        body: vec![
            Stmt::Let { bindings: vec![typed("current_num", "u8")], values: vec![var("begin")] },
            Stmt::Freeze(Emission::Silent),
            Stmt::Let {
                bindings: vec![typed("num1", "u8"), typed("num2", "u8")],
                values: vec![
                    Expr::Sum(Box::new(var("current_num")), Box::new(Expr::Number(1))),
                    Expr::Difference(Box::new(var("current_num")), Box::new(Expr::Number(1))),
                ],
            },
            Stmt::Freeze(Emission::Silent),
            Stmt::Let {
                bindings: vec![typed("mult_str", "String")],
                values: vec![Expr::Decimal(Box::new(Expr::Product(
                    Box::new(var("num1")),
                    Box::new(var("num2")),
                )))],
            },
            Stmt::Freeze(Emission::Silent),
            Stmt::Append {
                target: "mult_str".to_string(),
                text: Expr::Text(" a random text".to_string()),
            },
            Stmt::Truncate { target: "mult_str".to_string(), len: 10 },
        ],
        result: var("mult_str"),
    };
    assert_eq!(freezable_complex(), procedure);
    assert_eq!(start_complex(5), Instance::start(lower(procedure).unwrap(), vec![Value::Number(5)]));
}

/// fn freezable_generator_4(begin: u8) -> u8 {
///     let mut next: u8 = begin;
///     freeze!(next);
///     next += 1;
///     freeze!(next);
///     next += 1;
///     freeze!(next);
///     next += 1;
///     next
/// }
#[test]
fn the_generator_procedure_is_written_out() {
    let procedure = Procedure {
        parameters: vec![parameter("begin", "u8")],
        body: vec![
            Stmt::Let { bindings: vec![typed("next", "u8")], values: vec![var("begin")] },
            freeze("next"),
            increment("next"),
            freeze("next"),
            increment("next"),
            freeze("next"),
            increment("next"),
        ],
        result: var("next"),
    };
    assert_eq!(freezable_generator_4(), procedure);
    assert_eq!(
        start_generator_4(5),
        Instance::start(lower(procedure).unwrap(), vec![Value::Number(5)])
    );
}

#[test]
fn the_lowered_tasks_can_run_where_the_hand_written_ones_can() {
    for begin in 0..=255u8 {
        assert_eq!(start_generator_4(begin).is_well_formed(), begin <= 252);
        assert_eq!(start_complex(begin).is_well_formed(), (1..=16).contains(&begin));
    }
}

#[test]
fn complex_cancel_test() {
    let mut complex_5 = start_complex(5);
    let mut states: Vec<Instance> = vec![];
    while !complex_5.is_finished() {
        for instance in states.iter_mut() {
            let _ = instance.unfreeze();
        }
        states.push(start_complex(5));
        let _ = complex_5.unfreeze();
    }
    for instance in states.iter_mut() {
        instance.cancel();
        assert!(instance.is_cancelled());
    }
    assert!(complex_5.is_finished());
}

#[test]
fn complex_is_finished_test() {
    let mut complex_5 = start_complex(5);
    let mut states: Vec<Instance> = vec![];
    while !complex_5.is_finished() {
        for instance in states.iter_mut() {
            let _ = instance.unfreeze();
        }
        states.push(start_complex(5));
        let _ = complex_5.unfreeze();
    }
    for instance in states.iter_mut() {
        instance.cancel();
        assert_eq!(instance.is_finished(), false);
    }
    assert!(complex_5.is_finished());
}

#[test]
fn complex_unfreeze_test() {
    let mut complex_5 = start_complex(5);
    assert_eq!(complex_5.unfreeze(), Ok(FreezableState::Frozen(None)));
    assert_eq!(complex_5.unfreeze(), Ok(FreezableState::Frozen(None)));
    assert_eq!(complex_5.unfreeze(), Ok(FreezableState::Frozen(None)));
    assert_eq!(
        complex_5.unfreeze(),
        Ok(FreezableState::Finished(Value::Text("24 a rando".to_string())))
    );
    assert_eq!(complex_5.unfreeze(), Err(FreezableError::AlreadyFinished));
}

#[test]
fn complex_unfreeze_after_cancel_test() {
    let mut complex_5 = start_complex(5);
    assert_eq!(complex_5.unfreeze(), Ok(FreezableState::Frozen(None)));
    assert_eq!(complex_5.unfreeze(), Ok(FreezableState::Frozen(None)));
    complex_5.cancel();
    assert_eq!(complex_5.unfreeze(), Err(FreezableError::Cancelled));
    assert_eq!(complex_5.unfreeze(), Err(FreezableError::Cancelled));
}

#[test]
fn generator_cancel_test() {
    let mut generator_5 = start_generator_4(5);
    let mut states: Vec<Instance> = vec![];
    while !generator_5.is_finished() {
        for instance in states.iter_mut() {
            let _ = instance.unfreeze();
        }
        states.push(start_generator_4(5));
        let _ = generator_5.unfreeze();
    }
    for instance in states.iter_mut() {
        instance.cancel();
        assert!(instance.is_cancelled());
    }
    assert!(generator_5.is_finished());
}

#[test]
fn generator_is_finished_test() {
    let mut generator_5 = start_generator_4(5);
    let mut states: Vec<Instance> = vec![];
    while !generator_5.is_finished() {
        for instance in states.iter_mut() {
            let _ = instance.unfreeze();
        }
        states.push(start_generator_4(5));
        let _ = generator_5.unfreeze();
    }
    for instance in states.iter_mut() {
        instance.cancel();
        assert_eq!(instance.is_finished(), false);
    }
    assert!(generator_5.is_finished());
}

#[test]
fn generator_unfreeze_test() {
    let mut generator_5 = start_generator_4(5);
    assert_eq!(generator_5.unfreeze(), frozen(5));
    assert_eq!(generator_5.unfreeze(), frozen(6));
    assert_eq!(generator_5.unfreeze(), frozen(7));
    assert_eq!(generator_5.unfreeze(), Ok(FreezableState::Finished(Value::Number(8))));
    assert_eq!(generator_5.unfreeze(), Err(FreezableError::AlreadyFinished));
}

#[test]
fn generator_unfreeze_after_cancel_test() {
    let mut generator_5 = start_generator_4(5);
    assert_eq!(generator_5.unfreeze(), frozen(5));
    assert_eq!(generator_5.unfreeze(), frozen(6));
    generator_5.cancel();
    assert_eq!(generator_5.unfreeze(), Err(FreezableError::Cancelled));
    assert_eq!(generator_5.unfreeze(), Err(FreezableError::Cancelled));
}
