use freezable::lowering::{lower, StateMachine};
use freezable::machine::{Instance, TaskState};
use freezable::procedure::{Binding, Emission, Expr, Procedure, Stmt, Value, Variable};
use freezable::{Freezable, FreezableComplex, FreezableError, FreezableGenerator4, FreezableState};

fn var(name: &str) -> Expr {
    Expr::Variable(name.to_string())
}

fn typed(name: &str, ty: &str) -> Binding {
    Binding { name: name.to_string(), ty: Some(ty.to_string()) }
}

fn variable(name: &str, ty: &str) -> Variable {
    Variable { name: name.to_string(), ty: ty.to_string() }
}

fn bind(binding: Binding, value: Expr) -> Stmt {
    Stmt::Let { bindings: vec![binding], values: vec![value] }
}

fn increment(name: &str) -> Stmt {
    Stmt::Assign {
        target: name.to_string(),
        value: Expr::Sum(Box::new(var(name)), Box::new(Expr::Number(1))),
    }
}

fn complex_machine() -> StateMachine {
    let procedure = Procedure {
        parameters: vec![variable("begin", "u8")],
        body: vec![
            bind(typed("current_num", "u8"), var("begin")),
            Stmt::Freeze(Emission::Silent),
            Stmt::Let {
                bindings: vec![typed("num1", "u8"), typed("num2", "u8")],
                values: vec![
                    Expr::Sum(Box::new(var("current_num")), Box::new(Expr::Number(1))),
                    Expr::Difference(Box::new(var("current_num")), Box::new(Expr::Number(1))),
                ],
            },
            Stmt::Freeze(Emission::Silent),
            bind(
                typed("mult_str", "String"),
                Expr::Decimal(Box::new(Expr::Product(Box::new(var("num1")), Box::new(var("num2"))))),
            ),
            Stmt::Freeze(Emission::Silent),
            Stmt::Append {
                target: "mult_str".to_string(),
                text: Expr::Text(" a random text".to_string()),
            },
            Stmt::Truncate { target: "mult_str".to_string(), len: 10 },
        ],
        result: var("mult_str"),
    };
    lower(procedure).unwrap()
}

fn generator_machine() -> StateMachine {
    let procedure = Procedure {
        parameters: vec![variable("begin", "u8")],
        body: vec![
            bind(typed("next", "u8"), var("begin")),
            Stmt::Freeze(Emission::Variable("next".to_string())),
            increment("next"),
            Stmt::Freeze(Emission::Variable("next".to_string())),
            increment("next"),
            Stmt::Freeze(Emission::Variable("next".to_string())),
            increment("next"),
        ],
        result: var("next"),
    };
    lower(procedure).unwrap()
}

/// A generator of `markers + 1` numbers.
fn counter_machine(markers: usize) -> StateMachine {
    let mut body = vec![bind(typed("next", "u8"), var("begin"))];
    for _ in 0..markers {
        body.push(Stmt::Freeze(Emission::Variable("next".to_string())));
        body.push(increment("next"));
    }
    let procedure =
        Procedure { parameters: vec![variable("begin", "u8")], body, result: var("next") };
    lower(procedure).unwrap()
}

fn as_number(result: Result<FreezableState<Value>, FreezableError>) -> Result<FreezableState<u8>, FreezableError> {
    match result {
        Ok(FreezableState::Finished(Value::Number(n))) => Ok(FreezableState::Finished(n)),
        Ok(FreezableState::Frozen(Some(Value::Number(n)))) => Ok(FreezableState::Frozen(Some(n))),
        Ok(FreezableState::Frozen(None)) => Ok(FreezableState::Frozen(None)),
        Err(error) => Err(error),
        other => panic!("not a number: {:?}", other),
    }
}

fn as_text(result: Result<FreezableState<Value>, FreezableError>) -> Result<FreezableState<String>, FreezableError> {
    match result {
        Ok(FreezableState::Finished(Value::Text(t))) => Ok(FreezableState::Finished(t)),
        Ok(FreezableState::Frozen(Some(Value::Text(t)))) => Ok(FreezableState::Frozen(Some(t))),
        Ok(FreezableState::Frozen(None)) => Ok(FreezableState::Frozen(None)),
        Err(error) => Err(error),
        other => panic!("not a text: {:?}", other),
    }
}

#[test]
fn an_instance_starts_in_the_first_chunk_with_its_arguments() {
    let instance = Instance::start(generator_machine(), vec![Value::Number(5)]);
    assert_eq!(instance.state, TaskState::Chunk(0, vec![Some(Value::Number(5))]));
    assert!(!instance.is_finished());
    assert!(!instance.is_cancelled());
}

#[test]
fn every_step_moves_to_the_next_chunk_with_all_variables() {
    let mut instance = Instance::start(complex_machine(), vec![Value::Number(5)]);
    let five = || Some(Value::Number(5));
    let _ = instance.unfreeze();
    assert_eq!(instance.state, TaskState::Chunk(1, vec![five(), five()]));
    let _ = instance.unfreeze();
    assert_eq!(
        instance.state,
        TaskState::Chunk(2, vec![five(), five(), Some(Value::Number(6)), Some(Value::Number(4))])
    );
    let _ = instance.unfreeze();
    assert_eq!(
        instance.state,
        TaskState::Chunk(
            3,
            vec![
                five(),
                five(),
                Some(Value::Number(6)),
                Some(Value::Number(4)),
                Some(Value::Text("24".to_string()))
            ]
        )
    );
    let _ = instance.unfreeze();
    assert_eq!(instance.state, TaskState::Finished);
}

#[test]
fn markers_plus_one_steps_succeed_and_the_next_one_fails() {
    for markers in 0..20 {
        let mut instance = Instance::start(counter_machine(markers), vec![Value::Number(100)]);
        for step in 0..markers {
            assert_eq!(instance.state.clone_index(), Some(step));
            assert_eq!(
                instance.unfreeze(),
                Ok(FreezableState::Frozen(Some(Value::Number(100 + step as u8))))
            );
            assert!(!instance.is_finished());
        }
        assert_eq!(
            instance.unfreeze(),
            Ok(FreezableState::Finished(Value::Number(100 + markers as u8)))
        );
        assert!(instance.is_finished());
        assert_eq!(instance.unfreeze(), Err(FreezableError::AlreadyFinished));
        assert_eq!(instance.unfreeze(), Err(FreezableError::AlreadyFinished));
        assert!(instance.is_finished());
    }
}

trait ChunkIndex {
    fn clone_index(&self) -> Option<usize>;
}

impl ChunkIndex for TaskState {
    fn clone_index(&self) -> Option<usize> {
        match self {
            TaskState::Chunk(index, _) => Some(*index),
            _ => None,
        }
    }
}

#[test]
fn a_procedure_without_markers_starts_and_finishes_in_one_step() {
    let mut instance = Instance::start(counter_machine(0), vec![Value::Number(7)]);
    assert_eq!(instance.unfreeze(), Ok(FreezableState::Finished(Value::Number(7))));
    assert_eq!(instance.unfreeze(), Err(FreezableError::AlreadyFinished));
}

#[test]
fn the_lowered_generator_does_what_the_hand_written_one_does() {
    for begin in 0..=252u8 {
        let mut lowered = Instance::start(generator_machine(), vec![Value::Number(begin)]);
        let mut reference = FreezableGenerator4::start(begin);
        for _ in 0..6 {
            assert_eq!(as_number(lowered.unfreeze()), reference.unfreeze());
            assert_eq!(lowered.is_finished(), reference.is_finished());
        }
    }
}

#[test]
fn the_lowered_complex_task_does_what_the_hand_written_one_does() {
    for begin in 1..=16u8 {
        let mut lowered = Instance::start(complex_machine(), vec![Value::Number(begin)]);
        let mut reference = FreezableComplex::start(begin);
        for _ in 0..6 {
            assert_eq!(as_text(lowered.unfreeze()), reference.unfreeze());
            assert_eq!(lowered.is_finished(), reference.is_finished());
        }
    }
}

#[test]
fn cancelling_an_instance_is_idempotent_and_absorbing() {
    for steps in 0..=5 {
        let mut instance = Instance::start(generator_machine(), vec![Value::Number(5)]);
        for _ in 0..steps {
            let _ = instance.unfreeze();
        }
        instance.cancel();
        assert_eq!(instance.state, TaskState::Cancelled);
        instance.cancel();
        assert_eq!(instance.state, TaskState::Cancelled);
        assert!(instance.is_cancelled());
        assert!(!instance.is_finished());
        assert_eq!(instance.unfreeze(), Err(FreezableError::Cancelled));
        assert_eq!(instance.unfreeze(), Err(FreezableError::Cancelled));
        assert_eq!(instance.state, TaskState::Cancelled);
    }
}

#[test]
fn an_emitted_text_is_a_copy_of_the_variable() {
    let procedure = Procedure {
        parameters: vec![variable("t", "String")],
        body: vec![
            Stmt::Freeze(Emission::Variable("t".to_string())),
            Stmt::Append { target: "t".to_string(), text: Expr::Text("!".to_string()) },
            Stmt::Freeze(Emission::Variable("t".to_string())),
        ],
        result: var("t"),
    };
    let mut instance =
        Instance::start(lower(procedure).unwrap(), vec![Value::Text("hi".to_string())]);
    assert_eq!(
        instance.unfreeze(),
        Ok(FreezableState::Frozen(Some(Value::Text("hi".to_string()))))
    );
    assert_eq!(
        instance.unfreeze(),
        Ok(FreezableState::Frozen(Some(Value::Text("hi!".to_string()))))
    );
    assert_eq!(instance.unfreeze(), Ok(FreezableState::Finished(Value::Text("hi!".to_string()))));
}

#[test]
fn an_instance_knows_whether_it_can_run_to_its_end() {
    for begin in 0..=255u8 {
        let generator = Instance::start(generator_machine(), vec![Value::Number(begin)]);
        assert_eq!(generator.is_well_formed(), begin <= 252);
        let complex = Instance::start(complex_machine(), vec![Value::Number(begin)]);
        assert_eq!(complex.is_well_formed(), (1..=16).contains(&begin));
    }
}

#[test]
fn an_instance_needs_an_argument_of_the_right_kind_for_every_parameter() {
    assert!(!Instance::start(generator_machine(), vec![]).is_well_formed());
    assert!(
        !Instance::start(generator_machine(), vec![Value::Number(1), Value::Number(2)])
            .is_well_formed()
    );
    assert!(!Instance::start(generator_machine(), vec![Value::Text("1".to_string())])
        .is_well_formed());
    assert!(Instance::start(generator_machine(), vec![Value::Number(1)]).is_well_formed());
}

#[test]
fn an_instance_stays_well_formed_while_it_runs() {
    let mut instance = Instance::start(complex_machine(), vec![Value::Number(9)]);
    for _ in 0..4 {
        assert!(instance.is_well_formed());
        assert!(instance.unfreeze().is_ok());
    }
    assert!(instance.is_well_formed());
    let checked = Instance::start(generator_machine(), vec![Value::Number(5)]);
    assert!(checked.is_well_formed());
    assert_eq!(checked.state, TaskState::Chunk(0, vec![Some(Value::Number(5))]));
}

#[test]
fn an_instance_with_an_empty_field_or_an_unknown_chunk_cannot_run() {
    let empty = Instance { machine: generator_machine(), state: TaskState::Chunk(0, vec![None]) };
    assert!(!empty.is_well_formed());
    let beyond = Instance {
        machine: generator_machine(),
        state: TaskState::Chunk(4, vec![Some(Value::Number(1)), Some(Value::Number(1))]),
    };
    assert!(!beyond.is_well_formed());
    let finished = Instance { machine: generator_machine(), state: TaskState::Finished };
    assert!(finished.is_well_formed());
    let cancelled = Instance { machine: generator_machine(), state: TaskState::Cancelled };
    assert!(cancelled.is_well_formed());
}
