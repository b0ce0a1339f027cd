use freezable::lowering::{lower, Exit, LoweringError, StateMachine};
use freezable::procedure::{Binding, Emission, Expr, Procedure, Stmt, Variable};
use freezable::rendering::{
    variant_declaration, variant_generator, variant_name, variant_names, RenderingError,
};
use quote::ToTokens;

fn var(name: &str) -> Expr {
    Expr::Variable(name.to_string())
}

fn typed(name: &str, ty: &str) -> Binding {
    Binding { name: name.to_string(), ty: Some(ty.to_string()) }
}

fn untyped(name: &str) -> Binding {
    Binding { name: name.to_string(), ty: None }
}

fn variable(name: &str, ty: &str) -> Variable {
    Variable { name: name.to_string(), ty: ty.to_string() }
}

fn bind(binding: Binding, value: Expr) -> Stmt {
    Stmt::Let { bindings: vec![binding], values: vec![value] }
}

fn increment(name: &str) -> Stmt {
    Stmt::Assign {
        target: name.to_string(),
        value: Expr::Sum(Box::new(var(name)), Box::new(Expr::Number(1))),
    }
}

fn complex_procedure() -> Procedure {
    Procedure {
        parameters: vec![variable("begin", "u8")],
        body: vec![
            bind(typed("current_num", "u8"), var("begin")),
            Stmt::Freeze(Emission::Silent),
            Stmt::Let {
                bindings: vec![typed("num1", "u8"), typed("num2", "u8")],
                values: vec![
                    Expr::Sum(Box::new(var("current_num")), Box::new(Expr::Number(1))),
                    Expr::Difference(Box::new(var("current_num")), Box::new(Expr::Number(1))),
                ],
            },
            Stmt::Freeze(Emission::Silent),
            bind(
                typed("mult_str", "String"),
                Expr::Decimal(Box::new(Expr::Product(Box::new(var("num1")), Box::new(var("num2"))))),
            ),
            Stmt::Freeze(Emission::Silent),
            Stmt::Append {
                target: "mult_str".to_string(),
                text: Expr::Text(" a random text".to_string()),
            },
            Stmt::Truncate { target: "mult_str".to_string(), len: 10 },
        ],
        result: var("mult_str"),
    }
}

fn generator_procedure() -> Procedure {
    Procedure {
        parameters: vec![variable("begin", "u8")],
        body: vec![
            bind(typed("next", "u8"), var("begin")),
            Stmt::Freeze(Emission::Variable("next".to_string())),
            increment("next"),
            Stmt::Freeze(Emission::Variable("next".to_string())),
            increment("next"),
            Stmt::Freeze(Emission::Variable("next".to_string())),
            increment("next"),
        ],
        result: var("next"),
    }
}

fn capture_names(machine: &StateMachine, chunk: usize) -> Vec<String> {
    machine.chunks[chunk].captures.iter().map(|v| v.name.clone()).collect()
}

#[test]
fn three_markers_give_four_chunks() {
    assert_eq!(lower(complex_procedure()).unwrap().chunks.len(), 4);
    assert_eq!(lower(generator_procedure()).unwrap().chunks.len(), 4);
}

#[test]
fn a_body_without_markers_is_one_chunk() {
    let procedure = Procedure {
        parameters: vec![],
        body: vec![bind(untyped("x"), Expr::Number(1)), increment("x")],
        result: var("x"),
    };
    let machine = lower(procedure).unwrap();
    assert_eq!(machine.chunks.len(), 1);
    assert!(machine.chunks[0].captures.is_empty());
    assert_eq!(machine.chunks[0].body.len(), 2);
    assert_eq!(machine.chunks[0].exit, Exit::Finish { result: var("x") });
}

#[test]
fn an_empty_body_is_one_empty_chunk() {
    let procedure =
        Procedure { parameters: vec![variable("a", "u8")], body: vec![], result: var("a") };
    let machine = lower(procedure).unwrap();
    assert_eq!(machine.chunks.len(), 1);
    assert_eq!(machine.chunks[0].captures, vec![variable("a", "u8")]);
    assert!(machine.chunks[0].body.is_empty());
}

#[test]
fn markers_side_by_side_give_empty_chunks() {
    let procedure = Procedure {
        parameters: vec![variable("a", "u8")],
        body: vec![
            Stmt::Freeze(Emission::Silent),
            Stmt::Freeze(Emission::Variable("a".to_string())),
        ],
        result: var("a"),
    };
    let machine = lower(procedure).unwrap();
    assert_eq!(machine.chunks.len(), 3);
    for chunk in &machine.chunks {
        assert!(chunk.body.is_empty());
        assert_eq!(chunk.captures, vec![variable("a", "u8")]);
    }
    assert_eq!(machine.chunks[0].exit, Exit::Freeze { emission: None });
    assert_eq!(machine.chunks[1].exit, Exit::Freeze { emission: Some("a".to_string()) });
    assert_eq!(machine.chunks[2].exit, Exit::Finish { result: var("a") });
}

#[test]
fn capture_sets_start_with_the_parameters_and_only_grow() {
    let machine = lower(complex_procedure()).unwrap();
    assert_eq!(capture_names(&machine, 0), vec!["begin"]);
    assert_eq!(capture_names(&machine, 1), vec!["begin", "current_num"]);
    assert_eq!(capture_names(&machine, 2), vec!["begin", "current_num", "num1", "num2"]);
    assert_eq!(
        capture_names(&machine, 3),
        vec!["begin", "current_num", "num1", "num2", "mult_str"]
    );
    assert_eq!(machine.chunks[3].captures[4], variable("mult_str", "String"));
    assert_eq!(machine.chunks[2].captures[3], variable("num2", "u8"));
}

#[test]
fn the_last_chunk_declares_nothing_that_is_captured() {
    let machine = lower(generator_procedure()).unwrap();
    assert_eq!(capture_names(&machine, 0), vec!["begin"]);
    for chunk in 1..4 {
        assert_eq!(capture_names(&machine, chunk), vec!["begin", "next"]);
    }
}

#[test]
fn chunks_hold_the_statements_between_the_markers() {
    let machine = lower(complex_procedure()).unwrap();
    let lengths: Vec<usize> = machine.chunks.iter().map(|c| c.body.len()).collect();
    assert_eq!(lengths, vec![1, 1, 1, 2]);
    assert_eq!(machine.chunks[3].body[1], Stmt::Truncate { target: "mult_str".to_string(), len: 10 });
    let machine = lower(generator_procedure()).unwrap();
    assert_eq!(machine.chunks[0].body[0], bind(typed("next", "u8"), var("begin")));
    for chunk in 1..4 {
        assert_eq!(machine.chunks[chunk].body, vec![increment("next")]);
    }
}

#[test]
fn exits_follow_the_markers() {
    let machine = lower(generator_procedure()).unwrap();
    for chunk in 0..3 {
        assert_eq!(machine.chunks[chunk].exit, Exit::Freeze { emission: Some("next".to_string()) });
    }
    assert_eq!(machine.chunks[3].exit, Exit::Finish { result: var("next") });
    let machine = lower(complex_procedure()).unwrap();
    for chunk in 0..3 {
        assert_eq!(machine.chunks[chunk].exit, Exit::Freeze { emission: None });
    }
    assert_eq!(machine.chunks[3].exit, Exit::Finish { result: var("mult_str") });
}

#[test]
fn a_variable_that_lives_across_a_marker_needs_a_type() {
    let procedure = Procedure {
        parameters: vec![],
        body: vec![bind(untyped("x"), Expr::Number(1)), Stmt::Freeze(Emission::Silent)],
        result: var("x"),
    };
    assert_eq!(lower(procedure), Err(LoweringError::MissingType));
}

#[test]
fn one_untyped_name_of_a_tuple_is_enough_to_fail() {
    let procedure = Procedure {
        parameters: vec![],
        body: vec![
            Stmt::Let {
                bindings: vec![typed("a", "u8"), untyped("b")],
                values: vec![Expr::Number(1), Expr::Number(2)],
            },
            Stmt::Freeze(Emission::Silent),
        ],
        result: var("a"),
    };
    assert_eq!(lower(procedure), Err(LoweringError::MissingType));
}

#[test]
fn a_variable_of_the_last_chunk_needs_no_type() {
    let procedure = Procedure {
        parameters: vec![variable("a", "u8")],
        body: vec![Stmt::Freeze(Emission::Silent), bind(untyped("x"), var("a"))],
        result: var("x"),
    };
    let machine = lower(procedure).unwrap();
    assert_eq!(machine.chunks.len(), 2);
    assert_eq!(capture_names(&machine, 1), vec!["a"]);
}

#[test]
fn a_marker_must_not_hold_an_expression() {
    let procedure = Procedure {
        parameters: vec![variable("a", "u8")],
        body: vec![Stmt::Freeze(Emission::Expression)],
        result: var("a"),
    };
    assert_eq!(lower(procedure), Err(LoweringError::InvalidEmission));
}

#[test]
fn a_marker_must_name_a_declared_variable() {
    let procedure = Procedure {
        parameters: vec![variable("a", "u8")],
        body: vec![
            Stmt::Freeze(Emission::Variable("later".to_string())),
            bind(typed("later", "u8"), var("a")),
        ],
        result: var("a"),
    };
    assert_eq!(lower(procedure), Err(LoweringError::InvalidEmission));
}

#[test]
fn a_marker_may_name_a_parameter_or_a_variable_of_its_chunk() {
    let procedure = Procedure {
        parameters: vec![variable("a", "u8")],
        body: vec![
            Stmt::Freeze(Emission::Variable("a".to_string())),
            bind(typed("b", "u8"), var("a")),
            Stmt::Freeze(Emission::Variable("b".to_string())),
        ],
        result: var("b"),
    };
    assert!(lower(procedure).is_ok());
}

#[test]
fn the_first_faulty_suspension_decides_the_error() {
    let emission_first = Procedure {
        parameters: vec![],
        body: vec![
            Stmt::Freeze(Emission::Expression),
            bind(untyped("x"), Expr::Number(1)),
            Stmt::Freeze(Emission::Silent),
        ],
        result: var("x"),
    };
    assert_eq!(lower(emission_first), Err(LoweringError::InvalidEmission));
    let type_first = Procedure {
        parameters: vec![],
        body: vec![
            bind(untyped("x"), Expr::Number(1)),
            Stmt::Freeze(Emission::Silent),
            Stmt::Freeze(Emission::Expression),
        ],
        result: var("x"),
    };
    assert_eq!(lower(type_first), Err(LoweringError::MissingType));
    let both_at_once = Procedure {
        parameters: vec![],
        body: vec![bind(untyped("x"), Expr::Number(1)), Stmt::Freeze(Emission::Expression)],
        result: var("x"),
    };
    assert_eq!(lower(both_at_once), Err(LoweringError::MissingType));
}

#[test]
fn variants_are_named_after_their_chunks() {
    assert_eq!(variant_name(0), "Chunk0");
    assert_eq!(variant_name(7), "Chunk7");
    assert_eq!(variant_name(12), "Chunk12");
    assert_eq!(variant_name(305), "Chunk305");
    let machine = lower(complex_procedure()).unwrap();
    let names: Vec<String> =
        variant_names(&machine).unwrap().iter().map(|v| v.ident.to_string()).collect();
    assert_eq!(names, vec!["Chunk0", "Chunk1", "Chunk2", "Chunk3"]);
    for variant in variant_names(&machine).unwrap() {
        assert!(variant.fields.is_empty());
    }
}

#[test]
fn variants_wrap_every_captured_type_in_an_option() {
    assert_eq!(variant_declaration(0, &vec![]), "Chunk0");
    assert_eq!(variant_declaration(2, &vec![variable("a", "u8")]), "Chunk2(Option<u8>, )");
    assert_eq!(
        variant_declaration(3, &lower(complex_procedure()).unwrap().chunks[3].captures),
        "Chunk3(Option<u8>, Option<u8>, Option<u8>, Option<u8>, Option<String>, )"
    );
    let machine = lower(complex_procedure()).unwrap();
    let variants = variant_generator(&machine).unwrap();
    let fields: Vec<Vec<String>> = variants
        .iter()
        .map(|variant| {
            variant
                .fields
                .iter()
                .map(|field| field.ty.to_token_stream().to_string().replace(' ', ""))
                .collect()
        })
        .collect();
    assert_eq!(
        fields,
        vec![
            vec!["Option<u8>"],
            vec!["Option<u8>", "Option<u8>"],
            vec!["Option<u8>", "Option<u8>", "Option<u8>", "Option<u8>"],
            vec!["Option<u8>", "Option<u8>", "Option<u8>", "Option<u8>", "Option<String>"],
        ]
    );
    let names: Vec<String> = variants.iter().map(|v| v.ident.to_string()).collect();
    assert_eq!(names, vec!["Chunk0", "Chunk1", "Chunk2", "Chunk3"]);
}

#[test]
fn a_variant_without_captures_has_no_fields() {
    let procedure = Procedure {
        parameters: vec![],
        body: vec![Stmt::Freeze(Emission::Silent)],
        result: Expr::Number(1),
    };
    let machine = lower(procedure).unwrap();
    let variants = variant_generator(&machine).unwrap();
    assert_eq!(variants.len(), 2);
    assert!(variants.iter().all(|variant| variant.fields.is_empty()));
}

#[test]
fn a_type_that_is_no_type_cannot_be_declared() {
    let procedure = Procedure {
        parameters: vec![variable("a", "u8")],
        body: vec![
            bind(typed("b", "Vec<"), var("a")),
            Stmt::Freeze(Emission::Silent),
            Stmt::Freeze(Emission::Silent),
        ],
        result: var("a"),
    };
    let machine = lower(procedure).unwrap();
    assert_eq!(
        variant_generator(&machine).map(|variants| variants.len()),
        Err(RenderingError::InvalidVariant(1))
    );
    assert_eq!(variant_names(&machine).map(|names| names.len()), Ok(3));
}
