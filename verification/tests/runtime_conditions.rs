use rumoca_lower::ir::{
    expr_tag, flattened_literal_array_element_count, literal_array_shape, statement_tag,
    BuiltinFunction, ExprSubscript, Expression, ForIndex, Statement,
};
use rumoca_lower::span::{SourceId, Span};
use rumoca_lower::runtime_conditions::{
    is_runtime_discrete_clock_call, uses_runtime_discrete_condition,
};

fn var(name: &str) -> Expression {
    Expression::VarRef { name: name.to_string(), subscripts: Vec::new() }
}

fn builtin(function: BuiltinFunction, args: Vec<Expression>) -> Expression {
    Expression::BuiltinCall { function, args }
}

#[test]
fn clock_calls_are_recognised_by_last_segment() {
    assert!(is_runtime_discrete_clock_call("Clock"));
    assert!(is_runtime_discrete_clock_call("Modelica.Clocked.subSample"));
    assert!(is_runtime_discrete_clock_call("hold"));
    assert!(!is_runtime_discrete_clock_call("Modelica.Math.sin"));
    assert!(!is_runtime_discrete_clock_call("holdLast"));
}

#[test]
fn event_operators_anywhere_make_a_condition_discrete() {
    let plain = Expression::Binary { lhs: Box::new(var("x")), rhs: Box::new(Expression::Literal) };
    assert!(!uses_runtime_discrete_condition(&plain));
    let with_pre = Expression::Binary {
        lhs: Box::new(var("x")),
        rhs: Box::new(builtin(BuiltinFunction::Pre, vec![var("n")])),
    };
    assert!(uses_runtime_discrete_condition(&with_pre));
    assert!(!uses_runtime_discrete_condition(&builtin(BuiltinFunction::Der, vec![var("x")])));
    assert!(uses_runtime_discrete_condition(&builtin(
        BuiltinFunction::Other,
        vec![var("a"), builtin(BuiltinFunction::Sample, vec![])]
    )));
    let clocked = Expression::FunctionCall { name: "Modelica.Clocked.previous".to_string(), args: vec![] };
    assert!(uses_runtime_discrete_condition(&clocked));
    let call = Expression::FunctionCall { name: "f".to_string(), args: vec![var("x")] };
    assert!(!uses_runtime_discrete_condition(&call));
}

#[test]
fn subscript_and_comprehension_expressions_are_searched() {
    let indexed = Expression::Index {
        base: Box::new(var("table")),
        subscripts: vec![
            ExprSubscript::Index { value: 2 },
            ExprSubscript::Expr { expr: Box::new(builtin(BuiltinFunction::Edge, vec![var("b")])) },
        ],
    };
    assert!(uses_runtime_discrete_condition(&indexed));
    let colon_only = Expression::Index { base: Box::new(var("table")), subscripts: vec![ExprSubscript::Colon] };
    assert!(!uses_runtime_discrete_condition(&colon_only));
    let comprehension = Expression::ArrayComprehension {
        expr: Box::new(var("i")),
        indices: vec![ForIndex {
            ident: "i".to_string(),
            range: Expression::Range {
                start: Box::new(Expression::Literal),
                step: None,
                end: Box::new(builtin(BuiltinFunction::Change, vec![var("k")])),
            },
        }],
        filter: None,
    };
    assert!(uses_runtime_discrete_condition(&comprehension));
    let conditional = Expression::If {
        branches: vec![(var("c"), var("a"))],
        else_branch: Box::new(builtin(BuiltinFunction::Initial, vec![])),
    };
    assert!(uses_runtime_discrete_condition(&conditional));
    // A reference's own subscripts are not searched.
    let reference = Expression::VarRef {
        name: "x".to_string(),
        subscripts: vec![ExprSubscript::Expr { expr: Box::new(builtin(BuiltinFunction::Pre, vec![])) }],
    };
    assert!(!uses_runtime_discrete_condition(&reference));
}

#[test]
fn expression_and_statement_tags_name_the_variant() {
    assert_eq!(expr_tag(&var("x")), "VarRef");
    assert_eq!(expr_tag(&Expression::Literal), "Literal");
    assert_eq!(expr_tag(&builtin(BuiltinFunction::Pre, vec![])), "BuiltinCall");
    assert_eq!(statement_tag(&Statement::Break), "Break");
    assert_eq!(
        statement_tag(&Statement::Assignment { target: "y".to_string(), value: var("x") }),
        "Assignment"
    );
}

#[test]
fn literal_array_shapes_count_rows_and_first_row_columns() {
    let row = |n: usize| Expression::Array { elements: (0..n).map(|_| Expression::Literal).collect(), is_matrix: false };
    assert_eq!(literal_array_shape(&row(3)), Some(vec![3]));
    let matrix = Expression::Array { elements: vec![row(2), row(2), row(2)], is_matrix: true };
    assert_eq!(literal_array_shape(&matrix), Some(vec![3, 2]));
    let empty_matrix = Expression::Array { elements: vec![], is_matrix: true };
    assert_eq!(literal_array_shape(&empty_matrix), Some(vec![0, 0]));
    let scalar_rows = Expression::Array { elements: vec![var("a")], is_matrix: true };
    assert_eq!(literal_array_shape(&scalar_rows), Some(vec![1, 0]));
    assert_eq!(literal_array_shape(&var("a")), None);
}

#[test]
fn flattened_literal_count_spreads_nested_rows() {
    let span = Span::from_offsets(SourceId::new(4), 0, 3);
    let row = |n: usize| Expression::Array { elements: (0..n).map(|_| Expression::Literal).collect(), is_matrix: false };
    assert_eq!(flattened_literal_array_element_count(&[row(2), Expression::Literal, row(3)], span).unwrap(), 6);
    assert_eq!(flattened_literal_array_element_count(&[], span).unwrap(), 0);
    assert_eq!(flattened_literal_array_element_count(&[row(0), var("x")], span).unwrap(), 1);
}
