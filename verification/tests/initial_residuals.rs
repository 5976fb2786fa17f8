use indexmap::IndexMap;
use rumoca_lower::initial_residual::{
    expression_references_solver_unknown, initial_equation_constrains_solver_unknown,
    initial_residual_equations, InitialEquation, ResidualSource,
};
use rumoca_lower::ir::{ExprSubscript, Expression};

fn var(name: &str) -> Expression {
    Expression::VarRef { name: name.to_string(), subscripts: Vec::new() }
}

fn unknowns(names: &[&str]) -> IndexMap<String, ()> {
    let mut set = IndexMap::new();
    for name in names {
        set.insert(name.to_string(), ());
    }
    set
}

#[test]
fn solver_unknowns_are_found_anywhere_in_an_expression() {
    let u = unknowns(&["y"]);
    assert!(!expression_references_solver_unknown(&var("x"), &u));
    let sum = Expression::Binary { lhs: Box::new(var("x")), rhs: Box::new(var("y")) };
    assert!(expression_references_solver_unknown(&sum, &u));
    let indexed = Expression::VarRef {
        name: "a".to_string(),
        subscripts: vec![ExprSubscript::Expr { expr: Box::new(var("y")) }],
    };
    assert!(expression_references_solver_unknown(&indexed, &u));
    let call = Expression::FunctionCall { name: "y".to_string(), args: vec![var("z")] };
    assert!(!expression_references_solver_unknown(&call, &u));
}

#[test]
fn initial_residuals_skip_state_rows_and_renumber_initial_equations() {
    let u = unknowns(&["p"]);
    let init = vec![
        InitialEquation { lhs: None, rhs: var("q") },
        InitialEquation { lhs: Some("p".to_string()), rhs: Expression::Literal },
        InitialEquation { lhs: None, rhs: Expression::Unary { rhs: Box::new(var("p")) } },
    ];
    assert!(!initial_equation_constrains_solver_unknown(&u, &init[0]));
    assert!(initial_equation_constrains_solver_unknown(&u, &init[1]));
    let rows = initial_residual_equations(3, &[true, false], &init, &u);
    assert_eq!(
        rows,
        vec![
            (1, ResidualSource::Continuous { index: 1 }),
            (2, ResidualSource::Continuous { index: 2 }),
            (3, ResidualSource::Initialization { index: 1 }),
            (4, ResidualSource::Initialization { index: 2 }),
        ]
    );
}
