use rumoca_lower::collections::{name_set_insert, name_set_new};
use rumoca_lower::ir::{ExprSubscript, Expression, ForIndex, Statement, StatementBlock};
use rumoca_lower::paths::{ends_with, flatten_dots};
use rumoca_lower::var_refs::{
    collect_expression_var_refs, collect_statement_var_refs, is_flattened_record_field_actual,
    referenced_function_input_names,
};

fn var(name: &str) -> Expression {
    Expression::VarRef { name: name.to_string(), subscripts: Vec::new() }
}

fn indexed_var(name: &str) -> Expression {
    Expression::VarRef {
        name: name.to_string(),
        subscripts: vec![ExprSubscript::Index { value: 1 }],
    }
}

fn keys(set: &indexmap::IndexMap<String, ()>) -> Vec<String> {
    set.keys().cloned().collect()
}

fn inputs(names: &[&str]) -> indexmap::IndexMap<String, ()> {
    let mut set = name_set_new();
    for name in names {
        name_set_insert(&mut set, name.to_string());
    }
    set
}

#[test]
fn flatten_dots_replaces_every_dot() {
    assert_eq!(flatten_dots("a.b.c"), "a_b_c");
    assert_eq!(flatten_dots("plain"), "plain");
    assert_eq!(flatten_dots("."), "_");
    assert!(ends_with("rec.re", ".re"));
    assert!(!ends_with("re", ".re"));
}

#[test]
fn expression_refs_follow_walk_order_and_skip_non_inputs() {
    let input_names = inputs(&["x", "u", "rec_re", "k"]);
    let expr = Expression::Binary {
        lhs: Box::new(Expression::FunctionCall {
            name: "sin".to_string(),
            args: vec![var("u"), var("t"), var("x")],
        }),
        rhs: Box::new(Expression::If {
            branches: vec![(var("u"), var("rec.re"))],
            else_branch: Box::new(Expression::Range {
                start: Box::new(Expression::Literal),
                step: Some(Box::new(var("k"))),
                end: Box::new(var("x")),
            }),
        }),
    };
    let mut used = name_set_new();
    collect_expression_var_refs(&expr, &input_names, &mut used);
    assert_eq!(keys(&used), vec!["u", "x", "rec_re", "k"]);
}

#[test]
fn field_access_of_plain_variable_names_flattened_input() {
    let input_names = inputs(&["c_re", "c"]);
    let access = Expression::FieldAccess { base: Box::new(var("c")), field: "re".to_string() };
    let mut used = name_set_new();
    collect_expression_var_refs(&access, &input_names, &mut used);
    assert_eq!(keys(&used), vec!["c_re", "c"]);

    let indexed = Expression::FieldAccess { base: Box::new(indexed_var("c")), field: "re".to_string() };
    let mut used = name_set_new();
    collect_expression_var_refs(&indexed, &input_names, &mut used);
    assert_eq!(keys(&used), vec!["c"]);
}

#[test]
fn statement_refs_cover_nested_blocks_and_loops() {
    let input_names = inputs(&["a", "b", "n", "m"]);
    let statement = Statement::If {
        cond_blocks: vec![StatementBlock {
            cond: var("b"),
            stmts: vec![Statement::For {
                indices: vec![ForIndex {
                    ident: "i".to_string(),
                    range: Expression::Range {
                        start: Box::new(Expression::Literal),
                        step: None,
                        end: Box::new(var("n")),
                    },
                }],
                equations: vec![Statement::Assignment { target: "y".to_string(), value: var("a") }],
            }],
        }],
        else_block: Some(vec![Statement::Assert {
            condition: var("m"),
            message: Expression::Literal,
            level: None,
        }]),
    };
    let mut used = name_set_new();
    collect_statement_var_refs(&statement, &input_names, &mut used);
    assert_eq!(keys(&used), vec!["b", "n", "a", "m"]);
}

#[test]
fn referenced_input_names_of_a_function_body() {
    let body = vec![
        Statement::Assignment {
            target: "y".to_string(),
            value: Expression::Binary { lhs: Box::new(var("u2")), rhs: Box::new(var("u1")) },
        },
        Statement::While {
            block: StatementBlock {
                cond: var("u2"),
                stmts: vec![Statement::Break],
            },
        },
        Statement::Return,
    ];
    let names = vec!["u1".to_string(), "u2".to_string(), "u3".to_string()];
    let used = referenced_function_input_names(&names, &body);
    assert_eq!(keys(&used), vec!["u2", "u1"]);
}

#[test]
fn flattened_record_field_actuals() {
    assert!(is_flattened_record_field_actual(&var("z.re"), "re"));
    assert!(is_flattened_record_field_actual(&var("z_im"), "im"));
    assert!(!is_flattened_record_field_actual(&indexed_var("z.re"), "re"));
    assert!(!is_flattened_record_field_actual(&var("zre"), "re"));
    let access = Expression::FieldAccess { base: Box::new(var("z")), field: "im".to_string() };
    assert!(is_flattened_record_field_actual(&access, "im"));
    assert!(!is_flattened_record_field_actual(&access, "re"));
}
