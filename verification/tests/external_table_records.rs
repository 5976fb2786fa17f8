use rumoca_lower::external_tables::{
    external_table_constructor_call, external_table_field_prefix,
    external_table_field_prefix_anywhere, first_matching_external_table_field_prefix,
    repeated_external_table_constructor_record_args, structural_table_id_key_for_constructor_arg,
    structural_table_id_key_for_flattened_args,
};
use rumoca_lower::intrinsics::ExternalTableRecordKind;
use rumoca_lower::ir::{ExprSubscript, Expression};

fn var(name: &str) -> Expression {
    Expression::VarRef { name: name.to_string(), subscripts: Vec::new() }
}

fn call(name: &str, args: Vec<Expression>) -> Expression {
    Expression::FunctionCall { name: name.to_string(), args }
}

fn time_table_fields() -> Vec<&'static str> {
    ExternalTableRecordKind::CombiTimeTable.flattened_field_names()
}

fn flattened_record_args(record: &str) -> Vec<Expression> {
    time_table_fields().iter().map(|field| var(&format!("{record}.{field}"))).collect()
}

#[test]
fn table_constructor_calls_are_recognised_by_leaf_name() {
    assert!(external_table_constructor_call(&call(
        "Modelica.Blocks.Types.ExternalCombiTimeTable",
        vec![]
    )));
    assert!(external_table_constructor_call(&call("ExternalCombiTable1D", vec![])));
    assert!(!external_table_constructor_call(&call("Modelica.Blocks.Types.Other", vec![])));
    assert!(!external_table_constructor_call(&var("ExternalCombiTable1D")));
}

#[test]
fn repeated_constructor_record_args_need_one_object_per_field_and_more() {
    let table = ExternalTableRecordKind::CombiTable1D;
    let mut args: Vec<Expression> = (0..9).map(|_| call("ExternalCombiTable1D", vec![])).collect();
    assert!(!repeated_external_table_constructor_record_args(table, &args));
    args.push(var("u"));
    assert!(repeated_external_table_constructor_record_args(table, &args));
    args[3] = var("x");
    assert!(!repeated_external_table_constructor_record_args(table, &args));
}

#[test]
fn field_prefix_strips_the_field_of_a_plain_reference() {
    assert_eq!(external_table_field_prefix(&var("sys.tab.fileName"), "fileName"), Some("sys.tab".to_string()));
    assert_eq!(external_table_field_prefix(&var("fileName"), "fileName"), None);
    assert_eq!(external_table_field_prefix(&var("tab_fileName"), "fileName"), None);
    let indexed = Expression::VarRef {
        name: "tab.table".to_string(),
        subscripts: vec![ExprSubscript::Index { value: 1 }],
    };
    assert_eq!(external_table_field_prefix(&indexed, "table"), None);
}

#[test]
fn field_prefix_anywhere_finds_the_first_record_in_walk_order() {
    let fields = time_table_fields();
    let expr = Expression::Binary {
        lhs: Box::new(Expression::Unary { rhs: Box::new(var("x")) }),
        rhs: Box::new(Expression::If {
            branches: vec![(var("c"), var("first.table"))],
            else_branch: Box::new(var("second.columns")),
        }),
    };
    assert_eq!(external_table_field_prefix_anywhere(&expr, &fields), Some("first".to_string()));
    let exprs = vec![var("y"), Expression::Index { base: Box::new(var("r.startTime")), subscripts: vec![] }];
    assert_eq!(first_matching_external_table_field_prefix(&exprs, &fields), Some("r".to_string()));
    let comprehension = Expression::ArrayComprehension {
        expr: Box::new(var("i")),
        indices: vec![],
        filter: Some(Box::new(var("f.shiftTime"))),
    };
    assert_eq!(external_table_field_prefix_anywhere(&comprehension, &fields), Some("f".to_string()));
    assert_eq!(external_table_field_prefix_anywhere(&Expression::Literal, &fields), None);
}

#[test]
fn flattened_args_name_the_table_id_binding_of_their_record() {
    let table = ExternalTableRecordKind::CombiTimeTable;
    let args = flattened_record_args("plant.tab");
    assert_eq!(
        structural_table_id_key_for_flattened_args(table, &args),
        Some("plant.tab.tableID".to_string())
    );
    let mut mixed = flattened_record_args("plant.tab");
    mixed[1] = var("other.fileName");
    assert_eq!(structural_table_id_key_for_flattened_args(table, &mixed), None);
    assert_eq!(structural_table_id_key_for_flattened_args(table, &args[..5]), None);
}

#[test]
fn constructor_args_must_agree_on_one_record() {
    let table = ExternalTableRecordKind::CombiTable1D;
    let ctor = call(
        "Modelica.Blocks.Types.ExternalCombiTable1D",
        vec![var("t.tableName"), Expression::Literal, var("t.table")],
    );
    assert_eq!(structural_table_id_key_for_constructor_arg(table, &ctor), Some("t.tableID".to_string()));
    let conflicting = call(
        "Modelica.Blocks.Types.ExternalCombiTable1D",
        vec![var("t.tableName"), var("u.table")],
    );
    assert_eq!(structural_table_id_key_for_constructor_arg(table, &conflicting), None);
    let no_record = call("Modelica.Blocks.Types.ExternalCombiTable1D", vec![Expression::Literal]);
    assert_eq!(structural_table_id_key_for_constructor_arg(table, &no_record), None);
    let not_ctor = call("f", vec![var("t.table")]);
    assert_eq!(structural_table_id_key_for_constructor_arg(table, &not_ctor), None);
}
