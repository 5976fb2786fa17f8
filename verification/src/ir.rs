use vstd::prelude::*;

use crate::capacity::spec_contract_error;
use crate::error::{contract_violation, LowerError};
use crate::span::Span;

verus! {

/// The built-in operators whose calls lowering tells apart.
#[derive(Clone, Copy, Debug, PartialEq, Eq, Structural)]
pub enum BuiltinFunction {
    Der,
    Pre,
    Edge,
    Change,
    Reinit,
    Initial,
    Sample,
    Size,
    /// Any other built-in operator or function.
    Other,
}

/// A subscript of a reference or an indexed expression.
pub enum ExprSubscript {
    /// A literal index.
    Index { value: i64 },
    /// `:`, the whole dimension.
    Colon,
    /// An index expression.
    Expr { expr: Box<Expression> },
}

/// A DAE expression, with the parts that lowering's analyses read:
/// names of referenced variables and fields, the built-in operators called,
/// and every subexpression.
pub enum Expression {
    VarRef { name: String, subscripts: Vec<ExprSubscript> },
    Unary { rhs: Box<Expression> },
    Binary { lhs: Box<Expression>, rhs: Box<Expression> },
    If { branches: Vec<(Expression, Expression)>, else_branch: Box<Expression> },
    FunctionCall { name: String, args: Vec<Expression> },
    BuiltinCall { function: BuiltinFunction, args: Vec<Expression> },
    Tuple { elements: Vec<Expression> },
    /// An array literal; a matrix literal holds its rows as arrays.
    Array { elements: Vec<Expression>, is_matrix: bool },
    FieldAccess { base: Box<Expression>, field: String },
    Index { base: Box<Expression>, subscripts: Vec<ExprSubscript> },
    Range { start: Box<Expression>, step: Option<Box<Expression>>, end: Box<Expression> },
    ArrayComprehension {
        expr: Box<Expression>,
        indices: Vec<ForIndex>,
        filter: Option<Box<Expression>>,
    },
    Literal,
    Empty,
}

/// A loop or comprehension index: `ident in range`.
pub struct ForIndex {
    pub ident: String,
    pub range: Expression,
}

/// A guarded block of statements: `if`/`elseif`/`while`/`when` branches.
pub struct StatementBlock {
    pub cond: Expression,
    pub stmts: Vec<Statement>,
}

/// A statement of an algorithm section or function body.
pub enum Statement {
    Assignment { target: String, value: Expression },
    If { cond_blocks: Vec<StatementBlock>, else_block: Option<Vec<Statement>> },
    For { indices: Vec<ForIndex>, equations: Vec<Statement> },
    While { block: StatementBlock },
    When { blocks: Vec<StatementBlock> },
    FunctionCall { name: String, args: Vec<Expression> },
    Reinit { target: String, value: Expression },
    Assert { condition: Expression, message: Expression, level: Option<Expression> },
    Empty,
    Return,
    Break,
}

/// The variant name of an expression, as error messages show it.
pub open spec fn spec_expr_tag(expr: Expression) -> Seq<char> {
    match expr {
        Expression::Binary { .. } => "Binary"@,
        Expression::Unary { .. } => "Unary"@,
        Expression::VarRef { .. } => "VarRef"@,
        Expression::BuiltinCall { .. } => "BuiltinCall"@,
        Expression::FunctionCall { .. } => "FunctionCall"@,
        Expression::Literal => "Literal"@,
        Expression::If { .. } => "If"@,
        Expression::Array { .. } => "Array"@,
        Expression::Tuple { .. } => "Tuple"@,
        Expression::Range { .. } => "Range"@,
        Expression::ArrayComprehension { .. } => "ArrayComprehension"@,
        Expression::Index { .. } => "Index"@,
        Expression::FieldAccess { .. } => "FieldAccess"@,
        Expression::Empty => "Empty"@,
    }
}

/// The variant name of `expr`.
pub fn expr_tag(expr: &Expression) -> (tag: &'static str)
    ensures
        tag@ == spec_expr_tag(*expr),
{
    match expr {
        Expression::Binary { .. } => "Binary",
        Expression::Unary { .. } => "Unary",
        Expression::VarRef { .. } => "VarRef",
        Expression::BuiltinCall { .. } => "BuiltinCall",
        Expression::FunctionCall { .. } => "FunctionCall",
        Expression::Literal => "Literal",
        Expression::If { .. } => "If",
        Expression::Array { .. } => "Array",
        Expression::Tuple { .. } => "Tuple",
        Expression::Range { .. } => "Range",
        Expression::ArrayComprehension { .. } => "ArrayComprehension",
        Expression::Index { .. } => "Index",
        Expression::FieldAccess { .. } => "FieldAccess",
        Expression::Empty => "Empty",
    }
}

/// The variant name of a statement, as error messages show it.
pub open spec fn spec_statement_tag(statement: Statement) -> Seq<char> {
    match statement {
        Statement::Empty => "Empty"@,
        Statement::Assignment { .. } => "Assignment"@,
        Statement::Return => "Return"@,
        Statement::Break => "Break"@,
        Statement::For { .. } => "For"@,
        Statement::While { .. } => "While"@,
        Statement::If { .. } => "If"@,
        Statement::When { .. } => "When"@,
        Statement::FunctionCall { .. } => "FunctionCall"@,
        Statement::Reinit { .. } => "Reinit"@,
        Statement::Assert { .. } => "Assert"@,
    }
}

/// The variant name of `statement`.
pub fn statement_tag(statement: &Statement) -> (tag: &'static str)
    ensures
        tag@ == spec_statement_tag(*statement),
{
    match statement {
        Statement::Empty => "Empty",
        Statement::Assignment { .. } => "Assignment",
        Statement::Return => "Return",
        Statement::Break => "Break",
        Statement::For { .. } => "For",
        Statement::While { .. } => "While",
        Statement::If { .. } => "If",
        Statement::When { .. } => "When",
        Statement::FunctionCall { .. } => "FunctionCall",
        Statement::Reinit { .. } => "Reinit",
        Statement::Assert { .. } => "Assert",
    }
}

/// The shape of an array literal: its length, or for a matrix literal its
/// row count and the length of its first row (`0` without an array row).
pub open spec fn spec_literal_array_shape(expr: Expression) -> Option<Seq<usize>> {
    match expr {
        Expression::Array { elements, is_matrix } => if !is_matrix {
            Some(seq![elements@.len() as usize])
        } else {
            Some(
                seq![
                    elements@.len() as usize,
                    if elements@.len() > 0 {
                        match elements@[0] {
                            Expression::Array { elements: row, .. } => row@.len() as usize,
                            _ => 0usize,
                        }
                    } else {
                        0usize
                    },
                ],
            )
        },
        _ => None,
    }
}

/// The shape of the array literal `expr`, if it is one.
pub fn literal_array_shape(expr: &Expression) -> (shape: Option<Vec<usize>>)
    ensures
        match shape {
            Some(v) => spec_literal_array_shape(*expr) == Some(v@),
            None => spec_literal_array_shape(*expr) is None,
        },
{
    match expr {
        Expression::Array { elements, is_matrix } => {
            if !*is_matrix {
                let shape = vec![elements.len()];
                return Some(shape);
            }
            let rows = elements.len();
            let cols = if rows > 0 {
                match &elements[0] {
                    Expression::Array { elements: row, .. } => row.len(),
                    _ => 0,
                }
            } else {
                0
            };
            let shape = vec![rows, cols];
            proof {
                assert(shape@ =~= seq![rows, cols]);
            }
            Some(shape)
        },
        _ => None,
    }
}

/// How many values an element of an array literal contributes once rows
/// are flattened: a nested array its length, anything else one.
pub open spec fn flattened_width(e: Expression) -> int {
    match e {
        Expression::Array { elements, .. } => elements@.len() as int,
        _ => 1,
    }
}

/// The flattened value count of the first `n` elements.
pub open spec fn flattened_count(elements: Seq<Expression>, n: int) -> int
    decreases n,
{
    if n <= 0 || n > elements.len() {
        0
    } else {
        flattened_count(elements, n - 1) + flattened_width(elements[n - 1])
    }
}

proof fn lemma_flattened_count_grows(elements: Seq<Expression>, n: int, m: int)
    requires
        0 <= n <= m <= elements.len(),
    ensures
        flattened_count(elements, n) <= flattened_count(elements, m),
    decreases m - n,
{
    if n < m {
        lemma_flattened_count_grows(elements, n, m - 1);
    }
}

/// The number of values of an array literal once its rows are flattened,
/// or a contract violation when it exceeds the host index range.
pub fn flattened_literal_array_element_count(elements: &[Expression], span: Span) -> (r: Result<
    usize,
    LowerError,
>)
    ensures
        match r {
            Ok(n) => n == flattened_count(elements@, elements@.len() as int),
            Err(e) => flattened_count(elements@, elements@.len() as int) > usize::MAX
                && spec_contract_error(
                e,
                "flattened literal array element count overflows host index range"@,
                span,
            ),
        },
{
    let mut count: usize = 0;
    let mut i: usize = 0;
    while i < elements.len()
        invariant
            i <= elements@.len(),
            count == flattened_count(elements@, i as int),
        decreases elements@.len() - i,
    {
        let additional: usize = match &elements[i] {
            Expression::Array { elements: row, .. } => row.len(),
            _ => 1,
        };
        match count.checked_add(additional) {
            Some(next) => {
                count = next;
            },
            None => {
                proof {
                    lemma_flattened_count_grows(elements@, i + 1, elements@.len() as int);
                }
                return Err(
                    contract_violation(
                        String::from_str(
                            "flattened literal array element count overflows host index range",
                        ),
                        span,
                    ),
                );
            },
        }
        i = i + 1;
    }
    Ok(count)
}

} // verus!
