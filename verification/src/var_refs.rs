use vstd::prelude::*;

use indexmap::IndexMap;

use crate::collections::{name_set_index_of, name_set_insert, name_set_keys, name_set_new};
use crate::ir::{BuiltinFunction, ExprSubscript, Expression, ForIndex, Statement, StatementBlock};
use crate::paths::{ends_with, flatten_dots, spec_ends_with, spec_flatten_dots, str_eq};
use crate::error::texts;
use crate::scope::{add_distinct, lemma_add_distinct_concat};

verus! {

/// The input named by a variable reference: the name itself when it is an
/// input, else its flattened form (`a.b` as `a_b`) when that is an input.
pub open spec fn var_ref_input(name: Seq<char>, inputs: Set<Seq<char>>) -> Seq<Seq<char>> {
    if inputs.contains(name) {
        seq![name]
    } else if inputs.contains(spec_flatten_dots(name)) {
        seq![spec_flatten_dots(name)]
    } else {
        Seq::empty()
    }
}

/// The flattened record-field input `a_f` named by a field access `a.f` of
/// an unsubscripted variable `a`.
pub open spec fn field_access_input(base: Expression, field: Seq<char>, inputs: Set<Seq<char>>) -> Seq<
    Seq<char>,
> {
    match base {
        Expression::VarRef { name, subscripts } => if subscripts@.len() == 0 && inputs.contains(
            name@ + "_"@ + field,
        ) {
            seq![name@ + "_"@ + field]
        } else {
            Seq::empty()
        },
        _ => Seq::empty(),
    }
}

/// The inputs an expression refers to, in the order a left-to-right walk
/// meets them (repeats included).
pub open spec fn expr_input_refs(e: Expression, inputs: Set<Seq<char>>) -> Seq<Seq<char>>
    decreases e, 0nat,
{
    match e {
        Expression::VarRef { name, .. } => var_ref_input(name@, inputs),
        Expression::Unary { rhs } => expr_input_refs(*rhs, inputs),
        Expression::Binary { lhs, rhs } => expr_input_refs(*lhs, inputs) + expr_input_refs(
            *rhs,
            inputs,
        ),
        Expression::If { branches, else_branch } => branches_input_refs(
            branches,
            branches@.len(),
            inputs,
        ) + expr_input_refs(*else_branch, inputs),
        Expression::FunctionCall { args, .. } => exprs_input_refs(args, args@.len(), inputs),
        Expression::BuiltinCall { args, .. } => exprs_input_refs(args, args@.len(), inputs),
        Expression::Tuple { elements } => exprs_input_refs(elements, elements@.len(), inputs),
        Expression::Array { elements, .. } => exprs_input_refs(elements, elements@.len(), inputs),
        Expression::FieldAccess { base, field } => field_access_input(*base, field@, inputs)
            + expr_input_refs(*base, inputs),
        Expression::Index { base, .. } => expr_input_refs(*base, inputs),
        Expression::Range { start, step, end } => expr_input_refs(*start, inputs) + match step {
            Some(s) => expr_input_refs(*s, inputs),
            None => Seq::empty(),
        } + expr_input_refs(*end, inputs),
        Expression::ArrayComprehension { expr, indices, filter } => expr_input_refs(*expr, inputs)
            + indices_input_refs(indices, indices@.len(), inputs) + match filter {
            Some(f) => expr_input_refs(*f, inputs),
            None => Seq::empty(),
        },
        Expression::Literal => Seq::empty(),
        Expression::Empty => Seq::empty(),
    }
}

/// The inputs the first `n` expressions refer to.
pub open spec fn exprs_input_refs(es: Vec<Expression>, n: nat, inputs: Set<Seq<char>>) -> Seq<
    Seq<char>,
>
    decreases es, n,
{
    if n == 0 || n > es@.len() {
        Seq::empty()
    } else {
        exprs_input_refs(es, (n - 1) as nat, inputs) + expr_input_refs(es[n - 1], inputs)
    }
}

/// The inputs the first `n` `(condition, value)` branches refer to.
pub open spec fn branches_input_refs(
    bs: Vec<(Expression, Expression)>,
    n: nat,
    inputs: Set<Seq<char>>,
) -> Seq<Seq<char>>
    decreases bs, n,
{
    if n == 0 || n > bs@.len() {
        Seq::empty()
    } else {
        branches_input_refs(bs, (n - 1) as nat, inputs) + expr_input_refs(bs[n - 1].0, inputs)
            + expr_input_refs(bs[n - 1].1, inputs)
    }
}

/// The inputs the ranges of the first `n` indices refer to.
pub open spec fn indices_input_refs(ix: Vec<ForIndex>, n: nat, inputs: Set<Seq<char>>) -> Seq<
    Seq<char>,
>
    decreases ix, n,
{
    if n == 0 || n > ix@.len() {
        Seq::empty()
    } else {
        indices_input_refs(ix, (n - 1) as nat, inputs) + expr_input_refs(ix[n - 1].range, inputs)
    }
}

/// What the first `m` expressions refer to stays among what the first
/// `n >= m` refer to.
proof fn lemma_exprs_refs_grow(es: Vec<Expression>, m: nat, n: nat, inputs: Set<Seq<char>>, x: Seq<char>)
    requires
        m <= n <= es@.len(),
        exprs_input_refs(es, m, inputs).contains(x),
    ensures
        exprs_input_refs(es, n, inputs).contains(x),
    decreases n - m,
{
    if m < n {
        lemma_exprs_refs_grow(es, m, (n - 1) as nat, inputs, x);
        let prev = exprs_input_refs(es, (n - 1) as nat, inputs);
        let k = choose|k: int| 0 <= k < prev.len() && prev[k] == x;
        assert((prev + expr_input_refs(es[n - 1], inputs))[k] == x);
    }
}

/// Inputs are collected in walk order: a binary expression refers to the
/// inputs of its left operand, then those of its right; a unary
/// expression and an indexed expression to those of their operand or
/// base; literals and empty expressions to none; and a variable reference
/// that names an input to that input.
pub proof fn law_input_refs_operands(l: Expression, r: Expression, name: String, subscripts: Vec<ExprSubscript>, inputs: Set<Seq<char>>)
    ensures
        expr_input_refs(Expression::Binary { lhs: Box::new(l), rhs: Box::new(r) }, inputs)
            == expr_input_refs(l, inputs) + expr_input_refs(r, inputs),
        expr_input_refs(Expression::Unary { rhs: Box::new(l) }, inputs) == expr_input_refs(l, inputs),
        expr_input_refs(Expression::Index { base: Box::new(l), subscripts }, inputs) == expr_input_refs(l, inputs),
        expr_input_refs(Expression::Literal, inputs).len() == 0,
        expr_input_refs(Expression::Empty, inputs).len() == 0,
        inputs.contains(name@) ==> expr_input_refs(Expression::VarRef { name, subscripts }, inputs) == seq![name@],
        !inputs.contains(name@) && !inputs.contains(spec_flatten_dots(name@)) ==> expr_input_refs(
            Expression::VarRef { name, subscripts },
            inputs,
        ).len() == 0,
{
}

/// Inputs are found in every argument: an input that an argument or an
/// element refers to is among those the call, array or tuple refers to.
pub proof fn law_input_refs_lists(
    args: Vec<Expression>,
    k: int,
    function: BuiltinFunction,
    name: String,
    is_matrix: bool,
    inputs: Set<Seq<char>>,
    x: Seq<char>,
)
    requires
        0 <= k < args@.len(),
        expr_input_refs(args[k], inputs).contains(x),
    ensures
        expr_input_refs(Expression::BuiltinCall { function, args }, inputs).contains(x),
        expr_input_refs(Expression::FunctionCall { name, args }, inputs).contains(x),
        expr_input_refs(Expression::Array { elements: args, is_matrix }, inputs).contains(x),
        expr_input_refs(Expression::Tuple { elements: args }, inputs).contains(x),
{
    let prev = exprs_input_refs(args, k as nat, inputs);
    let cur = expr_input_refs(args[k], inputs);
    let j = choose|j: int| 0 <= j < cur.len() && cur[j] == x;
    assert(exprs_input_refs(args, (k + 1) as nat, inputs) == prev + cur);
    assert((prev + cur)[prev.len() + j] == x);
    lemma_exprs_refs_grow(args, (k + 1) as nat, args@.len(), inputs, x);
}

/// Adding one name keeps the set when the name is already there and
/// appends it otherwise.
proof fn lemma_add_distinct_one(acc: Seq<Seq<char>>, name: Seq<char>)
    ensures
        add_distinct(acc, seq![name]) == (if acc.contains(name) {
            acc
        } else {
            acc.push(name)
        }),
{
    assert(seq![name].drop_last() =~= Seq::<Seq<char>>::empty());
    assert(add_distinct(acc, Seq::<Seq<char>>::empty()) == acc);
}

/// Record `name` in `used` unless it is already there.
fn note_input(used: &mut IndexMap<String, ()>, name: String)
    ensures
        name_set_keys(*final(used)) == add_distinct(name_set_keys(*old(used)), seq![name@]),
{
    proof {
        lemma_add_distinct_one(name_set_keys(*used), name@);
    }
    name_set_insert(used, name);
}

/// Record in `used`, first use first, every input that the expressions
/// `es` refer to.
fn collect_expressions_var_refs(
    es: &Vec<Expression>,
    input_names: &IndexMap<String, ()>,
    used: &mut IndexMap<String, ()>,
)
    ensures
        name_set_keys(*final(used)) == add_distinct(
            name_set_keys(*old(used)),
            exprs_input_refs(*es, es@.len(), name_set_keys(*input_names).to_set()),
        ),
    decreases es, 1nat,
{
    let ghost inputs = name_set_keys(*input_names).to_set();
    let ghost start = name_set_keys(*used);
    let mut i: usize = 0;
    while i < es.len()
        invariant
            i <= es@.len(),
            inputs == name_set_keys(*input_names).to_set(),
            name_set_keys(*used) == add_distinct(start, exprs_input_refs(*es, i as nat, inputs)),
        decreases es@.len() - i,
    {
        let ghost before = name_set_keys(*used);
        collect_expression_var_refs(&es[i], input_names, used);
        proof {
            lemma_add_distinct_concat(
                start,
                exprs_input_refs(*es, i as nat, inputs),
                expr_input_refs(es[i as int], inputs),
            );
        }
        i = i + 1;
    }
}

/// Record in `used`, first use first, every input of the enclosing
/// function that `expr` refers to: by name, by flattened record-field
/// name (`a.b` as `a_b`), or through a field access `a.f` of input `a_f`.
#[verifier::loop_isolation(false)]
pub fn collect_expression_var_refs(
    expr: &Expression,
    input_names: &IndexMap<String, ()>,
    used: &mut IndexMap<String, ()>,
)
    ensures
        name_set_keys(*final(used)) == add_distinct(
            name_set_keys(*old(used)),
            expr_input_refs(*expr, name_set_keys(*input_names).to_set()),
        ),
    decreases expr, 0nat,
{
    let ghost inputs = name_set_keys(*input_names).to_set();
    let ghost start = name_set_keys(*used);
    match expr {
        Expression::VarRef { name, .. } => {
            if name_set_index_of(input_names, name.as_str()).is_some() {
                note_input(used, name.clone());
            } else {
                let flat = flatten_dots(name.as_str());
                if name_set_index_of(input_names, flat.as_str()).is_some() {
                    note_input(used, flat);
                } else {
                    proof {
                        assert(add_distinct(start, Seq::empty()) == start);
                    }
                }
            }
        },
        Expression::Unary { rhs } => {
            collect_expression_var_refs(rhs, input_names, used);
        },
        Expression::Binary { lhs, rhs } => {
            collect_expression_var_refs(lhs, input_names, used);
            collect_expression_var_refs(rhs, input_names, used);
            proof {
                lemma_add_distinct_concat(
                    start,
                    expr_input_refs(**lhs, inputs),
                    expr_input_refs(**rhs, inputs),
                );
            }
        },
        Expression::If { branches, else_branch } => {
            let mut i: usize = 0;
            while i < branches.len()
                invariant
                    i <= branches@.len(),
                    inputs == name_set_keys(*input_names).to_set(),
                    name_set_keys(*used) == add_distinct(
                        start,
                        branches_input_refs(*branches, i as nat, inputs),
                    ),
                decreases branches@.len() - i,
            {
                collect_expression_var_refs(&branches[i].0, input_names, used);
                collect_expression_var_refs(&branches[i].1, input_names, used);
                proof {
                    let prev = branches_input_refs(*branches, i as nat, inputs);
                    let c = expr_input_refs(branches[i as int].0, inputs);
                    let v = expr_input_refs(branches[i as int].1, inputs);
                    lemma_add_distinct_concat(start, prev, c);
                    lemma_add_distinct_concat(start, prev + c, v);
                }
                i = i + 1;
            }
            collect_expression_var_refs(else_branch, input_names, used);
            proof {
                lemma_add_distinct_concat(
                    start,
                    branches_input_refs(*branches, branches@.len(), inputs),
                    expr_input_refs(**else_branch, inputs),
                );
            }
        },
        Expression::FunctionCall { args, .. } => {
            collect_expressions_var_refs(args, input_names, used);
        },
        Expression::BuiltinCall { args, .. } => {
            collect_expressions_var_refs(args, input_names, used);
        },
        Expression::Tuple { elements } => {
            collect_expressions_var_refs(elements, input_names, used);
        },
        Expression::Array { elements, .. } => {
            collect_expressions_var_refs(elements, input_names, used);
        },
        Expression::FieldAccess { base, field } => {
            let ghost direct = field_access_input(**base, field@, inputs);
            match &**base {
                Expression::VarRef { name, subscripts } => {
                    if subscripts.len() == 0 {
                        let mut flat = name.clone();
                        flat.append("_");
                        flat.append(field.as_str());
                        proof {
                            reveal_strlit("_");
                        }
                        if name_set_index_of(input_names, flat.as_str()).is_some() {
                            note_input(used, flat);
                        } else {
                            proof {
                                assert(direct =~= Seq::<Seq<char>>::empty());
                            }
                        }
                    }
                },
                _ => {},
            }
            let ghost mid = name_set_keys(*used);
            proof {
                assert(mid == add_distinct(start, direct));
            }
            collect_expression_var_refs(base, input_names, used);
            proof {
                lemma_add_distinct_concat(start, direct, expr_input_refs(**base, inputs));
            }
        },
        Expression::Index { base, .. } => {
            collect_expression_var_refs(base, input_names, used);
        },
        Expression::Range { start: first, step, end } => {
            collect_expression_var_refs(first, input_names, used);
            let ghost a = expr_input_refs(**first, inputs);
            let ghost b = match step {
                Some(s) => expr_input_refs(**s, inputs),
                None => Seq::empty(),
            };
            match step {
                Some(s) => {
                    collect_expression_var_refs(s, input_names, used);
                    proof {
                        lemma_add_distinct_concat(start, a, b);
                    }
                },
                None => {
                    proof {
                        assert(a + b =~= a);
                    }
                },
            }
            collect_expression_var_refs(end, input_names, used);
            proof {
                lemma_add_distinct_concat(start, a + b, expr_input_refs(**end, inputs));
            }
        },
        Expression::ArrayComprehension { expr: body, indices, filter } => {
            collect_expression_var_refs(body, input_names, used);
            let ghost a = expr_input_refs(**body, inputs);
            let mut i: usize = 0;
            while i < indices.len()
                invariant
                    i <= indices@.len(),
                    inputs == name_set_keys(*input_names).to_set(),
                    name_set_keys(*used) == add_distinct(
                        start,
                        a + indices_input_refs(*indices, i as nat, inputs),
                    ),
                decreases indices@.len() - i,
            {
                collect_expression_var_refs(&indices[i].range, input_names, used);
                proof {
                    let prev = indices_input_refs(*indices, i as nat, inputs);
                    let r = expr_input_refs(indices[i as int].range, inputs);
                    lemma_add_distinct_concat(start, a + prev, r);
                    assert(a + prev + r =~= a + indices_input_refs(*indices, (i + 1) as nat, inputs));
                }
                i = i + 1;
            }
            let ghost ab = a + indices_input_refs(*indices, indices@.len(), inputs);
            match filter {
                Some(f) => {
                    collect_expression_var_refs(f, input_names, used);
                    proof {
                        lemma_add_distinct_concat(start, ab, expr_input_refs(**f, inputs));
                    }
                },
                None => {
                    proof {
                        assert(ab + Seq::<Seq<char>>::empty() =~= ab);
                    }
                },
            }
        },
        Expression::Literal => {},
        Expression::Empty => {},
    }
}

/// The inputs a statement refers to, in the order a left-to-right walk of
/// its expressions and nested statements meets them.
pub open spec fn stmt_input_refs(st: Statement, inputs: Set<Seq<char>>) -> Seq<Seq<char>>
    decreases st, 0nat,
{
    match st {
        Statement::Assignment { value, .. } => expr_input_refs(value, inputs),
        Statement::If { cond_blocks, else_block } => blocks_input_refs(
            cond_blocks,
            cond_blocks@.len(),
            inputs,
        ) + match else_block {
            Some(b) => stmts_input_refs(b, b@.len(), inputs),
            None => Seq::empty(),
        },
        Statement::For { indices, equations } => indices_input_refs(
            indices,
            indices@.len(),
            inputs,
        ) + stmts_input_refs(equations, equations@.len(), inputs),
        Statement::While { block } => expr_input_refs(block.cond, inputs) + stmts_input_refs(
            block.stmts,
            block.stmts@.len(),
            inputs,
        ),
        Statement::When { blocks } => blocks_input_refs(blocks, blocks@.len(), inputs),
        Statement::FunctionCall { args, .. } => exprs_input_refs(args, args@.len(), inputs),
        Statement::Reinit { value, .. } => expr_input_refs(value, inputs),
        Statement::Assert { condition, message, level } => expr_input_refs(condition, inputs)
            + expr_input_refs(message, inputs) + match level {
            Some(l) => expr_input_refs(l, inputs),
            None => Seq::empty(),
        },
        Statement::Empty => Seq::empty(),
        Statement::Return => Seq::empty(),
        Statement::Break => Seq::empty(),
    }
}

/// The inputs the first `n` statements refer to.
pub open spec fn stmts_input_refs(ss: Vec<Statement>, n: nat, inputs: Set<Seq<char>>) -> Seq<
    Seq<char>,
>
    decreases ss, n,
{
    if n == 0 || n > ss@.len() {
        Seq::empty()
    } else {
        stmts_input_refs(ss, (n - 1) as nat, inputs) + stmt_input_refs(ss[n - 1], inputs)
    }
}

/// The inputs the first `n` guarded blocks refer to: each guard, then the
/// statements it guards.
pub open spec fn blocks_input_refs(bs: Vec<StatementBlock>, n: nat, inputs: Set<Seq<char>>) -> Seq<
    Seq<char>,
>
    decreases bs, n,
{
    if n == 0 || n > bs@.len() {
        Seq::empty()
    } else {
        blocks_input_refs(bs, (n - 1) as nat, inputs) + expr_input_refs(bs[n - 1].cond, inputs)
            + stmts_input_refs(bs[n - 1].stmts, bs[n - 1].stmts@.len(), inputs)
    }
}

/// Record in `used`, first use first, every input that the expressions of
/// the loop indices `indices` refer to.
fn collect_indices_var_refs(
    indices: &Vec<ForIndex>,
    input_names: &IndexMap<String, ()>,
    used: &mut IndexMap<String, ()>,
)
    ensures
        name_set_keys(*final(used)) == add_distinct(
            name_set_keys(*old(used)),
            indices_input_refs(*indices, indices@.len(), name_set_keys(*input_names).to_set()),
        ),
{
    let ghost inputs = name_set_keys(*input_names).to_set();
    let ghost start = name_set_keys(*used);
    let mut i: usize = 0;
    while i < indices.len()
        invariant
            i <= indices@.len(),
            inputs == name_set_keys(*input_names).to_set(),
            name_set_keys(*used) == add_distinct(
                start,
                indices_input_refs(*indices, i as nat, inputs),
            ),
        decreases indices@.len() - i,
    {
        collect_expression_var_refs(&indices[i].range, input_names, used);
        proof {
            lemma_add_distinct_concat(
                start,
                indices_input_refs(*indices, i as nat, inputs),
                expr_input_refs(indices[i as int].range, inputs),
            );
        }
        i = i + 1;
    }
}

/// Record in `used`, first use first, every input that the statements `ss`
/// refer to.
fn collect_statements_var_refs(
    ss: &Vec<Statement>,
    input_names: &IndexMap<String, ()>,
    used: &mut IndexMap<String, ()>,
)
    ensures
        name_set_keys(*final(used)) == add_distinct(
            name_set_keys(*old(used)),
            stmts_input_refs(*ss, ss@.len(), name_set_keys(*input_names).to_set()),
        ),
    decreases ss, 1nat,
{
    let ghost inputs = name_set_keys(*input_names).to_set();
    let ghost start = name_set_keys(*used);
    let mut i: usize = 0;
    while i < ss.len()
        invariant
            i <= ss@.len(),
            inputs == name_set_keys(*input_names).to_set(),
            name_set_keys(*used) == add_distinct(start, stmts_input_refs(*ss, i as nat, inputs)),
        decreases ss@.len() - i,
    {
        collect_statement_var_refs(&ss[i], input_names, used);
        proof {
            lemma_add_distinct_concat(
                start,
                stmts_input_refs(*ss, i as nat, inputs),
                stmt_input_refs(ss[i as int], inputs),
            );
        }
        i = i + 1;
    }
}

/// Record in `used`, first use first, every input that the guarded blocks
/// `bs` refer to.
fn collect_blocks_var_refs(
    bs: &Vec<StatementBlock>,
    input_names: &IndexMap<String, ()>,
    used: &mut IndexMap<String, ()>,
)
    ensures
        name_set_keys(*final(used)) == add_distinct(
            name_set_keys(*old(used)),
            blocks_input_refs(*bs, bs@.len(), name_set_keys(*input_names).to_set()),
        ),
    decreases bs, 1nat,
{
    let ghost inputs = name_set_keys(*input_names).to_set();
    let ghost start = name_set_keys(*used);
    let mut i: usize = 0;
    while i < bs.len()
        invariant
            i <= bs@.len(),
            inputs == name_set_keys(*input_names).to_set(),
            name_set_keys(*used) == add_distinct(start, blocks_input_refs(*bs, i as nat, inputs)),
        decreases bs@.len() - i,
    {
        collect_expression_var_refs(&bs[i].cond, input_names, used);
        collect_statements_var_refs(&bs[i].stmts, input_names, used);
        proof {
            let prev = blocks_input_refs(*bs, i as nat, inputs);
            let c = expr_input_refs(bs[i as int].cond, inputs);
            let b = stmts_input_refs(bs[i as int].stmts, bs[i as int].stmts@.len(), inputs);
            lemma_add_distinct_concat(start, prev, c);
            lemma_add_distinct_concat(start, prev + c, b);
        }
        i = i + 1;
    }
}

/// Record in `used`, first use first, every input that `statement` and
/// the statements nested in it refer to.
pub fn collect_statement_var_refs(
    statement: &Statement,
    input_names: &IndexMap<String, ()>,
    used: &mut IndexMap<String, ()>,
)
    ensures
        name_set_keys(*final(used)) == add_distinct(
            name_set_keys(*old(used)),
            stmt_input_refs(*statement, name_set_keys(*input_names).to_set()),
        ),
    decreases statement, 0nat,
{
    let ghost inputs = name_set_keys(*input_names).to_set();
    let ghost start = name_set_keys(*used);
    match statement {
        Statement::Assignment { value, .. } => {
            collect_expression_var_refs(value, input_names, used);
        },
        Statement::If { cond_blocks, else_block } => {
            collect_blocks_var_refs(cond_blocks, input_names, used);
            let ghost a = blocks_input_refs(*cond_blocks, cond_blocks@.len(), inputs);
            match else_block {
                Some(b) => {
                    collect_statements_var_refs(b, input_names, used);
                    proof {
                        lemma_add_distinct_concat(start, a, stmts_input_refs(*b, b@.len(), inputs));
                    }
                },
                None => {
                    proof {
                        assert(a + Seq::<Seq<char>>::empty() =~= a);
                    }
                },
            }
        },
        Statement::For { indices, equations } => {
            collect_indices_var_refs(indices, input_names, used);
            collect_statements_var_refs(equations, input_names, used);
            proof {
                lemma_add_distinct_concat(
                    start,
                    indices_input_refs(*indices, indices@.len(), inputs),
                    stmts_input_refs(*equations, equations@.len(), inputs),
                );
            }
        },
        Statement::While { block } => {
            collect_expression_var_refs(&block.cond, input_names, used);
            collect_statements_var_refs(&block.stmts, input_names, used);
            proof {
                lemma_add_distinct_concat(
                    start,
                    expr_input_refs(block.cond, inputs),
                    stmts_input_refs(block.stmts, block.stmts@.len(), inputs),
                );
            }
        },
        Statement::When { blocks } => {
            collect_blocks_var_refs(blocks, input_names, used);
        },
        Statement::FunctionCall { args, .. } => {
            collect_expressions_var_refs(args, input_names, used);
        },
        Statement::Reinit { value, .. } => {
            collect_expression_var_refs(value, input_names, used);
        },
        Statement::Assert { condition, message, level } => {
            collect_expression_var_refs(condition, input_names, used);
            collect_expression_var_refs(message, input_names, used);
            let ghost a = expr_input_refs(*condition, inputs);
            let ghost b = expr_input_refs(*message, inputs);
            proof {
                lemma_add_distinct_concat(start, a, b);
            }
            match level {
                Some(l) => {
                    collect_expression_var_refs(l, input_names, used);
                    proof {
                        lemma_add_distinct_concat(start, a + b, expr_input_refs(*l, inputs));
                    }
                },
                None => {
                    proof {
                        assert(a + b + Seq::<Seq<char>>::empty() =~= a + b);
                    }
                },
            }
        },
        Statement::Empty => {},
        Statement::Return => {},
        Statement::Break => {},
    }
}

/// A name is among the distinct additions exactly when it was already
/// there or is one of the added names.
proof fn lemma_add_distinct_contains(acc: Seq<Seq<char>>, names: Seq<Seq<char>>, x: Seq<char>)
    ensures
        add_distinct(acc, names).contains(x) == (acc.contains(x) || names.contains(x)),
    decreases names.len(),
{
    if names.len() > 0 {
        lemma_add_distinct_contains(acc, names.drop_last(), x);
        let prev = add_distinct(acc, names.drop_last());
        let l = names.last();
        assert(prev.push(l).contains(x) == (prev.contains(x) || l == x)) by {
            if prev.push(l).contains(x) {
                let i = choose|i: int| 0 <= i < prev.len() + 1 && prev.push(l)[i] == x;
                if i < prev.len() {
                    assert(prev[i] == x);
                }
            }
            if prev.contains(x) {
                let i = choose|i: int| 0 <= i < prev.len() && prev[i] == x;
                assert(prev.push(l)[i] == x);
            }
            if l == x {
                assert(prev.push(l)[prev.len() as int] == x);
            }
        }
        assert(names.contains(x) == (names.drop_last().contains(x) || names.last() == x)) by {
            if names.contains(x) {
                let i = choose|i: int| 0 <= i < names.len() && names[i] == x;
                if i < names.len() - 1 {
                    assert(names.drop_last()[i] == x);
                }
            }
            if names.drop_last().contains(x) {
                let i = choose|i: int| 0 <= i < names.len() - 1 && names.drop_last()[i] == x;
                assert(names[i] == x);
            }
        }
    }
}

/// The inputs of a function, by name, that its body refers to, each once,
/// in order of first use.
pub fn referenced_function_input_names(input_names: &[String], body: &Vec<Statement>) -> (used:
    IndexMap<String, ()>)
    ensures
        name_set_keys(used) == add_distinct(
            Seq::empty(),
            stmts_input_refs(*body, body@.len(), texts(input_names@).to_set()),
        ),
{
    let mut inputs: IndexMap<String, ()> = name_set_new();
    let mut i: usize = 0;
    while i < input_names.len()
        invariant
            i <= input_names@.len(),
            name_set_keys(inputs) == add_distinct(Seq::empty(), texts(input_names@).take(i as int)),
        decreases input_names@.len() - i,
    {
        proof {
            lemma_add_distinct_one(name_set_keys(inputs), input_names@[i as int]@);
            assert(texts(input_names@).take(i + 1) =~= texts(input_names@).take(i as int) + seq![
                input_names@[i as int]@,
            ]);
            lemma_add_distinct_concat(
                Seq::empty(),
                texts(input_names@).take(i as int),
                seq![input_names@[i as int]@],
            );
        }
        name_set_insert(&mut inputs, input_names[i].clone());
        i = i + 1;
    }
    proof {
        let all = texts(input_names@);
        assert(all.take(input_names@.len() as int) =~= all);
        assert forall|x: Seq<char>| name_set_keys(inputs).to_set().contains(x) == all.to_set().contains(
            x,
        ) by {
            lemma_add_distinct_contains(Seq::empty(), all, x);
        }
        assert(name_set_keys(inputs).to_set() =~= all.to_set());
    }
    let mut used: IndexMap<String, ()> = name_set_new();
    collect_statements_var_refs(body, &inputs, &mut used);
    used
}

/// Whether an actual argument passes record field `field` as a flattened
/// value: an unsubscripted variable named `....field` or `..._field`, or a
/// field access of `field`.
pub open spec fn spec_is_flattened_record_field_actual(expr: Expression, field: Seq<char>) -> bool {
    match expr {
        Expression::VarRef { name, subscripts } => subscripts@.len() == 0 && (spec_ends_with(
            name@,
            "."@ + field,
        ) || spec_ends_with(name@, "_"@ + field)),
        Expression::FieldAccess { field: actual, .. } => actual@ == field,
        _ => false,
    }
}

/// Whether `expr` passes record field `field` as a flattened value.
pub fn is_flattened_record_field_actual(expr: &Expression, field: &str) -> (r: bool)
    ensures
        r == spec_is_flattened_record_field_actual(*expr, field@),
{
    match expr {
        Expression::VarRef { name, subscripts } => {
            if subscripts.len() != 0 {
                return false;
            }
            let mut dotted = String::from_str(".");
            dotted.append(field);
            let mut underscored = String::from_str("_");
            underscored.append(field);
            ends_with(name.as_str(), dotted.as_str()) || ends_with(
                name.as_str(),
                underscored.as_str(),
            )
        },
        Expression::FieldAccess { field: actual, .. } => str_eq(actual.as_str(), field),
        _ => false,
    }
}

/// Every name of `names` is in `inputs`.
pub open spec fn all_in(names: Seq<Seq<char>>, inputs: Set<Seq<char>>) -> bool {
    forall|i: int| 0 <= i < names.len() ==> inputs.contains(#[trigger] names[i])
}

proof fn lemma_all_in_concat(a: Seq<Seq<char>>, b: Seq<Seq<char>>, inputs: Set<Seq<char>>)
    requires
        all_in(a, inputs),
        all_in(b, inputs),
    ensures
        all_in(a + b, inputs),
{
    assert forall|i: int| 0 <= i < (a + b).len() implies inputs.contains(#[trigger] (a + b)[i]) by {
        if i < a.len() {
            assert((a + b)[i] == a[i]);
        } else {
            assert((a + b)[i] == b[i - a.len()]);
        }
    }
}

proof fn lemma_expr_refs_in(e: Expression, inputs: Set<Seq<char>>)
    ensures
        all_in(expr_input_refs(e, inputs), inputs),
    decreases e, 0nat,
{
    match e {
        Expression::VarRef { .. } => {},
        Expression::Unary { rhs } => lemma_expr_refs_in(*rhs, inputs),
        Expression::Binary { lhs, rhs } => {
            lemma_expr_refs_in(*lhs, inputs);
            lemma_expr_refs_in(*rhs, inputs);
            lemma_all_in_concat(expr_input_refs(*lhs, inputs), expr_input_refs(*rhs, inputs), inputs);
        },
        Expression::If { branches, else_branch } => {
            lemma_branches_refs_in(branches, branches@.len(), inputs);
            lemma_expr_refs_in(*else_branch, inputs);
            lemma_all_in_concat(
                branches_input_refs(branches, branches@.len(), inputs),
                expr_input_refs(*else_branch, inputs),
                inputs,
            );
        },
        Expression::FunctionCall { args, .. } => lemma_exprs_refs_in(args, args@.len(), inputs),
        Expression::BuiltinCall { args, .. } => lemma_exprs_refs_in(args, args@.len(), inputs),
        Expression::Tuple { elements } => lemma_exprs_refs_in(elements, elements@.len(), inputs),
        Expression::Array { elements, .. } => lemma_exprs_refs_in(elements, elements@.len(), inputs),
        Expression::FieldAccess { base, field } => {
            lemma_expr_refs_in(*base, inputs);
            lemma_all_in_concat(
                field_access_input(*base, field@, inputs),
                expr_input_refs(*base, inputs),
                inputs,
            );
        },
        Expression::Index { base, .. } => lemma_expr_refs_in(*base, inputs),
        Expression::Range { start, step, end } => {
            lemma_expr_refs_in(*start, inputs);
            lemma_expr_refs_in(*end, inputs);
            let mid = match step {
                Some(st) => expr_input_refs(*st, inputs),
                None => Seq::empty(),
            };
            match step {
                Some(st) => lemma_expr_refs_in(*st, inputs),
                None => {},
            }
            lemma_all_in_concat(expr_input_refs(*start, inputs), mid, inputs);
            lemma_all_in_concat(expr_input_refs(*start, inputs) + mid, expr_input_refs(*end, inputs), inputs);
        },
        Expression::ArrayComprehension { expr, indices, filter } => {
            lemma_expr_refs_in(*expr, inputs);
            lemma_indices_refs_in(indices, indices@.len(), inputs);
            let last = match filter {
                Some(f) => expr_input_refs(*f, inputs),
                None => Seq::empty(),
            };
            match filter {
                Some(f) => lemma_expr_refs_in(*f, inputs),
                None => {},
            }
            let a = expr_input_refs(*expr, inputs);
            let b = indices_input_refs(indices, indices@.len(), inputs);
            lemma_all_in_concat(a, b, inputs);
            lemma_all_in_concat(a + b, last, inputs);
        },
        Expression::Literal => {},
        Expression::Empty => {},
    }
}

proof fn lemma_exprs_refs_in(es: Vec<Expression>, n: nat, inputs: Set<Seq<char>>)
    ensures
        all_in(exprs_input_refs(es, n, inputs), inputs),
    decreases es, n,
{
    if n > 0 && n <= es@.len() {
        lemma_exprs_refs_in(es, (n - 1) as nat, inputs);
        lemma_expr_refs_in(es[n - 1], inputs);
        lemma_all_in_concat(
            exprs_input_refs(es, (n - 1) as nat, inputs),
            expr_input_refs(es[n - 1], inputs),
            inputs,
        );
    }
}

proof fn lemma_branches_refs_in(bs: Vec<(Expression, Expression)>, n: nat, inputs: Set<Seq<char>>)
    ensures
        all_in(branches_input_refs(bs, n, inputs), inputs),
    decreases bs, n,
{
    if n > 0 && n <= bs@.len() {
        lemma_branches_refs_in(bs, (n - 1) as nat, inputs);
        lemma_expr_refs_in(bs[n - 1].0, inputs);
        lemma_expr_refs_in(bs[n - 1].1, inputs);
        let prev = branches_input_refs(bs, (n - 1) as nat, inputs);
        lemma_all_in_concat(prev, expr_input_refs(bs[n - 1].0, inputs), inputs);
        lemma_all_in_concat(
            prev + expr_input_refs(bs[n - 1].0, inputs),
            expr_input_refs(bs[n - 1].1, inputs),
            inputs,
        );
    }
}

proof fn lemma_indices_refs_in(ix: Vec<ForIndex>, n: nat, inputs: Set<Seq<char>>)
    ensures
        all_in(indices_input_refs(ix, n, inputs), inputs),
    decreases ix, n,
{
    if n > 0 && n <= ix@.len() {
        lemma_indices_refs_in(ix, (n - 1) as nat, inputs);
        lemma_expr_refs_in(ix[n - 1].range, inputs);
        lemma_all_in_concat(
            indices_input_refs(ix, (n - 1) as nat, inputs),
            expr_input_refs(ix[n - 1].range, inputs),
            inputs,
        );
    }
}

proof fn lemma_stmt_refs_in(st: Statement, inputs: Set<Seq<char>>)
    ensures
        all_in(stmt_input_refs(st, inputs), inputs),
    decreases st, 0nat,
{
    match st {
        Statement::Assignment { value, .. } => lemma_expr_refs_in(value, inputs),
        Statement::If { cond_blocks, else_block } => {
            lemma_blocks_refs_in(cond_blocks, cond_blocks@.len(), inputs);
            let rest = match else_block {
                Some(b) => stmts_input_refs(b, b@.len(), inputs),
                None => Seq::empty(),
            };
            match else_block {
                Some(b) => lemma_stmts_refs_in(b, b@.len(), inputs),
                None => {},
            }
            lemma_all_in_concat(
                blocks_input_refs(cond_blocks, cond_blocks@.len(), inputs),
                rest,
                inputs,
            );
        },
        Statement::For { indices, equations } => {
            lemma_indices_refs_in(indices, indices@.len(), inputs);
            lemma_stmts_refs_in(equations, equations@.len(), inputs);
            lemma_all_in_concat(
                indices_input_refs(indices, indices@.len(), inputs),
                stmts_input_refs(equations, equations@.len(), inputs),
                inputs,
            );
        },
        Statement::While { block } => {
            lemma_expr_refs_in(block.cond, inputs);
            lemma_stmts_refs_in(block.stmts, block.stmts@.len(), inputs);
            lemma_all_in_concat(
                expr_input_refs(block.cond, inputs),
                stmts_input_refs(block.stmts, block.stmts@.len(), inputs),
                inputs,
            );
        },
        Statement::When { blocks } => lemma_blocks_refs_in(blocks, blocks@.len(), inputs),
        Statement::FunctionCall { args, .. } => lemma_exprs_refs_in(args, args@.len(), inputs),
        Statement::Reinit { value, .. } => lemma_expr_refs_in(value, inputs),
        Statement::Assert { condition, message, level } => {
            lemma_expr_refs_in(condition, inputs);
            lemma_expr_refs_in(message, inputs);
            let last = match level {
                Some(l) => expr_input_refs(l, inputs),
                None => Seq::empty(),
            };
            match level {
                Some(l) => lemma_expr_refs_in(l, inputs),
                None => {},
            }
            let a = expr_input_refs(condition, inputs);
            let b = expr_input_refs(message, inputs);
            lemma_all_in_concat(a, b, inputs);
            lemma_all_in_concat(a + b, last, inputs);
        },
        Statement::Empty => {},
        Statement::Return => {},
        Statement::Break => {},
    }
}

proof fn lemma_stmts_refs_in(ss: Vec<Statement>, n: nat, inputs: Set<Seq<char>>)
    ensures
        all_in(stmts_input_refs(ss, n, inputs), inputs),
    decreases ss, n,
{
    if n > 0 && n <= ss@.len() {
        lemma_stmts_refs_in(ss, (n - 1) as nat, inputs);
        lemma_stmt_refs_in(ss[n - 1], inputs);
        lemma_all_in_concat(
            stmts_input_refs(ss, (n - 1) as nat, inputs),
            stmt_input_refs(ss[n - 1], inputs),
            inputs,
        );
    }
}

proof fn lemma_blocks_refs_in(bs: Vec<StatementBlock>, n: nat, inputs: Set<Seq<char>>)
    ensures
        all_in(blocks_input_refs(bs, n, inputs), inputs),
    decreases bs, n,
{
    if n > 0 && n <= bs@.len() {
        lemma_blocks_refs_in(bs, (n - 1) as nat, inputs);
        lemma_expr_refs_in(bs[n - 1].cond, inputs);
        lemma_stmts_refs_in(bs[n - 1].stmts, bs[n - 1].stmts@.len(), inputs);
        let prev = blocks_input_refs(bs, (n - 1) as nat, inputs);
        let c = expr_input_refs(bs[n - 1].cond, inputs);
        lemma_all_in_concat(prev, c, inputs);
        lemma_all_in_concat(
            prev + c,
            stmts_input_refs(bs[n - 1].stmts, bs[n - 1].stmts@.len(), inputs),
            inputs,
        );
    }
}

proof fn lemma_add_distinct_no_duplicates(acc: Seq<Seq<char>>, names: Seq<Seq<char>>)
    requires
        acc.no_duplicates(),
    ensures
        add_distinct(acc, names).no_duplicates(),
    decreases names.len(),
{
    if names.len() > 0 {
        lemma_add_distinct_no_duplicates(acc, names.drop_last());
        let prev = add_distinct(acc, names.drop_last());
        let l = names.last();
        if !prev.contains(l) {
            assert forall|i: int, j: int|
                0 <= i < prev.push(l).len() && 0 <= j < prev.push(l).len() && i != j implies prev.push(
                l,
            )[i] != prev.push(l)[j] by {
                if i == prev.len() as int {
                    assert(prev.push(l)[j] == prev[j]);
                } else if j == prev.len() as int {
                    assert(prev.push(l)[i] == prev[i]);
                }
            }
        }
    }
}

/// The inputs a function body uses are inputs of the function, each named
/// once.
pub proof fn law_referenced_inputs_are_distinct_inputs(body: Vec<Statement>, inputs: Set<Seq<char>>)
    ensures
        add_distinct(Seq::empty(), stmts_input_refs(body, body@.len(), inputs)).no_duplicates(),
        all_in(add_distinct(Seq::empty(), stmts_input_refs(body, body@.len(), inputs)), inputs),
{
    let refs = stmts_input_refs(body, body@.len(), inputs);
    let used = add_distinct(Seq::<Seq<char>>::empty(), refs);
    lemma_stmts_refs_in(body, body@.len(), inputs);
    lemma_add_distinct_no_duplicates(Seq::empty(), refs);
    assert forall|i: int| 0 <= i < used.len() implies inputs.contains(#[trigger] used[i]) by {
        assert(used.contains(used[i]));
        lemma_add_distinct_contains(Seq::empty(), refs, used[i]);
        let k = choose|k: int| 0 <= k < refs.len() && refs[k] == used[i];
        assert(inputs.contains(refs[k]));
    }
}

/// Walking an expression records only inputs: every name recorded is one
/// that was recorded before or an input.
pub proof fn law_expression_walk_records_only_inputs(
    recorded: Seq<Seq<char>>,
    e: Expression,
    inputs: Set<Seq<char>>,
)
    ensures
        forall|x: Seq<char>|
            #[trigger] add_distinct(recorded, expr_input_refs(e, inputs)).contains(x) ==> recorded.contains(x)
                || inputs.contains(x),
{
    let refs = expr_input_refs(e, inputs);
    lemma_expr_refs_in(e, inputs);
    assert forall|x: Seq<char>| #[trigger] add_distinct(recorded, refs).contains(x) implies recorded.contains(
        x,
    ) || inputs.contains(x) by {
        lemma_add_distinct_contains(recorded, refs, x);
        if refs.contains(x) {
            let k = choose|k: int| 0 <= k < refs.len() && refs[k] == x;
            assert(inputs.contains(refs[k]));
        }
    }
}

} // verus!
