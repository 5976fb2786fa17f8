use vstd::prelude::*;

use crate::ir::{BuiltinFunction, ExprSubscript, Expression, ForIndex};
use crate::paths::{leaf_segment, spec_leaf_segment, str_eq};

verus! {

/// Clock constructors and clock conversions, by the last segment of the
/// called name.
pub open spec fn spec_is_runtime_discrete_clock_call(name: Seq<char>) -> bool {
    let short = spec_leaf_segment(name);
    ||| short == "Clock"@
    ||| short == "subSample"@
    ||| short == "superSample"@
    ||| short == "shiftSample"@
    ||| short == "backSample"@
    ||| short == "firstTick"@
    ||| short == "previous"@
    ||| short == "hold"@
}

/// Whether a call of `name` is a clock constructor or conversion, which
/// the DAE may keep as a plain function call.
pub fn is_runtime_discrete_clock_call(name: &str) -> (r: bool)
    ensures
        r == spec_is_runtime_discrete_clock_call(name@),
{
    let short = leaf_segment(name);
    str_eq(short, "Clock") || str_eq(short, "subSample") || str_eq(short, "superSample") || str_eq(
        short,
        "shiftSample",
    ) || str_eq(short, "backSample") || str_eq(short, "firstTick") || str_eq(short, "previous")
        || str_eq(short, "hold")
}

/// The built-in operators whose value changes only at events.
pub open spec fn is_discrete_event_operator(f: BuiltinFunction) -> bool {
    match f {
        BuiltinFunction::Sample => true,
        BuiltinFunction::Pre => true,
        BuiltinFunction::Edge => true,
        BuiltinFunction::Change => true,
        BuiltinFunction::Reinit => true,
        BuiltinFunction::Initial => true,
        _ => false,
    }
}

/// Whether an expression depends on a runtime discrete condition: it
/// calls an event operator (`sample`, `pre`, `edge`, `change`, `reinit`,
/// `initial`) or a clock constructor or conversion anywhere, index
/// expressions of subscripts included.
pub open spec fn spec_uses_runtime_discrete(e: Expression) -> bool
    decreases e, 0nat,
{
    match e {
        Expression::BuiltinCall { function, args } => is_discrete_event_operator(function)
            || spec_any_uses(args, args@.len()),
        Expression::FunctionCall { name, args } => spec_is_runtime_discrete_clock_call(name@)
            || spec_any_uses(args, args@.len()),
        Expression::Binary { lhs, rhs } => spec_uses_runtime_discrete(*lhs)
            || spec_uses_runtime_discrete(*rhs),
        Expression::Unary { rhs } => spec_uses_runtime_discrete(*rhs),
        Expression::If { branches, else_branch } => spec_branches_use(branches, branches@.len())
            || spec_uses_runtime_discrete(*else_branch),
        Expression::Array { elements, .. } => spec_any_uses(elements, elements@.len()),
        Expression::Tuple { elements } => spec_any_uses(elements, elements@.len()),
        Expression::Range { start, step, end } => spec_uses_runtime_discrete(*start) || match step {
            Some(s) => spec_uses_runtime_discrete(*s),
            None => false,
        } || spec_uses_runtime_discrete(*end),
        Expression::ArrayComprehension { expr, indices, filter } => spec_uses_runtime_discrete(
            *expr,
        ) || spec_indices_use(indices, indices@.len()) || match filter {
            Some(f) => spec_uses_runtime_discrete(*f),
            None => false,
        },
        Expression::Index { base, subscripts } => spec_uses_runtime_discrete(*base)
            || spec_subscripts_use(subscripts, subscripts@.len()),
        Expression::FieldAccess { base, .. } => spec_uses_runtime_discrete(*base),
        Expression::VarRef { .. } => false,
        Expression::Literal => false,
        Expression::Empty => false,
    }
}

/// Whether one of the first `n` expressions depends on a runtime discrete
/// condition.
pub open spec fn spec_any_uses(es: Vec<Expression>, n: nat) -> bool
    decreases es, n,
{
    if n == 0 || n > es@.len() {
        false
    } else {
        spec_any_uses(es, (n - 1) as nat) || spec_uses_runtime_discrete(es[n - 1])
    }
}

pub open spec fn spec_branches_use(bs: Vec<(Expression, Expression)>, n: nat) -> bool
    decreases bs, n,
{
    if n == 0 || n > bs@.len() {
        false
    } else {
        spec_branches_use(bs, (n - 1) as nat) || spec_uses_runtime_discrete(bs[n - 1].0)
            || spec_uses_runtime_discrete(bs[n - 1].1)
    }
}

pub open spec fn spec_indices_use(ix: Vec<ForIndex>, n: nat) -> bool
    decreases ix, n,
{
    if n == 0 || n > ix@.len() {
        false
    } else {
        spec_indices_use(ix, (n - 1) as nat) || spec_uses_runtime_discrete(ix[n - 1].range)
    }
}

pub open spec fn spec_subscripts_use(ss: Vec<ExprSubscript>, n: nat) -> bool
    decreases ss, n,
{
    if n == 0 || n > ss@.len() {
        false
    } else {
        spec_subscripts_use(ss, (n - 1) as nat) || match ss[n - 1] {
            ExprSubscript::Expr { expr } => spec_uses_runtime_discrete(*expr),
            _ => false,
        }
    }
}

/// Runtime discrete conditions are found anywhere: a binary expression depends on a runtime discrete condition exactly when one of its operands
/// does, whichever side it is on; a unary expression, a field access, an
/// indexed base and a range depends on a runtime discrete condition when their operand, base or bound does.
pub proof fn law_uses_runtime_discrete_operands(l: Expression, r: Expression, s: Expression, field: String, subscripts: Vec<ExprSubscript>)
    ensures
        spec_uses_runtime_discrete(Expression::Binary { lhs: Box::new(l), rhs: Box::new(r) }) == (spec_uses_runtime_discrete(l) || spec_uses_runtime_discrete(r)),
        spec_uses_runtime_discrete(Expression::Binary { lhs: Box::new(l), rhs: Box::new(r) }) == spec_uses_runtime_discrete(Expression::Binary { lhs: Box::new(r), rhs: Box::new(l) }),
        spec_uses_runtime_discrete(Expression::Unary { rhs: Box::new(l) }) == spec_uses_runtime_discrete(l),
        spec_uses_runtime_discrete(Expression::FieldAccess { base: Box::new(l), field }) == spec_uses_runtime_discrete(l),
        spec_uses_runtime_discrete(l) ==> spec_uses_runtime_discrete(Expression::Index { base: Box::new(l), subscripts }),
        (spec_uses_runtime_discrete(l) || spec_uses_runtime_discrete(s) || spec_uses_runtime_discrete(r)) ==> spec_uses_runtime_discrete(Expression::Range { start: Box::new(l), step: Some(Box::new(s)), end: Box::new(r) }),
        (spec_uses_runtime_discrete(l) || spec_uses_runtime_discrete(r)) ==> spec_uses_runtime_discrete(Expression::Range { start: Box::new(l), step: None, end: Box::new(r) }),
{
}

/// Runtime discrete conditions are found anywhere: a call, an array or a tuple depends on a runtime discrete condition when one of its arguments or
/// elements does.
pub proof fn law_uses_runtime_discrete_lists(args: Vec<Expression>, k: int, function: BuiltinFunction, name: String, is_matrix: bool)
    requires
        0 <= k < args@.len(),
        spec_uses_runtime_discrete(args[k]),
    ensures
        spec_uses_runtime_discrete(Expression::BuiltinCall { function, args }),
        spec_uses_runtime_discrete(Expression::FunctionCall { name, args }),
        spec_uses_runtime_discrete(Expression::Array { elements: args, is_matrix }),
        spec_uses_runtime_discrete(Expression::Tuple { elements: args }),
{
    assert(spec_any_uses(args, (k + 1) as nat));
    lemma_any_uses_found(args, (k + 1) as nat);
}

/// Runtime discrete conditions are found anywhere: a conditional depends on a runtime discrete condition when a condition, a branch value or the
/// else value does.
pub proof fn law_uses_runtime_discrete_branches(branches: Vec<(Expression, Expression)>, k: int, else_branch: Expression)
    requires
        0 <= k < branches@.len(),
    ensures
        (spec_uses_runtime_discrete(branches[k].0) || spec_uses_runtime_discrete(branches[k].1) || spec_uses_runtime_discrete(else_branch)) ==> spec_uses_runtime_discrete(Expression::If { branches, else_branch: Box::new(else_branch) }),
{
    if spec_uses_runtime_discrete(branches[k].0) || spec_uses_runtime_discrete(branches[k].1) {
        assert(spec_branches_use(branches, (k + 1) as nat));
        lemma_branches_use_found(branches, (k + 1) as nat);
    }
}

/// Runtime discrete conditions are found anywhere: an indexed expression depends on a runtime discrete condition when one of its index expressions
/// does.
pub proof fn law_uses_runtime_discrete_subscripts(base: Expression, subscripts: Vec<ExprSubscript>, k: int, index: Expression)
    requires
        0 <= k < subscripts@.len(),
        subscripts@[k] == (ExprSubscript::Expr { expr: Box::new(index) }),
        spec_uses_runtime_discrete(index),
    ensures
        spec_uses_runtime_discrete(Expression::Index { base: Box::new(base), subscripts }),
{
    assert(spec_subscripts_use(subscripts, (k + 1) as nat));
    lemma_subscripts_use_found(subscripts, (k + 1) as nat);
}


/// Runtime discrete conditions are found anywhere: an array comprehension depends on a runtime discrete condition when its body, an index range or
/// its filter does.
pub proof fn law_uses_runtime_discrete_comprehension(body: Expression, indices: Vec<ForIndex>, k: int, filter: Expression)
    requires
        0 <= k < indices@.len(),
    ensures
        (spec_uses_runtime_discrete(body) || spec_uses_runtime_discrete(indices[k].range)) ==> spec_uses_runtime_discrete(Expression::ArrayComprehension { expr: Box::new(body), indices, filter: None }),
        spec_uses_runtime_discrete(filter) ==> spec_uses_runtime_discrete(Expression::ArrayComprehension { expr: Box::new(body), indices, filter: Some(Box::new(filter)) }),
{
    if spec_uses_runtime_discrete(indices[k].range) {
        assert(spec_indices_use(indices, (k + 1) as nat));
        lemma_indices_use_found(indices, (k + 1) as nat);
    }
}


/// Runtime discrete conditions are found anywhere: literals, empty expressions and variable
/// references depend on no runtime discrete condition.
pub proof fn law_uses_runtime_discrete_leaves(name: String, subscripts: Vec<ExprSubscript>)
    ensures
        !spec_uses_runtime_discrete(Expression::Literal),
        !spec_uses_runtime_discrete(Expression::Empty),
        !spec_uses_runtime_discrete(Expression::VarRef { name, subscripts }),
{
}

/// Event operators and clock calls are runtime discrete conditions: a call
/// of `sample`, `pre`, `edge`, `change`, `reinit` or `initial`, and a call
/// of a clock constructor or conversion, depends on one whatever its
/// arguments; a call of any other built-in without arguments does not.
pub proof fn law_uses_runtime_discrete_operators(function: BuiltinFunction, name: String, args: Vec<Expression>)
    ensures
        is_discrete_event_operator(function) ==> spec_uses_runtime_discrete(Expression::BuiltinCall { function, args }),
        spec_is_runtime_discrete_clock_call(name@) ==> spec_uses_runtime_discrete(Expression::FunctionCall { name, args }),
        spec_uses_runtime_discrete(Expression::BuiltinCall { function: BuiltinFunction::Pre, args }),
        spec_uses_runtime_discrete(Expression::BuiltinCall { function: BuiltinFunction::Sample, args }),
        spec_uses_runtime_discrete(Expression::BuiltinCall { function: BuiltinFunction::Edge, args }),
        args@.len() == 0 && !is_discrete_event_operator(function) ==> !spec_uses_runtime_discrete(
            Expression::BuiltinCall { function, args },
        ),
{
    if args@.len() == 0 {
        assert(!spec_any_uses(args, args@.len()));
    }
}

fn any_uses_runtime_discrete_condition(es: &Vec<Expression>) -> (r: bool)
    ensures
        r == spec_any_uses(*es, es@.len()),
    decreases es, 1nat,
{
    let mut i: usize = 0;
    while i < es.len()
        invariant
            i <= es@.len(),
            !spec_any_uses(*es, i as nat),
        decreases es@.len() - i,
    {
        if uses_runtime_discrete_condition(&es[i]) {
            proof {
                lemma_any_uses_found(*es, (i + 1) as nat);
            }
            return true;
        }
        i = i + 1;
    }
    false
}

proof fn lemma_any_uses_found(es: Vec<Expression>, n: nat)
    requires
        n <= es@.len(),
        spec_any_uses(es, n),
    ensures
        spec_any_uses(es, es@.len()),
    decreases es@.len() - n,
{
    if n < es@.len() {
        lemma_any_uses_found(es, n + 1);
    }
}

proof fn lemma_branches_use_found(bs: Vec<(Expression, Expression)>, n: nat)
    requires
        n <= bs@.len(),
        spec_branches_use(bs, n),
    ensures
        spec_branches_use(bs, bs@.len()),
    decreases bs@.len() - n,
{
    if n < bs@.len() {
        lemma_branches_use_found(bs, n + 1);
    }
}

proof fn lemma_indices_use_found(ix: Vec<ForIndex>, n: nat)
    requires
        n <= ix@.len(),
        spec_indices_use(ix, n),
    ensures
        spec_indices_use(ix, ix@.len()),
    decreases ix@.len() - n,
{
    if n < ix@.len() {
        lemma_indices_use_found(ix, n + 1);
    }
}

proof fn lemma_subscripts_use_found(ss: Vec<ExprSubscript>, n: nat)
    requires
        n <= ss@.len(),
        spec_subscripts_use(ss, n),
    ensures
        spec_subscripts_use(ss, ss@.len()),
    decreases ss@.len() - n,
{
    if n < ss@.len() {
        lemma_subscripts_use_found(ss, n + 1);
    }
}

/// Whether `expr` depends on a runtime discrete condition (see
/// `spec_uses_runtime_discrete`).
#[verifier::loop_isolation(false)]
pub fn uses_runtime_discrete_condition(expr: &Expression) -> (r: bool)
    ensures
        r == spec_uses_runtime_discrete(*expr),
    decreases expr, 0nat,
{
    match expr {
        Expression::BuiltinCall { function, args } => {
            let event_operator = match function {
                BuiltinFunction::Sample => true,
                BuiltinFunction::Pre => true,
                BuiltinFunction::Edge => true,
                BuiltinFunction::Change => true,
                BuiltinFunction::Reinit => true,
                BuiltinFunction::Initial => true,
                _ => false,
            };
            if event_operator {
                return true;
            }
            any_uses_runtime_discrete_condition(args)
        },
        Expression::FunctionCall { name, args } => {
            if is_runtime_discrete_clock_call(name.as_str()) {
                return true;
            }
            any_uses_runtime_discrete_condition(args)
        },
        Expression::Binary { lhs, rhs } => uses_runtime_discrete_condition(lhs)
            || uses_runtime_discrete_condition(rhs),
        Expression::Unary { rhs } => uses_runtime_discrete_condition(rhs),
        Expression::If { branches, else_branch } => {
            let mut i: usize = 0;
            while i < branches.len()
                invariant
                    i <= branches@.len(),
                    !spec_branches_use(*branches, i as nat),
                decreases branches@.len() - i,
            {
                if uses_runtime_discrete_condition(&branches[i].0)
                    || uses_runtime_discrete_condition(&branches[i].1) {
                    proof {
                        lemma_branches_use_found(*branches, (i + 1) as nat);
                    }
                    return true;
                }
                i = i + 1;
            }
            uses_runtime_discrete_condition(else_branch)
        },
        Expression::Array { elements, .. } => any_uses_runtime_discrete_condition(elements),
        Expression::Tuple { elements } => any_uses_runtime_discrete_condition(elements),
        Expression::Range { start, step, end } => {
            if uses_runtime_discrete_condition(start) {
                return true;
            }
            let in_step = match step {
                Some(s) => uses_runtime_discrete_condition(s),
                None => false,
            };
            in_step || uses_runtime_discrete_condition(end)
        },
        Expression::ArrayComprehension { expr: body, indices, filter } => {
            if uses_runtime_discrete_condition(body) {
                return true;
            }
            let mut i: usize = 0;
            while i < indices.len()
                invariant
                    i <= indices@.len(),
                    !spec_indices_use(*indices, i as nat),
                decreases indices@.len() - i,
            {
                if uses_runtime_discrete_condition(&indices[i].range) {
                    proof {
                        lemma_indices_use_found(*indices, (i + 1) as nat);
                    }
                    return true;
                }
                i = i + 1;
            }
            match filter {
                Some(f) => uses_runtime_discrete_condition(f),
                None => false,
            }
        },
        Expression::Index { base, subscripts } => {
            if uses_runtime_discrete_condition(base) {
                return true;
            }
            let mut i: usize = 0;
            while i < subscripts.len()
                invariant
                    i <= subscripts@.len(),
                    !spec_subscripts_use(*subscripts, i as nat),
                decreases subscripts@.len() - i,
            {
                let found = match &subscripts[i] {
                    ExprSubscript::Expr { expr: index } => uses_runtime_discrete_condition(index),
                    _ => false,
                };
                if found {
                    proof {
                        lemma_subscripts_use_found(*subscripts, (i + 1) as nat);
                    }
                    return true;
                }
                i = i + 1;
            }
            false
        },
        Expression::FieldAccess { base, .. } => uses_runtime_discrete_condition(base),
        Expression::VarRef { .. } => false,
        Expression::Literal => false,
        Expression::Empty => false,
    }
}

} // verus!
