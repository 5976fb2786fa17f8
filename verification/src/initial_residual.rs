use vstd::prelude::*;

use indexmap::IndexMap;

use crate::collections::{name_set_index_of, name_set_keys};
use crate::ir::{BuiltinFunction, ExprSubscript, Expression, ForIndex};

verus! {

/// Whether an expression refers to one of the solver unknowns `u` of
/// initialization: a variable reference by one of those names, anywhere,
/// index expressions of subscripts included.
pub open spec fn spec_refs_unknown(e: Expression, u: Seq<Seq<char>>) -> bool
    decreases e, 0nat,
{
    match e {
        Expression::VarRef { name, subscripts } => u.contains(name@) || spec_subscripts_ref(
            subscripts,
            subscripts@.len(),
            u,
        ),
        Expression::BuiltinCall { args, .. } => spec_any_refs(args, args@.len(), u),
        Expression::FunctionCall { args, .. } => spec_any_refs(args, args@.len(), u),
        Expression::Binary { lhs, rhs } => spec_refs_unknown(*lhs, u) || spec_refs_unknown(*rhs, u),
        Expression::Unary { rhs } => spec_refs_unknown(*rhs, u),
        Expression::If { branches, else_branch } => spec_branches_ref(branches, branches@.len(), u)
            || spec_refs_unknown(*else_branch, u),
        Expression::Array { elements, .. } => spec_any_refs(elements, elements@.len(), u),
        Expression::Tuple { elements } => spec_any_refs(elements, elements@.len(), u),
        Expression::Range { start, step, end } => spec_refs_unknown(*start, u) || match step {
            Some(s) => spec_refs_unknown(*s, u),
            None => false,
        } || spec_refs_unknown(*end, u),
        Expression::ArrayComprehension { expr, indices, filter } => spec_refs_unknown(*expr, u)
            || spec_indices_ref(indices, indices@.len(), u) || match filter {
            Some(f) => spec_refs_unknown(*f, u),
            None => false,
        },
        Expression::Index { base, subscripts } => spec_refs_unknown(*base, u) || spec_subscripts_ref(
            subscripts,
            subscripts@.len(),
            u,
        ),
        Expression::FieldAccess { base, .. } => spec_refs_unknown(*base, u),
        Expression::Literal => false,
        Expression::Empty => false,
    }
}

/// Whether one of the first `n` expressions refers to an unknown of `u`.
pub open spec fn spec_any_refs(es: Vec<Expression>, n: nat, u: Seq<Seq<char>>) -> bool
    decreases es, n,
{
    if n == 0 || n > es@.len() {
        false
    } else {
        spec_any_refs(es, (n - 1) as nat, u) || spec_refs_unknown(es[n - 1], u)
    }
}

pub open spec fn spec_branches_ref(bs: Vec<(Expression, Expression)>, n: nat, u: Seq<Seq<char>>) -> bool
    decreases bs, n,
{
    if n == 0 || n > bs@.len() {
        false
    } else {
        spec_branches_ref(bs, (n - 1) as nat, u) || spec_refs_unknown(bs[n - 1].0, u)
            || spec_refs_unknown(bs[n - 1].1, u)
    }
}

pub open spec fn spec_indices_ref(ix: Vec<ForIndex>, n: nat, u: Seq<Seq<char>>) -> bool
    decreases ix, n,
{
    if n == 0 || n > ix@.len() {
        false
    } else {
        spec_indices_ref(ix, (n - 1) as nat, u) || spec_refs_unknown(ix[n - 1].range, u)
    }
}

pub open spec fn spec_subscripts_ref(ss: Vec<ExprSubscript>, n: nat, u: Seq<Seq<char>>) -> bool
    decreases ss, n,
{
    if n == 0 || n > ss@.len() {
        false
    } else {
        spec_subscripts_ref(ss, (n - 1) as nat, u) || match ss[n - 1] {
            ExprSubscript::Expr { expr } => spec_refs_unknown(*expr, u),
            _ => false,
        }
    }
}

proof fn lemma_any_refs_found(es: Vec<Expression>, n: nat, u: Seq<Seq<char>>)
    requires
        n <= es@.len(),
        spec_any_refs(es, n, u),
    ensures
        spec_any_refs(es, es@.len(), u),
    decreases es@.len() - n,
{
    if n < es@.len() {
        lemma_any_refs_found(es, n + 1, u);
    }
}

proof fn lemma_branches_ref_found(bs: Vec<(Expression, Expression)>, n: nat, u: Seq<Seq<char>>)
    requires
        n <= bs@.len(),
        spec_branches_ref(bs, n, u),
    ensures
        spec_branches_ref(bs, bs@.len(), u),
    decreases bs@.len() - n,
{
    if n < bs@.len() {
        lemma_branches_ref_found(bs, n + 1, u);
    }
}

proof fn lemma_indices_ref_found(ix: Vec<ForIndex>, n: nat, u: Seq<Seq<char>>)
    requires
        n <= ix@.len(),
        spec_indices_ref(ix, n, u),
    ensures
        spec_indices_ref(ix, ix@.len(), u),
    decreases ix@.len() - n,
{
    if n < ix@.len() {
        lemma_indices_ref_found(ix, n + 1, u);
    }
}

proof fn lemma_subscripts_ref_found(ss: Vec<ExprSubscript>, n: nat, u: Seq<Seq<char>>)
    requires
        n <= ss@.len(),
        spec_subscripts_ref(ss, n, u),
    ensures
        spec_subscripts_ref(ss, ss@.len(), u),
    decreases ss@.len() - n,
{
    if n < ss@.len() {
        lemma_subscripts_ref_found(ss, n + 1, u);
    }
}

/// Solver unknowns are found anywhere: a binary expression refers to a solver unknown exactly when one of its operands
/// does, whichever side it is on; a unary expression, a field access, an
/// indexed base and a range refers to a solver unknown when their operand, base or bound does.
pub proof fn law_refs_unknown_operands(l: Expression, r: Expression, s: Expression, field: String, subscripts: Vec<ExprSubscript>, u: Seq<Seq<char>>)
    ensures
        spec_refs_unknown(Expression::Binary { lhs: Box::new(l), rhs: Box::new(r) }, u) == (spec_refs_unknown(l, u) || spec_refs_unknown(r, u)),
        spec_refs_unknown(Expression::Binary { lhs: Box::new(l), rhs: Box::new(r) }, u) == spec_refs_unknown(Expression::Binary { lhs: Box::new(r), rhs: Box::new(l) }, u),
        spec_refs_unknown(Expression::Unary { rhs: Box::new(l) }, u) == spec_refs_unknown(l, u),
        spec_refs_unknown(Expression::FieldAccess { base: Box::new(l), field }, u) == spec_refs_unknown(l, u),
        spec_refs_unknown(l, u) ==> spec_refs_unknown(Expression::Index { base: Box::new(l), subscripts }, u),
        (spec_refs_unknown(l, u) || spec_refs_unknown(s, u) || spec_refs_unknown(r, u)) ==> spec_refs_unknown(Expression::Range { start: Box::new(l), step: Some(Box::new(s)), end: Box::new(r) }, u),
        (spec_refs_unknown(l, u) || spec_refs_unknown(r, u)) ==> spec_refs_unknown(Expression::Range { start: Box::new(l), step: None, end: Box::new(r) }, u),
{
}

/// Solver unknowns are found anywhere: a call, an array or a tuple refers to a solver unknown when one of its arguments or
/// elements does.
pub proof fn law_refs_unknown_lists(args: Vec<Expression>, k: int, function: BuiltinFunction, name: String, is_matrix: bool, u: Seq<Seq<char>>)
    requires
        0 <= k < args@.len(),
        spec_refs_unknown(args[k], u),
    ensures
        spec_refs_unknown(Expression::BuiltinCall { function, args }, u),
        spec_refs_unknown(Expression::FunctionCall { name, args }, u),
        spec_refs_unknown(Expression::Array { elements: args, is_matrix }, u),
        spec_refs_unknown(Expression::Tuple { elements: args }, u),
{
    assert(spec_any_refs(args, (k + 1) as nat, u));
    lemma_any_refs_found(args, (k + 1) as nat, u);
}

/// Solver unknowns are found anywhere: a conditional refers to a solver unknown when a condition, a branch value or the
/// else value does.
pub proof fn law_refs_unknown_branches(branches: Vec<(Expression, Expression)>, k: int, else_branch: Expression, u: Seq<Seq<char>>)
    requires
        0 <= k < branches@.len(),
    ensures
        (spec_refs_unknown(branches[k].0, u) || spec_refs_unknown(branches[k].1, u) || spec_refs_unknown(else_branch, u)) ==> spec_refs_unknown(Expression::If { branches, else_branch: Box::new(else_branch) }, u),
{
    if spec_refs_unknown(branches[k].0, u) || spec_refs_unknown(branches[k].1, u) {
        assert(spec_branches_ref(branches, (k + 1) as nat, u));
        lemma_branches_ref_found(branches, (k + 1) as nat, u);
    }
}

/// Solver unknowns are found anywhere: an indexed expression refers to a solver unknown when one of its index expressions
/// does.
pub proof fn law_refs_unknown_subscripts(base: Expression, subscripts: Vec<ExprSubscript>, k: int, index: Expression, u: Seq<Seq<char>>)
    requires
        0 <= k < subscripts@.len(),
        subscripts@[k] == (ExprSubscript::Expr { expr: Box::new(index) }),
        spec_refs_unknown(index, u),
    ensures
        spec_refs_unknown(Expression::Index { base: Box::new(base), subscripts }, u),
{
    assert(spec_subscripts_ref(subscripts, (k + 1) as nat, u));
    lemma_subscripts_ref_found(subscripts, (k + 1) as nat, u);
}


/// Solver unknowns are found anywhere: an array comprehension refers to a solver unknown when its body, an index range or
/// its filter does.
pub proof fn law_refs_unknown_comprehension(body: Expression, indices: Vec<ForIndex>, k: int, filter: Expression, u: Seq<Seq<char>>)
    requires
        0 <= k < indices@.len(),
    ensures
        (spec_refs_unknown(body, u) || spec_refs_unknown(indices[k].range, u)) ==> spec_refs_unknown(Expression::ArrayComprehension { expr: Box::new(body), indices, filter: None }, u),
        spec_refs_unknown(filter, u) ==> spec_refs_unknown(Expression::ArrayComprehension { expr: Box::new(body), indices, filter: Some(Box::new(filter)) }, u),
{
    if spec_refs_unknown(indices[k].range, u) {
        assert(spec_indices_ref(indices, (k + 1) as nat, u));
        lemma_indices_ref_found(indices, (k + 1) as nat, u);
    }
}


/// Solver unknowns are found anywhere: a literal or an empty expression
/// refers to nothing, and a variable reference refers to an unknown when it names one.
pub proof fn law_refs_unknown_leaves(name: String, subscripts: Vec<ExprSubscript>, u: Seq<Seq<char>>)
    ensures
        !spec_refs_unknown(Expression::Literal, u),
        !spec_refs_unknown(Expression::Empty, u),
        u.contains(name@) ==> spec_refs_unknown(Expression::VarRef { name, subscripts }, u),
        subscripts@.len() == 0 ==> spec_refs_unknown(Expression::VarRef { name, subscripts }, u) == u.contains(name@),
{
    if subscripts@.len() == 0 {
        assert(!spec_subscripts_ref(subscripts, subscripts@.len(), u));
    }
}

/// Solver unknowns are found anywhere: a variable reference refers to an
/// unknown when one of its index expressions does.
pub proof fn law_refs_unknown_var_subscripts(name: String, subscripts: Vec<ExprSubscript>, k: int, index: Expression, u: Seq<Seq<char>>)
    requires
        0 <= k < subscripts@.len(),
        subscripts@[k] == (ExprSubscript::Expr { expr: Box::new(index) }),
        spec_refs_unknown(index, u),
    ensures
        spec_refs_unknown(Expression::VarRef { name, subscripts }, u),
{
    assert(spec_subscripts_ref(subscripts, (k + 1) as nat, u));
    lemma_subscripts_ref_found(subscripts, (k + 1) as nat, u);
}

fn any_refs_solver_unknown(es: &Vec<Expression>, unknowns: &IndexMap<String, ()>) -> (r: bool)
    ensures
        r == spec_any_refs(*es, es@.len(), name_set_keys(*unknowns)),
    decreases es, 1nat,
{
    let ghost u = name_set_keys(*unknowns);
    let mut i: usize = 0;
    while i < es.len()
        invariant
            i <= es@.len(),
            u == name_set_keys(*unknowns),
            !spec_any_refs(*es, i as nat, u),
        decreases es@.len() - i,
    {
        if expression_references_solver_unknown(&es[i], unknowns) {
            proof {
                lemma_any_refs_found(*es, (i + 1) as nat, u);
            }
            return true;
        }
        i = i + 1;
    }
    false
}

fn subscripts_ref_solver_unknown(ss: &Vec<ExprSubscript>, unknowns: &IndexMap<String, ()>) -> (r: bool)
    ensures
        r == spec_subscripts_ref(*ss, ss@.len(), name_set_keys(*unknowns)),
    decreases ss, 1nat,
{
    let ghost u = name_set_keys(*unknowns);
    let mut i: usize = 0;
    while i < ss.len()
        invariant
            i <= ss@.len(),
            u == name_set_keys(*unknowns),
            !spec_subscripts_ref(*ss, i as nat, u),
        decreases ss@.len() - i,
    {
        let found = match &ss[i] {
            ExprSubscript::Expr { expr: index } => expression_references_solver_unknown(index, unknowns),
            _ => false,
        };
        if found {
            proof {
                lemma_subscripts_ref_found(*ss, (i + 1) as nat, u);
            }
            return true;
        }
        i = i + 1;
    }
    false
}

/// Whether `expr` refers to a solver unknown of initialization, given the
/// names of those unknowns (the variables laid out as algebraic or
/// parameter slots).
#[verifier::loop_isolation(false)]
pub fn expression_references_solver_unknown(expr: &Expression, unknowns: &IndexMap<String, ()>) -> (r:
    bool)
    ensures
        r == spec_refs_unknown(*expr, name_set_keys(*unknowns)),
    decreases expr, 0nat,
{
    let ghost u = name_set_keys(*unknowns);
    match expr {
        Expression::VarRef { name, subscripts } => {
            if name_set_index_of(unknowns, name.as_str()).is_some() {
                return true;
            }
            subscripts_ref_solver_unknown(subscripts, unknowns)
        },
        Expression::BuiltinCall { args, .. } => any_refs_solver_unknown(args, unknowns),
        Expression::FunctionCall { args, .. } => any_refs_solver_unknown(args, unknowns),
        Expression::Binary { lhs, rhs } => expression_references_solver_unknown(lhs, unknowns)
            || expression_references_solver_unknown(rhs, unknowns),
        Expression::Unary { rhs } => expression_references_solver_unknown(rhs, unknowns),
        Expression::If { branches, else_branch } => {
            let mut i: usize = 0;
            while i < branches.len()
                invariant
                    i <= branches@.len(),
                    !spec_branches_ref(*branches, i as nat, u),
                decreases branches@.len() - i,
            {
                if expression_references_solver_unknown(&branches[i].0, unknowns)
                    || expression_references_solver_unknown(&branches[i].1, unknowns) {
                    proof {
                        lemma_branches_ref_found(*branches, (i + 1) as nat, u);
                    }
                    return true;
                }
                i = i + 1;
            }
            expression_references_solver_unknown(else_branch, unknowns)
        },
        Expression::Array { elements, .. } => any_refs_solver_unknown(elements, unknowns),
        Expression::Tuple { elements } => any_refs_solver_unknown(elements, unknowns),
        Expression::Range { start, step, end } => {
            if expression_references_solver_unknown(start, unknowns) {
                return true;
            }
            let in_step = match step {
                Some(s) => expression_references_solver_unknown(s, unknowns),
                None => false,
            };
            in_step || expression_references_solver_unknown(end, unknowns)
        },
        Expression::ArrayComprehension { expr: body, indices, filter } => {
            if expression_references_solver_unknown(body, unknowns) {
                return true;
            }
            let mut i: usize = 0;
            while i < indices.len()
                invariant
                    i <= indices@.len(),
                    !spec_indices_ref(*indices, i as nat, u),
                decreases indices@.len() - i,
            {
                if expression_references_solver_unknown(&indices[i].range, unknowns) {
                    proof {
                        lemma_indices_ref_found(*indices, (i + 1) as nat, u);
                    }
                    return true;
                }
                i = i + 1;
            }
            match filter {
                Some(f) => expression_references_solver_unknown(f, unknowns),
                None => false,
            }
        },
        Expression::Index { base, subscripts } => {
            if expression_references_solver_unknown(base, unknowns) {
                return true;
            }
            subscripts_ref_solver_unknown(subscripts, unknowns)
        },
        Expression::FieldAccess { base, .. } => expression_references_solver_unknown(base, unknowns),
        Expression::Literal => false,
        Expression::Empty => false,
    }
}

/// An initialization equation as the choice of initial residuals reads
/// it: its explicit left-hand variable, if any, and its right side.
pub struct InitialEquation {
    pub lhs: Option<String>,
    pub rhs: Expression,
}

/// The equation a residual row of initialization comes from.
#[derive(Clone, Copy, Debug, PartialEq, Eq, Structural)]
pub enum ResidualSource {
    /// The continuous equation at `index`.
    Continuous { index: usize },
    /// The initialization equation at `index`.
    Initialization { index: usize },
}

/// An initialization equation constrains a solver unknown: its explicit
/// left side is one, or its right side refers to one.
pub open spec fn spec_constrains_unknown(eq: InitialEquation, u: Seq<Seq<char>>) -> bool {
    (match eq.lhs {
        Some(l) => u.contains(l@),
        None => false,
    }) || spec_refs_unknown(eq.rhs, u)
}

/// Whether an initialization equation constrains a solver unknown.
pub fn initial_equation_constrains_solver_unknown(unknowns: &IndexMap<String, ()>, eq: &InitialEquation) -> (r:
    bool)
    ensures
        r == spec_constrains_unknown(*eq, name_set_keys(*unknowns)),
{
    let lhs_unknown = match &eq.lhs {
        Some(l) => name_set_index_of(unknowns, l.as_str()).is_some(),
        None => false,
    };
    lhs_unknown || expression_references_solver_unknown(&eq.rhs, unknowns)
}

/// Continuous equation `i` defines a state derivative.
pub open spec fn is_state_row(flags: Seq<bool>, i: int) -> bool {
    0 <= i < flags.len() && flags[i]
}

/// The first `n` continuous equations that define no state derivative,
/// each under its own index.
pub open spec fn spec_continuous_rows(flags: Seq<bool>, n: nat) -> Seq<(usize, ResidualSource)>
    decreases n,
{
    if n == 0 {
        Seq::empty()
    } else {
        let prev = spec_continuous_rows(flags, (n - 1) as nat);
        if is_state_row(flags, n - 1) {
            prev
        } else {
            prev.push(((n - 1) as usize, ResidualSource::Continuous { index: (n - 1) as usize }))
        }
    }
}

/// Those of the first `m` initialization equations that constrain a
/// solver unknown, numbered on from `base` in order.
pub open spec fn spec_initial_rows(eqs: Seq<InitialEquation>, m: nat, base: nat, u: Seq<Seq<char>>) -> Seq<
    (usize, ResidualSource),
>
    decreases m,
{
    if m == 0 {
        Seq::empty()
    } else {
        let prev = spec_initial_rows(eqs, (m - 1) as nat, base, u);
        if spec_constrains_unknown(eqs[m - 1], u) {
            prev.push(((base + prev.len()) as usize, ResidualSource::Initialization { index: (m - 1) as usize }))
        } else {
            prev
        }
    }
}

/// An initialization equation constrains an unknown when its explicit
/// left side is one, and when its right side refers to one; an equation
/// with neither does not.
pub proof fn law_constrains_unknown(eq: InitialEquation, u: Seq<Seq<char>>)
    ensures
        (eq.lhs matches Some(l) && u.contains(l@)) ==> spec_constrains_unknown(eq, u),
        spec_refs_unknown(eq.rhs, u) ==> spec_constrains_unknown(eq, u),
        eq.lhs is None && !spec_refs_unknown(eq.rhs, u) ==> !spec_constrains_unknown(eq, u),
{
}

/// The continuous rows keep exactly the equations that define no state
/// derivative, each under its own index, in increasing order.
proof fn lemma_continuous_rows(flags: Seq<bool>, n: nat)
    requires
        n <= usize::MAX,
    ensures
        forall|i: int|
            0 <= i < n ==> (!is_state_row(flags, i) <==> spec_continuous_rows(flags, n).contains(
                (i as usize, ResidualSource::Continuous { index: i as usize }),
            )),
        forall|k: int|
            0 <= k < spec_continuous_rows(flags, n).len() ==> (#[trigger] spec_continuous_rows(flags, n)[k]).0
                < n && spec_continuous_rows(flags, n)[k].1 == (ResidualSource::Continuous {
                index: spec_continuous_rows(flags, n)[k].0,
            }),
    decreases n,
{
    if n > 0 {
        lemma_continuous_rows(flags, (n - 1) as nat);
        let prev = spec_continuous_rows(flags, (n - 1) as nat);
        let cur = spec_continuous_rows(flags, n);
        let last = ((n - 1) as usize, ResidualSource::Continuous { index: (n - 1) as usize });
        assert forall|i: int| 0 <= i < n implies (!is_state_row(flags, i) <==> cur.contains(
            (i as usize, ResidualSource::Continuous { index: i as usize }),
        )) by {
            let item = (i as usize, ResidualSource::Continuous { index: i as usize });
            if i < n - 1 {
                if prev.contains(item) {
                    let w = choose|w: int| 0 <= w < prev.len() && prev[w] == item;
                    if !is_state_row(flags, n - 1) {
                        assert(cur[w] == item);
                    }
                }
                if cur.contains(item) && !prev.contains(item) {
                    let w = choose|w: int| 0 <= w < cur.len() && cur[w] == item;
                    assert(w == prev.len());
                    assert(cur[w] == last);
                }
            } else {
                if !is_state_row(flags, i) {
                    assert(cur[prev.len() as int] == item);
                } else {
                    if cur.contains(item) {
                        let w = choose|w: int| 0 <= w < cur.len() && cur[w] == item;
                        assert(prev[w].0 < n - 1);
                    }
                }
            }
        }
    }
}

/// Initialization solves the residuals of every continuous equation that
/// defines no state derivative, and of no other continuous equation.
pub proof fn law_initial_residuals_keep_algebraic_continuous_equations(flags: Seq<bool>, n: nat, i: int)
    requires
        0 <= i < n,
        n <= usize::MAX,
    ensures
        spec_continuous_rows(flags, n).contains((i as usize, ResidualSource::Continuous { index: i as usize }))
            == !is_state_row(flags, i),
        forall|k: int|
            0 <= k < spec_continuous_rows(flags, n).len() ==> (#[trigger] spec_continuous_rows(flags, n)[k]).0
                < n,
{
    lemma_continuous_rows(flags, n);
}

/// The initialization rows keep exactly the initialization equations that
/// constrain an unknown, numbered on from `base` one after another.
pub proof fn law_initial_rows_keep_constraining_equations(
    eqs: Seq<InitialEquation>,
    m: nat,
    base: nat,
    u: Seq<Seq<char>>,
)
    requires
        m <= eqs.len(),
        base + m <= usize::MAX,
    ensures
        spec_initial_rows(eqs, m, base, u).len() <= m,
        forall|k: int|
            0 <= k < spec_initial_rows(eqs, m, base, u).len() ==> (#[trigger] spec_initial_rows(eqs, m, base, u)[k]).0
                == base + k,
        forall|k: int|
            0 <= k < spec_initial_rows(eqs, m, base, u).len() ==> ((#[trigger] spec_initial_rows(eqs, m, base, u)[k]).1 matches ResidualSource::Initialization { index }
                && index < m && spec_constrains_unknown(eqs[index as int], u)),
        forall|j: int|
            0 <= j < m && #[trigger] spec_constrains_unknown(eqs[j], u) ==> exists|k: int|
                0 <= k < spec_initial_rows(eqs, m, base, u).len() && (#[trigger] spec_initial_rows(eqs, m, base, u)[k]).1
                    == (ResidualSource::Initialization { index: j as usize }),
    decreases m,
{
    if m > 0 {
        law_initial_rows_keep_constraining_equations(eqs, (m - 1) as nat, base, u);
        let prev = spec_initial_rows(eqs, (m - 1) as nat, base, u);
        let cur = spec_initial_rows(eqs, m, base, u);
        assert forall|j: int|
            0 <= j < m && #[trigger] spec_constrains_unknown(eqs[j], u) implies exists|k: int|
                0 <= k < cur.len() && (#[trigger] cur[k]).1 == (ResidualSource::Initialization { index: j as usize }) by {
            if j < m - 1 {
                let k = choose|k: int| 0 <= k < prev.len() && (#[trigger] prev[k]).1 == (ResidualSource::Initialization { index: j as usize });
                assert(cur[k] == prev[k]);
            } else {
                assert(cur[prev.len() as int].1 == (ResidualSource::Initialization { index: j as usize }));
            }
        }
        assert forall|k: int| 0 <= k < cur.len() implies (#[trigger] cur[k]).0 == base + k by {
            if k < prev.len() {
                assert(cur[k] == prev[k]);
            }
        }
        assert forall|k: int| 0 <= k < cur.len() implies ((#[trigger] cur[k]).1 matches ResidualSource::Initialization { index }
            && index < m && spec_constrains_unknown(eqs[index as int], u)) by {
            if k < prev.len() {
                assert(cur[k] == prev[k]);
            }
        }
    }
}

/// The equations whose residuals initialization solves, in order: the
/// continuous equations that define no state derivative (flagged in
/// `state_derivative_rows`), under their own indices, then the
/// initialization equations that constrain a solver unknown, numbered on
/// after the `continuous_count` continuous equations.
pub fn initial_residual_equations(
    continuous_count: usize,
    state_derivative_rows: &[bool],
    initialization: &[InitialEquation],
    unknowns: &IndexMap<String, ()>,
) -> (r: Vec<(usize, ResidualSource)>)
    requires
        continuous_count + initialization@.len() <= usize::MAX,
    ensures
        r@ == spec_continuous_rows(state_derivative_rows@, continuous_count as nat) + spec_initial_rows(
            initialization@,
            initialization@.len(),
            continuous_count as nat,
            name_set_keys(*unknowns),
        ),
{
    let ghost u = name_set_keys(*unknowns);
    let ghost flags = state_derivative_rows@;
    let mut rows: Vec<(usize, ResidualSource)> = Vec::new();
    let mut i: usize = 0;
    while i < continuous_count
        invariant
            i <= continuous_count,
            flags == state_derivative_rows@,
            rows@ == spec_continuous_rows(flags, i as nat),
        decreases continuous_count - i,
    {
        let state_row = i < state_derivative_rows.len() && state_derivative_rows[i];
        if !state_row {
            rows.push((i, ResidualSource::Continuous { index: i }));
        }
        i = i + 1;
    }
    let ghost head = rows@;
    let mut offset: usize = 0;
    let mut j: usize = 0;
    while j < initialization.len()
        invariant
            j <= initialization@.len(),
            continuous_count + initialization@.len() <= usize::MAX,
            u == name_set_keys(*unknowns),
            head == spec_continuous_rows(flags, continuous_count as nat),
            offset == spec_initial_rows(initialization@, j as nat, continuous_count as nat, u).len(),
            offset <= j,
            rows@ == head + spec_initial_rows(initialization@, j as nat, continuous_count as nat, u),
        decreases initialization@.len() - j,
    {
        if initial_equation_constrains_solver_unknown(unknowns, &initialization[j]) {
            rows.push((continuous_count + offset, ResidualSource::Initialization { index: j }));
            offset = offset + 1;
        }
        j = j + 1;
    }
    rows
}

} // verus!
