use vstd::prelude::*;

use crate::builder::{
    spec_is_record_constructor_signature, spec_record_scalar_argument, spec_record_scalar_reason,
    LowerBuilder, RecordScalarArgument,
};
use crate::capacity::spec_located;
use crate::error::{texts, unsupported_at, LowerError};
use crate::ir::{BuiltinFunction, ExprSubscript, Expression, Statement};
use crate::scope::spec_lookup;
use crate::span::Span;
use crate::text::{decimal, usize_to_decimal};

verus! {

/// Whether an expression calls `size` anywhere among its operands,
/// branches, elements, index bases and index expressions, and range
/// bounds.
pub open spec fn spec_contains_size(e: Expression) -> bool
    decreases e, 0nat,
{
    match e {
        Expression::BuiltinCall { function, args } => function is Size || spec_any_size(args, args@.len()),
        Expression::FunctionCall { args, .. } => spec_any_size(args, args@.len()),
        Expression::Unary { rhs } => spec_contains_size(*rhs),
        Expression::Binary { lhs, rhs } => spec_contains_size(*lhs) || spec_contains_size(*rhs),
        Expression::If { branches, else_branch } => spec_branches_size(branches, branches@.len())
            || spec_contains_size(*else_branch),
        Expression::Array { elements, .. } => spec_any_size(elements, elements@.len()),
        Expression::Tuple { elements } => spec_any_size(elements, elements@.len()),
        Expression::Index { base, subscripts } => spec_contains_size(*base) || spec_subscripts_size(
            subscripts,
            subscripts@.len(),
        ),
        Expression::FieldAccess { base, .. } => spec_contains_size(*base),
        Expression::Range { start, step, end } => spec_contains_size(*start) || match step {
            Some(s) => spec_contains_size(*s),
            None => false,
        } || spec_contains_size(*end),
        _ => false,
    }
}

pub open spec fn spec_any_size(es: Vec<Expression>, n: nat) -> bool
    decreases es, n,
{
    if n == 0 || n > es@.len() {
        false
    } else {
        spec_any_size(es, (n - 1) as nat) || spec_contains_size(es[n - 1])
    }
}

pub open spec fn spec_branches_size(bs: Vec<(Expression, Expression)>, n: nat) -> bool
    decreases bs, n,
{
    if n == 0 || n > bs@.len() {
        false
    } else {
        spec_branches_size(bs, (n - 1) as nat) || spec_contains_size(bs[n - 1].0) || spec_contains_size(
            bs[n - 1].1,
        )
    }
}

pub open spec fn spec_subscripts_size(ss: Vec<ExprSubscript>, n: nat) -> bool
    decreases ss, n,
{
    if n == 0 || n > ss@.len() {
        false
    } else {
        spec_subscripts_size(ss, (n - 1) as nat) || match ss[n - 1] {
            ExprSubscript::Expr { expr } => spec_contains_size(*expr),
            _ => false,
        }
    }
}

proof fn lemma_any_size_found(es: Vec<Expression>, n: nat)
    requires
        n <= es@.len(),
        spec_any_size(es, n),
    ensures
        spec_any_size(es, es@.len()),
    decreases es@.len() - n,
{
    if n < es@.len() {
        lemma_any_size_found(es, n + 1);
    }
}

proof fn lemma_branches_size_found(bs: Vec<(Expression, Expression)>, n: nat)
    requires
        n <= bs@.len(),
        spec_branches_size(bs, n),
    ensures
        spec_branches_size(bs, bs@.len()),
    decreases bs@.len() - n,
{
    if n < bs@.len() {
        lemma_branches_size_found(bs, n + 1);
    }
}

proof fn lemma_subscripts_size_found(ss: Vec<ExprSubscript>, n: nat)
    requires
        n <= ss@.len(),
        spec_subscripts_size(ss, n),
    ensures
        spec_subscripts_size(ss, ss@.len()),
    decreases ss@.len() - n,
{
    if n < ss@.len() {
        lemma_subscripts_size_found(ss, n + 1);
    }
}

/// A size() call is found anywhere: a binary expression calls size exactly when one of its operands
/// does, whichever side it is on; a unary expression, a field access, an
/// indexed base and a range calls size when their operand, base or bound does.
pub proof fn law_contains_size_operands(l: Expression, r: Expression, s: Expression, field: String, subscripts: Vec<ExprSubscript>)
    ensures
        spec_contains_size(Expression::Binary { lhs: Box::new(l), rhs: Box::new(r) }) == (spec_contains_size(l) || spec_contains_size(r)),
        spec_contains_size(Expression::Binary { lhs: Box::new(l), rhs: Box::new(r) }) == spec_contains_size(Expression::Binary { lhs: Box::new(r), rhs: Box::new(l) }),
        spec_contains_size(Expression::Unary { rhs: Box::new(l) }) == spec_contains_size(l),
        spec_contains_size(Expression::FieldAccess { base: Box::new(l), field }) == spec_contains_size(l),
        spec_contains_size(l) ==> spec_contains_size(Expression::Index { base: Box::new(l), subscripts }),
        (spec_contains_size(l) || spec_contains_size(s) || spec_contains_size(r)) ==> spec_contains_size(Expression::Range { start: Box::new(l), step: Some(Box::new(s)), end: Box::new(r) }),
        (spec_contains_size(l) || spec_contains_size(r)) ==> spec_contains_size(Expression::Range { start: Box::new(l), step: None, end: Box::new(r) }),
{
}

/// A size() call is found anywhere: a call, an array or a tuple calls size when one of its arguments or
/// elements does.
pub proof fn law_contains_size_lists(args: Vec<Expression>, k: int, function: BuiltinFunction, name: String, is_matrix: bool)
    requires
        0 <= k < args@.len(),
        spec_contains_size(args[k]),
    ensures
        spec_contains_size(Expression::BuiltinCall { function, args }),
        spec_contains_size(Expression::FunctionCall { name, args }),
        spec_contains_size(Expression::Array { elements: args, is_matrix }),
        spec_contains_size(Expression::Tuple { elements: args }),
{
    assert(spec_any_size(args, (k + 1) as nat));
    lemma_any_size_found(args, (k + 1) as nat);
}

/// A size() call is found anywhere: a conditional calls size when a condition, a branch value or the
/// else value does.
pub proof fn law_contains_size_branches(branches: Vec<(Expression, Expression)>, k: int, else_branch: Expression)
    requires
        0 <= k < branches@.len(),
    ensures
        (spec_contains_size(branches[k].0) || spec_contains_size(branches[k].1) || spec_contains_size(else_branch)) ==> spec_contains_size(Expression::If { branches, else_branch: Box::new(else_branch) }),
{
    if spec_contains_size(branches[k].0) || spec_contains_size(branches[k].1) {
        assert(spec_branches_size(branches, (k + 1) as nat));
        lemma_branches_size_found(branches, (k + 1) as nat);
    }
}

/// A size() call is found anywhere: an indexed expression calls size when one of its index expressions
/// does.
pub proof fn law_contains_size_subscripts(base: Expression, subscripts: Vec<ExprSubscript>, k: int, index: Expression)
    requires
        0 <= k < subscripts@.len(),
        subscripts@[k] == (ExprSubscript::Expr { expr: Box::new(index) }),
        spec_contains_size(index),
    ensures
        spec_contains_size(Expression::Index { base: Box::new(base), subscripts }),
{
    assert(spec_subscripts_size(subscripts, (k + 1) as nat));
    lemma_subscripts_size_found(subscripts, (k + 1) as nat);
}


/// A size() call is found anywhere: literals, empty expressions and variable
/// references call no `size`.
pub proof fn law_contains_size_leaves(name: String, subscripts: Vec<ExprSubscript>)
    ensures
        !spec_contains_size(Expression::Literal),
        !spec_contains_size(Expression::Empty),
        !spec_contains_size(Expression::VarRef { name, subscripts }),
{
}

/// A size() call is found anywhere: a call of `size` is one, whatever its
/// arguments; a call of another built-in without arguments is not.
pub proof fn law_contains_size_calls(function: BuiltinFunction, args: Vec<Expression>)
    ensures
        spec_contains_size(Expression::BuiltinCall { function: BuiltinFunction::Size, args }),
        args@.len() == 0 && !(function is Size) ==> !spec_contains_size(
            Expression::BuiltinCall { function, args },
        ),
{
    if args@.len() == 0 {
        assert(!spec_any_size(args, args@.len()));
    }
}

/// A body is a projected-scalar candidate exactly when each of its
/// statements is: an assignment whose value calls no `size`, a return, or
/// an empty statement; one assignment of a `size`-dependent value rules
/// the whole body out.
pub proof fn law_projected_scalar_candidate_statements(body: Seq<Statement>, k: int, target: String, value: Expression)
    requires
        0 <= k < body.len(),
        body[k] == (Statement::Assignment { target, value }),
        spec_contains_size(value),
    ensures
        !spec_projected_scalar_candidate(body),
{
}

fn any_contains_size(es: &Vec<Expression>) -> (r: bool)
    ensures
        r == spec_any_size(*es, es@.len()),
    decreases es, 1nat,
{
    let mut i: usize = 0;
    while i < es.len()
        invariant
            i <= es@.len(),
            !spec_any_size(*es, i as nat),
        decreases es@.len() - i,
    {
        if expr_contains_size_builtin(&es[i]) {
            proof {
                lemma_any_size_found(*es, (i + 1) as nat);
            }
            return true;
        }
        i = i + 1;
    }
    false
}

/// Whether `expr` calls `size` (see `spec_contains_size`).
#[verifier::loop_isolation(false)]
pub fn expr_contains_size_builtin(expr: &Expression) -> (r: bool)
    ensures
        r == spec_contains_size(*expr),
    decreases expr, 0nat,
{
    match expr {
        Expression::BuiltinCall { function, args } => {
            if let BuiltinFunction::Size = function {
                return true;
            }
            any_contains_size(args)
        },
        Expression::FunctionCall { args, .. } => any_contains_size(args),
        Expression::Unary { rhs } => expr_contains_size_builtin(rhs),
        Expression::Binary { lhs, rhs } => expr_contains_size_builtin(lhs) || expr_contains_size_builtin(rhs),
        Expression::If { branches, else_branch } => {
            let mut i: usize = 0;
            while i < branches.len()
                invariant
                    i <= branches@.len(),
                    !spec_branches_size(*branches, i as nat),
                decreases branches@.len() - i,
            {
                if expr_contains_size_builtin(&branches[i].0) || expr_contains_size_builtin(&branches[i].1) {
                    proof {
                        lemma_branches_size_found(*branches, (i + 1) as nat);
                    }
                    return true;
                }
                i = i + 1;
            }
            expr_contains_size_builtin(else_branch)
        },
        Expression::Array { elements, .. } => any_contains_size(elements),
        Expression::Tuple { elements } => any_contains_size(elements),
        Expression::Index { base, subscripts } => {
            if expr_contains_size_builtin(base) {
                return true;
            }
            let mut i: usize = 0;
            while i < subscripts.len()
                invariant
                    i <= subscripts@.len(),
                    !spec_subscripts_size(*subscripts, i as nat),
                decreases subscripts@.len() - i,
            {
                let found = match &subscripts[i] {
                    ExprSubscript::Expr { expr: index } => expr_contains_size_builtin(index),
                    _ => false,
                };
                if found {
                    proof {
                        lemma_subscripts_size_found(*subscripts, (i + 1) as nat);
                    }
                    return true;
                }
                i = i + 1;
            }
            false
        },
        Expression::FieldAccess { base, .. } => expr_contains_size_builtin(base),
        Expression::Range { start, step, end } => {
            if expr_contains_size_builtin(start) {
                return true;
            }
            let in_step = match step {
                Some(s) => expr_contains_size_builtin(s),
                None => false,
            };
            in_step || expr_contains_size_builtin(end)
        },
        _ => false,
    }
}

/// A function body whose outputs can be projected as scalars: it only
/// assigns (with no `size` call in the assigned values), returns, or does
/// nothing.
pub open spec fn spec_projected_scalar_candidate(body: Seq<Statement>) -> bool {
    forall|i: int|
        0 <= i < body.len() ==> match #[trigger] body[i] {
            Statement::Empty => true,
            Statement::Return => true,
            Statement::Assignment { value, .. } => !spec_contains_size(value),
            _ => false,
        }
}

/// Whether a function body can have its outputs projected as scalars.
pub fn is_projected_scalar_function_candidate(body: &[Statement]) -> (b: bool)
    ensures
        b == spec_projected_scalar_candidate(body@),
{
    let mut i: usize = 0;
    while i < body.len()
        invariant
            i <= body@.len(),
            forall|j: int|
                0 <= j < i ==> match #[trigger] body@[j] {
                    Statement::Empty => true,
                    Statement::Return => true,
                    Statement::Assignment { value, .. } => !spec_contains_size(value),
                    _ => false,
                },
        decreases body@.len() - i,
    {
        let ok = match &body[i] {
            Statement::Empty => true,
            Statement::Return => true,
            Statement::Assignment { value, .. } => !expr_contains_size_builtin(value),
            _ => false,
        };
        if !ok {
            return false;
        }
        i = i + 1;
    }
    true
}

/// Where the lowering of a function call stands: which outside attempt
/// has just been made.
#[derive(Clone, Copy, Debug, PartialEq, Eq, Structural)]
pub enum CallStage {
    /// Nothing has been tried yet.
    Start,
    /// The qualified standard numeric intrinsics were tried.
    NumericIntrinsicTried,
    /// The call is at the inline depth limit and the intrinsics were tried.
    DepthIntrinsicTried,
    /// No function of that name is known; its output projections were
    /// looked up.
    OutputProjectionLookedUp,
    /// Its function closures were looked up.
    ClosureLookedUp,
    /// The intrinsics were tried for an unknown function.
    IntrinsicTried,
    /// The intrinsics were tried for an external function.
    ExternalIntrinsicTried,
    /// The function's outputs were tried as projected scalars.
    ProjectedScalarTried,
}

/// What the lowering of a function call does next.
#[derive(Debug, PartialEq, Eq)]
pub enum CallAction {
    /// Lower this actual of the record constructor call (its first field).
    LowerRecordArgument { argument: RecordScalarArgument },
    /// Try the qualified standard numeric intrinsics.
    TryNumericIntrinsic,
    /// Try the intrinsics.
    TryIntrinsic,
    /// Look up an output projection of a function under the name.
    LookUpOutputProjection,
    /// Look up a function closure under the name.
    LookUpClosure,
    /// Try projecting the function's outputs as scalars.
    TryProjectedScalar,
    /// Lower the call through the output projection found.
    LowerOutputProjection,
    /// Lower the call through the closure found.
    LowerClosure,
    /// Inline the function: bind its inputs and lower its body.
    Inline,
    /// The attempt just made gave the call's register.
    Finish,
    /// The call cannot be lowered.
    Fail { error: LowerError },
}

pub open spec fn spec_depth_reason(max_depth: nat) -> Seq<char> {
    "recursion depth exceeded ("@ + decimal(max_depth) + ")"@
}

pub open spec fn spec_external_reason(name: Seq<char>) -> Seq<char> {
    "external function call `"@ + name + "` cannot be inlined"@
}

/// The call `name(..)` is a record constructor call.
pub open spec fn spec_is_record_call(builder: LowerBuilder, name: Seq<char>, is_constructor: bool) -> bool {
    is_constructor || match spec_lookup(builder.spec_functions(), name) {
        Some(f) => spec_is_record_constructor_signature(name, f),
        None => false,
    }
}

/// The next stage and action after a known function was found and no
/// numeric intrinsic lowered the call.
pub open spec fn spec_known_function_step(builder: LowerBuilder, name: Seq<char>) -> (CallStage, CallAction) {
    let f = spec_lookup(builder.spec_functions(), name).unwrap();
    if f.is_external {
        (CallStage::ExternalIntrinsicTried, CallAction::TryIntrinsic)
    } else if f.is_pure && spec_projected_scalar_candidate(f.body@) {
        (CallStage::ProjectedScalarTried, CallAction::TryProjectedScalar)
    } else {
        (CallStage::NumericIntrinsicTried, CallAction::Inline)
    }
}

/// A known pure function whose body assigns a `size`-dependent value is
/// inlined, never tried as projected scalars.
pub proof fn law_size_dependent_function_is_inlined(
    builder: LowerBuilder,
    name: Seq<char>,
    k: int,
    target: String,
    value: Expression,
)
    requires
        spec_lookup(builder.spec_functions(), name) is Some,
        !spec_lookup(builder.spec_functions(), name).unwrap().is_external,
        0 <= k < spec_lookup(builder.spec_functions(), name).unwrap().body@.len(),
        spec_lookup(builder.spec_functions(), name).unwrap().body@[k] == (Statement::Assignment { target, value }),
        spec_contains_size(value),
    ensures
        spec_known_function_step(builder, name) == (CallStage::NumericIntrinsicTried, CallAction::Inline),
{
    let f = spec_lookup(builder.spec_functions(), name).unwrap();
    law_projected_scalar_candidate_statements(f.body@, k, target, value);
}

impl LowerBuilder {
    /// One step of lowering the call `name(..)`: given the stage reached
    /// and whether the outside attempt just made succeeded (`hit`: a
    /// register came back, or the lookup found something), the next stage
    /// and what to do. A record constructor call reads the actual of its
    /// first field. Otherwise the standard numeric intrinsics come first;
    /// at the inline depth limit `max_depth` only the intrinsics remain;
    /// a known function is lowered by the intrinsics when external, tried
    /// as projected scalars when pure and simple, and otherwise inlined;
    /// an unknown name is looked up as an output projection, then as a
    /// closure, then tried as an intrinsic. `named` and `positional_count`
    /// describe the call's actuals; `span` locates the call.
    pub fn function_call_step(
        &self,
        name: &str,
        is_constructor: bool,
        named: &[String],
        positional_count: usize,
        call_depth: usize,
        max_depth: usize,
        span: Span,
        stage: CallStage,
        hit: bool,
    ) -> (r: (CallStage, CallAction))
        ensures
            match stage {
                CallStage::Start => if spec_is_record_call(*self, name@, is_constructor) {
                    r.0 == CallStage::Start && match spec_record_scalar_argument(
                        self.spec_functions(),
                        name@,
                        texts(named@),
                        positional_count as nat,
                    ) {
                        Some(a) => r.1 == CallAction::LowerRecordArgument { argument: a },
                        None => r.1 matches CallAction::Fail { error } && error is InvalidFunction
                            && error->InvalidFunction_name@ == name@ && error->InvalidFunction_reason@
                            == spec_record_scalar_reason(),
                    }
                } else {
                    r == (CallStage::NumericIntrinsicTried, CallAction::TryNumericIntrinsic)
                },
                CallStage::NumericIntrinsicTried => if hit {
                    r == (stage, CallAction::Finish)
                } else if call_depth >= max_depth {
                    r == (CallStage::DepthIntrinsicTried, CallAction::TryIntrinsic)
                } else if spec_lookup(self.spec_functions(), name@) is Some {
                    r == spec_known_function_step(*self, name@)
                } else {
                    r == (CallStage::OutputProjectionLookedUp, CallAction::LookUpOutputProjection)
                },
                CallStage::DepthIntrinsicTried => if hit {
                    r == (stage, CallAction::Finish)
                } else {
                    r.0 == stage && (r.1 matches CallAction::Fail { error } && error is InvalidFunction
                        && error->InvalidFunction_name@ == name@ && error->InvalidFunction_reason@
                        == spec_depth_reason(max_depth as nat))
                },
                CallStage::OutputProjectionLookedUp => if hit {
                    r == (stage, CallAction::LowerOutputProjection)
                } else {
                    r == (CallStage::ClosureLookedUp, CallAction::LookUpClosure)
                },
                CallStage::ClosureLookedUp => if hit {
                    r == (stage, CallAction::LowerClosure)
                } else {
                    r == (CallStage::IntrinsicTried, CallAction::TryIntrinsic)
                },
                CallStage::IntrinsicTried => if hit {
                    r == (stage, CallAction::Finish)
                } else {
                    r.0 == stage && (r.1 matches CallAction::Fail { error } && error is MissingFunction
                        && error->MissingFunction_name@ == name@)
                },
                CallStage::ExternalIntrinsicTried => if hit {
                    r == (stage, CallAction::Finish)
                } else {
                    r.0 == stage && (r.1 matches CallAction::Fail { error } && (error is Unsupported
                        || error is UnsupportedAt) && error.spec_reason() == spec_external_reason(name@)
                        && error.spec_source_span() == spec_located(span))
                },
                CallStage::ProjectedScalarTried => if hit {
                    r == (stage, CallAction::Finish)
                } else {
                    r == (stage, CallAction::Inline)
                },
            },
    {
        match stage {
            CallStage::Start => {
                if self.is_record_constructor_call_key(name, is_constructor) {
                    match self.record_constructor_scalar_argument(name, named, positional_count) {
                        Ok(argument) => (CallStage::Start, CallAction::LowerRecordArgument { argument }),
                        Err(error) => (CallStage::Start, CallAction::Fail { error }),
                    }
                } else {
                    (CallStage::NumericIntrinsicTried, CallAction::TryNumericIntrinsic)
                }
            },
            CallStage::NumericIntrinsicTried => {
                if hit {
                    return (stage, CallAction::Finish);
                }
                if call_depth >= max_depth {
                    return (CallStage::DepthIntrinsicTried, CallAction::TryIntrinsic);
                }
                match self.lookup_function_key(name) {
                    Some(f) => {
                        if f.is_external {
                            (CallStage::ExternalIntrinsicTried, CallAction::TryIntrinsic)
                        } else if f.is_pure && is_projected_scalar_function_candidate(f.body.as_slice()) {
                            (CallStage::ProjectedScalarTried, CallAction::TryProjectedScalar)
                        } else {
                            (CallStage::NumericIntrinsicTried, CallAction::Inline)
                        }
                    },
                    None => (CallStage::OutputProjectionLookedUp, CallAction::LookUpOutputProjection),
                }
            },
            CallStage::DepthIntrinsicTried => {
                if hit {
                    return (stage, CallAction::Finish);
                }
                let mut reason = String::from_str("recursion depth exceeded (");
                let digits = usize_to_decimal(max_depth);
                reason.append(digits.as_str());
                reason.append(")");
                (stage, CallAction::Fail { error: LowerError::InvalidFunction { name: String::from_str(name), reason } })
            },
            CallStage::OutputProjectionLookedUp => {
                if hit {
                    (stage, CallAction::LowerOutputProjection)
                } else {
                    (CallStage::ClosureLookedUp, CallAction::LookUpClosure)
                }
            },
            CallStage::ClosureLookedUp => {
                if hit {
                    (stage, CallAction::LowerClosure)
                } else {
                    (CallStage::IntrinsicTried, CallAction::TryIntrinsic)
                }
            },
            CallStage::IntrinsicTried => {
                if hit {
                    (stage, CallAction::Finish)
                } else {
                    (stage, CallAction::Fail { error: LowerError::MissingFunction { name: String::from_str(name) } })
                }
            },
            CallStage::ExternalIntrinsicTried => {
                if hit {
                    return (stage, CallAction::Finish);
                }
                let mut reason = String::from_str("external function call `");
                reason.append(name);
                reason.append("` cannot be inlined");
                (stage, CallAction::Fail { error: unsupported_at(reason, span) })
            },
            CallStage::ProjectedScalarTried => {
                if hit {
                    (stage, CallAction::Finish)
                } else {
                    (stage, CallAction::Inline)
                }
            },
        }
    }
}

} // verus!
