use vstd::prelude::*;

use crate::capacity::{spec_contract_error, string_try_reserve};
use crate::dims::usize_ints;
use crate::error::{contract_violation, LowerError};
use crate::intrinsics::constructor_positional_field_index;
use crate::keys::{format_subscript_binding_key, spec_subscript_key};
use crate::scope::{scoped_reg, Reg, Scope};
use crate::span::Span;

verus! {

/// A call-site projection of one output of a function: `f(x).y`,
/// `f(x)[2]` or `f(x).y[1,3]`.
pub struct FunctionOutputProjection {
    pub base_function_name: String,
    pub output_name: String,
    /// The record field selected from the output, if any.
    pub output_field: Option<String>,
    /// One-based indices that select the output element in the callee scope.
    pub scope_indices: Vec<usize>,
    /// One-based indices that the call site applies to the projected value.
    pub indices: Vec<usize>,
    pub span: Span,
}

/// The position among the `Complex` constructor arguments of the field that
/// an unindexed projection selects.
pub open spec fn spec_positional_field_index(projection: FunctionOutputProjection) -> Option<
    usize,
> {
    if projection.indices@.len() != 0 {
        None
    } else {
        match projection.output_field {
            Some(field) => if field@ == "re"@ {
                Some(0usize)
            } else if field@ == "im"@ {
                Some(1usize)
            } else {
                None
            },
            None => None,
        }
    }
}

/// The callee-scope name of the projected output: `output.field` or
/// `output`.
pub open spec fn spec_projection_base_key(projection: FunctionOutputProjection) -> Seq<char> {
    match projection.output_field {
        Some(field) => projection.output_name@ + "."@ + field@,
        None => projection.output_name@,
    }
}

/// The callee-scope key of the projected element: the base key followed by
/// the scope indices in brackets, when there are any.
pub open spec fn spec_projection_scope_key(projection: FunctionOutputProjection) -> Seq<char> {
    spec_subscript_key(spec_projection_base_key(projection), usize_ints(projection.scope_indices@))
}

/// The constructor position of the `Complex` field selected by an
/// unindexed projection.
pub fn positional_field_projection_index(projection: &FunctionOutputProjection) -> (r: Option<
    usize,
>)
    ensures
        r == spec_positional_field_index(*projection),
{
    if projection.indices.len() != 0 {
        return None;
    }
    match &projection.output_field {
        Some(field) => constructor_positional_field_index(field.as_str()),
        None => None,
    }
}

/// The callee-scope name of the projected output.
pub fn format_projection_base_scope_key(projection: &FunctionOutputProjection) -> (key: String)
    ensures
        key@ == spec_projection_base_key(*projection),
{
    match &projection.output_field {
        Some(field) => {
            let mut key = projection.output_name.clone();
            key.append(".");
            key.append(field.as_str());
            key
        },
        None => projection.output_name.clone(),
    }
}

/// The room a scope key reserves for its indices: each index in decimal
/// with a separator, and the two brackets.
pub open spec fn spec_scope_key_reserve(index_count: nat) -> int {
    index_count * (usize::BITS / 3 + 2) + 2
}

/// The callee-scope key of the projected element (see
/// `spec_projection_scope_key`).
pub fn format_projection_scope_key(projection: &FunctionOutputProjection, span: Span) -> (r: Result<
    String,
    LowerError,
>)
    ensures
        match r {
            Ok(key) => key@ == spec_projection_scope_key(*projection),
            Err(e) => projection.scope_indices@.len() > 0 && if spec_scope_key_reserve(
                projection.scope_indices@.len(),
            ) > usize::MAX {
                spec_contract_error(
                    e,
                    "function projection scope key capacity exceeds host limits"@,
                    span,
                )
            } else {
                spec_contract_error(
                    e,
                    "function projection scope key capacity exceeds host memory limits"@,
                    span,
                )
            },
        },
        projection.scope_indices@.len() == 0 ==> r is Ok,
{
    let mut key = format_projection_base_scope_key(projection);
    if projection.scope_indices.len() == 0 {
        return Ok(key);
    }
    let per_index: usize = usize::BITS as usize / 3 + 2;
    let reserve = match projection.scope_indices.len().checked_mul(per_index) {
        Some(extra) => extra.checked_add(2),
        None => None,
    };
    let reserve = match reserve {
        Some(n) => n,
        None => {
            return Err(
                contract_violation(
                    String::from_str("function projection scope key capacity exceeds host limits"),
                    span,
                ),
            );
        },
    };
    if !string_try_reserve(&mut key, reserve) {
        return Err(
            contract_violation(
                String::from_str(
                    "function projection scope key capacity exceeds host memory limits",
                ),
                span,
            ),
        );
    }
    Ok(format_subscript_binding_key(key.as_str(), projection.scope_indices.as_slice()))
}

/// The register of the `Complex` field an unindexed projection selects,
/// bound in the callee scope at the field's constructor position.
pub open spec fn spec_positional_field_reg(projection: FunctionOutputProjection, scope: Scope) -> Option<
    Reg,
> {
    match spec_positional_field_index(projection) {
        Some(index) => scope.spec_get(
            spec_subscript_key(projection.output_name@, seq![index + 1]),
        ),
        None => None,
    }
}

/// The register of the base output when the call site selects its first
/// and only element.
pub open spec fn spec_base_projection_reg(projection: FunctionOutputProjection, scope: Scope) -> Option<
    Reg,
> {
    if projection.indices@.len() == 1 && projection.indices@[0] == 1 {
        scope.spec_get(spec_projection_base_key(projection))
    } else {
        None
    }
}

/// The register of the `Complex` field an unindexed projection selects.
pub fn positional_field_projection_reg(projection: &FunctionOutputProjection, scope: &Scope) -> (r:
    Option<Reg>)
    ensures
        r == spec_positional_field_reg(*projection, *scope),
{
    let index = match positional_field_projection_index(projection) {
        Some(index) => index,
        None => {
            return None;
        },
    };
    let position = [index + 1];
    let indexed_key = format_subscript_binding_key(projection.output_name.as_str(), &position);
    proof {
        assert(usize_ints(position@) =~= seq![index + 1]);
    }
    scoped_reg(scope, indexed_key.as_str())
}

/// The register of the base output of a projection whose call site selects
/// element `1` of it.
pub fn base_projection_reg(projection: &FunctionOutputProjection, scope: &Scope) -> (r: Option<
    Reg,
>)
    ensures
        r == spec_base_projection_reg(*projection, *scope),
{
    if projection.indices.len() == 1 && projection.indices[0] == 1 {
        let base_key = format_projection_base_scope_key(projection);
        scoped_reg(scope, base_key.as_str())
    } else {
        None
    }
}

/// The register a projected function output resolves to in the callee
/// scope: the projection key itself, else the positional `Complex` field,
/// else the base output when element `1` is selected.
pub fn resolve_projected_function_reg(
    projection: &FunctionOutputProjection,
    scope: &Scope,
    projection_key: &str,
) -> (r: Option<Reg>)
    ensures
        r == (match scope.spec_get(projection_key@) {
            Some(reg) => Some(reg),
            None => match spec_positional_field_reg(*projection, *scope) {
                Some(reg) => Some(reg),
                None => spec_base_projection_reg(*projection, *scope),
            },
        }),
{
    match scoped_reg(scope, projection_key) {
        Some(reg) => Some(reg),
        None => match positional_field_projection_reg(projection, scope) {
            Some(reg) => Some(reg),
            None => base_projection_reg(projection, scope),
        },
    }
}

} // verus!
