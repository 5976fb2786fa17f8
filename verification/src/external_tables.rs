use vstd::prelude::*;

use crate::intrinsics::ExternalTableRecordKind;
use crate::ir::{BuiltinFunction, ExprSubscript, Expression};
use crate::paths::{ends_with, leaf_segment, spec_ends_with, spec_leaf_segment, str_eq};
use crate::text::chars_of;

verus! {

/// The texts of a list of field names.
pub open spec fn field_texts(fields: Seq<&str>) -> Seq<Seq<char>> {
    fields.map_values(|f: &str| f@)
}

/// A call of the external table object constructor of either table kind.
pub open spec fn spec_is_table_constructor_call(e: Expression) -> bool {
    match e {
        Expression::FunctionCall { name, .. } => spec_leaf_segment(name@)
            == "ExternalCombiTimeTable"@ || spec_leaf_segment(name@) == "ExternalCombiTable1D"@,
        _ => false,
    }
}

/// Whether `expr` calls an external table object constructor.
pub fn external_table_constructor_call(expr: &Expression) -> (r: bool)
    ensures
        r == spec_is_table_constructor_call(*expr),
{
    match expr {
        Expression::FunctionCall { name, .. } => {
            let leaf = leaf_segment(name.as_str());
            str_eq(leaf, "ExternalCombiTimeTable") || str_eq(leaf, "ExternalCombiTable1D")
        },
        _ => false,
    }
}

/// Whether the leading arguments of a table call are one constructed table
/// object per record field, with more arguments following.
pub fn repeated_external_table_constructor_record_args(
    table: ExternalTableRecordKind,
    args: &[Expression],
) -> (r: bool)
    ensures
        r == (args@.len() > table.spec_field_names().len() && forall|i: int|
            0 <= i < table.spec_field_names().len() ==> spec_is_table_constructor_call(
                #[trigger] args@[i],
            )),
{
    let field_count = table.flattened_field_count();
    if args.len() <= field_count {
        return false;
    }
    let mut i: usize = 0;
    while i < field_count
        invariant
            i <= field_count,
            field_count == table.spec_field_names().len(),
            field_count < args@.len(),
            forall|j: int| 0 <= j < i ==> spec_is_table_constructor_call(#[trigger] args@[j]),
        decreases field_count - i,
    {
        if !external_table_constructor_call(&args[i]) {
            return false;
        }
        i = i + 1;
    }
    true
}

/// The record a plain variable reference `record.field` belongs to.
pub open spec fn spec_field_prefix(e: Expression, field: Seq<char>) -> Option<Seq<char>> {
    match e {
        Expression::VarRef { name, subscripts } => if subscripts@.len() == 0 && spec_ends_with(
            name@,
            "."@ + field,
        ) {
            Some(name@.take(name@.len() - field.len() - 1))
        } else {
            None
        },
        _ => None,
    }
}

/// The record `r` of an unsubscripted reference `r.field`.
pub fn external_table_field_prefix(expr: &Expression, field: &str) -> (r: Option<String>)
    ensures
        match r {
            Some(p) => spec_field_prefix(*expr, field@) == Some(p@),
            None => spec_field_prefix(*expr, field@) is None,
        },
{
    match expr {
        Expression::VarRef { name, subscripts } => {
            if subscripts.len() != 0 {
                return None;
            }
            let mut suffix = String::from_str(".");
            suffix.append(field);
            if !ends_with(name.as_str(), suffix.as_str()) {
                return None;
            }
            let chars = chars_of(name.as_str());
            let field_chars = chars_of(field);
            proof {
                reveal_strlit(".");
            }
            let prefix = name.as_str().substring_char(0, chars.len() - field_chars.len() - 1);
            proof {
                assert(prefix@ =~= name@.take(name@.len() - field@.len() - 1));
            }
            Some(String::from_str(prefix))
        },
        _ => None,
    }
}

/// The record prefix named by the first of `fields[..n]` that `e` refers
/// to directly.
pub open spec fn spec_first_field_prefix(e: Expression, fields: Seq<Seq<char>>, n: nat) -> Option<
    Seq<char>,
>
    decreases n,
{
    if n == 0 || n > fields.len() {
        None
    } else {
        match spec_first_field_prefix(e, fields, (n - 1) as nat) {
            Some(p) => Some(p),
            None => spec_field_prefix(e, fields[n - 1]),
        }
    }
}

/// The first of two optional answers.
pub open spec fn first_some(a: Option<Seq<char>>, b: Option<Seq<char>>) -> Option<Seq<char>> {
    match a {
        Some(p) => Some(p),
        None => b,
    }
}

/// The table record that `e` or, in a left-to-right walk, one of its
/// subexpressions refers to through one of `fields` (ranges and filters of
/// comprehensions, not their index ranges).
pub open spec fn spec_prefix_anywhere(e: Expression, fields: Seq<Seq<char>>) -> Option<Seq<char>>
    decreases e, 0nat,
{
    match spec_first_field_prefix(e, fields, fields.len()) {
        Some(p) => Some(p),
        None => match e {
            Expression::Binary { lhs, rhs } => first_some(
                spec_prefix_anywhere(*lhs, fields),
                spec_prefix_anywhere(*rhs, fields),
            ),
            Expression::Unary { rhs } => spec_prefix_anywhere(*rhs, fields),
            Expression::BuiltinCall { args, .. } => spec_exprs_prefix(args, args@.len(), fields),
            Expression::FunctionCall { args, .. } => spec_exprs_prefix(args, args@.len(), fields),
            Expression::Array { elements, .. } => spec_exprs_prefix(elements, elements@.len(), fields),
            Expression::Tuple { elements } => spec_exprs_prefix(elements, elements@.len(), fields),
            Expression::If { branches, else_branch } => first_some(
                spec_branches_prefix(branches, branches@.len(), fields),
                spec_prefix_anywhere(*else_branch, fields),
            ),
            Expression::Range { start, step, end } => first_some(
                spec_prefix_anywhere(*start, fields),
                first_some(
                    match step {
                        Some(s) => spec_prefix_anywhere(*s, fields),
                        None => None,
                    },
                    spec_prefix_anywhere(*end, fields),
                ),
            ),
            Expression::ArrayComprehension { expr, filter, .. } => first_some(
                spec_prefix_anywhere(*expr, fields),
                match filter {
                    Some(f) => spec_prefix_anywhere(*f, fields),
                    None => None,
                },
            ),
            Expression::Index { base, .. } => spec_prefix_anywhere(*base, fields),
            Expression::FieldAccess { base, .. } => spec_prefix_anywhere(*base, fields),
            _ => None,
        },
    }
}

/// The first answer among the first `n` expressions.
pub open spec fn spec_exprs_prefix(es: Vec<Expression>, n: nat, fields: Seq<Seq<char>>) -> Option<
    Seq<char>,
>
    decreases es, n,
{
    if n == 0 || n > es@.len() {
        None
    } else {
        first_some(spec_exprs_prefix(es, (n - 1) as nat, fields), spec_prefix_anywhere(es[n - 1], fields))
    }
}

/// The first answer among the first `n` branches, each condition before
/// its value.
pub open spec fn spec_branches_prefix(
    bs: Vec<(Expression, Expression)>,
    n: nat,
    fields: Seq<Seq<char>>,
) -> Option<Seq<char>>
    decreases bs, n,
{
    if n == 0 || n > bs@.len() {
        None
    } else {
        first_some(
            spec_branches_prefix(bs, (n - 1) as nat, fields),
            first_some(
                spec_prefix_anywhere(bs[n - 1].0, fields),
                spec_prefix_anywhere(bs[n - 1].1, fields),
            ),
        )
    }
}

/// Only a variable reference refers to a record field directly.
proof fn lemma_no_direct_prefix(e: Expression, fields: Seq<Seq<char>>, n: nat)
    requires
        !(e is VarRef),
    ensures
        spec_first_field_prefix(e, fields, n) is None,
    decreases n,
{
    if n > 0 {
        lemma_no_direct_prefix(e, fields, (n - 1) as nat);
    }
}

/// Once one of the first `m` expressions has an answer, so do the first
/// `n >= m`.
proof fn lemma_exprs_prefix_grows(es: Vec<Expression>, m: nat, n: nat, fields: Seq<Seq<char>>)
    requires
        m <= n <= es@.len(),
        spec_exprs_prefix(es, m, fields) is Some,
    ensures
        spec_exprs_prefix(es, n, fields) is Some,
    decreases n - m,
{
    if m < n {
        lemma_exprs_prefix_grows(es, m, (n - 1) as nat, fields);
    }
}

/// Table records are found in a left-to-right walk: a binary expression
/// gives its left operand's record, else its right operand's; a unary
/// expression, a field access and an indexed expression give their
/// operand's or base's; a literal gives none.
pub proof fn law_table_prefix_operands(
    l: Expression,
    r: Expression,
    field: String,
    subscripts: Vec<ExprSubscript>,
    fields: Seq<Seq<char>>,
)
    ensures
        spec_prefix_anywhere(Expression::Binary { lhs: Box::new(l), rhs: Box::new(r) }, fields) == first_some(
            spec_prefix_anywhere(l, fields),
            spec_prefix_anywhere(r, fields),
        ),
        spec_prefix_anywhere(Expression::Unary { rhs: Box::new(l) }, fields) == spec_prefix_anywhere(l, fields),
        spec_prefix_anywhere(Expression::FieldAccess { base: Box::new(l), field }, fields) == spec_prefix_anywhere(
            l,
            fields,
        ),
        spec_prefix_anywhere(Expression::Index { base: Box::new(l), subscripts }, fields) == spec_prefix_anywhere(
            l,
            fields,
        ),
        spec_prefix_anywhere(Expression::Literal, fields) is None,
{
    lemma_no_direct_prefix(Expression::Binary { lhs: Box::new(l), rhs: Box::new(r) }, fields, fields.len());
    lemma_no_direct_prefix(Expression::Unary { rhs: Box::new(l) }, fields, fields.len());
    lemma_no_direct_prefix(Expression::FieldAccess { base: Box::new(l), field }, fields, fields.len());
    lemma_no_direct_prefix(Expression::Index { base: Box::new(l), subscripts }, fields, fields.len());
    lemma_no_direct_prefix(Expression::Literal, fields, fields.len());
}

/// Table records are found in every argument: when an argument or an
/// element refers to a table record, so does the call, array or tuple.
pub proof fn law_table_prefix_lists(
    args: Vec<Expression>,
    k: int,
    function: BuiltinFunction,
    name: String,
    is_matrix: bool,
    fields: Seq<Seq<char>>,
)
    requires
        0 <= k < args@.len(),
        spec_prefix_anywhere(args[k], fields) is Some,
    ensures
        spec_prefix_anywhere(Expression::BuiltinCall { function, args }, fields) is Some,
        spec_prefix_anywhere(Expression::FunctionCall { name, args }, fields) is Some,
        spec_prefix_anywhere(Expression::Array { elements: args, is_matrix }, fields) is Some,
        spec_prefix_anywhere(Expression::Tuple { elements: args }, fields) is Some,
{
    assert(spec_exprs_prefix(args, (k + 1) as nat, fields) is Some);
    lemma_exprs_prefix_grows(args, (k + 1) as nat, args@.len(), fields);
    lemma_no_direct_prefix(Expression::BuiltinCall { function, args }, fields, fields.len());
    lemma_no_direct_prefix(Expression::FunctionCall { name, args }, fields, fields.len());
    lemma_no_direct_prefix(Expression::Array { elements: args, is_matrix }, fields, fields.len());
    lemma_no_direct_prefix(Expression::Tuple { elements: args }, fields, fields.len());
}

/// The record prefix named by the first field of `fields` that `expr`
/// refers to directly.
fn first_direct_field_prefix(expr: &Expression, fields: &[&str]) -> (r: Option<String>)
    ensures
        match r {
            Some(p) => spec_first_field_prefix(*expr, field_texts(fields@), fields@.len())
                == Some(p@),
            None => spec_first_field_prefix(*expr, field_texts(fields@), fields@.len()) is None,
        },
{
    let ghost fs = field_texts(fields@);
    let mut i: usize = 0;
    while i < fields.len()
        invariant
            i <= fields@.len(),
            fs == field_texts(fields@),
            spec_first_field_prefix(*expr, fs, i as nat) is None,
        decreases fields@.len() - i,
    {
        match external_table_field_prefix(expr, fields[i]) {
            Some(p) => {
                proof {
                    lemma_first_field_prefix_found(*expr, fs, (i + 1) as nat, p@);
                }
                return Some(p);
            },
            None => {},
        }
        i = i + 1;
    }
    None
}

/// Once a prefix is found among the first `n` fields, it stays the answer
/// for every longer list.
proof fn lemma_first_field_prefix_found(e: Expression, fields: Seq<Seq<char>>, n: nat, p: Seq<char>)
    requires
        n <= fields.len(),
        spec_first_field_prefix(e, fields, n) == Some(p),
    ensures
        spec_first_field_prefix(e, fields, fields.len()) == Some(p),
    decreases fields.len() - n,
{
    if n < fields.len() {
        lemma_first_field_prefix_found(e, fields, n + 1, p);
    }
}

/// Once an answer is found among the first `n` expressions, it stays the
/// answer for all of them.
proof fn lemma_exprs_prefix_found(es: Vec<Expression>, n: nat, fields: Seq<Seq<char>>, p: Seq<char>)
    requires
        n <= es@.len(),
        spec_exprs_prefix(es, n, fields) == Some(p),
    ensures
        spec_exprs_prefix(es, es@.len(), fields) == Some(p),
    decreases es@.len() - n,
{
    if n < es@.len() {
        lemma_exprs_prefix_found(es, n + 1, fields, p);
    }
}

proof fn lemma_branches_prefix_found(
    bs: Vec<(Expression, Expression)>,
    n: nat,
    fields: Seq<Seq<char>>,
    p: Seq<char>,
)
    requires
        n <= bs@.len(),
        spec_branches_prefix(bs, n, fields) == Some(p),
    ensures
        spec_branches_prefix(bs, bs@.len(), fields) == Some(p),
    decreases bs@.len() - n,
{
    if n < bs@.len() {
        lemma_branches_prefix_found(bs, n + 1, fields, p);
    }
}

/// The first table record that one of the expressions `exprs` refers to
/// through one of `fields`.
pub fn first_matching_external_table_field_prefix(exprs: &Vec<Expression>, fields: &[&str]) -> (r:
    Option<String>)
    ensures
        match r {
            Some(p) => spec_exprs_prefix(*exprs, exprs@.len(), field_texts(fields@)) == Some(p@),
            None => spec_exprs_prefix(*exprs, exprs@.len(), field_texts(fields@)) is None,
        },
    decreases exprs, 1nat,
{
    let ghost fs = field_texts(fields@);
    let mut i: usize = 0;
    while i < exprs.len()
        invariant
            i <= exprs@.len(),
            fs == field_texts(fields@),
            spec_exprs_prefix(*exprs, i as nat, fs) is None,
        decreases exprs@.len() - i,
    {
        match external_table_field_prefix_anywhere(&exprs[i], fields) {
            Some(p) => {
                proof {
                    lemma_exprs_prefix_found(*exprs, (i + 1) as nat, fs, p@);
                }
                return Some(p);
            },
            None => {},
        }
        i = i + 1;
    }
    None
}

/// The table record that `expr`, or the first of its subexpressions in a
/// left-to-right walk, refers to through one of `fields` (see
/// `spec_prefix_anywhere`).
#[verifier::loop_isolation(false)]
pub fn external_table_field_prefix_anywhere(expr: &Expression, fields: &[&str]) -> (r: Option<
    String,
>)
    ensures
        match r {
            Some(p) => spec_prefix_anywhere(*expr, field_texts(fields@)) == Some(p@),
            None => spec_prefix_anywhere(*expr, field_texts(fields@)) is None,
        },
    decreases expr, 0nat,
{
    let ghost fs = field_texts(fields@);
    match first_direct_field_prefix(expr, fields) {
        Some(p) => {
            return Some(p);
        },
        None => {},
    }
    match expr {
        Expression::Binary { lhs, rhs } => {
            match external_table_field_prefix_anywhere(lhs, fields) {
                Some(p) => Some(p),
                None => external_table_field_prefix_anywhere(rhs, fields),
            }
        },
        Expression::Unary { rhs } => external_table_field_prefix_anywhere(rhs, fields),
        Expression::BuiltinCall { args, .. } => first_matching_external_table_field_prefix(
            args,
            fields,
        ),
        Expression::FunctionCall { args, .. } => first_matching_external_table_field_prefix(
            args,
            fields,
        ),
        Expression::Array { elements, .. } => first_matching_external_table_field_prefix(
            elements,
            fields,
        ),
        Expression::Tuple { elements } => first_matching_external_table_field_prefix(
            elements,
            fields,
        ),
        Expression::If { branches, else_branch } => {
            let mut i: usize = 0;
            while i < branches.len()
                invariant
                    i <= branches@.len(),
                    fs == field_texts(fields@),
                    spec_branches_prefix(*branches, i as nat, fs) is None,
                decreases branches@.len() - i,
            {
                match external_table_field_prefix_anywhere(&branches[i].0, fields) {
                    Some(p) => {
                        proof {
                            lemma_branches_prefix_found(*branches, (i + 1) as nat, fs, p@);
                        }
                        return Some(p);
                    },
                    None => {},
                }
                match external_table_field_prefix_anywhere(&branches[i].1, fields) {
                    Some(p) => {
                        proof {
                            lemma_branches_prefix_found(*branches, (i + 1) as nat, fs, p@);
                        }
                        return Some(p);
                    },
                    None => {},
                }
                i = i + 1;
            }
            external_table_field_prefix_anywhere(else_branch, fields)
        },
        Expression::Range { start, step, end } => {
            match external_table_field_prefix_anywhere(start, fields) {
                Some(p) => {
                    return Some(p);
                },
                None => {},
            }
            match step {
                Some(s) => match external_table_field_prefix_anywhere(s, fields) {
                    Some(p) => {
                        return Some(p);
                    },
                    None => {},
                },
                None => {},
            }
            external_table_field_prefix_anywhere(end, fields)
        },
        Expression::ArrayComprehension { expr: body, filter, .. } => {
            match external_table_field_prefix_anywhere(body, fields) {
                Some(p) => {
                    return Some(p);
                },
                None => {},
            }
            match filter {
                Some(f) => external_table_field_prefix_anywhere(f, fields),
                None => None,
            }
        },
        Expression::Index { base, .. } => external_table_field_prefix_anywhere(base, fields),
        Expression::FieldAccess { base, .. } => external_table_field_prefix_anywhere(base, fields),
        _ => None,
    }
}

/// The structural binding that holds the table id of table record
/// `prefix`.
pub open spec fn spec_table_id_key(prefix: Seq<char>) -> Seq<char> {
    prefix + ".tableID"@
}

/// The table record whose fields a flattened table call passes: the
/// arguments must cover every field, must not start with a constructed
/// table object, and the first three must be `r.<field>` of one record
/// `r`, field by field.
pub open spec fn spec_flattened_args_table_prefix(
    table: ExternalTableRecordKind,
    args: Seq<Expression>,
) -> Option<Seq<char>> {
    let fields = table.spec_field_names();
    if args.len() < fields.len() || spec_is_table_constructor_call(args[0]) {
        None
    } else {
        match spec_field_prefix(args[0], fields[0]) {
            None => None,
            Some(p) => if forall|k: int| 0 <= k < 3 ==> #[trigger] spec_field_prefix(args[k], fields[k])
                == Some(p) {
                Some(p)
            } else {
                None
            },
        }
    }
}

/// The structural binding key of the table id of the record that a
/// flattened table call passes field by field (see
/// `spec_flattened_args_table_prefix`).
#[verifier::loop_isolation(false)]
pub fn structural_table_id_key_for_flattened_args(
    table: ExternalTableRecordKind,
    args: &[Expression],
) -> (r: Option<String>)
    ensures
        match r {
            Some(key) => exists|p: Seq<char>|
                spec_flattened_args_table_prefix(table, args@) == Some(p) && key@
                    == spec_table_id_key(p),
            None => spec_flattened_args_table_prefix(table, args@) is None,
        },
{
    let field_count = table.flattened_field_count();
    if args.len() < field_count || external_table_constructor_call(&args[0]) {
        return None;
    }
    let fields = table.flattened_field_names();
    let ghost fs = table.spec_field_names();
    proof {
        assert(fields@[0]@ == fs[0]);
    }
    let first = match external_table_field_prefix(&args[0], fields[0]) {
        Some(p) => p,
        None => {
            return None;
        },
    };
    let mut k: usize = 0;
    while k < 3
        invariant
            k <= 3,
            3 <= field_count <= args@.len(),
            field_count == fs.len(),
            fs == table.spec_field_names(),
            fields@.map_values(|n: &str| n@) == fs,
            forall|j: int| 0 <= j < k ==> #[trigger] spec_field_prefix(args@[j], fs[j]) == Some(
                first@,
            ),
        decreases 3 - k,
    {
        proof {
            assert(fields@[k as int]@ == fs[k as int]);
        }
        match external_table_field_prefix(&args[k], fields[k]) {
            Some(p) => {
                if !str_eq(p.as_str(), first.as_str()) {
                    proof {
                        assert(spec_field_prefix(args@[k as int], fs[k as int]) != Some(first@));
                    }
                    return None;
                }
            },
            None => {
                return None;
            },
        }
        k = k + 1;
    }
    let ghost prefix = first@;
    proof {
        assert(spec_flattened_args_table_prefix(table, args@) == Some(prefix));
    }
    let mut key = first;
    key.append(".tableID");
    proof {
        assert(key@ == spec_table_id_key(prefix));
    }
    Some(key)
}

/// The state of agreeing on one table record across the first `n`
/// arguments of a table constructor: `None` once two arguments name
/// different records, else the record named so far, if any.
pub open spec fn spec_common_prefix(
    args: Vec<Expression>,
    n: nat,
    fields: Seq<Seq<char>>,
) -> Option<Option<Seq<char>>>
    decreases n,
{
    if n == 0 || n > args@.len() {
        Some(None)
    } else {
        match spec_common_prefix(args, (n - 1) as nat, fields) {
            None => None,
            Some(current) => match spec_prefix_anywhere(args[n - 1], fields) {
                None => Some(current),
                Some(p) => match current {
                    Some(q) => if q == p {
                        Some(Some(p))
                    } else {
                        None
                    },
                    None => Some(Some(p)),
                },
            },
        }
    }
}

/// The table record that every argument of a table constructor call that
/// names one agrees on.
pub open spec fn spec_constructor_arg_table_prefix(
    table: ExternalTableRecordKind,
    expr: Expression,
) -> Option<Seq<char>> {
    if !spec_is_table_constructor_call(expr) {
        None
    } else {
        match expr {
            Expression::FunctionCall { args, .. } => match spec_common_prefix(
                args,
                args@.len(),
                table.spec_field_names(),
            ) {
                Some(Some(p)) => Some(p),
                _ => None,
            },
            _ => None,
        }
    }
}

/// The structural binding key of the table id of the record that the
/// arguments of a table constructor call refer to (see
/// `spec_constructor_arg_table_prefix`).
#[verifier::loop_isolation(false)]
pub fn structural_table_id_key_for_constructor_arg(
    table: ExternalTableRecordKind,
    expr: &Expression,
) -> (r: Option<String>)
    ensures
        match r {
            Some(key) => exists|p: Seq<char>|
                spec_constructor_arg_table_prefix(table, *expr) == Some(p) && key@
                    == spec_table_id_key(p),
            None => spec_constructor_arg_table_prefix(table, *expr) is None,
        },
{
    if !external_table_constructor_call(expr) {
        return None;
    }
    let args = match expr {
        Expression::FunctionCall { args, .. } => args,
        _ => {
            return None;
        },
    };
    let fields = table.flattened_field_names();
    let ghost fs = table.spec_field_names();
    proof {
        assert(field_texts(fields@) =~= fs);
    }
    let mut prefix: Option<String> = None;
    let mut i: usize = 0;
    while i < args.len()
        invariant
            i <= args@.len(),
            field_texts(fields@) == fs,
            spec_common_prefix(*args, i as nat, fs) == Some(
                match prefix {
                    Some(p) => Some(p@),
                    None => None::<Seq<char>>,
                },
            ),
        decreases args@.len() - i,
    {
        match external_table_field_prefix_anywhere(&args[i], fields.as_slice()) {
            Some(p) => {
                match &prefix {
                    Some(existing) => {
                        if !str_eq(existing.as_str(), p.as_str()) {
                            proof {
                                assert(spec_prefix_anywhere(args[i as int], fs) == Some(p@));
                                assert(spec_common_prefix(*args, i as nat, fs) == Some(
                                    Some(existing@),
                                ));
                                assert(spec_common_prefix(*args, (i + 1) as nat, fs) is None);
                                lemma_common_prefix_conflict(*args, (i + 1) as nat, fs);
                            }
                            return None;
                        }
                    },
                    None => {},
                }
                prefix = Some(p);
            },
            None => {},
        }
        i = i + 1;
    }
    match prefix {
        Some(p) => {
            let ghost found = p@;
            proof {
                assert(spec_constructor_arg_table_prefix(table, *expr) == Some(found));
            }
            let mut key = p;
            key.append(".tableID");
            proof {
                assert(key@ == spec_table_id_key(found));
            }
            Some(key)
        },
        None => None,
    }
}

/// Once two arguments disagree, no longer argument list agrees.
proof fn lemma_common_prefix_conflict(args: Vec<Expression>, n: nat, fields: Seq<Seq<char>>)
    requires
        n <= args@.len(),
        spec_common_prefix(args, n, fields) is None,
    ensures
        spec_common_prefix(args, args@.len(), fields) is None,
    decreases args@.len() - n,
{
    if n < args@.len() {
        lemma_common_prefix_conflict(args, n + 1, fields);
    }
}

} // verus!
