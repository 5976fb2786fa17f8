use vstd::prelude::*;

use crate::builder::{
    flattened_input_has_prefix, input_has_flattened_prefix, name_position, spec_input_source,
    spec_name_position, FunctionParamSignature, InputBindRequest, InputSource, LowerBuilder,
};
use crate::error::{texts, LowerError};
use crate::ir::Expression;
use crate::paths::{str_eq, has_scope_dot, is_last_scope_dot, is_scope_dot, lemma_last_scope_dot_unique, scope_split};
use crate::span::Span;
use crate::var_refs::{is_flattened_record_field_actual, spec_is_flattened_record_field_actual};

verus! {

/// The actual of a record constructor call that a field is bound from.
#[derive(Clone, Copy, Debug, PartialEq, Eq, Structural)]
pub enum RecordActual {
    /// The named actual at this position of the named actuals.
    Named { index: usize },
    /// The positional actual at this position.
    Positional { index: usize },
}

/// One field of a record input bound from a constructor actual: the local
/// name `input.field` it is bound under, the actual, and the position of
/// the field in the constructor's registered field list when it is there.
#[derive(Debug)]
pub struct RecordFieldBinding {
    pub local_name: String,
    pub actual: RecordActual,
    pub field: Option<usize>,
}

pub open spec fn spec_binding_view(b: RecordFieldBinding) -> (Seq<char>, RecordActual, Option<usize>) {
    (b.local_name@, b.actual, b.field)
}

/// The texts of a registered field list, when there is one.
pub open spec fn spec_field_texts(fields: Option<&[String]>) -> Option<Seq<Seq<char>>> {
    match fields {
        Some(f) => Some(texts(f@)),
        None => None,
    }
}

/// The position of field `name` in the registered field list.
pub open spec fn spec_field_index(fields: Option<Seq<Seq<char>>>, name: Seq<char>) -> Option<usize> {
    match fields {
        Some(fs) => match spec_name_position(fs, name) {
            Some(i) => Some(i as usize),
            None => None,
        },
        None => None,
    }
}

/// The bindings of the first `k` named actuals: each that is not
/// non-numeric metadata binds the field it names.
pub open spec fn spec_named_field_bindings(
    input: Seq<char>,
    named: Seq<Seq<char>>,
    metadata: Seq<bool>,
    fields: Option<Seq<Seq<char>>>,
    k: nat,
) -> Seq<(Seq<char>, RecordActual, Option<usize>)>
    decreases k,
{
    if k == 0 {
        Seq::empty()
    } else {
        let prev = spec_named_field_bindings(input, named, metadata, fields, (k - 1) as nat);
        if metadata[k - 1] {
            prev
        } else {
            prev.push(
                (
                    input + "."@ + named[k - 1],
                    RecordActual::Named { index: (k - 1) as usize },
                    spec_field_index(fields, named[k - 1]),
                ),
            )
        }
    }
}

/// The bindings of the first `k` positional actuals, paired with the
/// registered fields in order: each that is not metadata binds its field.
pub open spec fn spec_positional_field_bindings(
    input: Seq<char>,
    fields: Seq<Seq<char>>,
    metadata: Seq<bool>,
    k: nat,
) -> Seq<(Seq<char>, RecordActual, Option<usize>)>
    decreases k,
{
    if k == 0 {
        Seq::empty()
    } else {
        let prev = spec_positional_field_bindings(input, fields, metadata, (k - 1) as nat);
        if metadata[k - 1] {
            prev
        } else {
            prev.push(
                (
                    input + "."@ + fields[k - 1],
                    RecordActual::Positional { index: (k - 1) as usize },
                    Some((k - 1) as usize),
                ),
            )
        }
    }
}

pub open spec fn min_len(a: nat, b: nat) -> nat {
    if a <= b {
        a
    } else {
        b
    }
}

pub open spec fn spec_no_field_list_reason() -> Seq<char> {
    "record constructor has no registered field list"@
}

pub open spec fn spec_positional_needs_fields_reason() -> Seq<char> {
    "positional record constructor requires a registered field list"@
}

/// `input.field`.
fn local_field_name(input: &str, field: &str) -> (s: String)
    ensures
        s@ == input@ + "."@ + field@,
{
    let mut s = String::from_str(input);
    s.append(".");
    s.append(field);
    s
}

/// The fields that binding a record constructor call `constructor(..)` to
/// the record input `input_name` binds, in order: first the named actuals,
/// then the positional actuals paired with the registered fields `fields`;
/// actuals that are non-numeric metadata (string literals) bind nothing.
/// Without a registered field list a call with no named actuals is
/// refused, and so is any positional actual.
pub fn record_constructor_field_bindings(
    input_name: &str,
    constructor: &str,
    named_fields: &[String],
    named_metadata: &[bool],
    positional_metadata: &[bool],
    fields: Option<&[String]>,
) -> (r: Result<Vec<RecordFieldBinding>, LowerError>)
    requires
        named_fields@.len() == named_metadata@.len(),
    ensures
        match fields {
            None => if named_fields@.len() == 0 {
                r matches Err(e) && e is InvalidFunction && e->InvalidFunction_name@ == constructor@
                    && e->InvalidFunction_reason@ == spec_no_field_list_reason()
            } else if positional_metadata@.len() > 0 {
                r matches Err(e) && e is InvalidFunction && e->InvalidFunction_name@ == constructor@
                    && e->InvalidFunction_reason@ == spec_positional_needs_fields_reason()
            } else {
                r matches Ok(bs) && bs@.map_values(|b: RecordFieldBinding| spec_binding_view(b))
                    == spec_named_field_bindings(
                    input_name@,
                    texts(named_fields@),
                    named_metadata@,
                    None,
                    named_fields@.len(),
                )
            },
            Some(fs) => r matches Ok(bs) && bs@.map_values(|b: RecordFieldBinding| spec_binding_view(b))
                == spec_named_field_bindings(
                input_name@,
                texts(named_fields@),
                named_metadata@,
                Some(texts(fs@)),
                named_fields@.len(),
            ) + spec_positional_field_bindings(
                input_name@,
                texts(fs@),
                positional_metadata@,
                min_len(fs@.len(), positional_metadata@.len()),
            ),
        },
{
    if fields.is_none() && named_fields.len() == 0 {
        return Err(
            LowerError::InvalidFunction {
                name: String::from_str(constructor),
                reason: String::from_str("record constructor has no registered field list"),
            },
        );
    }
    let ghost ft = spec_field_texts(fields);
    let ghost nt = texts(named_fields@);
    let mut out: Vec<RecordFieldBinding> = Vec::new();
    let mut i: usize = 0;
    while i < named_fields.len()
        invariant
            i <= named_fields@.len(),
            named_fields@.len() == named_metadata@.len(),
            nt == texts(named_fields@),
            ft == spec_field_texts(fields),
            out@.map_values(|b: RecordFieldBinding| spec_binding_view(b)) == spec_named_field_bindings(
                input_name@,
                nt,
                named_metadata@,
                ft,
                i as nat,
            ),
        decreases named_fields@.len() - i,
    {
        if !named_metadata[i] {
            let field = match fields {
                Some(fs) => name_position(fs, named_fields[i].as_str()),
                None => None,
            };
            let local_name = local_field_name(input_name, named_fields[i].as_str());
            let ghost before = out@;
            out.push(RecordFieldBinding { local_name, actual: RecordActual::Named { index: i }, field });
            proof {
                assert(nt[i as int] == named_fields@[i as int]@);
                assert(out@.map_values(|b: RecordFieldBinding| spec_binding_view(b)) =~= before.map_values(
                    |b: RecordFieldBinding| spec_binding_view(b),
                ).push(spec_binding_view(out@[before.len() as int])));
            }
        }
        i = i + 1;
    }
    if positional_metadata.len() == 0 {
        return Ok(out);
    }
    let fs = match fields {
        Some(fs) => fs,
        None => {
            return Err(
                LowerError::InvalidFunction {
                    name: String::from_str(constructor),
                    reason: String::from_str(
                        "positional record constructor requires a registered field list",
                    ),
                },
            );
        },
    };
    let ghost head = out@.map_values(|b: RecordFieldBinding| spec_binding_view(b));
    let ghost fst = texts(fs@);
    let count = if fs.len() <= positional_metadata.len() {
        fs.len()
    } else {
        positional_metadata.len()
    };
    let mut j: usize = 0;
    while j < count
        invariant
            j <= count,
            count == min_len(fs@.len(), positional_metadata@.len()),
            fst == texts(fs@),
            out@.map_values(|b: RecordFieldBinding| spec_binding_view(b)) == head
                + spec_positional_field_bindings(input_name@, fst, positional_metadata@, j as nat),
        decreases count - j,
    {
        if !positional_metadata[j] {
            let local_name = local_field_name(input_name, fs[j].as_str());
            let ghost before = out@;
            out.push(RecordFieldBinding { local_name, actual: RecordActual::Positional { index: j }, field: Some(j) });
            proof {
                assert(fst[j as int] == fs@[j as int]@);
                assert(out@.map_values(|b: RecordFieldBinding| spec_binding_view(b)) =~= before.map_values(
                    |b: RecordFieldBinding| spec_binding_view(b),
                ).push(spec_binding_view(out@[before.len() as int])));
            }
        }
        j = j + 1;
    }
    Ok(out)
}

/// What the binding of one function input learns from the
/// register-emitting binder: whether the input was bound as a field of
/// the record actual at the positional cursor, whether its declared type
/// is a record constructor with fields and those fields were bound from
/// positional actuals (and the cursor either attempt left), how many size
/// actuals follow an array actual, and whether a field access can be
/// synthesized for it.
pub struct InputRecordFacts {
    pub flattened_positional_bound: bool,
    pub has_record_fields: bool,
    pub flattened_fields_bound: bool,
    pub cursor_after_record: usize,
    pub size_actual_run: usize,
    pub can_synthesize_field: bool,
}

/// The request for binding one input, from its facts and the call.
pub open spec fn spec_request(facts: InputRecordFacts, has_named_arg: bool, input_count: nat, positional_count: nat) -> InputBindRequest {
    InputBindRequest {
        has_named_arg,
        flattened_positional_bound: facts.flattened_positional_bound,
        has_record_fields: facts.has_record_fields,
        flattened_fields_bound: facts.flattened_fields_bound,
        cursor_after_record: facts.cursor_after_record,
        input_count: input_count as usize,
        positional_count: positional_count as usize,
        size_actual_run: facts.size_actual_run,
        can_synthesize_field: facts.can_synthesize_field,
    }
}

/// A flattened record input name split at its last scope dot into the
/// record's name and the field.
pub open spec fn spec_split(name: Seq<char>) -> Option<(Seq<char>, Seq<char>)> {
    if has_scope_dot(name) {
        let k = choose|k: int| is_last_scope_dot(name, k);
        Some((name.take(k), name.skip(k + 1)))
    } else {
        None
    }
}

/// Some input from position `from` on belongs to the flattened record
/// group `prefix` and is used.
pub open spec fn spec_used_in_group(
    inputs: Seq<FunctionParamSignature>,
    used: Seq<Seq<char>>,
    prefix: Seq<char>,
    from: int,
) -> bool {
    exists|k: int|
        from <= k < inputs.len() && flattened_input_has_prefix(#[trigger] inputs[k].name@, prefix)
            && used.contains(inputs[k].name@)
}

/// Input `i` is left unbound: it is unused, belongs to a flattened record
/// group of which some input is used, and is not passed by name.
pub open spec fn spec_skips(
    inputs: Seq<FunctionParamSignature>,
    i: int,
    named: Seq<Seq<char>>,
    used: Option<Seq<Seq<char>>>,
) -> bool {
    match used {
        Some(u) => !u.contains(inputs[i].name@) && match spec_split(inputs[i].name@) {
            Some((prefix, _)) => spec_used_in_group(inputs, u, prefix, 0) && !named.contains(
                inputs[i].name@,
            ),
            None => false,
        },
        None => false,
    }
}

/// The cursor after skipping input `i`: one positional actual is passed
/// over when no later input of the group is used, or when the actual at
/// the cursor passes the skipped field.
pub open spec fn spec_skip_cursor(
    inputs: Seq<FunctionParamSignature>,
    i: int,
    positional: Seq<Expression>,
    used: Seq<Seq<char>>,
    cur: int,
) -> int {
    let (prefix, field) = spec_split(inputs[i].name@).unwrap();
    if (!spec_used_in_group(inputs, used, prefix, i + 1) || (0 <= cur < positional.len()
        && spec_is_flattened_record_field_actual(positional[cur], field))) && 0 <= cur
        < positional.len() {
        cur + 1
    } else {
        cur
    }
}

/// The sources of the first `k` inputs and the positional cursor after
/// them, or `None` when one of them has no source.
pub open spec fn spec_input_plan(
    inputs: Seq<FunctionParamSignature>,
    named: Seq<Seq<char>>,
    positional: Seq<Expression>,
    used: Option<Seq<Seq<char>>>,
    facts: Seq<InputRecordFacts>,
    k: nat,
) -> Option<(Seq<(usize, InputSource)>, int)>
    decreases k,
{
    if k == 0 {
        Some((Seq::empty(), 0))
    } else {
        match spec_input_plan(inputs, named, positional, used, facts, (k - 1) as nat) {
            None => None,
            Some((plan, cur)) => {
                let i = k - 1;
                if spec_skips(inputs, i, named, used) {
                    Some((plan, spec_skip_cursor(inputs, i, positional, used.unwrap(), cur)))
                } else {
                    let (src, next) = spec_input_source(
                        inputs[i],
                        spec_request(
                            facts[i],
                            named.contains(inputs[i].name@),
                            inputs.len(),
                            positional.len(),
                        ),
                        cur,
                    );
                    match src {
                        Some(source) => Some((plan.push((i as usize, source)), next)),
                        None => None,
                    }
                }
            },
        }
    }
}

/// Once an input has no source, the plan of every longer prefix fails.
proof fn lemma_plan_none_extends(
    inputs: Seq<FunctionParamSignature>,
    named: Seq<Seq<char>>,
    positional: Seq<Expression>,
    used: Option<Seq<Seq<char>>>,
    facts: Seq<InputRecordFacts>,
    k: nat,
    m: nat,
)
    requires
        k <= m,
        spec_input_plan(inputs, named, positional, used, facts, k) is None,
    ensures
        spec_input_plan(inputs, named, positional, used, facts, m) is None,
    decreases m - k,
{
    if k < m {
        lemma_plan_none_extends(inputs, named, positional, used, facts, k, (m - 1) as nat);
    }
}

/// Whether a name is among `names`.
fn contains_name(names: &[String], name: &str) -> (b: bool)
    ensures
        b == texts(names@).contains(name@),
{
    let ghost t = texts(names@);
    let mut i: usize = 0;
    while i < names.len()
        invariant
            i <= names@.len(),
            t == texts(names@),
            forall|j: int| 0 <= j < i ==> t[j] != name@,
        decreases names@.len() - i,
    {
        if str_eq(names[i].as_str(), name) {
            proof {
                assert(t[i as int] == name@);
            }
            return true;
        }
        i = i + 1;
    }
    false
}

/// Whether some input from `from` on belongs to group `prefix` and is used.
fn used_in_group(inputs: &[FunctionParamSignature], used: &[String], prefix: &str, from: usize) -> (b: bool)
    ensures
        b == spec_used_in_group(inputs@, texts(used@), prefix@, from as int),
{
    let mut k: usize = from;
    while k < inputs.len()
        invariant
            from <= k <= inputs@.len() || (k == from && from >= inputs@.len()),
            forall|j: int|
                from <= j < k && j < inputs@.len() ==> !(flattened_input_has_prefix(
                    #[trigger] inputs@[j].name@,
                    prefix@,
                ) && texts(used@).contains(inputs@[j].name@)),
        decreases inputs@.len() - k,
    {
        if input_has_flattened_prefix(inputs[k].name.as_str(), prefix) && contains_name(
            used,
            inputs[k].name.as_str(),
        ) {
            return true;
        }
        k = k + 1;
    }
    false
}

/// A flattened record input name split at its last scope dot.
fn split_input_name(name: &str) -> (r: Option<(&str, &str)>)
    ensures
        match r {
            Some((p, f)) => spec_split(name@) == Some((p@, f@)),
            None => spec_split(name@) is None,
        },
{
    let r = scope_split(name);
    proof {
        match r {
            Some((p, f)) => {
                let k = choose|k: int|
                    is_last_scope_dot(name@, k) && p@ == name@.take(k) && f@ == name@.skip(k + 1);
                assert(is_scope_dot(name@, k));
                assert(has_scope_dot(name@));
                let k2 = choose|k2: int| is_last_scope_dot(name@, k2);
                lemma_last_scope_dot_unique(name@, k, k2);
            },
            None => {},
        }
    }
    r
}

/// The names of the used inputs, when they are known.
pub open spec fn spec_used_texts(used: Option<&[String]>) -> Option<Seq<Seq<char>>> {
    match used {
        Some(u) => Some(texts(u@)),
        None => None,
    }
}

/// The error of an input that has neither an actual nor a default.
pub open spec fn spec_missing_input_error(e: LowerError, function_name: Seq<char>, input: Seq<char>, span: Span) -> bool {
    &&& e is MissingActualArgument
    &&& e->MissingActualArgument_function@ == function_name
    &&& e->MissingActualArgument_what@ == "required input"@
    &&& e->MissingActualArgument_input@ == input
    &&& e->MissingActualArgument_span == span
}

impl LowerBuilder {
    /// The source that binds each input of a call to `function_name`, in
    /// input order, and the failure when an input has none. Inputs that
    /// the function body does not use (`used`) and that belong to a
    /// flattened record group of which another input is used are left
    /// unbound, passing over a positional actual where the group's
    /// actuals are laid out; every other input is bound by name, by a
    /// record attempt, positionally, by default or by a synthesized field,
    /// in that order (see `try_bind_function_input`). `span` locates the
    /// missing-input error.
    pub fn function_input_binding_plan(
        &self,
        function_name: &str,
        inputs: &[FunctionParamSignature],
        named: &[String],
        positional: &[Expression],
        used: Option<&[String]>,
        facts: &[InputRecordFacts],
        span: Span,
    ) -> (r: Result<Vec<(usize, InputSource)>, LowerError>)
        requires
            facts@.len() == inputs@.len(),
        ensures
            match spec_input_plan(
                inputs@,
                texts(named@),
                positional@,
                spec_used_texts(used),
                facts@,
                inputs@.len(),
            ) {
                Some((plan, _)) => r matches Ok(p) && p@ == plan,
                None => r matches Err(e) && exists|k: int|
                    0 <= k < inputs@.len() && (#[trigger] spec_input_plan(
                        inputs@,
                        texts(named@),
                        positional@,
                        spec_used_texts(used),
                        facts@,
                        k as nat,
                    )) is Some && spec_input_plan(
                        inputs@,
                        texts(named@),
                        positional@,
                        spec_used_texts(used),
                        facts@,
                        (k + 1) as nat,
                    ) is None && spec_missing_input_error(e, function_name@, inputs@[k].name@, span),
            },
    {
        let ghost nt = texts(named@);
        let ghost ut: Option<Seq<Seq<char>>> = spec_used_texts(used);
        let mut plan: Vec<(usize, InputSource)> = Vec::new();
        let mut cursor: usize = 0;
        let mut i: usize = 0;
        while i < inputs.len()
            invariant
                i <= inputs@.len(),
                facts@.len() == inputs@.len(),
                nt == texts(named@),
                ut == spec_used_texts(used),
                spec_input_plan(inputs@, nt, positional@, ut, facts@, i as nat) == Some(
                    (plan@, cursor as int),
                ),
            decreases inputs@.len() - i,
        {
            let input = &inputs[i];
            let name = input.name.as_str();
            let by_name = contains_name(named, name);
            let mut skip_cursor: Option<usize> = None;
            if let Some(u) = used {
                if !contains_name(u, name) {
                    if let Some((prefix, field)) = split_input_name(name) {
                        if !by_name && used_in_group(inputs, u, prefix, 0) {
                            let later = used_in_group(inputs, u, prefix, i + 1);
                            let passes = cursor < positional.len() && is_flattened_record_field_actual(
                                &positional[cursor],
                                field,
                            );
                            if (!later || passes) && cursor < positional.len() {
                                skip_cursor = Some(cursor + 1);
                            } else {
                                skip_cursor = Some(cursor);
                            }
                        }
                    }
                }
            }
            proof {
                assert(spec_skips(inputs@, i as int, nt, ut) == (skip_cursor is Some));
            }
            match skip_cursor {
                Some(next) => {
                    cursor = next;
                },
                None => {
                    let f = &facts[i];
                    let request = InputBindRequest {
                        has_named_arg: by_name,
                        flattened_positional_bound: f.flattened_positional_bound,
                        has_record_fields: f.has_record_fields,
                        flattened_fields_bound: f.flattened_fields_bound,
                        cursor_after_record: f.cursor_after_record,
                        input_count: inputs.len(),
                        positional_count: positional.len(),
                        size_actual_run: f.size_actual_run,
                        can_synthesize_field: f.can_synthesize_field,
                    };
                    proof {
                        assert(request == spec_request(facts@[i as int], by_name, inputs@.len(), positional@.len()));
                    }
                    match self.try_bind_function_input(input, &request, &mut cursor) {
                        Some(source) => {
                            plan.push((i, source));
                        },
                        None => {
                            proof {
                                assert(spec_input_plan(inputs@, nt, positional@, ut, facts@, (i + 1) as nat) is None);
                                lemma_plan_none_extends(
                                    inputs@,
                                    nt,
                                    positional@,
                                    ut,
                                    facts@,
                                    (i + 1) as nat,
                                    inputs@.len(),
                                );
                                assert(spec_input_plan(inputs@, nt, positional@, ut, facts@, i as nat) is Some);
                            }
                            return Err(
                                LowerError::MissingActualArgument {
                                    function: String::from_str(function_name),
                                    what: "required input",
                                    input: input.name.clone(),
                                    span,
                                },
                            );
                        },
                    }
                },
            }
            i = i + 1;
        }
        Ok(plan)
    }
}

} // verus!
