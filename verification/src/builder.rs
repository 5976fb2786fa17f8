use vstd::prelude::*;

use indexmap::IndexMap;

use crate::collections::{
    entry_keys, function_table_entries, function_table_index_of, function_table_insert,
    function_table_new, function_table_value_at, name_set_index_of, name_set_insert, name_set_keys,
    name_set_new, name_set_shift_remove, number_map_entries, number_map_entry_at,
    number_map_index_of, number_map_insert, number_map_new, number_map_shift_remove,
};
use crate::capacity::{spec_capacity_error, spec_contract_error, vec_with_capacity};
use crate::error::{contract_violation, texts, LowerError};
use crate::ir::Statement;
use crate::paths::{leaf_segment, spec_leaf_segment, str_eq};
use crate::scope::{spec_bind, spec_lookup};
use crate::span::Span;
use crate::text::{chars_of, decimal, usize_to_decimal};

verus! {

/// A formal parameter of a function as lowering reads it: its name, the
/// name of its declared type, its array rank, and whether it declares a
/// default value.
pub struct FunctionParamSignature {
    pub name: String,
    pub declared_type: String,
    pub rank: usize,
    pub has_default: bool,
}

/// The parts of a function definition that decide how calls to it lower:
/// its inputs and outputs, whether it has locals, its algorithm body,
/// whether it is external, and whether it is pure.
pub struct FunctionSignature {
    pub inputs: Vec<FunctionParamSignature>,
    pub outputs: Vec<FunctionParamSignature>,
    pub has_locals: bool,
    pub body: Vec<Statement>,
    pub is_external: bool,
    pub is_pure: bool,
}

/// An ASCII capital letter.
pub open spec fn is_ascii_upper(c: char) -> bool {
    'A' <= c && c <= 'Z'
}

/// A function definition shaped like a record constructor (MLS §12.6):
/// no locals, no body, not external, at least one input, and either no
/// output with a name whose leaf starts with a capital letter, or one
/// scalar output `res` whose type has the function's leaf name.
pub open spec fn spec_is_record_constructor_signature(name: Seq<char>, f: FunctionSignature) -> bool {
    &&& !f.has_locals
    &&& f.body@.len() == 0
    &&& !f.is_external
    &&& f.inputs@.len() > 0
    &&& if f.outputs@.len() == 0 {
        spec_leaf_segment(name).len() > 0 && is_ascii_upper(spec_leaf_segment(name)[0])
    } else {
        &&& f.outputs@.len() == 1
        &&& f.outputs@[0].rank == 0
        &&& spec_leaf_segment(f.outputs@[0].declared_type@).len() > 0
        &&& spec_leaf_segment(f.outputs@[0].declared_type@) == spec_leaf_segment(name)
        &&& f.outputs@[0].name@ == "res"@
    }
}

/// Whether the function `name` is shaped like a record constructor.
pub fn is_record_constructor_signature(name: &str, function: &FunctionSignature) -> (b: bool)
    ensures
        b == spec_is_record_constructor_signature(name@, *function),
{
    if function.has_locals || function.body.len() > 0 || function.is_external {
        return false;
    }
    let function_leaf = leaf_segment(name);
    if function.inputs.len() == 0 {
        return false;
    }
    if function.outputs.len() == 0 {
        let chars = chars_of(function_leaf);
        return chars.len() > 0 && 'A' <= chars[0] && chars[0] <= 'Z';
    }
    if function.outputs.len() != 1 {
        return false;
    }
    let output = &function.outputs[0];
    if output.rank != 0 {
        return false;
    }
    let output_leaf = leaf_segment(output.declared_type.as_str());
    let output_leaf_chars = chars_of(output_leaf);
    proof {
        reveal_strlit("res");
    }
    output_leaf_chars.len() > 0 && str_eq(output_leaf, function_leaf) && str_eq(
        output.name.as_str(),
        "res",
    )
}

/// The name `name` belongs to the flattened record input group `prefix`:
/// it is `prefix` followed by a dot and a field.
pub open spec fn flattened_input_has_prefix(name: Seq<char>, prefix: Seq<char>) -> bool {
    &&& prefix.len() < name.len()
    &&& name.take(prefix.len() as int) == prefix
    &&& name[prefix.len() as int] == '.'
}

/// Whether `name` belongs to the flattened record input group `prefix`.
pub fn input_has_flattened_prefix(name: &str, prefix: &str) -> (b: bool)
    ensures
        b == flattened_input_has_prefix(name@, prefix@),
{
    let n = chars_of(name);
    let p = chars_of(prefix);
    if p.len() >= n.len() {
        return false;
    }
    let mut i: usize = 0;
    while i < p.len()
        invariant
            i <= p@.len(),
            p@.len() < n@.len(),
            n@ == name@,
            p@ == prefix@,
            forall|j: int| 0 <= j < i ==> n@[j] == p@[j],
        decreases p@.len() - i,
    {
        if n[i] != p[i] {
            proof {
                assert(name@.take(prefix@.len() as int)[i as int] != prefix@[i as int]);
            }
            return false;
        }
        i = i + 1;
    }
    proof {
        assert(name@.take(prefix@.len() as int) =~= prefix@);
    }
    n[p.len()] == '.'
}

/// Some input after position `input_idx` belongs to the flattened record
/// input group `prefix`.
pub open spec fn later_flattened_sibling(
    inputs: Seq<FunctionParamSignature>,
    input_idx: int,
    prefix: Seq<char>,
) -> bool {
    exists|k: int| input_idx < k < inputs.len() && flattened_input_has_prefix(#[trigger] inputs[k].name@, prefix)
}

/// The state of the lowering that the binding of function inputs keeps:
/// the local arrays known to be empty, the compile-time constants bound
/// to locals (each value held as its `f64` bit pattern), and the function
/// definitions by name.
pub struct LowerBuilder {
    known_empty_local_arrays: IndexMap<String, ()>,
    local_const_bindings: IndexMap<String, u64>,
    functions: IndexMap<String, FunctionSignature>,
}

impl LowerBuilder {
    #[verifier::type_invariant]
    spec fn keys_are_distinct(self) -> bool {
        &&& name_set_keys(self.known_empty_local_arrays).no_duplicates()
        &&& entry_keys(number_map_entries(self.local_const_bindings)).no_duplicates()
        &&& entry_keys(function_table_entries(self.functions)).no_duplicates()
    }

    /// The local arrays known to be empty, in the order they became so.
    pub closed spec fn spec_known_empty(&self) -> Seq<Seq<char>> {
        name_set_keys(self.known_empty_local_arrays)
    }

    /// The compile-time constants bound to locals.
    pub closed spec fn spec_const_bindings(&self) -> Seq<(Seq<char>, u64)> {
        number_map_entries(self.local_const_bindings)
    }

    /// The function definitions by name.
    pub closed spec fn spec_functions(&self) -> Seq<(Seq<char>, FunctionSignature)> {
        function_table_entries(self.functions)
    }

    /// Each known-empty array, constant binding and function definition is
    /// held under a distinct name.
    pub open spec fn spec_keys_distinct(&self) -> bool {
        &&& self.spec_known_empty().no_duplicates()
        &&& entry_keys(self.spec_const_bindings()).no_duplicates()
        &&& entry_keys(self.spec_functions()).no_duplicates()
    }

    /// A builder with no known-empty arrays, constants or functions.
    pub fn new() -> (b: LowerBuilder)
        ensures
            b.spec_known_empty().len() == 0,
            b.spec_const_bindings().len() == 0,
            b.spec_functions().len() == 0,
            b.spec_keys_distinct(),
    {
        let known_empty_local_arrays = name_set_new();
        let local_const_bindings = number_map_new();
        let functions = function_table_new();
        proof {
            assert(entry_keys(number_map_entries(local_const_bindings)) =~= Seq::<Seq<char>>::empty());
            assert(entry_keys(function_table_entries(functions)) =~= Seq::<Seq<char>>::empty());
        }
        LowerBuilder { known_empty_local_arrays, local_const_bindings, functions }
    }

    /// Register the definition of function `name`; a later definition of
    /// the same name replaces the earlier one in place.
    pub fn add_function(&mut self, name: String, function: FunctionSignature)
        ensures
            final(self).spec_functions() == spec_bind(old(self).spec_functions(), name@, function),
            final(self).spec_known_empty() == old(self).spec_known_empty(),
            final(self).spec_const_bindings() == old(self).spec_const_bindings(),
            final(self).spec_keys_distinct(),
    {
        proof {
            use_type_invariant(&*self);
        }
        let ghost before = function_table_entries(self.functions);
        let ghost key = name@;
        let mut functions = function_table_new();
        std::mem::swap(&mut functions, &mut self.functions);
        function_table_insert(&mut functions, name, function);
        proof {
            let old_keys = entry_keys(before);
            old_keys.index_of_first_ensures(key);
            let new_keys = entry_keys(function_table_entries(functions));
            match old_keys.index_of_first(key) {
                Some(i) => {
                    assert(new_keys =~= old_keys.update(i, key));
                    assert(old_keys.update(i, key) =~= old_keys);
                },
                None => {
                    assert(new_keys =~= old_keys.push(key));
                    lemma_push_new_key_distinct(old_keys, key);
                },
            }
        }
        self.functions = functions;
    }

    /// Bind the local `name` to a compile-time constant (its bit pattern).
    pub fn bind_local_const(&mut self, name: String, value_bits: u64)
        ensures
            final(self).spec_const_bindings() == spec_bind(
                old(self).spec_const_bindings(),
                name@,
                value_bits,
            ),
            final(self).spec_known_empty() == old(self).spec_known_empty(),
            final(self).spec_functions() == old(self).spec_functions(),
            final(self).spec_keys_distinct(),
    {
        proof {
            use_type_invariant(&*self);
        }
        let ghost before = number_map_entries(self.local_const_bindings);
        let ghost key = name@;
        let mut bindings = number_map_new();
        std::mem::swap(&mut bindings, &mut self.local_const_bindings);
        number_map_insert(&mut bindings, name, value_bits);
        proof {
            let old_keys = entry_keys(before);
            old_keys.index_of_first_ensures(key);
            let new_keys = entry_keys(number_map_entries(bindings));
            match old_keys.index_of_first(key) {
                Some(i) => {
                    assert(new_keys =~= old_keys.update(i, key));
                    assert(old_keys.update(i, key) =~= old_keys);
                },
                None => {
                    assert(new_keys =~= old_keys.push(key));
                    lemma_push_new_key_distinct(old_keys, key);
                },
            }
        }
        self.local_const_bindings = bindings;
    }

    /// The constant bound to local `name`, if any.
    pub fn local_const(&self, name: &str) -> (r: Option<u64>)
        ensures
            r == spec_lookup(self.spec_const_bindings(), name@),
    {
        proof {
            use_type_invariant(self);
        }
        match number_map_index_of(&self.local_const_bindings, name) {
            Some(i) => {
                let (_, v) = number_map_entry_at(&self.local_const_bindings, i).unwrap();
                proof {
                    let keys = entry_keys(self.spec_const_bindings());
                    assert(keys[i as int] == name@);
                    lemma_distinct_index_of_first(keys, name@, i as int);
                }
                Some(v)
            },
            None => {
                proof {
                    entry_keys(self.spec_const_bindings()).index_of_first_ensures(name@);
                }
                None
            },
        }
    }

    /// Whether the local array `key` is known to be empty.
    pub fn is_known_empty_local_array(&self, key: &str) -> (b: bool)
        ensures
            b == self.spec_known_empty().contains(key@),
    {
        match name_set_index_of(&self.known_empty_local_arrays, key) {
            Some(i) => {
                proof {
                    assert(self.spec_known_empty()[i as int] == key@);
                }
                true
            },
            None => false,
        }
    }

    /// The definition of function `name`, if registered.
    pub fn lookup_function_key(&self, name: &str) -> (r: Option<&FunctionSignature>)
        ensures
            match spec_lookup(self.spec_functions(), name@) {
                Some(f) => r == Some(&f),
                None => r is None,
            },
    {
        proof {
            use_type_invariant(self);
        }
        match function_table_index_of(&self.functions, name) {
            Some(i) => {
                let f = function_table_value_at(&self.functions, i).unwrap();
                proof {
                    let keys = entry_keys(self.spec_functions());
                    assert(keys[i as int] == name@);
                    lemma_distinct_index_of_first(keys, name@, i as int);
                }
                Some(f)
            },
            None => {
                proof {
                    entry_keys(self.spec_functions()).index_of_first_ensures(name@);
                }
                None
            },
        }
    }

    /// Whether a call to `name` constructs a record: the call is marked a
    /// constructor, or the function registered as `name` is shaped like one.
    pub fn is_record_constructor_call_key(&self, name: &str, is_constructor: bool) -> (b: bool)
        ensures
            b == (is_constructor || match spec_lookup(self.spec_functions(), name@) {
                Some(f) => spec_is_record_constructor_signature(name@, f),
                None => false,
            }),
    {
        if is_constructor {
            return true;
        }
        match self.lookup_function_key(name) {
            Some(function) => is_record_constructor_signature(name, function),
            None => false,
        }
    }

    /// Record whether the local array `key` is known to be empty: a known
    /// empty array is added to the set (once), any other leaves it.
    pub fn update_known_empty_local_array(&mut self, key: &str, known_empty: bool)
        ensures
            final(self).spec_known_empty() == (if known_empty {
                if old(self).spec_known_empty().contains(key@) {
                    old(self).spec_known_empty()
                } else {
                    old(self).spec_known_empty().push(key@)
                }
            } else {
                match old(self).spec_known_empty().index_of_first(key@) {
                    Some(i) => old(self).spec_known_empty().remove(i),
                    None => old(self).spec_known_empty(),
                }
            }),
            final(self).spec_known_empty().contains(key@) == known_empty,
            final(self).spec_const_bindings() == old(self).spec_const_bindings(),
            final(self).spec_functions() == old(self).spec_functions(),
            final(self).spec_keys_distinct(),
    {
        proof {
            use_type_invariant(&*self);
        }
        let ghost before = name_set_keys(self.known_empty_local_arrays);
        proof {
            before.index_of_first_ensures(key@);
        }
        let mut set = name_set_new();
        std::mem::swap(&mut set, &mut self.known_empty_local_arrays);
        if known_empty {
            let _ = name_set_insert(&mut set, String::from_str(key));
            proof {
                if !before.contains(key@) {
                    lemma_push_new_key_distinct(before, key@);
                    assert(before.push(key@)[before.len() as int] == key@);
                }
                assert(name_set_keys(set).contains(key@));
            }
        } else {
            let removed = name_set_shift_remove(&mut set, key);
            proof {
                if removed {
                    let i = choose|i: int|
                        0 <= i < before.len() && before[i] == key@ && name_set_keys(set) == before.remove(i);
                    lemma_distinct_index_of_first(before, key@, i);
                    lemma_remove_distinct(before, i);
                    lemma_remove_absent(before, i);
                }
            }
        }
        self.known_empty_local_arrays = set;
    }

    /// Forget the compile-time constant of a local that is assigned at run time.
    pub fn clear_local_const_assignment(&mut self, target: &str)
        ensures
            final(self).spec_const_bindings() == (match entry_keys(old(self).spec_const_bindings()).index_of_first(target@) {
                Some(i) => old(self).spec_const_bindings().remove(i),
                None => old(self).spec_const_bindings(),
            }),
            !entry_keys(final(self).spec_const_bindings()).contains(target@),
            final(self).spec_known_empty() == old(self).spec_known_empty(),
            final(self).spec_functions() == old(self).spec_functions(),
            final(self).spec_keys_distinct(),
    {
        proof {
            use_type_invariant(&*self);
        }
        let ghost before = number_map_entries(self.local_const_bindings);
        let mut bindings = number_map_new();
        std::mem::swap(&mut bindings, &mut self.local_const_bindings);
        let _ = number_map_shift_remove(&mut bindings, target);
        proof {
            let old_keys = entry_keys(before);
            old_keys.index_of_first_ensures(target@);
            match old_keys.index_of_first(target@) {
                Some(i) => {
                    assert(entry_keys(number_map_entries(bindings)) =~= old_keys.remove(i));
                    lemma_remove_distinct(old_keys, i);
                },
                None => {},
            }
        }
        self.local_const_bindings = bindings;
    }

    /// After a flattened record field input bound from the positional
    /// actual at `positional_idx`, move past that actual unless a later
    /// input still belongs to the same record group `prefix`.
    pub fn advance_flattened_record_positional(
        &self,
        inputs: &[FunctionParamSignature],
        input_idx: usize,
        positional_idx: &mut usize,
        prefix: &str,
    )
        requires
            input_idx < usize::MAX,
            !later_flattened_sibling(inputs@, input_idx as int, prefix@) ==> *old(positional_idx) < usize::MAX,
        ensures
            *final(positional_idx) == *old(positional_idx) + if later_flattened_sibling(
                inputs@,
                input_idx as int,
                prefix@,
            ) {
                0int
            } else {
                1int
            },
    {
        let mut k: usize = input_idx + 1;
        while k < inputs.len()
            invariant
                input_idx < k,
                forall|j: int| input_idx < j < k ==> !flattened_input_has_prefix(#[trigger] inputs@[j].name@, prefix@),
            decreases inputs@.len() - k,
        {
            if input_has_flattened_prefix(inputs[k].name.as_str(), prefix) {
                return;
            }
            k = k + 1;
        }
        *positional_idx = *positional_idx + 1;
    }
}

/// Where the actual value bound to a function input comes from.
#[derive(Clone, Copy, Debug, PartialEq, Eq, Structural)]
pub enum InputSource {
    /// The actual passed by name for the input.
    Named,
    /// A field of the record actual at the positional cursor, for an input
    /// flattened from a record formal.
    FlattenedRecordPositional,
    /// The fields of a record input, spread over positional actuals.
    FlattenedRecordFields,
    /// The positional actual at `arg`.
    Positional { arg: usize },
    /// The input's declared default.
    Default,
    /// A field access synthesized for a flattened record field whose
    /// record actual was passed whole.
    SynthesizedField,
}

/// What the binding of one function input can draw on, besides the input
/// itself. The record attempts are made by the register-emitting binder;
/// here their outcome is given, with the positional cursor they leave.
pub struct InputBindRequest {
    /// The call passes an actual by the input's name.
    pub has_named_arg: bool,
    /// Binding the input as a field of the record actual at the cursor
    /// succeeded.
    pub flattened_positional_bound: bool,
    /// The input's declared type is a record constructor with fields.
    pub has_record_fields: bool,
    /// Binding the record's fields from positional actuals succeeded.
    pub flattened_fields_bound: bool,
    /// The positional cursor after a successful record attempt.
    pub cursor_after_record: usize,
    /// The number of formal inputs and of positional actuals of the call.
    pub input_count: usize,
    pub positional_count: usize,
    /// How many actuals right after the one at the cursor give the sizes
    /// of its successive dimensions.
    pub size_actual_run: usize,
    /// A field access can be synthesized for a flattened record field.
    pub can_synthesize_field: bool,
}

/// The smallest of three counts.
pub open spec fn min3(a: int, b: int, c: int) -> int {
    if a <= b && a <= c {
        a
    } else if b <= c {
        b
    } else {
        c
    }
}

/// The cursor after taking the positional actual at `idx` for `input`:
/// past it, and past the size actuals that follow an array actual (at
/// most one per dimension).
pub open spec fn spec_cursor_after_positional(input: FunctionParamSignature, request: InputBindRequest, idx: int) -> int {
    idx + 1 + if input.rank > 0 {
        min3(input.rank as int, request.size_actual_run as int, request.positional_count - idx - 1)
    } else {
        0
    }
}

/// The source of an input that is bound neither by name nor as a record:
/// the next positional actual, else its default, else a synthesized
/// record field; and the cursor after it.
pub open spec fn spec_simple_source(input: FunctionParamSignature, request: InputBindRequest, idx: int) -> (
    Option<InputSource>,
    int,
) {
    if idx < request.positional_count {
        (Some(InputSource::Positional { arg: idx as usize }), spec_cursor_after_positional(input, request, idx))
    } else if input.has_default {
        (Some(InputSource::Default), idx)
    } else if request.can_synthesize_field {
        (Some(InputSource::SynthesizedField), idx)
    } else {
        (None, idx)
    }
}

/// The source of an input not passed by name: a record attempt that
/// bound it, else the simple sources.
pub open spec fn spec_non_named_source(input: FunctionParamSignature, request: InputBindRequest, idx: int) -> (
    Option<InputSource>,
    int,
) {
    if request.flattened_positional_bound {
        (Some(InputSource::FlattenedRecordPositional), request.cursor_after_record as int)
    } else if request.positional_count > request.input_count && request.has_record_fields
        && request.flattened_fields_bound {
        (Some(InputSource::FlattenedRecordFields), request.cursor_after_record as int)
    } else {
        spec_simple_source(input, request, idx)
    }
}

/// The source of an input: its named actual, else the other sources.
pub open spec fn spec_input_source(input: FunctionParamSignature, request: InputBindRequest, idx: int) -> (
    Option<InputSource>,
    int,
) {
    if request.has_named_arg {
        (Some(InputSource::Named), idx)
    } else {
        spec_non_named_source(input, request, idx)
    }
}

/// A positional actual left at the cursor binds the input before any
/// default or synthesized field is considered, and the cursor moves past
/// it (and past at most one size actual per dimension of an array input)
/// without running beyond the actuals; the default binds only when no
/// positional actual is left.
pub proof fn law_positional_actual_before_default(input: FunctionParamSignature, request: InputBindRequest, idx: int)
    requires
        0 <= idx,
    ensures
        idx < request.positional_count ==> spec_simple_source(input, request, idx).0 == Some(
            InputSource::Positional { arg: idx as usize },
        ),
        idx < request.positional_count ==> idx < spec_simple_source(input, request, idx).1
            <= request.positional_count && spec_simple_source(input, request, idx).1 <= idx + 1
            + input.rank,
        idx < request.positional_count && input.rank == 0 ==> spec_simple_source(input, request, idx).1
            == idx + 1,
        spec_simple_source(input, request, idx).0 == Some(InputSource::Default) ==> idx
            >= request.positional_count && input.has_default,
        spec_simple_source(input, request, idx).0 == Some(InputSource::SynthesizedField) ==> idx
            >= request.positional_count && !input.has_default && request.can_synthesize_field,
        spec_simple_source(input, request, idx).0 is None ==> idx >= request.positional_count
            && !input.has_default && !request.can_synthesize_field,
        !(spec_simple_source(input, request, idx).0 matches Some(InputSource::Positional { .. }))
            ==> spec_simple_source(input, request, idx).1 == idx,
{
}

/// A named actual binds its input before anything else and takes no
/// positional actual; without one, a successful record attempt comes
/// before the positional actual, and otherwise the simple sources decide.
pub proof fn law_named_actual_first(input: FunctionParamSignature, request: InputBindRequest, idx: int)
    ensures
        request.has_named_arg ==> spec_input_source(input, request, idx) == (Some(InputSource::Named), idx),
        !request.has_named_arg && request.flattened_positional_bound ==> spec_input_source(input, request, idx).0
            == Some(InputSource::FlattenedRecordPositional),
        !request.has_named_arg && !request.flattened_positional_bound && !(request.positional_count
            > request.input_count && request.has_record_fields && request.flattened_fields_bound)
            ==> spec_input_source(input, request, idx) == spec_simple_source(input, request, idx),
{
}

impl LowerBuilder {
    /// Choose the source of an input that is bound neither by name nor as
    /// a record, moving the positional cursor past what it takes. `None`
    /// when nothing can bind it.
    pub fn try_bind_simple_function_input(
        &self,
        input: &FunctionParamSignature,
        request: &InputBindRequest,
        positional_idx: &mut usize,
    ) -> (r: Option<InputSource>)
        ensures
            (r, *final(positional_idx) as int) == spec_simple_source(*input, *request, *old(positional_idx) as int),
    {
        let idx = *positional_idx;
        if idx < request.positional_count {
            let mut next = idx + 1;
            if input.rank > 0 {
                let remaining = request.positional_count - idx - 1;
                let mut skip = input.rank;
                if request.size_actual_run < skip {
                    skip = request.size_actual_run;
                }
                if remaining < skip {
                    skip = remaining;
                }
                next = next + skip;
            }
            *positional_idx = next;
            Some(InputSource::Positional { arg: idx })
        } else if input.has_default {
            Some(InputSource::Default)
        } else if request.can_synthesize_field {
            Some(InputSource::SynthesizedField)
        } else {
            None
        }
    }

    /// Choose the source of an input not passed by name: a record attempt
    /// that bound it (and the cursor it left), else a simple source.
    pub fn try_bind_non_named_function_input(
        &self,
        input: &FunctionParamSignature,
        request: &InputBindRequest,
        positional_idx: &mut usize,
    ) -> (r: Option<InputSource>)
        ensures
            (r, *final(positional_idx) as int) == spec_non_named_source(*input, *request, *old(positional_idx) as int),
    {
        if request.flattened_positional_bound {
            *positional_idx = request.cursor_after_record;
            return Some(InputSource::FlattenedRecordPositional);
        }
        if request.positional_count > request.input_count && request.has_record_fields
            && request.flattened_fields_bound {
            *positional_idx = request.cursor_after_record;
            return Some(InputSource::FlattenedRecordFields);
        }
        self.try_bind_simple_function_input(input, request, positional_idx)
    }

    /// Choose the source of a function input: the actual passed by its
    /// name, else the sources of an input not passed by name. Lowering the
    /// chosen actual into registers, and any error that raises, belong to
    /// the register-emitting binder, which this library does not hold.
    pub fn try_bind_function_input(
        &self,
        input: &FunctionParamSignature,
        request: &InputBindRequest,
        positional_idx: &mut usize,
    ) -> (r: Option<InputSource>)
        ensures
            (r, *final(positional_idx) as int) == spec_input_source(*input, *request, *old(positional_idx) as int),
    {
        if request.has_named_arg {
            return Some(InputSource::Named);
        }
        self.try_bind_non_named_function_input(input, request, positional_idx)
    }
}

/// The actual that a scalar use of a record constructor call reads.
#[derive(Clone, Copy, Debug, PartialEq, Eq, Structural)]
pub enum RecordScalarArgument {
    /// The named actual at this position of the named actuals.
    Named { index: usize },
    /// The declared default of the constructor's first field.
    FirstFieldDefault,
    /// The first positional actual.
    FirstPositional,
}

/// The position of the first name equal to `name`, if any.
pub open spec fn spec_name_position(names: Seq<Seq<char>>, name: Seq<char>) -> Option<int> {
    if exists|i: int| 0 <= i < names.len() && names[i] == name {
        Some(choose|i: int| 0 <= i < names.len() && names[i] == name && forall|j: int| 0 <= j < i ==> names[j] != name)
    } else {
        None
    }
}

/// The first field of the constructor registered as `name`, if it has one.
pub open spec fn spec_first_field(functions: Seq<(Seq<char>, FunctionSignature)>, name: Seq<char>) -> Option<
    FunctionParamSignature,
> {
    match spec_lookup(functions, name) {
        Some(f) => if f.inputs@.len() > 0 {
            Some(f.inputs@[0])
        } else {
            None
        },
        None => None,
    }
}

/// The argument a scalar use of the record constructor `name` reads: the
/// actual named for its first field, else that field's default, else the
/// actual named `re`, else the one named `start`, else the first
/// positional actual.
pub open spec fn spec_record_scalar_argument(
    functions: Seq<(Seq<char>, FunctionSignature)>,
    name: Seq<char>,
    named: Seq<Seq<char>>,
    positional_count: nat,
) -> Option<RecordScalarArgument> {
    let first = spec_first_field(functions, name);
    if first is Some && spec_name_position(named, first.unwrap().name@) is Some {
        Some(RecordScalarArgument::Named { index: spec_name_position(named, first.unwrap().name@).unwrap() as usize })
    } else if first is Some && first.unwrap().has_default {
        Some(RecordScalarArgument::FirstFieldDefault)
    } else if spec_name_position(named, "re"@) is Some {
        Some(RecordScalarArgument::Named { index: spec_name_position(named, "re"@).unwrap() as usize })
    } else if spec_name_position(named, "start"@) is Some {
        Some(RecordScalarArgument::Named { index: spec_name_position(named, "start"@).unwrap() as usize })
    } else if positional_count > 0 {
        Some(RecordScalarArgument::FirstPositional)
    } else {
        None
    }
}

/// The position of the first of `names` equal to `name`.
pub(crate) fn name_position(names: &[String], name: &str) -> (r: Option<usize>)
    ensures
        match r {
            Some(i) => spec_name_position(texts(names@), name@) == Some(i as int),
            None => spec_name_position(texts(names@), name@) is None,
        },
{
    let ghost t = texts(names@);
    let mut i: usize = 0;
    while i < names.len()
        invariant
            i <= names@.len(),
            t == texts(names@),
            forall|j: int| 0 <= j < i ==> t[j] != name@,
        decreases names@.len() - i,
    {
        if str_eq(names[i].as_str(), name) {
            proof {
                assert(t[i as int] == name@);
                let c = choose|k: int| 0 <= k < t.len() && t[k] == name@ && forall|j: int| 0 <= j < k ==> t[j] != name@;
                if c < i {
                    assert(t[c] != name@);
                }
                if c > i {
                    assert(t[i as int] != name@);
                }
            }
            return Some(i);
        }
        i = i + 1;
    }
    None
}

impl LowerBuilder {
    /// The actual that a scalar use of a call to the record constructor
    /// `name` reads (its first field), given the names of the call's named
    /// actuals and the number of its positional actuals; an invalid
    /// function error when the call supplies none.
    pub fn record_constructor_scalar_argument(
        &self,
        name: &str,
        named: &[String],
        positional_count: usize,
    ) -> (r: Result<RecordScalarArgument, LowerError>)
        ensures
            match spec_record_scalar_argument(self.spec_functions(), name@, texts(named@), positional_count as nat) {
                Some(arg) => r == Ok::<RecordScalarArgument, LowerError>(arg),
                None => r matches Err(e) && e is InvalidFunction && e->InvalidFunction_name@ == name@
                    && e->InvalidFunction_reason@ == spec_record_scalar_reason(),
            },
    {
        let first = match self.lookup_function_key(name) {
            Some(f) => if f.inputs.len() > 0 {
                Some(&f.inputs[0])
            } else {
                None
            },
            None => None,
        };
        if let Some(field) = first {
            if let Some(i) = name_position(named, field.name.as_str()) {
                return Ok(RecordScalarArgument::Named { index: i });
            }
            if field.has_default {
                return Ok(RecordScalarArgument::FirstFieldDefault);
            }
        }
        if let Some(i) = name_position(named, "re") {
            return Ok(RecordScalarArgument::Named { index: i });
        }
        if let Some(i) = name_position(named, "start") {
            return Ok(RecordScalarArgument::Named { index: i });
        }
        if positional_count > 0 {
            return Ok(RecordScalarArgument::FirstPositional);
        }
        Err(
            LowerError::InvalidFunction {
                name: String::from_str(name),
                reason: String::from_str(
                    "record constructor scalar projection requires a first field argument or default binding",
                ),
            },
        )
    }
}

/// Why a scalar use of a record constructor call without a usable actual
/// fails.
pub open spec fn spec_record_scalar_reason() -> Seq<char> {
    "record constructor scalar projection requires a first field argument or default binding"@
}

proof fn lemma_push_new_key_distinct(keys: Seq<Seq<char>>, k: Seq<char>)
    requires
        keys.no_duplicates(),
        !keys.contains(k),
    ensures
        keys.push(k).no_duplicates(),
{
    let nk = keys.push(k);
    assert forall|a: int, b: int| 0 <= a < nk.len() && 0 <= b < nk.len() && a != b implies nk[a]
        != nk[b] by {
        if a == keys.len() as int {
            assert(nk[b] == keys[b]);
        } else if b == keys.len() as int {
            assert(nk[a] == keys[a]);
        }
    }
}

/// Removing the one occurrence of a name from distinct names leaves it out.
proof fn lemma_remove_absent(keys: Seq<Seq<char>>, i: int)
    requires
        keys.no_duplicates(),
        0 <= i < keys.len(),
    ensures
        !keys.remove(i).contains(keys[i]),
{
    let nk = keys.remove(i);
    if nk.contains(keys[i]) {
        let a = choose|a: int| 0 <= a < nk.len() && nk[a] == keys[i];
        let a2 = if a < i { a } else { a + 1 };
        assert(nk[a] == keys[a2]);
    }
}

proof fn lemma_remove_distinct(keys: Seq<Seq<char>>, i: int)
    requires
        keys.no_duplicates(),
        0 <= i < keys.len(),
    ensures
        keys.remove(i).no_duplicates(),
{
    let nk = keys.remove(i);
    assert forall|a: int, b: int| 0 <= a < nk.len() && 0 <= b < nk.len() && a != b implies nk[a]
        != nk[b] by {
        let a2 = if a < i {
            a
        } else {
            a + 1
        };
        let b2 = if b < i {
            b
        } else {
            b + 1
        };
        assert(nk[a] == keys[a2]);
        assert(nk[b] == keys[b2]);
    }
}

proof fn lemma_distinct_index_of_first(keys: Seq<Seq<char>>, k: Seq<char>, i: int)
    requires
        keys.no_duplicates(),
        0 <= i < keys.len(),
        keys[i] == k,
    ensures
        keys.index_of_first(k) == Some(i),
{
    keys.index_of_first_ensures(k);
    let j = keys.index_of_first(k).unwrap();
    if j != i {
        assert(keys[j] == keys[i]);
    }
}

/// The contract violation of a function-call shape dimension that does
/// not fit in a Modelica integer.
pub open spec fn spec_call_dim_reason(context: Seq<char>, value: nat) -> Seq<char> {
    context + " dimension "@ + decimal(value) + " exceeds i64 range"@
}

/// Every dimension of a function-call shape as an `i64`, or the error of
/// the first dimension out of range.
pub fn checked_usize_dims_to_i64(dims: &[usize], context: &str, span: Span) -> (r: Result<
    Vec<i64>,
    LowerError,
>)
    ensures
        match r {
            Ok(v) => v@.len() == dims@.len() && forall|i: int|
                0 <= i < dims@.len() ==> v@[i] as int == dims@[i] as int,
            Err(e) => spec_capacity_error(e, context@, span) || exists|i: int|
                0 <= i < dims@.len() && dims@[i] > i64::MAX && (forall|j: int|
                    0 <= j < i ==> dims@[j] <= i64::MAX) && spec_contract_error(
                    e,
                    spec_call_dim_reason(context@, dims@[i] as nat),
                    span,
                ),
        },
{
    let mut converted: Vec<i64> = vec_with_capacity(dims.len(), context, span)?;
    let mut i: usize = 0;
    while i < dims.len()
        invariant
            i <= dims.len(),
            converted@.len() == i,
            forall|j: int| 0 <= j < i ==> converted@[j] as int == dims@[j] as int,
            forall|j: int| 0 <= j < i ==> dims@[j] <= i64::MAX,
        decreases dims.len() - i,
    {
        let value = dims[i];
        if value as u64 > i64::MAX as u64 {
            let mut reason = String::from_str(context);
            reason.append(" dimension ");
            let digits = usize_to_decimal(value);
            reason.append(digits.as_str());
            reason.append(" exceeds i64 range");
            return Err(contract_violation(reason, span));
        }
        converted.push(value as i64);
        i = i + 1;
    }
    Ok(converted)
}

} // verus!
