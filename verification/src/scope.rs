use vstd::prelude::*;

use indexmap::IndexMap;

use crate::capacity::{spec_capacity_error, spec_contract_error, vec_with_capacity, contract_error};
use crate::collections::{
    entry_keys, name_set_insert, name_set_key_at, name_set_keys, name_set_len, name_set_new, name_set_try_reserve,
    name_set_index_of, number_map_entries, number_map_entry_at, number_map_index_of, number_map_insert,
    number_map_len, number_map_new, number_map_shift_remove,
};
use crate::dims::{checked_dim_product, checked_product, usize_ints};
use crate::error::{contract_violation, LowerError};
use crate::span::Span;

verus! {

/// A Solve-IR register.
pub type Reg = u64;

/// The value of `key` among ordered `(name, value)` entries.
pub open spec fn spec_lookup<V>(entries: Seq<(Seq<char>, V)>, key: Seq<char>) -> Option<V> {
    match entry_keys(entries).index_of_first(key) {
        Some(i) => Some(entries[i].1),
        None => None,
    }
}

/// Binding `name` to `v` among ordered `(name, value)` entries: a bound
/// name keeps its place and takes the new value, a new name is appended.
pub open spec fn spec_bind<V>(entries: Seq<(Seq<char>, V)>, name: Seq<char>, v: V) -> Seq<
    (Seq<char>, V),
> {
    match entry_keys(entries).index_of_first(name) {
        Some(i) => entries.update(i, (name, v)),
        None => entries.push((name, v)),
    }
}

proof fn lemma_lookup_at<V>(entries: Seq<(Seq<char>, V)>, key: Seq<char>, i: int)
    requires
        entry_keys(entries).no_duplicates(),
        0 <= i < entries.len(),
        entries[i].0 == key,
    ensures
        spec_lookup(entries, key) == Some(entries[i].1),
{
    let keys = entry_keys(entries);
    assert(keys[i] == key);
    assert(keys.contains(key));
    keys.index_of_first_ensures(key);
    let j = keys.index_of_first(key).unwrap();
    if j != i {
        assert(keys[j] == keys[i]);
    }
}

proof fn lemma_lookup_absent<V>(entries: Seq<(Seq<char>, V)>, key: Seq<char>)
    requires
        !entry_keys(entries).contains(key),
    ensures
        spec_lookup(entries, key) is None,
{
    let keys = entry_keys(entries);
    keys.index_of_first_ensures(key);
    if let Some(j) = keys.index_of_first(key) {
        assert(keys[j] == key);
        assert(keys.contains(key));
    }
}

/// Reading back a binding: after `name` is bound to `v`, looking `name`
/// up gives `v`, every other name keeps its value, and names stay
/// distinct.
pub proof fn law_lookup_after_bind<V>(
    entries: Seq<(Seq<char>, V)>,
    name: Seq<char>,
    v: V,
    other: Seq<char>,
)
    requires
        entry_keys(entries).no_duplicates(),
    ensures
        spec_lookup(spec_bind(entries, name, v), name) == Some(v),
        other != name ==> spec_lookup(spec_bind(entries, name, v), other) == spec_lookup(
            entries,
            other,
        ),
        entry_keys(spec_bind(entries, name, v)).no_duplicates(),
{
    let keys = entry_keys(entries);
    let bound = spec_bind(entries, name, v);
    let new_keys = entry_keys(bound);
    keys.index_of_first_ensures(name);
    match keys.index_of_first(name) {
        Some(i) => {
            assert(new_keys =~= keys);
            lemma_lookup_at(bound, name, i);
            if other != name {
                if keys.contains(other) {
                    let j = choose|j: int| 0 <= j < keys.len() && keys[j] == other;
                    assert(bound[j] == entries[j]);
                    lemma_lookup_at(bound, other, j);
                    lemma_lookup_at(entries, other, j);
                } else {
                    lemma_lookup_absent(bound, other);
                    lemma_lookup_absent(entries, other);
                }
            }
        },
        None => {
            assert(new_keys =~= keys.push(name));
            assert(new_keys.no_duplicates()) by {
                assert forall|a: int, b: int|
                    0 <= a < new_keys.len() && 0 <= b < new_keys.len() && a != b implies new_keys[a]
                    != new_keys[b] by {
                    if a == keys.len() as int {
                        assert(new_keys[b] == keys[b]);
                    } else if b == keys.len() as int {
                        assert(new_keys[a] == keys[a]);
                    }
                }
            }
            lemma_lookup_at(bound, name, entries.len() as int);
            if other != name {
                if keys.contains(other) {
                    let j = choose|j: int| 0 <= j < keys.len() && keys[j] == other;
                    assert(bound[j] == entries[j]);
                    lemma_lookup_at(bound, other, j);
                    lemma_lookup_at(entries, other, j);
                } else {
                    assert(!new_keys.contains(other)) by {
                        if new_keys.contains(other) {
                            let j = choose|j: int| 0 <= j < new_keys.len() && new_keys[j] == other;
                            if j < keys.len() {
                                assert(keys[j] == other);
                            }
                        }
                    }
                    lemma_lookup_absent(bound, other);
                    lemma_lookup_absent(entries, other);
                }
            }
        },
    }
}

/// Register bindings of the names visible while lowering a function body,
/// in the order they were first bound.
pub struct Scope {
    bindings: IndexMap<String, u64>,
}

impl View for Scope {
    type V = Seq<(Seq<char>, Reg)>;

    closed spec fn view(&self) -> Seq<(Seq<char>, Reg)> {
        number_map_entries(self.bindings)
    }
}

impl Scope {
    #[verifier::type_invariant]
    spec fn names_are_distinct(self) -> bool {
        entry_keys(number_map_entries(self.bindings)).no_duplicates()
    }

    /// The names bound in the scope, in binding order.
    pub open spec fn spec_names(self) -> Seq<Seq<char>> {
        entry_keys(self@)
    }

    /// The register bound to `name`.
    pub open spec fn spec_get(self, name: Seq<char>) -> Option<Reg> {
        spec_lookup(self@, name)
    }

    pub fn new() -> (s: Scope)
        ensures
            s@ == Seq::<(Seq<char>, Reg)>::empty(),
            s.spec_names().no_duplicates(),
    {
        let bindings = number_map_new();
        proof {
            assert(entry_keys(number_map_entries(bindings)) =~= Seq::<Seq<char>>::empty());
        }
        Scope { bindings }
    }

    pub fn len(&self) -> (n: usize)
        ensures
            n == self@.len(),
    {
        number_map_len(&self.bindings)
    }

    /// The register bound to `name`, if any.
    pub fn get(&self, name: &str) -> (r: Option<Reg>)
        ensures
            r == self.spec_get(name@),
    {
        proof {
            use_type_invariant(self);
        }
        match number_map_index_of(&self.bindings, name) {
            Some(i) => {
                let (_, v) = number_map_entry_at(&self.bindings, i).unwrap();
                proof {
                    let keys = entry_keys(self@);
                    assert(keys[i as int] == name@);
                    assert(keys.index_of_first(name@) == Some(i as int)) by {
                        keys.index_of_first_ensures(name@);
                        let j = keys.index_of_first(name@).unwrap();
                        assert(keys.no_duplicates());
                        if j != i as int {
                            assert(keys[j] == keys[i as int]);
                        }
                    }
                }
                Some(v)
            },
            None => {
                proof {
                    entry_keys(self@).index_of_first_ensures(name@);
                }
                None
            },
        }
    }

    pub fn contains_key(&self, name: &str) -> (b: bool)
        ensures
            b == self.spec_names().contains(name@),
    {
        match number_map_index_of(&self.bindings, name) {
            Some(i) => {
                proof {
                    assert(self.spec_names()[i as int] == name@);
                }
                true
            },
            None => false,
        }
    }

    /// Bind `name` to `reg`: a new name is appended, a bound name keeps its
    /// place and takes the new register.
    pub fn insert(&mut self, name: String, reg: Reg)
        ensures
            final(self)@ == spec_bind(old(self)@, name@, reg),
            final(self).spec_names().no_duplicates(),
    {
        proof {
            use_type_invariant(&*self);
        }
        let ghost before = self@;
        let ghost key = name@;
        let mut bindings = number_map_new();
        std::mem::swap(&mut bindings, &mut self.bindings);
        number_map_insert(&mut bindings, name, reg);
        proof {
            let old_keys = entry_keys(before);
            old_keys.index_of_first_ensures(key);
            let new_keys = entry_keys(number_map_entries(bindings));
            match old_keys.index_of_first(key) {
                Some(i) => {
                    assert(new_keys =~= old_keys.update(i, key));
                    assert(old_keys.update(i, key) =~= old_keys);
                },
                None => {
                    assert(new_keys =~= old_keys.push(key));
                    assert(new_keys.no_duplicates()) by {
                        assert forall|a: int, b: int|
                            0 <= a < new_keys.len() && 0 <= b < new_keys.len() && a != b implies
                            new_keys[a] != new_keys[b] by {
                            if a == old_keys.len() as int {
                                assert(!old_keys.contains(key));
                                assert(new_keys[b] == old_keys[b]);
                            } else if b == old_keys.len() as int {
                                assert(!old_keys.contains(key));
                                assert(new_keys[a] == old_keys[a]);
                            }
                        }
                    }
                },
            }
        }
        self.bindings = bindings;
    }

    /// Remove the binding of `name`, keeping the order of the others.
    pub fn shift_remove(&mut self, name: &str) -> (r: Option<Reg>)
        ensures
            r == old(self).spec_get(name@),
            final(self)@ == (match old(self).spec_names().index_of_first(name@) {
                Some(i) => old(self)@.remove(i),
                None => old(self)@,
            }),
            !final(self).spec_names().contains(name@),
            final(self).spec_names().no_duplicates(),
    {
        proof {
            use_type_invariant(&*self);
        }
        let ghost before = self@;
        let mut bindings = number_map_new();
        std::mem::swap(&mut bindings, &mut self.bindings);
        let r = number_map_shift_remove(&mut bindings, name);
        proof {
            let old_keys = entry_keys(before);
            old_keys.index_of_first_ensures(name@);
            match old_keys.index_of_first(name@) {
                Some(i) => {
                    assert(entry_keys(number_map_entries(bindings)) =~= old_keys.remove(i));
                    assert(old_keys.remove(i).no_duplicates()) by {
                        let nk = old_keys.remove(i);
                        assert forall|a: int, b: int|
                            0 <= a < nk.len() && 0 <= b < nk.len() && a != b implies nk[a]
                            != nk[b] by {
                            let a2 = if a < i { a } else { a + 1 };
                            let b2 = if b < i { b } else { b + 1 };
                            assert(nk[a] == old_keys[a2]);
                            assert(nk[b] == old_keys[b2]);
                        }
                    }
                    assert(!old_keys.remove(i).contains(name@)) by {
                        let nk = old_keys.remove(i);
                        if nk.contains(name@) {
                            let a = choose|a: int| 0 <= a < nk.len() && nk[a] == name@;
                            let a2 = if a < i { a } else { a + 1 };
                            assert(nk[a] == old_keys[a2]);
                            assert(old_keys[i] == name@);
                        }
                    }
                },
                None => {},
            }
        }
        self.bindings = bindings;
        r
    }

    /// The names bound in the scope, in binding order.
    pub fn keys(&self) -> (names: Vec<String>)
        ensures
            names@.map_values(|s: String| s@) == self.spec_names(),
    {
        let n = number_map_len(&self.bindings);
        let mut names: Vec<String> = Vec::new();
        let mut i: usize = 0;
        while i < n
            invariant
                i <= n,
                n == self@.len(),
                names@.map_values(|s: String| s@) == self.spec_names().take(i as int),
            decreases n - i,
        {
            let (k, _) = number_map_entry_at(&self.bindings, i).unwrap();
            let ghost before = names@;
            names.push(k.clone());
            proof {
                assert(names@.map_values(|s: String| s@) =~= before.map_values(|s: String| s@).push(
                    self@[i as int].0,
                ));
                assert(self.spec_names().take(i + 1) =~= self.spec_names().take(i as int).push(
                    self@[i as int].0,
                ));
            }
            i = i + 1;
        }
        proof {
            assert(self.spec_names().take(n as int) =~= self.spec_names());
        }
        names
    }
}

impl Scope {
    /// The names bound in the scope, in binding order, in a vector whose
    /// room the allocator granted.
    pub fn keys_checked(&self, context: &str, span: Span) -> (r: Result<Vec<String>, LowerError>)
        ensures
            match r {
                Ok(names) => names@.map_values(|s: String| s@) == self.spec_names(),
                Err(e) => spec_capacity_error(e, context@, span),
            },
    {
        let n = number_map_len(&self.bindings);
        let mut names: Vec<String> = vec_with_capacity(n, context, span)?;
        let mut i: usize = 0;
        while i < n
            invariant
                i <= n,
                n == self@.len(),
                names@.map_values(|s: String| s@) == self.spec_names().take(i as int),
            decreases n - i,
        {
            let (k, _) = number_map_entry_at(&self.bindings, i).unwrap();
            let ghost before = names@;
            names.push(k.clone());
            proof {
                assert(names@.map_values(|s: String| s@) =~= before.map_values(|s: String| s@).push(
                    self@[i as int].0,
                ));
                assert(self.spec_names().take(i + 1) =~= self.spec_names().take(i as int).push(
                    self@[i as int].0,
                ));
            }
            i = i + 1;
        }
        proof {
            assert(self.spec_names().take(n as int) =~= self.spec_names());
        }
        Ok(names)
    }
}

/// The register bound to `key` in `scope`.
pub fn scoped_reg(scope: &Scope, key: &str) -> (r: Option<Reg>)
    ensures
        r == scope.spec_get(key@),
{
    scope.get(key)
}

/// Bind a one-element array actual directly to a scalar formal: only when
/// the inferred shape has exactly one element and one value was lowered.
pub fn bind_singleton_array_actual_to_scalar_formal(
    scope: &mut Scope,
    name: &str,
    inferred_dims: &[usize],
    values: &[Reg],
) -> (bound: bool)
    ensures
        bound == (checked_product(usize_ints(inferred_dims@)) == Some(1int) && values@.len() == 1),
        bound ==> final(scope)@ == (match old(scope).spec_names().index_of_first(name@) {
            Some(i) => old(scope)@.update(i, (name@, values@[0])),
            None => old(scope)@.push((name@, values@[0])),
        }),
        !bound ==> final(scope)@ == old(scope)@,
{
    match checked_dim_product(inferred_dims) {
        Some(1) => {},
        _ => {
            return false;
        },
    }
    if values.len() != 1 {
        return false;
    }
    scope.insert(String::from_str(name), values[0]);
    true
}


/// `names` without those in `excluded`, order kept.
pub open spec fn names_not_in(names: Seq<Seq<char>>, excluded: Seq<Seq<char>>) -> Seq<Seq<char>>
    decreases names.len(),
{
    if names.len() == 0 {
        Seq::empty()
    } else {
        let rest = names_not_in(names.drop_last(), excluded);
        if excluded.contains(names.last()) {
            rest
        } else {
            rest.push(names.last())
        }
    }
}

/// The names to merge after an if-statement: those of the entry scope,
/// then, scope by scope, the names each branch bound that the entry scope
/// did not.
pub open spec fn merged_scope_names(entry: Seq<Seq<char>>, others: Seq<Seq<Seq<char>>>) -> Seq<
    Seq<char>,
>
    decreases others.len(),
{
    if others.len() == 0 {
        entry
    } else {
        merged_scope_names(entry, others.drop_last()) + names_not_in(others.last(), entry)
    }
}

/// The names of the branch scopes followed by those of the else scope.
pub open spec fn branch_scope_names(branches: Seq<Scope>, else_scope: Scope) -> Seq<Seq<Seq<char>>> {
    branches.map_values(|s: Scope| s.spec_names()).push(else_scope.spec_names())
}

/// Append to `names` those of `list` that `entry` does not bind.
fn push_names_outside(names: &mut Vec<String>, list: &Vec<String>, entry: &Scope)
    ensures
        final(names)@.map_values(|s: String| s@) == old(names)@.map_values(|s: String| s@)
            + names_not_in(list@.map_values(|s: String| s@), entry.spec_names()),
{
    let ghost all = list@.map_values(|s: String| s@);
    let ghost start = names@.map_values(|s: String| s@);
    let mut i: usize = 0;
    while i < list.len()
        invariant
            i <= list@.len(),
            all == list@.map_values(|s: String| s@),
            names@.map_values(|s: String| s@) == start + names_not_in(
                all.take(i as int),
                entry.spec_names(),
            ),
        decreases list@.len() - i,
    {
        proof {
            assert(all.take(i + 1).drop_last() =~= all.take(i as int));
            assert(all.take(i + 1).last() == list@[i as int]@);
        }
        if !entry.contains_key(list[i].as_str()) {
            let ghost before = names@;
            names.push(list[i].clone());
            proof {
                assert(names@.map_values(|s: String| s@) =~= before.map_values(|s: String| s@).push(
                    list@[i as int]@,
                ));
            }
        }
        i = i + 1;
    }
    proof {
        assert(all.take(list@.len() as int) =~= all);
    }
}

/// How many names the first `k` lists hold together.
pub open spec fn names_total(lists: Seq<Seq<Seq<char>>>, k: nat) -> int
    decreases k,
{
    if k == 0 {
        0
    } else {
        names_total(lists, (k - 1) as nat) + lists[k - 1].len()
    }
}

proof fn lemma_names_total_mono(lists: Seq<Seq<Seq<char>>>, k1: nat, k2: nat)
    requires
        k1 <= k2,
    ensures
        names_total(lists, k1) <= names_total(lists, k2),
    decreases k2,
{
    if k1 < k2 {
        lemma_names_total_mono(lists, k1, (k2 - 1) as nat);
    }
}

/// How many names the entry, branch and else scopes of an if-statement
/// hold together: the room the merge reserves for their names.
pub open spec fn spec_scope_name_total(entry: Scope, branches: Seq<Scope>, else_scope: Scope) -> int {
    entry.spec_names().len() + names_total(branch_scope_names(branches, else_scope), branches.len() + 1)
}

/// The allocator refusals that collecting the names of an if-statement
/// merge can report.
pub open spec fn spec_branch_merge_capacity_error(e: LowerError, span: Span) -> bool {
    ||| spec_capacity_error(e, "branch merge entry scope name count"@, span)
    ||| spec_capacity_error(e, "branch merge scoped-name snapshot count"@, span)
    ||| spec_capacity_error(e, "branch merge scope name count"@, span)
}

/// The names an if-statement merge must consider: the entry scope's names,
/// then the names each branch (and the else branch) bound that the entry
/// scope did not. The count of scope snapshots and the count of names to
/// reserve room for must fit in `usize`; when one does not, its overflow
/// is reported (unless the allocator refused an earlier reservation).
pub fn collect_scope_names(entry: &Scope, branches: &[Scope], else_scope: &Scope, span: Span) -> (r:
    Result<Vec<String>, LowerError>)
    ensures
        branches@.len() + 1 > usize::MAX ==> r is Err,
        spec_scope_name_total(*entry, branches@, *else_scope) > usize::MAX ==> r is Err,
        match r {
            Ok(names) => names@.map_values(|s: String| s@) == merged_scope_names(
                entry.spec_names(),
                branch_scope_names(branches@, *else_scope),
            ),
            Err(e) => spec_branch_merge_capacity_error(e, span) || (branches@.len() + 1 > usize::MAX
                && spec_contract_error(
                e,
                "branch merge scoped-name snapshot count exceeds host limits"@,
                span,
            )) || (spec_scope_name_total(*entry, branches@, *else_scope) > usize::MAX && spec_contract_error(
                e,
                "branch merge scope name count exceeds host limits"@,
                span,
            )),
        },
{
    let entry_names = entry.keys_checked("branch merge entry scope name count", span)?;
    let scoped_count = match branches.len().checked_add(1) {
        Some(c) => c,
        None => {
            return Err(contract_violation(
                String::from_str("branch merge scoped-name snapshot count exceeds host limits"),
                span,
            ));
        },
    };
    let mut scoped_names: Vec<Vec<String>> = vec_with_capacity(
        scoped_count,
        "branch merge scoped-name snapshot count",
        span,
    )?;
    let ghost others = branch_scope_names(branches@, *else_scope);
    let mut capacity: usize = entry_names.len();
    let mut b: usize = 0;
    while b < scoped_count
        invariant
            b <= scoped_count,
            scoped_count == branches@.len() + 1,
            others == branch_scope_names(branches@, *else_scope),
            scoped_names@.len() == b,
            forall|j: int| 0 <= j < b ==> (#[trigger] scoped_names@[j])@.map_values(|s: String| s@) == others[j],
            capacity == entry.spec_names().len() + names_total(others, b as nat),
        decreases scoped_count - b,
    {
        let scoped = if b < branches.len() {
            &branches[b]
        } else {
            else_scope
        };
        let names = scoped.keys_checked("branch merge scope name count", span)?;
        proof {
            if b < branches.len() {
                assert(others[b as int] == branches@[b as int].spec_names());
            } else {
                assert(others[b as int] == else_scope.spec_names());
            }
            assert(names@.map_values(|s: String| s@).len() == names@.len());
        }
        capacity = match capacity.checked_add(names.len()) {
            Some(c) => c,
            None => {
                proof {
                    lemma_names_total_mono(others, (b + 1) as nat, scoped_count as nat);
                }
                return Err(contract_violation(
                    String::from_str("branch merge scope name count exceeds host limits"),
                    span,
                ));
            },
        };
        proof {
            if b < branches.len() {
                assert(others[b as int] == branches@[b as int].spec_names());
            } else {
                assert(others[b as int] == else_scope.spec_names());
            }
        }
        scoped_names.push(names);
        b = b + 1;
    }
    let mut names: Vec<String> = vec_with_capacity(capacity, "branch merge scope name count", span)?;
    let mut k: usize = 0;
    while k < entry_names.len()
        invariant
            k <= entry_names.len(),
            entry_names@.map_values(|s: String| s@) == entry.spec_names(),
            names@.map_values(|s: String| s@) == entry.spec_names().take(k as int),
        decreases entry_names.len() - k,
    {
        let ghost before = names@;
        names.push(entry_names[k].clone());
        proof {
            assert(names@.map_values(|s: String| s@) =~= before.map_values(|s: String| s@).push(
                entry_names@[k as int]@,
            ));
            assert(entry.spec_names().take(k + 1) =~= entry.spec_names().take(k as int).push(
                entry_names@[k as int]@,
            ));
        }
        k = k + 1;
    }
    proof {
        assert(entry.spec_names().take(entry_names.len() as int) =~= entry.spec_names());
    }
    let mut j: usize = 0;
    while j < scoped_names.len()
        invariant
            j <= scoped_names@.len(),
            scoped_names@.len() == others.len(),
            others == branch_scope_names(branches@, *else_scope),
            forall|i: int| 0 <= i < scoped_names@.len() ==> (#[trigger] scoped_names@[i])@.map_values(|s: String| s@) == others[i],
            names@.map_values(|s: String| s@) == merged_scope_names(
                entry.spec_names(),
                others.take(j as int),
            ),
        decreases scoped_names@.len() - j,
    {
        push_names_outside(&mut names, &scoped_names[j], entry);
        proof {
            assert(others.take(j + 1).drop_last() =~= others.take(j as int));
            assert(others.take(j + 1).last() == others[j as int]);
        }
        j = j + 1;
    }
    proof {
        assert(others.take(scoped_names@.len() as int) =~= others);
    }
    Ok(names)
}

/// The names a projected function body has bound while its outputs are
/// projected symbolically: names with a full symbolic value, names with
/// per-element symbolic values, and names with a known shape.
pub struct FunctionProjectionScope {
    pub full: IndexMap<String, ()>,
    pub scalars: IndexMap<String, ()>,
    pub dims: IndexMap<String, ()>,
}

impl FunctionProjectionScope {
    pub open spec fn spec_full(self) -> Seq<Seq<char>> {
        name_set_keys(self.full)
    }

    pub open spec fn spec_scalars(self) -> Seq<Seq<char>> {
        name_set_keys(self.scalars)
    }

    pub open spec fn spec_dims(self) -> Seq<Seq<char>> {
        name_set_keys(self.dims)
    }

    pub fn new() -> (s: FunctionProjectionScope)
        ensures
            s.spec_full().len() == 0,
            s.spec_scalars().len() == 0,
            s.spec_dims().len() == 0,
    {
        FunctionProjectionScope { full: name_set_new(), scalars: name_set_new(), dims: name_set_new() }
    }
}

fn name_set_has(m: &IndexMap<String, ()>, name: &str) -> (b: bool)
    ensures
        b == name_set_keys(*m).contains(name@),
{
    match name_set_index_of(m, name) {
        Some(i) => {
            proof {
                assert(name_set_keys(*m)[i as int] == name@);
            }
            true
        },
        None => false,
    }
}

/// Whether the entry scope, the else scope or any branch scope holds
/// per-element values for `name`.
pub fn projection_scope_has_scalars(
    name: &str,
    entry_scope: &FunctionProjectionScope,
    branch_scopes: &[FunctionProjectionScope],
    else_scope: &FunctionProjectionScope,
) -> (b: bool)
    ensures
        b == (entry_scope.spec_scalars().contains(name@) || else_scope.spec_scalars().contains(
            name@,
        ) || exists|i: int|
            0 <= i < branch_scopes@.len() && #[trigger] branch_scopes@[i].spec_scalars().contains(
                name@,
            )),
{
    if name_set_has(&entry_scope.scalars, name) || name_set_has(&else_scope.scalars, name) {
        return true;
    }
    let mut i: usize = 0;
    while i < branch_scopes.len()
        invariant
            i <= branch_scopes.len(),
            !entry_scope.spec_scalars().contains(name@),
            !else_scope.spec_scalars().contains(name@),
            forall|j: int| 0 <= j < i ==> !(#[trigger] branch_scopes@[j].spec_scalars().contains(name@)),
        decreases branch_scopes.len() - i,
    {
        if name_set_has(&branch_scopes[i].scalars, name) {
            proof {
                assert(branch_scopes@[i as int].spec_scalars().contains(name@));
            }
            return true;
        }
        i = i + 1;
    }
    false
}

/// Whether the entry scope, the else scope or any branch scope holds a
/// full symbolic value for `name`.
pub fn projection_scope_has_full(
    name: &str,
    entry_scope: &FunctionProjectionScope,
    branch_scopes: &[FunctionProjectionScope],
    else_scope: &FunctionProjectionScope,
) -> (b: bool)
    ensures
        b == (entry_scope.spec_full().contains(name@) || else_scope.spec_full().contains(name@)
            || exists|i: int|
            0 <= i < branch_scopes@.len() && #[trigger] branch_scopes@[i].spec_full().contains(name@)),
{
    if name_set_has(&entry_scope.full, name) || name_set_has(&else_scope.full, name) {
        return true;
    }
    let mut i: usize = 0;
    while i < branch_scopes.len()
        invariant
            i <= branch_scopes.len(),
            !entry_scope.spec_full().contains(name@),
            !else_scope.spec_full().contains(name@),
            forall|j: int| 0 <= j < i ==> !(#[trigger] branch_scopes@[j].spec_full().contains(name@)),
        decreases branch_scopes.len() - i,
    {
        if name_set_has(&branch_scopes[i].full, name) {
            proof {
                assert(branch_scopes@[i as int].spec_full().contains(name@));
            }
            return true;
        }
        i = i + 1;
    }
    false
}

/// Distinct names in first-seen order: each name of `names` is appended
/// to `acc` unless already there.
pub open spec fn add_distinct(acc: Seq<Seq<char>>, names: Seq<Seq<char>>) -> Seq<Seq<char>>
    decreases names.len(),
{
    if names.len() == 0 {
        acc
    } else {
        let prev = add_distinct(acc, names.drop_last());
        if prev.contains(names.last()) {
            prev
        } else {
            prev.push(names.last())
        }
    }
}

/// The names of a projection scope in the order they are merged: full
/// values, then per-element values, then shapes.
pub open spec fn projection_scope_name_order(s: FunctionProjectionScope) -> Seq<Seq<char>> {
    s.spec_full() + s.spec_scalars() + s.spec_dims()
}

/// All names of the given scopes, each once, in first-seen order.
pub open spec fn merged_projection_names(scopes: Seq<FunctionProjectionScope>) -> Seq<Seq<char>>
    decreases scopes.len(),
{
    if scopes.len() == 0 {
        Seq::empty()
    } else {
        add_distinct(merged_projection_names(scopes.drop_last()), projection_scope_name_order(
            scopes.last(),
        ))
    }
}

/// The keys of a name set built only by appending distinct names stay distinct.
proof fn lemma_push_distinct(keys: Seq<Seq<char>>, k: Seq<char>)
    requires
        keys.no_duplicates(),
        !keys.contains(k),
    ensures
        keys.push(k).no_duplicates(),
{
    let nk = keys.push(k);
    assert forall|a: int, b: int| 0 <= a < nk.len() && 0 <= b < nk.len() && a != b implies nk[a]
        != nk[b] by {
        if a == keys.len() as int {
            assert(nk[b] == keys[b]);
        } else if b == keys.len() as int {
            assert(nk[a] == keys[a]);
        }
    }
}

/// Reserve room for `additional` more names in a projection name set.
pub fn reserve_projection_name_capacity(names: &mut IndexMap<String, ()>, additional: usize, span: Span) -> (r:
    Result<(), LowerError>)
    ensures
        name_set_keys(*final(names)) == name_set_keys(*old(names)),
        r matches Err(e) ==> spec_contract_error(
            e,
            "projection scope name count capacity exceeds host memory limits"@,
            span,
        ),
{
    if name_set_try_reserve(names, additional) {
        Ok(())
    } else {
        Err(contract_violation(
            String::from_str("projection scope name count capacity exceeds host memory limits"),
            span,
        ))
    }
}

fn insert_names(names: &mut IndexMap<String, ()>, source: &IndexMap<String, ()>, span: Span) -> (r:
    Result<(), LowerError>)
    requires
        name_set_keys(*old(names)).no_duplicates(),
    ensures
        match r {
            Ok(()) => name_set_keys(*final(names)) == add_distinct(name_set_keys(*old(names)), name_set_keys(*source))
                && name_set_keys(*final(names)).no_duplicates(),
            Err(e) => spec_contract_error(
                e,
                "projection scope name count capacity exceeds host memory limits"@,
                span,
            ),
        },
{
    let n = name_set_len(source);
    let ghost start = name_set_keys(*names);
    let ghost all = name_set_keys(*source);
    let mut i: usize = 0;
    while i < n
        invariant
            i <= n,
            n == all.len(),
            all == name_set_keys(*source),
            name_set_keys(*names) == add_distinct(start, all.take(i as int)),
            name_set_keys(*names).no_duplicates(),
        decreases n - i,
    {
        let key = name_set_key_at(source, i).unwrap();
        proof {
            assert(all.take(i + 1).drop_last() =~= all.take(i as int));
            assert(all.take(i + 1).last() == key@);
        }
        reserve_projection_name_capacity(names, 1, span)?;
        let ghost before = name_set_keys(*names);
        let added = name_set_insert(names, key.clone());
        proof {
            if added {
                lemma_push_distinct(before, key@);
            }
        }
        i = i + 1;
    }
    proof {
        assert(all.take(n as int) =~= all);
    }
    Ok(())
}

pub proof fn lemma_add_distinct_concat(acc: Seq<Seq<char>>, a: Seq<Seq<char>>, b: Seq<Seq<char>>)
    ensures
        add_distinct(acc, a + b) == add_distinct(add_distinct(acc, a), b),
    decreases b.len(),
{
    if b.len() == 0 {
        assert(a + b =~= a);
    } else {
        assert((a + b).drop_last() =~= a + b.drop_last());
        assert((a + b).last() == b.last());
        lemma_add_distinct_concat(acc, a, b.drop_last());
    }
}

/// Adding names keeps the names already there and takes in every new one.
proof fn lemma_add_distinct_keeps(acc: Seq<Seq<char>>, names: Seq<Seq<char>>, x: Seq<char>)
    requires
        acc.contains(x) || names.contains(x),
    ensures
        add_distinct(acc, names).contains(x),
    decreases names.len(),
{
    if names.len() > 0 {
        let prev = add_distinct(acc, names.drop_last());
        if acc.contains(x) || names.drop_last().contains(x) {
            lemma_add_distinct_keeps(acc, names.drop_last(), x);
        } else {
            assert(names.last() == x) by {
                let k = choose|k: int| 0 <= k < names.len() && names[k] == x;
                if k < names.len() - 1 {
                    assert(names.drop_last()[k] == x);
                }
            }
        }
        if !prev.contains(names.last()) {
            if prev.contains(x) {
                let k = choose|k: int| 0 <= k < prev.len() && prev[k] == x;
                assert(prev.push(names.last())[k] == x);
            } else {
                assert(prev.push(names.last())[prev.len() as int] == x);
            }
        }
    }
}

/// Every name of every scope is among the merged names.
proof fn lemma_merged_names_cover(scopes: Seq<FunctionProjectionScope>, i: int, x: Seq<char>)
    requires
        0 <= i < scopes.len(),
        projection_scope_name_order(scopes[i]).contains(x),
    ensures
        merged_projection_names(scopes).contains(x),
    decreases scopes.len(),
{
    let prev = merged_projection_names(scopes.drop_last());
    if i < scopes.len() - 1 {
        assert(scopes.drop_last()[i] == scopes[i]);
        lemma_merged_names_cover(scopes.drop_last(), i, x);
    }
    lemma_add_distinct_keeps(prev, projection_scope_name_order(scopes.last()), x);
}

/// A name in one of the scopes' sets is in its name order.
proof fn lemma_name_order_has(s: FunctionProjectionScope, x: Seq<char>)
    requires
        s.spec_full().contains(x) || s.spec_scalars().contains(x) || s.spec_dims().contains(x),
    ensures
        projection_scope_name_order(s).contains(x),
{
    let o = projection_scope_name_order(s);
    let f = s.spec_full();
    let c = s.spec_scalars();
    let d = s.spec_dims();
    if f.contains(x) {
        let k = choose|k: int| 0 <= k < f.len() && f[k] == x;
        assert(o[k] == x);
    } else if c.contains(x) {
        let k = choose|k: int| 0 <= k < c.len() && c[k] == x;
        assert(o[f.len() + k] == x);
    } else {
        let k = choose|k: int| 0 <= k < d.len() && d[k] == x;
        assert(o[f.len() + c.len() + k] == x);
    }
}

/// A name that the entry, a branch or the else scope projects, fully or
/// as scalars (what `projection_scope_has_full` and
/// `projection_scope_has_scalars` report), is among the names that
/// `projection_scope_names` merges from those scopes.
pub proof fn law_projected_names_are_merged(
    name: Seq<char>,
    entry_scope: FunctionProjectionScope,
    branch_scopes: Seq<FunctionProjectionScope>,
    else_scope: FunctionProjectionScope,
)
    requires
        entry_scope.spec_scalars().contains(name) || else_scope.spec_scalars().contains(name) || (exists|i: int|
            0 <= i < branch_scopes.len() && #[trigger] branch_scopes[i].spec_scalars().contains(name))
            || entry_scope.spec_full().contains(name) || else_scope.spec_full().contains(name) || (exists|i: int|
            0 <= i < branch_scopes.len() && #[trigger] branch_scopes[i].spec_full().contains(name)),
    ensures
        merged_projection_names(seq![entry_scope] + branch_scopes + seq![else_scope]).contains(name),
{
    let all = seq![entry_scope] + branch_scopes + seq![else_scope];
    let last = all.len() - 1;
    assert(all[0] == entry_scope);
    assert(all[last] == else_scope);
    if entry_scope.spec_scalars().contains(name) || entry_scope.spec_full().contains(name) {
        lemma_name_order_has(entry_scope, name);
        lemma_merged_names_cover(all, 0, name);
    } else if else_scope.spec_scalars().contains(name) || else_scope.spec_full().contains(name) {
        lemma_name_order_has(else_scope, name);
        lemma_merged_names_cover(all, last, name);
    } else {
        let i = choose|i: int|
            0 <= i < branch_scopes.len() && (branch_scopes[i].spec_scalars().contains(name)
                || branch_scopes[i].spec_full().contains(name));
        assert(all[i + 1] == branch_scopes[i]);
        lemma_name_order_has(branch_scopes[i], name);
        lemma_merged_names_cover(all, i + 1, name);
    }
}

/// Every name bound in the entry scope, a branch scope or the else scope,
/// each once, in first-seen order (entry, branches in order, else; within
/// a scope full values, per-element values, shapes).
pub fn projection_scope_names(
    entry_scope: &FunctionProjectionScope,
    branch_scopes: &[FunctionProjectionScope],
    else_scope: &FunctionProjectionScope,
    span: Span,
) -> (r: Result<Vec<String>, LowerError>)
    ensures
        match r {
            Ok(names) => names@.map_values(|s: String| s@) == merged_projection_names(
                seq![*entry_scope] + branch_scopes@ + seq![*else_scope],
            ) && names@.map_values(|s: String| s@).no_duplicates(),
            Err(e) => spec_contract_error(
                e,
                "projection scope name count capacity exceeds host memory limits"@,
                span,
            ) || spec_capacity_error(e, "projection scope name count"@, span),
        },
{
    let ghost scopes = seq![*entry_scope] + branch_scopes@ + seq![*else_scope];
    let mut set = name_set_new();
    proof {
        assert(name_set_keys(set) =~= Seq::<Seq<char>>::empty());
    }
    insert_projection_scope_names(&mut set, entry_scope, span)?;
    proof {
        assert(scopes.take(1).drop_last() =~= Seq::<FunctionProjectionScope>::empty());
        assert(scopes[0] == *entry_scope);
        assert(scopes.take(1).last() == *entry_scope);
        assert(merged_projection_names(scopes.take(1).drop_last()) == Seq::<Seq<char>>::empty());
        assert(name_set_keys(set) == merged_projection_names(scopes.take(1)));
    }
    let mut b: usize = 0;
    while b < branch_scopes.len()
        invariant
            b <= branch_scopes.len(),
            scopes == seq![*entry_scope] + branch_scopes@ + seq![*else_scope],
            name_set_keys(set) == merged_projection_names(scopes.take(b + 1)),
            name_set_keys(set).no_duplicates(),
        decreases branch_scopes.len() - b,
    {
        insert_projection_scope_names(&mut set, &branch_scopes[b], span)?;
        proof {
            assert(scopes.take(b + 2).drop_last() =~= scopes.take(b + 1));
            assert(scopes.take(b + 2).last() == branch_scopes@[b as int]);
        }
        b = b + 1;
    }
    insert_projection_scope_names(&mut set, else_scope, span)?;
    proof {
        assert(scopes.take(branch_scopes.len() + 2) =~= scopes);
        assert(scopes.drop_last() =~= scopes.take(branch_scopes.len() + 1));
    }
    let n = name_set_len(&set);
    let mut names: Vec<String> = vec_with_capacity(n, "projection scope name count", span)?;
    let mut i: usize = 0;
    while i < n
        invariant
            i <= n,
            n == name_set_keys(set).len(),
            names@.map_values(|s: String| s@) == name_set_keys(set).take(i as int),
        decreases n - i,
    {
        let key = name_set_key_at(&set, i).unwrap();
        let ghost before = names@;
        names.push(key.clone());
        proof {
            assert(names@.map_values(|s: String| s@) =~= before.map_values(|s: String| s@).push(
                key@,
            ));
            assert(name_set_keys(set).take(i + 1) =~= name_set_keys(set).take(i as int).push(key@));
        }
        i = i + 1;
    }
    proof {
        assert(name_set_keys(set).take(n as int) =~= name_set_keys(set));
    }
    Ok(names)
}

/// Add the names of one projection scope to `names`: full values, then
/// per-element values, then shapes, each name once.
pub fn insert_projection_scope_names(names: &mut IndexMap<String, ()>, scope: &FunctionProjectionScope, span: Span) -> (r:
    Result<(), LowerError>)
    requires
        name_set_keys(*old(names)).no_duplicates(),
    ensures
        match r {
            Ok(()) => name_set_keys(*final(names)) == add_distinct(
                name_set_keys(*old(names)),
                projection_scope_name_order(*scope),
            ) && name_set_keys(*final(names)).no_duplicates(),
            Err(e) => spec_contract_error(
                e,
                "projection scope name count capacity exceeds host memory limits"@,
                span,
            ),
        },
{
    let ghost start = name_set_keys(*names);
    insert_names(names, &scope.full, span)?;
    insert_names(names, &scope.scalars, span)?;
    insert_names(names, &scope.dims, span)?;
    proof {
        lemma_add_distinct_concat(start, scope.spec_full(), scope.spec_scalars());
        lemma_add_distinct_concat(
            start,
            scope.spec_full() + scope.spec_scalars(),
            scope.spec_dims(),
        );
    }
    Ok(())
}

} // verus!
