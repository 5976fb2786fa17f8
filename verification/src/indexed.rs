use vstd::prelude::*;

use indexmap::IndexMap;

use crate::collections::{
    entry_keys, position_map_entries, position_map_get, position_map_or_insert,
    position_map_with_capacity,
};
use crate::dims::{
    checked_dim_product, checked_product, lemma_checked_product_is_product,
    lemma_checked_product_positive, product, usize_ints,
};
use crate::shape::{
    all_positive, in_box, lemma_row_major_flat_roundtrip, lemma_row_major_roundtrip, row_major_flat,
    row_major_indices,
};

verus! {

/// One element of an indexed binding group: its one-based subscript tuple
/// and the parameter slot that holds its value.
pub struct IndexedBinding {
    pub indices: Vec<usize>,
    pub slot: usize,
}

/// The subscript tuples of a binding group, in group order.
pub open spec fn binding_keys(entries: Seq<IndexedBinding>) -> Seq<Seq<usize>> {
    entries.map_values(|e: IndexedBinding| e.indices@)
}

/// The longest tuple length among tuples of more than one subscript
/// (0 when there is none).
pub open spec fn multi_rank(keys: Seq<Seq<usize>>) -> nat
    decreases keys.len(),
{
    if keys.len() == 0 {
        0
    } else {
        let r = multi_rank(keys.drop_last());
        let l = keys.last().len();
        if l > 1 && l > r {
            l
        } else {
            r
        }
    }
}

/// The largest subscript at position `d` among tuples of more than one
/// subscript (0 when there is none).
pub open spec fn multi_extent(keys: Seq<Seq<usize>>, d: int) -> usize
    decreases keys.len(),
{
    if keys.len() == 0 {
        0
    } else {
        let e = multi_extent(keys.drop_last(), d);
        let k = keys.last();
        if k.len() > 1 && 0 <= d < k.len() && k[d] > e {
            k[d]
        } else {
            e
        }
    }
}

/// The number of one-subscript tuples.
pub open spec fn count_rank_one(keys: Seq<Seq<usize>>) -> nat
    decreases keys.len(),
{
    if keys.len() == 0 {
        0
    } else {
        count_rank_one(keys.drop_last()) + if keys.last().len() == 1 {
            1nat
        } else {
            0nat
        }
    }
}

/// The shape a binding group implies: with multi-subscript tuples, the
/// per-position maximum over those tuples; otherwise the number of
/// one-subscript tuples as a single dimension; otherwise no dimension.
pub open spec fn spec_infer_indexed_dims(keys: Seq<Seq<usize>>) -> Seq<usize> {
    if multi_rank(keys) > 0 {
        Seq::new(multi_rank(keys), |d: int| multi_extent(keys, d))
    } else if count_rank_one(keys) > 0 {
        seq![count_rank_one(keys) as usize]
    } else {
        Seq::empty()
    }
}

proof fn lemma_multi_extent_beyond_rank(keys: Seq<Seq<usize>>, d: int)
    requires
        d >= multi_rank(keys),
    ensures
        multi_extent(keys, d) == 0,
    decreases keys.len(),
{
    if keys.len() > 0 {
        lemma_multi_extent_beyond_rank(keys.drop_last(), d);
    }
}

proof fn lemma_count_rank_one_bound(keys: Seq<Seq<usize>>)
    ensures
        count_rank_one(keys) <= keys.len(),
    decreases keys.len(),
{
    if keys.len() > 0 {
        lemma_count_rank_one_bound(keys.drop_last());
    }
}

/// The shape implied by the subscripts of a binding group.
pub fn infer_indexed_dims(entries: &[IndexedBinding]) -> (dims: Vec<usize>)
    ensures
        dims@ == spec_infer_indexed_dims(binding_keys(entries@)),
{
    let ghost keys = binding_keys(entries@);
    let mut dims: Vec<usize> = Vec::new();
    let mut flat_count: usize = 0;
    let mut i: usize = 0;
    while i < entries.len()
        invariant
            i <= entries.len(),
            keys == binding_keys(entries@),
            dims@.len() == multi_rank(keys.take(i as int)),
            forall|d: int| 0 <= d < dims@.len() ==> dims@[d] == multi_extent(keys.take(i as int), d),
            flat_count == count_rank_one(keys.take(i as int)),
            flat_count <= i,
        decreases entries.len() - i,
    {
        let indices = &entries[i].indices;
        let ghost prev = keys.take(i as int);
        proof {
            assert(keys.take(i + 1).drop_last() =~= prev);
            assert(keys.take(i + 1).last() == indices@);
        }
        if indices.len() > 1 {
            let ghost before = dims@;
            while dims.len() < indices.len()
                invariant
                    before.len() <= dims@.len(),
                    dims@.len() <= indices@.len() || dims@.len() == before.len(),
                    dims@.subrange(0, before.len() as int) == before,
                    forall|d: int| before.len() <= d < dims@.len() ==> dims@[d] == 0,
                decreases indices@.len() - dims@.len(),
            {
                dims.push(0);
            }
            proof {
                assert forall|d: int| 0 <= d < dims@.len() implies dims@[d] == multi_extent(
                    prev,
                    d,
                ) by {
                    if d < before.len() {
                        assert(dims@[d] == dims@.subrange(0, before.len() as int)[d]);
                    } else {
                        lemma_multi_extent_beyond_rank(prev, d);
                    }
                }
            }
            let mut d: usize = 0;
            while d < indices.len()
                invariant
                    d <= indices@.len(),
                    indices@.len() <= dims@.len(),
                    dims@.len() == (if before.len() > indices@.len() {
                        before.len()
                    } else {
                        indices@.len()
                    }),
                    forall|e: int|
                        0 <= e < dims@.len() ==> dims@[e] == (if e < d && indices@[e]
                            > multi_extent(prev, e) {
                            indices@[e]
                        } else {
                            multi_extent(prev, e)
                        }),
                decreases indices@.len() - d,
            {
                if indices[d] > dims[d] {
                    dims.set(d, indices[d]);
                }
                d = d + 1;
            }
        } else if indices.len() == 1 {
            flat_count = flat_count + 1;
        }
        i = i + 1;
    }
    proof {
        assert(keys.take(entries.len() as int) =~= keys);
        lemma_count_rank_one_bound(keys);
    }
    if dims.len() > 0 {
        proof {
            assert(dims@ =~= Seq::new(multi_rank(keys), |d: int| multi_extent(keys, d)));
        }
        dims
    } else if flat_count > 0 {
        let mut one: Vec<usize> = Vec::new();
        one.push(flat_count);
        proof {
            assert(one@ =~= seq![count_rank_one(keys) as usize]);
        }
        one
    } else {
        Vec::new()
    }
}

/// Lexicographic order of subscript tuples, as `Vec<usize>` compares.
pub open spec fn lex_lt(a: Seq<usize>, b: Seq<usize>) -> bool
    decreases a.len(),
{
    if a.len() == 0 {
        b.len() > 0
    } else if b.len() == 0 {
        false
    } else if a[0] < b[0] {
        true
    } else if a[0] > b[0] {
        false
    } else {
        lex_lt(a.drop_first(), b.drop_first())
    }
}

proof fn lemma_lex_transitive(a: Seq<usize>, b: Seq<usize>, c: Seq<usize>)
    requires
        lex_lt(a, b),
        lex_lt(b, c),
    ensures
        lex_lt(a, c),
    decreases a.len(),
{
    if a.len() > 0 && b.len() > 0 && c.len() > 0 {
        if a[0] == b[0] && b[0] == c[0] {
            lemma_lex_transitive(a.drop_first(), b.drop_first(), c.drop_first());
        }
    }
}

proof fn lemma_lex_total(a: Seq<usize>, b: Seq<usize>)
    ensures
        a == b || lex_lt(a, b) || lex_lt(b, a),
    decreases a.len(),
{
    if a.len() == 0 && b.len() == 0 {
        assert(a =~= b);
    } else if a.len() > 0 && b.len() > 0 && a[0] == b[0] {
        lemma_lex_total(a.drop_first(), b.drop_first());
        if a.drop_first() == b.drop_first() {
            assert(a =~= seq![a[0]] + a.drop_first());
            assert(b =~= seq![b[0]] + b.drop_first());
        }
    }
}

/// Whether tuple `a` sorts before tuple `b`.
fn indices_lt(a: &Vec<usize>, b: &Vec<usize>) -> (r: bool)
    ensures
        r == lex_lt(a@, b@),
{
    let mut i: usize = 0;
    proof {
        assert(a@.skip(0) =~= a@);
        assert(b@.skip(0) =~= b@);
    }
    while i < a.len() && i < b.len()
        invariant
            i <= a@.len(),
            i <= b@.len(),
            lex_lt(a@, b@) == lex_lt(a@.skip(i as int), b@.skip(i as int)),
        decreases a@.len() - i,
    {
        proof {
            assert(a@.skip(i as int).drop_first() =~= a@.skip(i + 1));
            assert(b@.skip(i as int).drop_first() =~= b@.skip(i + 1));
        }
        if a[i] < b[i] {
            return true;
        }
        if a[i] > b[i] {
            return false;
        }
        i = i + 1;
    }
    i < b.len()
}

/// The length of the longest tuple (0 for an empty group).
pub open spec fn max_rank(keys: Seq<Seq<usize>>) -> nat
    decreases keys.len(),
{
    if keys.len() == 0 {
        0
    } else {
        let r = max_rank(keys.drop_last());
        if keys.last().len() > r {
            keys.last().len()
        } else {
            r
        }
    }
}

/// Position `x` of the group comes before position `y` in a stable
/// lexicographic sort by subscripts.
pub open spec fn entry_before(keys: Seq<Seq<usize>>, x: int, y: int) -> bool {
    lex_lt(keys[x], keys[y]) || (keys[x] == keys[y] && x < y)
}

/// `order` lists, once each and in stable lexicographic order of their
/// subscripts, exactly the positions whose tuple has length `rank`.
pub open spec fn is_stable_rank_order(keys: Seq<Seq<usize>>, rank: nat, order: Seq<int>) -> bool {
    &&& forall|k: int| 0 <= k < order.len() ==> 0 <= #[trigger] order[k] < keys.len() && keys[order[k]].len() == rank
    &&& forall|p: int| 0 <= p < keys.len() && keys[p].len() == rank ==> #[trigger] order.contains(p)
    &&& forall|k: int, l: int| 0 <= k < l < order.len() ==> entry_before(keys, #[trigger] order[k], #[trigger] order[l])
}

proof fn lemma_entry_before_transitive(keys: Seq<Seq<usize>>, x: int, y: int, z: int)
    requires
        entry_before(keys, x, y),
        entry_before(keys, y, z),
    ensures
        entry_before(keys, x, z),
{
    if lex_lt(keys[x], keys[y]) && lex_lt(keys[y], keys[z]) {
        lemma_lex_transitive(keys[x], keys[y], keys[z]);
    }
}

/// The full-rank entries of a binding group (those whose tuple is as long
/// as the longest), sorted by subscripts lexicographically; entries with
/// equal subscripts keep their group order.
pub fn sorted_flat_entries(entries: &[IndexedBinding]) -> (sorted: Vec<&IndexedBinding>)
    ensures
        exists|order: Seq<int>|
            #[trigger] is_stable_rank_order(binding_keys(entries@), max_rank(binding_keys(entries@)), order)
                && order.len() == sorted@.len() && forall|k: int|
                0 <= k < order.len() ==> sorted@[k] == entries@[#[trigger] order[k]],
{
    let ghost keys = binding_keys(entries@);
    let mut rank: usize = 0;
    let mut i: usize = 0;
    while i < entries.len()
        invariant
            i <= entries.len(),
            keys == binding_keys(entries@),
            rank == max_rank(keys.take(i as int)),
        decreases entries.len() - i,
    {
        proof {
            assert(keys.take(i + 1).drop_last() =~= keys.take(i as int));
        }
        if entries[i].indices.len() > rank {
            rank = entries[i].indices.len();
        }
        i = i + 1;
    }
    proof {
        assert(keys.take(entries.len() as int) =~= keys);
    }
    let mut order: Vec<usize> = Vec::new();
    let mut p: usize = 0;
    while p < entries.len()
        invariant
            p <= entries.len(),
            keys == binding_keys(entries@),
            rank == max_rank(keys),
            forall|k: int| 0 <= k < order@.len() ==> (#[trigger] order@[k]) < p && keys[order@[k] as int].len() == rank,
            forall|q: int| 0 <= q < p && keys[q].len() == rank ==> #[trigger] order@.contains(q as usize),
            forall|k: int, l: int|
                0 <= k < l < order@.len() ==> entry_before(keys, #[trigger] order@[k] as int, #[trigger] order@[l] as int),
        decreases entries.len() - p,
    {
        if entries[p].indices.len() == rank {
            let mut j: usize = order.len();
            while j > 0 && indices_lt(&entries[p].indices, &entries[order[j - 1]].indices)
                invariant
                    j <= order@.len(),
                    p < entries.len(),
                    keys == binding_keys(entries@),
                    forall|k: int| 0 <= k < order@.len() ==> (#[trigger] order@[k]) < p,
                    forall|l: int| j <= l < order@.len() ==> lex_lt(keys[p as int], keys[#[trigger] order@[l] as int]),
                decreases j,
            {
                j = j - 1;
            }
            let ghost old_order = order@;
            proof {
                if j > 0 {
                    let y = old_order[j - 1] as int;
                    lemma_lex_total(keys[y], keys[p as int]);
                    assert(entry_before(keys, y, p as int));
                }
            }
            order.insert(j, p);
            proof {
                let n = order@;
                assert forall|k: int, l: int| 0 <= k < l < n.len() implies entry_before(
                    keys,
                    #[trigger] n[k] as int,
                    #[trigger] n[l] as int,
                ) by {
                    if k < j && l < j {
                        assert(n[k] == old_order[k] && n[l] == old_order[l]);
                    } else if k < j && l == j {
                        if k < j - 1 {
                            lemma_entry_before_transitive(
                                keys,
                                old_order[k] as int,
                                old_order[j - 1] as int,
                                p as int,
                            );
                        }
                    } else if k < j && l > j {
                        assert(n[k] == old_order[k] && n[l] == old_order[l - 1]);
                    } else if k == j {
                        assert(n[l] == old_order[l - 1]);
                    } else {
                        assert(n[k] == old_order[k - 1] && n[l] == old_order[l - 1]);
                    }
                }
                assert forall|q: int| 0 <= q < p + 1 && keys[q].len() == rank implies #[trigger] n.contains(
                    q as usize,
                ) by {
                    if q == p {
                        assert(n[j as int] == p);
                    } else {
                        assert(old_order.contains(q as usize));
                        let k = choose|k: int| 0 <= k < old_order.len() && old_order[k] == q as usize;
                        if k < j {
                            assert(n[k] == q as usize);
                        } else {
                            assert(n[k + 1] == q as usize);
                        }
                    }
                }
                assert forall|k: int| 0 <= k < n.len() implies (#[trigger] n[k]) < p + 1 && keys[n[k] as int].len() == rank by {
                    if k < j {
                        assert(n[k] == old_order[k]);
                    } else if k > j {
                        assert(n[k] == old_order[k - 1]);
                    }
                }
            }
        }
        p = p + 1;
    }
    let mut sorted: Vec<&IndexedBinding> = Vec::new();
    let mut k: usize = 0;
    while k < order.len()
        invariant
            k <= order@.len(),
            sorted@.len() == k,
            forall|m: int| 0 <= m < order@.len() ==> (#[trigger] order@[m]) < entries@.len(),
            forall|m: int| 0 <= m < k ==> sorted@[m] == entries@[#[trigger] order@[m] as int],
        decreases order@.len() - k,
    {
        sorted.push(&entries[order[k]]);
        k = k + 1;
    }
    proof {
        let o = order@.map_values(|v: usize| v as int);
        assert forall|q: int| 0 <= q < keys.len() && keys[q].len() == rank implies #[trigger] o.contains(q) by {
            assert(order@.contains(q as usize));
            let m = choose|m: int| 0 <= m < order@.len() && order@[m] == q as usize;
            assert(o[m] == q);
        }
        assert(is_stable_rank_order(keys, rank as nat, o));
        assert forall|m: int| 0 <= m < o.len() implies sorted@[m] == entries@[#[trigger] o[m]] by {
            assert(o[m] == order@[m] as int);
        }
    }
    sorted
}


/// Row-major strides of a shape: each stride is the element count of the
/// dimensions after it (the last dimension is contiguous).
pub open spec fn row_major_strides(dims: Seq<int>) -> Seq<int> {
    Seq::new(dims.len(), |d: int| product(dims.skip(d + 1)))
}

/// The sum over positions `d` of `(indices[d] - 1) * strides[d]`.
pub open spec fn strided_offset(indices: Seq<int>, strides: Seq<int>) -> int
    decreases indices.len(),
{
    if indices.len() == 0 {
        0
    } else {
        strided_offset(indices.drop_last(), strides) + (indices.last() - 1) * strides[indices.len()
            - 1]
    }
}

/// The largest strided offset that one-based indices within `dims` reach.
pub open spec fn dense_span(dims: Seq<int>, strides: Seq<int>) -> int
    decreases dims.len(),
{
    if dims.len() == 0 {
        0
    } else {
        dense_span(dims.drop_last(), strides) + (if dims.last() > 0 {
            dims.last() - 1
        } else {
            0
        }) * strides[dims.len() - 1]
    }
}

proof fn lemma_dense_span_nonneg_mono(dims: Seq<int>, strides: Seq<int>, k: int)
    requires
        0 <= k <= dims.len(),
        dims.len() <= strides.len(),
        forall|d: int| 0 <= d < strides.len() ==> strides[d] >= 0,
    ensures
        0 <= dense_span(dims.take(k), strides) <= dense_span(dims, strides),
    decreases dims.len() - k,
{
    if k < dims.len() {
        lemma_dense_span_nonneg_mono(dims, strides, k + 1);
        lemma_dense_span_nonneg(dims.take(k), strides);
        assert(dims.take(k + 1).drop_last() =~= dims.take(k));
        assert(dims.take(k + 1).last() == dims[k]);
        let x = dims[k];
        let m = if x > 0 {
            x - 1
        } else {
            0
        };
        let sk = strides[k];
        assert(m * sk >= 0) by (nonlinear_arith)
            requires
                m >= 0,
                sk >= 0,
        ;
    } else {
        assert(dims.take(k) =~= dims);
        lemma_dense_span_nonneg(dims, strides);
    }
}

proof fn lemma_dense_span_nonneg(dims: Seq<int>, strides: Seq<int>)
    requires
        dims.len() <= strides.len(),
        forall|d: int| 0 <= d < strides.len() ==> strides[d] >= 0,
    ensures
        0 <= dense_span(dims, strides),
    decreases dims.len(),
{
    if dims.len() > 0 {
        lemma_dense_span_nonneg(dims.drop_last(), strides);
        let x = dims.last();
        let m = if x > 0 {
            x - 1
        } else {
            0
        };
        let sk = strides[dims.len() - 1];
        assert(m * sk >= 0) by (nonlinear_arith)
            requires
                m >= 0,
                sk >= 0,
        ;
    }
}

/// The first `k` one-based indices lie within their dimensions.
pub open spec fn in_range_prefix(dims: Seq<int>, indices: Seq<int>, k: int) -> bool {
    forall|e: int| 0 <= e < k ==> e < dims.len() && 1 <= #[trigger] indices[e] <= dims[e]
}

/// Every prefix of in-range indices reaches a further dimension (while
/// indices remain) and a strided offset that fits in `usize`.
pub open spec fn prefix_offsets_fit(dims: Seq<int>, indices: Seq<int>, strides: Seq<int>) -> bool {
    forall|k: int|
        0 <= k <= indices.len() && #[trigger] in_range_prefix(dims, indices, k) ==> (k < indices.len()
            ==> k < dims.len()) && strided_offset(indices.take(k), strides) <= usize::MAX
}

/// An in-range prefix of indices reaches at most the dense span of the
/// same prefix of dimensions.
proof fn lemma_prefix_offset_within_span(dims: Seq<int>, indices: Seq<int>, strides: Seq<int>, k: int)
    requires
        0 <= k <= indices.len(),
        k <= dims.len(),
        indices.len() <= strides.len(),
        forall|d: int| 0 <= d < strides.len() ==> strides[d] >= 0,
        in_range_prefix(dims, indices, k),
    ensures
        0 <= strided_offset(indices.take(k), strides) <= dense_span(dims.take(k), strides),
    decreases k,
{
    if k > 0 {
        assert(in_range_prefix(dims, indices, k - 1));
        lemma_prefix_offset_within_span(dims, indices, strides, k - 1);
        assert(indices.take(k).drop_last() =~= indices.take(k - 1));
        assert(dims.take(k).drop_last() =~= dims.take(k - 1));
        assert(indices.take(k).last() == indices[k - 1]);
        assert(dims.take(k).last() == dims[k - 1]);
        let x = indices[k - 1];
        let m = dims[k - 1];
        let sk = strides[k - 1];
        assert(1 <= x <= m);
        assert((x - 1) * sk <= (m - 1) * sk) by (nonlinear_arith)
            requires
                1 <= x <= m,
                sk >= 0,
        ;
        assert((x - 1) * sk >= 0) by (nonlinear_arith)
            requires
                1 <= x,
                sk >= 0,
        ;
    }
}

/// When the dense span of a box fits in `usize`, so does the flat index
/// of every in-range prefix of indices over it.
pub proof fn lemma_dense_span_bounds_prefixes(dims: Seq<usize>, indices: Seq<usize>, strides: Seq<usize>)
    requires
        indices.len() == strides.len(),
        strides.len() <= dims.len(),
        dense_span(usize_ints(dims).take(strides.len() as int), usize_ints(strides)) <= usize::MAX,
    ensures
        prefix_offsets_fit(usize_ints(dims), usize_ints(indices), usize_ints(strides)),
{
    let n = strides.len() as int;
    let dd = usize_ints(dims);
    let ii = usize_ints(indices);
    let ss = usize_ints(strides);
    assert forall|k: int|
        0 <= k <= ii.len() && #[trigger] in_range_prefix(dd, ii, k) implies (k < ii.len() ==> k
        < dd.len()) && strided_offset(ii.take(k), ss) <= usize::MAX by {
        lemma_prefix_offset_within_span(dd, ii, ss, k);
        lemma_dense_span_nonneg_mono(dd.take(n), ss, k);
        assert(dd.take(n).take(k) =~= dd.take(k));
    }
}

/// Row-major flat index for one-based `indices` over a dense box with the
/// given `strides`, or `None` when the rank differs from the stride count
/// or some subscript lies outside `[1, dims[d]]`.
pub fn dense_flat_index(indices: &[usize], dims: &[usize], strides: &[usize]) -> (r: Option<usize>)
    requires
        indices@.len() == strides@.len() ==> prefix_offsets_fit(
            usize_ints(dims@),
            usize_ints(indices@),
            usize_ints(strides@),
        ),
    ensures
        r == (if indices@.len() != strides@.len() {
            None
        } else if in_range_prefix(usize_ints(dims@), usize_ints(indices@), strides@.len() as int) {
            Some(strided_offset(usize_ints(indices@), usize_ints(strides@)) as usize)
        } else {
            None
        }),
        indices@.len() == strides@.len() && strides@.len() <= dims@.len() ==> (in_range_prefix(
            usize_ints(dims@),
            usize_ints(indices@),
            strides@.len() as int,
        ) <==> in_box(usize_ints(dims@).take(strides@.len() as int), usize_ints(indices@))),
{
    let ghost n = strides@.len() as int;
    let ghost dd = usize_ints(dims@);
    let ghost ii = usize_ints(indices@);
    let ghost ss = usize_ints(strides@);
    proof {
        if indices@.len() == strides@.len() && n <= dims@.len() {
            let t = dd.take(n);
            if in_range_prefix(dd, ii, n) {
                assert forall|i: int| 0 <= i < t.len() implies 1 <= #[trigger] ii[i] <= t[i] by {
                    assert(1 <= ii[i] <= dd[i]);
                }
            }
            if in_box(t, ii) {
                assert forall|e: int| 0 <= e < n implies e < dd.len() && 1 <= #[trigger] ii[e] <= dd[e] by {
                    assert(1 <= ii[e] <= t[e]);
                }
            }
        }
    }
    if indices.len() != strides.len() {
        return None;
    }
    let mut flat: usize = 0;
    let mut d: usize = 0;
    proof {
        assert(ii.take(0) =~= Seq::<int>::empty());
    }
    while d < indices.len()
        invariant
            n == strides@.len(),
            indices@.len() == n,
            dd == usize_ints(dims@),
            ii == usize_ints(indices@),
            ss == usize_ints(strides@),
            prefix_offsets_fit(dd, ii, ss),
            d <= n,
            in_range_prefix(dd, ii, d as int),
            flat == strided_offset(ii.take(d as int), ss),
        decreases n - d,
    {
        proof {
            assert(in_range_prefix(dd, ii, d as int));
        }
        let index = indices[d];
        if index == 0 || index > dims[d] {
            proof {
                assert(ii[d as int] == index as int);
                assert(dd[d as int] == dims@[d as int] as int);
                assert(!in_range_prefix(dd, ii, n));
            }
            return None;
        }
        proof {
            assert(ii[d as int] == index as int);
            assert(dd[d as int] == dims@[d as int] as int);
            assert(in_range_prefix(dd, ii, d + 1));
            assert(ii.take(d + 1).drop_last() =~= ii.take(d as int));
            assert(ii.take(d + 1).last() == index as int);
            let x = index as int;
            let sk = strides@[d as int] as int;
            assert((x - 1) * sk >= 0) by (nonlinear_arith)
                requires
                    1 <= x,
                    sk >= 0,
            ;
        }
        flat = flat + (index - 1) * strides[d];
        d = d + 1;
    }
    proof {
        assert(ii.take(n) =~= ii);
    }
    Some(flat)
}

/// A product is its first factor times the product of the others.
proof fn lemma_product_first(s: Seq<int>)
    requires
        s.len() > 0,
    ensures
        product(s) == s[0] * product(s.drop_first()),
    decreases s.len(),
{
    if s.len() == 1 {
        assert(s.drop_last() =~= Seq::<int>::empty());
        assert(s.drop_first() =~= Seq::<int>::empty());
    } else {
        lemma_product_first(s.drop_last());
        assert(s.drop_last().drop_first() =~= s.drop_first().drop_last());
        assert(s.drop_first().last() == s.last());
        let a = s[0];
        let b = product(s.drop_first().drop_last());
        let c = s.last();
        assert(a * b * c == a * (b * c)) by (nonlinear_arith);
    }
}

/// Over positive dimensions, every product of a suffix is positive and at
/// most the whole product.
proof fn lemma_product_suffix_bound(dims: Seq<int>, k: int)
    requires
        all_positive(dims),
        0 <= k <= dims.len(),
    ensures
        1 <= product(dims.skip(k)) <= product(dims),
    decreases k,
{
    if k == 0 {
        assert(dims.skip(0) =~= dims);
        lemma_product_positive_all(dims);
    } else {
        lemma_product_suffix_bound(dims, k - 1);
        let t = dims.skip(k - 1);
        lemma_product_first(t);
        assert(t.drop_first() =~= dims.skip(k));
        lemma_product_positive_all(dims.skip(k));
        let a = t[0];
        let p = product(dims.skip(k));
        assert(a * p >= p) by (nonlinear_arith)
            requires
                a >= 1,
                p >= 1,
        ;
    }
}

proof fn lemma_product_positive_all(dims: Seq<int>)
    requires
        all_positive(dims),
    ensures
        product(dims) >= 1,
    decreases dims.len(),
{
    if dims.len() > 0 {
        lemma_product_positive_all(dims.drop_last());
        let p = product(dims.drop_last());
        let l = dims.last();
        assert(p * l >= 1) by (nonlinear_arith)
            requires
                p >= 1,
                l >= 1,
        ;
    }
}

/// The row-major strides of a shape of positive dimensions whose element
/// count fits `usize`.
pub fn row_major_strides_of(dims: &[usize]) -> (strides: Vec<usize>)
    requires
        all_positive(usize_ints(dims@)),
        product(usize_ints(dims@)) <= usize::MAX,
    ensures
        usize_ints(strides@) == row_major_strides(usize_ints(dims@)),
{
    let ghost dd = usize_ints(dims@);
    let n = dims.len();
    let mut strides: Vec<usize> = Vec::new();
    let mut k: usize = 0;
    while k < n
        invariant
            k <= n,
            n == dims@.len(),
            strides@.len() == k,
            forall|e: int| 0 <= e < k ==> strides@[e] == 1,
        decreases n - k,
    {
        strides.push(1);
        k = k + 1;
    }
    if n == 0 {
        proof {
            assert(usize_ints(strides@) =~= row_major_strides(dd));
        }
        return strides;
    }
    proof {
        assert(dd.skip(n as int) =~= Seq::<int>::empty());
    }
    let mut dim: usize = n - 1;
    while dim > 0
        invariant
            dim < n,
            n == dims@.len(),
            dd == usize_ints(dims@),
            all_positive(dd),
            product(dd) <= usize::MAX,
            strides@.len() == n,
            forall|e: int| dim <= e < n ==> strides@[e] as int == product(dd.skip(e + 1)),
        decreases dim,
    {
        proof {
            let t = dd.skip(dim as int);
            lemma_product_first(t);
            assert(t.drop_first() =~= dd.skip(dim + 1));
            assert(t[0] == dims@[dim as int] as int);
            lemma_product_suffix_bound(dd, dim as int);
            assert(dd[dim as int] >= 1);
            let a = dims@[dim as int] as int;
            let b = product(dd.skip(dim + 1));
            assert(a * b == b * a) by (nonlinear_arith);
        }
        let s = strides[dim] * dims[dim];
        strides.set(dim - 1, s);
        dim = dim - 1;
    }
    proof {
        assert(usize_ints(strides@) =~= row_major_strides(dd));
    }
    strides
}

proof fn lemma_strided_offset_scaled(q: Seq<int>, s1: Seq<int>, s2: Seq<int>, c: int)
    requires
        forall|d: int| 0 <= d < q.len() ==> s1[d] == s2[d] * c,
    ensures
        strided_offset(q, s1) == c * strided_offset(q, s2),
    decreases q.len(),
{
    if q.len() > 0 {
        lemma_strided_offset_scaled(q.drop_last(), s1, s2, c);
        let x = q.last() - 1;
        let a = s2[q.len() - 1];
        let o = strided_offset(q.drop_last(), s2);
        assert(c * o + x * (a * c) == c * (o + x * a)) by (nonlinear_arith);
    }
}

proof fn lemma_dense_span_scaled(dims: Seq<int>, s1: Seq<int>, s2: Seq<int>, c: int)
    requires
        forall|d: int| 0 <= d < dims.len() ==> s1[d] == s2[d] * c,
    ensures
        dense_span(dims, s1) == c * dense_span(dims, s2),
    decreases dims.len(),
{
    if dims.len() > 0 {
        lemma_dense_span_scaled(dims.drop_last(), s1, s2, c);
        let x = if dims.last() > 0 {
            dims.last() - 1
        } else {
            0
        };
        let a = s2[dims.len() - 1];
        let o = dense_span(dims.drop_last(), s2);
        assert(c * o + x * (a * c) == c * (o + x * a)) by (nonlinear_arith);
    }
}

/// Dropping the last dimension divides every other row-major stride by it.
proof fn lemma_row_major_strides_drop_last(dims: Seq<int>)
    requires
        dims.len() > 0,
    ensures
        row_major_strides(dims)[dims.len() - 1] == 1,
        forall|d: int|
            0 <= d < dims.len() - 1 ==> #[trigger] row_major_strides(dims)[d] == row_major_strides(
                dims.drop_last(),
            )[d] * dims.last(),
{
    assert(dims.skip(dims.len() as int) =~= Seq::<int>::empty());
    assert forall|d: int| 0 <= d < dims.len() - 1 implies #[trigger] row_major_strides(dims)[d]
        == row_major_strides(dims.drop_last())[d] * dims.last() by {
        assert(dims.skip(d + 1).drop_last() =~= dims.drop_last().skip(d + 1));
        assert(dims.skip(d + 1).last() == dims.last());
    }
}

/// With row-major strides, the strided offset of an index tuple is its
/// row-major position.
pub proof fn lemma_strided_offset_row_major(dims: Seq<int>, q: Seq<int>)
    requires
        q.len() == dims.len(),
    ensures
        strided_offset(q, row_major_strides(dims)) == row_major_flat(dims, q),
    decreases dims.len(),
{
    if dims.len() > 0 {
        let c = dims.last();
        lemma_row_major_strides_drop_last(dims);
        lemma_strided_offset_row_major(dims.drop_last(), q.drop_last());
        lemma_strided_offset_scaled(
            q.drop_last(),
            row_major_strides(dims),
            row_major_strides(dims.drop_last()),
            c,
        );
        let f = row_major_flat(dims.drop_last(), q.drop_last());
        assert(c * f == f * c) by (nonlinear_arith);
    }
}

/// The one-based indices of a row-major position (what
/// `projection_indices_for_dims` returns for a shape without unknown
/// dimensions) lie in the box, and their strided offset under the
/// row-major strides (what `dense_flat_index` computes for them) is that
/// position again.
pub proof fn law_projection_indices_flatten_back(dims: Seq<int>, flat: int)
    requires
        all_positive(dims),
        0 <= flat < product(dims),
    ensures
        in_range_prefix(dims, row_major_indices(dims, flat), dims.len() as int),
        in_box(dims, row_major_indices(dims, flat)),
        strided_offset(row_major_indices(dims, flat), row_major_strides(dims)) == flat,
{
    let ix = row_major_indices(dims, flat);
    lemma_row_major_roundtrip(dims, flat);
    lemma_strided_offset_row_major(dims, ix);
    assert forall|e: int| 0 <= e < dims.len() implies e < dims.len() && 1 <= #[trigger] ix[e] <= dims[e] by {
    }
}

/// With row-major strides, the largest in-box offset is one less than the
/// element count.
pub proof fn lemma_dense_span_row_major(dims: Seq<int>)
    requires
        all_positive(dims),
    ensures
        dense_span(dims, row_major_strides(dims)) == product(dims) - 1,
    decreases dims.len(),
{
    if dims.len() > 0 {
        let c = dims.last();
        lemma_row_major_strides_drop_last(dims);
        assert(all_positive(dims.drop_last())) by {
            assert forall|d: int| 0 <= d < dims.drop_last().len() implies dims.drop_last()[d]
                >= 1 by {
                assert(dims.drop_last()[d] == dims[d]);
            }
        }
        lemma_dense_span_row_major(dims.drop_last());
        lemma_dense_span_scaled(
            dims.drop_last(),
            row_major_strides(dims),
            row_major_strides(dims.drop_last()),
            c,
        );
        let p = product(dims.drop_last());
        assert(c * (p - 1) + (c - 1) * 1 == p * c - 1) by (nonlinear_arith);
    }
}


/// The first position of the group whose tuple has length `rank` and
/// equals `q`.
pub open spec fn first_match(keys: Seq<Seq<usize>>, rank: nat, q: Seq<usize>) -> Option<int>
    decreases keys.len(),
{
    if keys.len() == 0 {
        None
    } else {
        match first_match(keys.drop_last(), rank, q) {
            Some(p) => Some(p),
            None => if keys.last().len() == rank && keys.last() == q {
                Some(keys.len() - 1)
            } else {
                None
            },
        }
    }
}

/// The first position of the group whose tuple has length `rank` and
/// lies at row-major position `f` of a box of shape `dims`.
pub open spec fn first_flat_match(keys: Seq<Seq<usize>>, rank: nat, dims: Seq<int>, f: int) -> Option<
    int,
>
    decreases keys.len(),
{
    if keys.len() == 0 {
        None
    } else {
        match first_flat_match(keys.drop_last(), rank, dims, f) {
            Some(p) => Some(p),
            None => if keys.last().len() == rank && row_major_flat(dims, usize_ints(keys.last()))
                == f {
                Some(keys.len() - 1)
            } else {
                None
            },
        }
    }
}

/// Marks a flat slot that no element of the group occupies.
pub const ABSENT_POSITION: usize = usize::MAX;

/// The slot table of a dense lookup: for each row-major position, the
/// first group position there, or the absent mark.
pub open spec fn dense_slot(keys: Seq<Seq<usize>>, rank: nat, dims: Seq<int>, f: int) -> usize {
    match first_flat_match(keys, rank, dims, f) {
        Some(p) => p as usize,
        None => ABSENT_POSITION,
    }
}

/// The entries of a sparse lookup table filled, in group order, with each
/// full-rank tuple and its first position.
pub open spec fn sparse_entries(keys: Seq<Seq<usize>>, rank: nat) -> Seq<(Seq<usize>, usize)>
    decreases keys.len(),
{
    if keys.len() == 0 {
        Seq::empty()
    } else {
        let prev = sparse_entries(keys.drop_last(), rank);
        let k = keys.last();
        if k.len() == rank && !entry_keys(prev).contains(k) {
            prev.push((k, (keys.len() - 1) as usize))
        } else {
            prev
        }
    }
}

/// Every full-rank tuple of the group addresses an element of the box.
pub open spec fn full_rank_in_box(keys: Seq<Seq<usize>>, rank: nat, dims: Seq<int>) -> bool {
    forall|p: int| 0 <= p < keys.len() && keys[p].len() == rank ==> in_box(dims, usize_ints(#[trigger] keys[p]))
}

proof fn lemma_index_of_first_is<A>(s: Seq<A>, x: A, i: int)
    requires
        0 <= i < s.len(),
        s[i] == x,
        forall|j: int| 0 <= j < i ==> s[j] != x,
    ensures
        s.index_of_first(x) == Some(i),
{
    s.index_of_first_ensures(x);
    assert(s.contains(x));
    let k = s.index_of_first(x).unwrap();
    if k < i {
        assert(s[k] == x);
    } else if k > i {
        assert(s[i] != x);
    }
}

proof fn lemma_first_match_bound(keys: Seq<Seq<usize>>, rank: nat, q: Seq<usize>)
    ensures
        match first_match(keys, rank, q) {
            Some(p) => 0 <= p < keys.len() && keys[p] == q && q.len() == rank,
            None => forall|p: int| 0 <= p < keys.len() && keys[p].len() == rank ==> keys[p] != q,
        },
    decreases keys.len(),
{
    if keys.len() > 0 {
        lemma_first_match_bound(keys.drop_last(), rank, q);
        assert forall|p: int| 0 <= p < keys.len() - 1 implies keys[p] == keys.drop_last()[p] by {}
    }
}

proof fn lemma_sparse_lookup(keys: Seq<Seq<usize>>, rank: nat, q: Seq<usize>)
    requires
        keys.len() <= usize::MAX,
    ensures
        match entry_keys(sparse_entries(keys, rank)).index_of_first(q) {
            Some(i) => 0 <= i < sparse_entries(keys, rank).len() && first_match(keys, rank, q)
                == Some(sparse_entries(keys, rank)[i].1 as int),
            None => first_match(keys, rank, q) is None,
        },
    decreases keys.len(),
{
    if keys.len() == 0 {
        entry_keys(sparse_entries(keys, rank)).index_of_first_ensures(q);
    } else {
        let prev_keys = keys.drop_last();
        lemma_sparse_lookup(prev_keys, rank, q);
        let prev = sparse_entries(prev_keys, rank);
        let k = keys.last();
        let ek = entry_keys(prev);
        ek.index_of_first_ensures(q);
        let fm_prev = first_match(prev_keys, rank, q);
        if k.len() == rank && !ek.contains(k) {
            let now = prev.push((k, (keys.len() - 1) as usize));
            assert(sparse_entries(keys, rank) == now);
            assert(entry_keys(now) =~= ek.push(k));
            let post = entry_keys(sparse_entries(keys, rank));
            assert(post == ek.push(k));
            if q == k {
                assert(ek.index_of_first(q) is None);
                assert(fm_prev is None);
                assert(first_match(keys, rank, q) == Some(keys.len() - 1));
                assert forall|j: int| 0 <= j < ek.len() implies ek.push(k)[j] != q by {
                    assert(ek.push(k)[j] == ek[j]);
                }
                lemma_index_of_first_is(ek.push(k), q, ek.len() as int);
                assert(now[ek.len() as int].1 == (keys.len() - 1) as usize);
                assert(post.index_of_first(q) == Some(ek.len() as int));
                assert(((keys.len() - 1) as usize) as int == keys.len() - 1);
            } else {
                match ek.index_of_first(q) {
                    Some(i) => {
                        assert forall|j: int| 0 <= j < i implies ek.push(k)[j] != q by {
                            assert(ek.push(k)[j] == ek[j]);
                        }
                        lemma_index_of_first_is(ek.push(k), q, i);
                        assert(now[i] == prev[i]);
                        assert(post.index_of_first(q) == Some(i));
                        assert(fm_prev == Some(prev[i].1 as int));
                        assert(first_match(keys, rank, q) == fm_prev);
                    },
                    None => {
                        ek.push(k).index_of_first_ensures(q);
                        if ek.push(k).contains(q) {
                            let j = choose|j: int| 0 <= j < ek.push(k).len() && ek.push(k)[j] == q;
                            if j < ek.len() {
                                assert(ek[j] == q);
                            }
                        }
                        assert(first_match(keys, rank, q) is None);
                    },
                }
            }
        } else {
            assert(sparse_entries(keys, rank) == prev);
            if k.len() == rank && q == k {
                assert(ek.contains(q));
            }
            match ek.index_of_first(q) {
                Some(i) => {
                    assert(first_match(keys, rank, q) == fm_prev);
                },
                None => {
                    assert(first_match(keys, rank, q) is None);
                },
            }
        }
    }
}

proof fn lemma_usize_seq_eq(a: Seq<usize>, b: Seq<usize>)
    requires
        usize_ints(a) == usize_ints(b),
    ensures
        a == b,
{
    assert(a.len() == usize_ints(a).len());
    assert(b.len() == usize_ints(b).len());
    assert forall|i: int| 0 <= i < a.len() implies a[i] == b[i] by {
        assert(usize_ints(a)[i] == usize_ints(b)[i]);
        assert(usize_ints(a)[i] == a[i] as int);
        assert(usize_ints(b)[i] == b[i] as int);
    }
    assert(a =~= b);
}

/// Over a group whose full-rank tuples all lie in the box, looking up the
/// row-major position of an in-box tuple finds the same entry as looking
/// up the tuple itself.
proof fn lemma_flat_match_is_match(keys: Seq<Seq<usize>>, rank: nat, dims: Seq<int>, q: Seq<usize>)
    requires
        full_rank_in_box(keys, rank, dims),
        in_box(dims, usize_ints(q)),
        q.len() == rank,
    ensures
        first_flat_match(keys, rank, dims, row_major_flat(dims, usize_ints(q))) == first_match(
            keys,
            rank,
            q,
        ),
    decreases keys.len(),
{
    if keys.len() > 0 {
        let prev = keys.drop_last();
        assert(full_rank_in_box(prev, rank, dims)) by {
            assert forall|p: int| 0 <= p < prev.len() && prev[p].len() == rank implies in_box(
                dims,
                usize_ints(#[trigger] prev[p]),
            ) by {
                assert(prev[p] == keys[p]);
            }
        }
        lemma_flat_match_is_match(prev, rank, dims, q);
        let k = keys.last();
        if k.len() == rank {
            assert(k == keys[keys.len() - 1]);
            assert(in_box(dims, usize_ints(k)));
            if row_major_flat(dims, usize_ints(k)) == row_major_flat(dims, usize_ints(q)) {
                lemma_row_major_flat_roundtrip(dims, usize_ints(k));
                lemma_row_major_flat_roundtrip(dims, usize_ints(q));
                lemma_usize_seq_eq(k, q);
            }
        }
    }
}

/// How an index tuple is turned into a group position.
pub enum IndexLookup {
    /// A dense row-major box: the position of each flat slot.
    Dense { strides: Vec<usize>, position_by_flat: Vec<usize> },
    /// Any other index set: the first position of each full-rank tuple.
    Sparse(IndexMap<Vec<usize>, usize>),
}

/// The shape of an indexed binding group together with a lookup from a
/// one-based subscript tuple to the position of its element in the group.
pub struct IndexedMeta {
    dims: Vec<usize>,
    lookup: IndexLookup,
    keys: Ghost<Seq<Seq<usize>>>,
    rank: usize,
}

impl IndexedMeta {
    /// The shape of the group.
    pub closed spec fn spec_dims(&self) -> Seq<usize> {
        self.dims@
    }

    /// The shape of the group.
    pub fn dims(&self) -> (d: &[usize])
        ensures
            d@ == self.spec_dims(),
    {
        self.dims.as_slice()
    }

    /// The subscript tuples of the group the lookup was built from.
    pub closed spec fn spec_keys(&self) -> Seq<Seq<usize>> {
        self.keys@
    }

    /// The length of the longest tuple of the group.
    pub closed spec fn spec_rank(&self) -> nat {
        self.rank as nat
    }

    /// The lookup agrees with the group it was built from.
    pub closed spec fn wf(&self) -> bool {
        &&& self.keys@.len() <= usize::MAX
        &&& match self.lookup {
            IndexLookup::Dense { strides, position_by_flat } => {
                let dd = usize_ints(self.dims@);
                &&& self.rank >= 1
                &&& dd.len() == self.rank
                &&& all_positive(dd)
                &&& product(dd) == position_by_flat@.len()
                &&& product(dd) <= usize::MAX
                &&& usize_ints(strides@) == row_major_strides(dd)
                &&& full_rank_in_box(self.keys@, self.rank as nat, dd)
                &&& forall|f: int|
                    0 <= f < position_by_flat@.len() ==> #[trigger] position_by_flat@[f] == dense_slot(
                        self.keys@,
                        self.rank as nat,
                        dd,
                        f,
                    )
            },
            IndexLookup::Sparse(map) => position_map_entries(map) == sparse_entries(
                self.keys@,
                self.rank as nat,
            ),
        }
    }

    /// The shape and lookup of a binding group. Lookup is arithmetic when
    /// the full-rank tuples densely cover the inferred row-major box, and
    /// goes through a table otherwise; both answer every query alike.
    pub fn build(entries: &[IndexedBinding]) -> (meta: IndexedMeta)
        ensures
            meta.wf(),
            meta.spec_keys() == binding_keys(entries@),
            meta.spec_rank() == max_rank(binding_keys(entries@)),
            meta.spec_dims() == spec_infer_indexed_dims(binding_keys(entries@)),
    {
        let ghost keys = binding_keys(entries@);
        let dims = infer_indexed_dims(entries);
        let mut rank: usize = 0;
        let mut i: usize = 0;
        while i < entries.len()
            invariant
                i <= entries.len(),
                keys == binding_keys(entries@),
                rank == max_rank(keys.take(i as int)),
            decreases entries.len() - i,
        {
            proof {
                assert(keys.take(i + 1).drop_last() =~= keys.take(i as int));
            }
            if entries[i].indices.len() > rank {
                rank = entries[i].indices.len();
            }
            i = i + 1;
        }
        proof {
            assert(keys.take(entries.len() as int) =~= keys);
        }
        let lookup = match build_dense_index_lookup(entries, &dims, rank) {
            Some(dense) => dense,
            None => build_sparse_index_lookup(entries, rank),
        };
        IndexedMeta { dims, lookup, keys: Ghost(keys), rank }
    }

    /// The position in the group of the element with one-based subscripts
    /// `indices`: the first entry whose tuple has full rank and equals
    /// `indices`, or `None` when there is none.
    pub fn position(&self, indices: &[usize]) -> (r: Option<usize>)
        requires
            self.wf(),
        ensures
            r == (match first_match(self.spec_keys(), self.spec_rank(), indices@) {
                Some(p) => Some(p as usize),
                None => None,
            }),
    {
        let ghost keys = self.keys@;
        let ghost rank = self.rank as nat;
        proof {
            lemma_first_match_bound(keys, rank, indices@);
        }
        match &self.lookup {
            IndexLookup::Dense { strides, position_by_flat } => {
                let ghost dd = usize_ints(self.dims@);
                proof {
                    assert(usize_ints(strides@) == row_major_strides(dd));
                    assert(product(dd) == position_by_flat@.len());
                    assert(usize_ints(strides@).len() == strides@.len());
                    assert(row_major_strides(dd).len() == dd.len());
                    assert(strides@.len() == dd.len());
                    lemma_dense_span_row_major(dd);
                    assert(dd.take(strides@.len() as int) =~= dd);
                    if indices@.len() == strides@.len() {
                        lemma_dense_span_bounds_prefixes(self.dims@, indices@, strides@);
                    }
                }
                match dense_flat_index(indices, &self.dims, strides) {
                    Some(flat) => {
                        proof {
                            assert(dd.take(strides@.len() as int) =~= dd);
                            lemma_strided_offset_row_major(dd, usize_ints(indices@));
                            lemma_row_major_flat_roundtrip(dd, usize_ints(indices@));
                            lemma_flat_match_is_match(keys, rank, dd, indices@);
                        }
                        let position = position_by_flat[flat];
                        if position == ABSENT_POSITION {
                            None
                        } else {
                            Some(position)
                        }
                    },
                    None => {
                        proof {
                            if indices@.len() == rank {
                                assert forall|p: int| 0 <= p < keys.len() && keys[p].len() == rank
                                    implies keys[p] != indices@ by {
                                    assert(in_box(dd, usize_ints(keys[p])));
                                }
                            }
                        }
                        None
                    },
                }
            },
            IndexLookup::Sparse(map) => {
                proof {
                    lemma_sparse_lookup(keys, rank, indices@);
                }
                position_map_get(map, indices)
            },
        }
    }
}

/// The number of slots among the first `n` that hold a position.
pub open spec fn count_present(slots: Seq<usize>, n: int) -> int
    decreases n,
{
    if n <= 0 {
        0
    } else {
        count_present(slots, n - 1) + if slots[n - 1] != ABSENT_POSITION {
            1int
        } else {
            0int
        }
    }
}

proof fn lemma_count_present_bound(slots: Seq<usize>, n: int)
    requires
        0 <= n,
    ensures
        0 <= count_present(slots, n) <= n,
    decreases n,
{
    if n > 0 {
        lemma_count_present_bound(slots, n - 1);
    }
}

/// All of the first `n` slots hold a position exactly when `n` of them do.
proof fn lemma_count_present_all(slots: Seq<usize>, n: int)
    requires
        0 <= n <= slots.len(),
    ensures
        (count_present(slots, n) == n) == (forall|g: int|
            0 <= g < n ==> #[trigger] slots[g] != ABSENT_POSITION),
    decreases n,
{
    if n > 0 {
        lemma_count_present_all(slots, n - 1);
        lemma_count_present_bound(slots, n - 1);
        if count_present(slots, n) == n {
            assert forall|g: int| 0 <= g < n implies #[trigger] slots[g] != ABSENT_POSITION by {
                if g < n - 1 {
                    assert(count_present(slots, n - 1) == n - 1);
                }
            }
        }
    }
}

proof fn lemma_count_present_none(slots: Seq<usize>, n: int)
    requires
        0 <= n <= slots.len(),
        forall|g: int| 0 <= g < n ==> #[trigger] slots[g] == ABSENT_POSITION,
    ensures
        count_present(slots, n) == 0,
    decreases n,
{
    if n > 0 {
        lemma_count_present_none(slots, n - 1);
    }
}

/// Filling an empty slot adds one to the count.
proof fn lemma_count_present_fill(slots: Seq<usize>, n: int, i: int, v: usize)
    requires
        0 <= i < n <= slots.len(),
        slots[i] == ABSENT_POSITION,
        v != ABSENT_POSITION,
    ensures
        count_present(slots.update(i, v), n) == count_present(slots, n) + 1,
    decreases n,
{
    if n - 1 > i {
        lemma_count_present_fill(slots, n - 1, i, v);
    } else {
        lemma_count_present_prefix(slots, v, i, i);
        assert(slots.update(i, v)[i] == v);
    }
}

proof fn lemma_count_present_prefix(slots: Seq<usize>, v: usize, i: int, m: int)
    requires
        0 <= i < slots.len(),
        0 <= m <= i,
    ensures
        count_present(slots.update(i, v), m) == count_present(slots, m),
    decreases m,
{
    if m > 0 {
        lemma_count_present_prefix(slots, v, i, m - 1);
    }
}

/// The full-rank tuples lie in the box of positive dimensions `dims`
/// (one per subscript, with an element count that fits `usize`) and
/// every element of the box is named by one of them.
pub open spec fn densely_covers(keys: Seq<Seq<usize>>, rank: nat, dims: Seq<usize>) -> bool {
    let dd = usize_ints(dims);
    &&& rank >= 1
    &&& dd.len() == rank
    &&& all_positive(dd)
    &&& product(dd) <= usize::MAX
    &&& full_rank_in_box(keys, rank, dd)
    &&& forall|f: int| 0 <= f < product(dd) ==> #[trigger] first_flat_match(keys, rank, dd, f) is Some
}

/// The dense lookup, exactly when the full-rank tuples all lie in the
/// inferred box of positive dimensions whose element count fits `usize`
/// and cover every one of its elements (see `densely_covers`).
fn build_dense_index_lookup(entries: &[IndexedBinding], dims: &Vec<usize>, rank: usize) -> (r:
    Option<IndexLookup>)
    requires
        rank == max_rank(binding_keys(entries@)),
    ensures
        r is Some <==> densely_covers(binding_keys(entries@), rank as nat, dims@),
        r matches Some(lookup) ==> (IndexedMeta {
            dims: *dims,
            lookup,
            keys: Ghost(binding_keys(entries@)),
            rank,
        }).wf(),
{
    let ghost keys = binding_keys(entries@);
    let ghost dd = usize_ints(dims@);
    if rank == 0 || dims.len() != rank {
        return None;
    }
    let mut k: usize = 0;
    while k < dims.len()
        invariant
            k <= dims@.len(),
            dd == usize_ints(dims@),
            forall|e: int| 0 <= e < k ==> #[trigger] dims@[e] >= 1,
        decreases dims@.len() - k,
    {
        if dims[k] == 0 {
            proof {
                assert(dd[k as int] == 0);
            }
            return None;
        }
        k = k + 1;
    }
    proof {
        assert(all_positive(dd));
        lemma_checked_product_positive(dd);
    }
    let total = match checked_dim_product(dims.as_slice()) {
        Some(t) => t,
        None => {
            return None;
        },
    };
    proof {
        assert(all_positive(dd));
        lemma_checked_product_is_product(dd);
        lemma_dense_span_row_major(dd);
    }
    let strides = row_major_strides_of(dims.as_slice());
    proof {
        assert(usize_ints(strides@).len() == strides@.len());
        assert(row_major_strides(dd).len() == dd.len());
    }
    let mut position_by_flat: Vec<usize> = Vec::new();
    let mut f: usize = 0;
    while f < total
        invariant
            f <= total,
            position_by_flat@.len() == f,
            forall|g: int| 0 <= g < f ==> #[trigger] position_by_flat@[g] == ABSENT_POSITION,
        decreases total - f,
    {
        position_by_flat.push(ABSENT_POSITION);
        f = f + 1;
    }
    proof {
        assert forall|g: int| 0 <= g < total implies #[trigger] position_by_flat@[g] == dense_slot(
            keys.take(0),
            rank as nat,
            dd,
            g,
        ) by {}
        lemma_count_present_none(position_by_flat@, total as int);
    }
    let mut filled: usize = 0;
    let mut position: usize = 0;
    while position < entries.len()
        invariant
            position <= entries.len(),
            keys == binding_keys(entries@),
            dd == usize_ints(dims@),
            dd.len() == rank,
            rank >= 1,
            all_positive(dd),
            product(dd) == total,
            usize_ints(strides@) == row_major_strides(dd),
            strides@.len() == rank,
            dense_span(dd, row_major_strides(dd)) == product(dd) - 1,
            position_by_flat@.len() == total,
            filled <= position,
            filled == count_present(position_by_flat@, total as int),
            full_rank_in_box(keys.take(position as int), rank as nat, dd),
            forall|g: int|
                0 <= g < total ==> #[trigger] position_by_flat@[g] == dense_slot(
                    keys.take(position as int),
                    rank as nat,
                    dd,
                    g,
                ),
        decreases entries.len() - position,
    {
        let ghost prev = keys.take(position as int);
        let ghost now = keys.take(position + 1);
        proof {
            assert(now.drop_last() =~= prev);
            assert(now.last() == entries@[position as int].indices@);
        }
        if entries[position].indices.len() == rank {
            proof {
                assert(dd.take(strides@.len() as int) =~= dd);
                lemma_dense_span_bounds_prefixes(dims@, entries@[position as int].indices@, strides@);
            }
            match dense_flat_index(&entries[position].indices, dims.as_slice(), strides.as_slice()) {
                None => {
                    proof {
                        assert(keys[position as int] == now.last());
                        assert(!in_box(dd, usize_ints(keys[position as int])));
                    }
                    return None;
                },
                Some(flat) => {
                    let ghost key = entries@[position as int].indices@;
                    proof {
                        assert(dd.take(strides@.len() as int) =~= dd);
                        lemma_strided_offset_row_major(dd, usize_ints(key));
                        lemma_row_major_flat_roundtrip(dd, usize_ints(key));
                    }
                    if position_by_flat[flat] == ABSENT_POSITION {
                        proof {
                            lemma_count_present_fill(
                                position_by_flat@,
                                total as int,
                                flat as int,
                                position,
                            );
                        }
                        position_by_flat.set(flat, position);
                        filled = filled + 1;
                    }
                    proof {
                        assert forall|g: int| 0 <= g < total implies #[trigger] position_by_flat@[g]
                            == dense_slot(now, rank as nat, dd, g) by {
                            if g != flat as int {
                                assert(row_major_flat(dd, usize_ints(key)) != g);
                            } else {
                                match first_flat_match(prev, rank as nat, dd, g) {
                                    Some(p) => {
                                        lemma_first_flat_match_bound(prev, rank as nat, dd, g);
                                    },
                                    None => {},
                                }
                            }
                        }
                        assert forall|p: int| 0 <= p < now.len() && now[p].len() == rank implies in_box(
                            dd,
                            usize_ints(#[trigger] now[p]),
                        ) by {
                            if p < position {
                                assert(now[p] == prev[p]);
                            }
                        }
                    }
                },
            }
        } else {
            proof {
                assert forall|g: int| 0 <= g < total implies #[trigger] position_by_flat@[g]
                    == dense_slot(now, rank as nat, dd, g) by {}
                assert forall|p: int| 0 <= p < now.len() && now[p].len() == rank implies in_box(
                    dd,
                    usize_ints(#[trigger] now[p]),
                ) by {
                    assert(now[p] == prev[p]);
                }
            }
        }
        position = position + 1;
    }
    proof {
        assert(keys.take(entries.len() as int) =~= keys);
        lemma_count_present_all(position_by_flat@, total as int);
        if densely_covers(keys, rank as nat, dims@) {
            assert forall|g: int| 0 <= g < total implies #[trigger] position_by_flat@[g]
                != ABSENT_POSITION by {
                lemma_first_flat_match_bound(keys, rank as nat, dd, g);
                assert(first_flat_match(keys, rank as nat, dd, g) is Some);
            }
        }
        if filled == total {
            assert forall|f: int| 0 <= f < product(dd) implies #[trigger] first_flat_match(
                keys,
                rank as nat,
                dd,
                f,
            ) is Some by {
                assert(position_by_flat@[f] != ABSENT_POSITION);
            }
        }
    }
    if filled == total {
        Some(IndexLookup::Dense { strides, position_by_flat })
    } else {
        None
    }
}

proof fn lemma_first_flat_match_bound(keys: Seq<Seq<usize>>, rank: nat, dims: Seq<int>, f: int)
    ensures
        first_flat_match(keys, rank, dims, f) matches Some(p) ==> 0 <= p < keys.len(),
    decreases keys.len(),
{
    if keys.len() > 0 {
        lemma_first_flat_match_bound(keys.drop_last(), rank, dims, f);
    }
}

/// The table lookup: each full-rank tuple with the first position where
/// it occurs.
fn build_sparse_index_lookup(entries: &[IndexedBinding], rank: usize) -> (r: IndexLookup)
    ensures
        r matches IndexLookup::Sparse(map) && position_map_entries(map) == sparse_entries(
            binding_keys(entries@),
            rank as nat,
        ),
{
    let ghost keys = binding_keys(entries@);
    let mut by_indices = position_map_with_capacity(entries.len());
    let mut position: usize = 0;
    while position < entries.len()
        invariant
            position <= entries.len(),
            keys == binding_keys(entries@),
            position_map_entries(by_indices) == sparse_entries(keys.take(position as int), rank as nat),
        decreases entries.len() - position,
    {
        proof {
            assert(keys.take(position + 1).drop_last() =~= keys.take(position as int));
            assert(keys.take(position + 1).last() == entries@[position as int].indices@);
        }
        if entries[position].indices.len() == rank {
            position_map_or_insert(&mut by_indices, entries[position].indices.clone(), position);
        }
        position = position + 1;
    }
    proof {
        assert(keys.take(entries.len() as int) =~= keys);
    }
    IndexLookup::Sparse(by_indices)
}


/// The largest subscript at position `d` over all tuples (0 for none).
pub open spec fn grid_extent(keys: Seq<Seq<usize>>, d: int) -> usize
    decreases keys.len(),
{
    if keys.len() == 0 {
        0
    } else {
        let e = grid_extent(keys.drop_last(), d);
        if keys.last()[d] > e {
            keys.last()[d]
        } else {
            e
        }
    }
}

/// The smallest slot of a non-empty grid.
pub open spec fn min_slot(slots: Seq<usize>) -> usize
    decreases slots.len(),
{
    if slots.len() <= 1 {
        slots[0]
    } else {
        let m = min_slot(slots.drop_last());
        if slots.last() < m {
            slots.last()
        } else {
            m
        }
    }
}

pub open spec fn grid_keys(grid: Seq<(Vec<usize>, usize)>) -> Seq<Seq<usize>> {
    grid.map_values(|e: (Vec<usize>, usize)| e.0@)
}

pub open spec fn grid_slots(grid: Seq<(Vec<usize>, usize)>) -> Seq<usize> {
    grid.map_values(|e: (Vec<usize>, usize)| e.1)
}

/// The per-dimension extents of a grid whose tuples have `ndim` subscripts.
pub open spec fn grid_extents(keys: Seq<Seq<usize>>, ndim: nat) -> Seq<int> {
    Seq::new(ndim, |d: int| grid_extent(keys, d) as int)
}

/// The grid is a dense one-based rectangular array whose slots are
/// contiguous in row-major order from the smallest slot.
pub open spec fn is_contiguous_grid(keys: Seq<Seq<usize>>, slots: Seq<usize>) -> bool {
    let ndim = keys[0].len();
    let ext = grid_extents(keys, ndim);
    &&& keys.len() > 0
    &&& ndim > 0
    &&& forall|k: int| 0 <= k < keys.len() ==> (#[trigger] keys[k]).len() == ndim
    &&& forall|k: int, d: int| 0 <= k < keys.len() && 0 <= d < ndim ==> (#[trigger] keys[k][d]) >= 1
    &&& product(ext) == keys.len()
    &&& forall|k: int|
        0 <= k < keys.len() ==> #[trigger] slots[k] == min_slot(slots) + row_major_flat(
            ext,
            usize_ints(keys[k]),
        )
}

proof fn lemma_grid_extent_bound(keys: Seq<Seq<usize>>, d: int, k: int)
    requires
        0 <= k < keys.len(),
    ensures
        keys[k][d] <= grid_extent(keys, d),
    decreases keys.len(),
{
    if k < keys.len() - 1 {
        lemma_grid_extent_bound(keys.drop_last(), d, k);
    }
}

/// For a dense, one-based, rectangular grid whose parameter slots are
/// contiguous in row-major order: the smallest slot, the element count
/// and the row-major strides of the grid's extents; `None` for any other
/// grid.
pub fn contiguous_param_grid_layout(grid: &[(Vec<usize>, usize)]) -> (r: Option<
    (usize, usize, Vec<usize>),
>)
    ensures
        r is Some <==> is_contiguous_grid(grid_keys(grid@), grid_slots(grid@)),
        r matches Some((base, count, strides)) ==> base == min_slot(grid_slots(grid@)) && count
            == grid@.len() && usize_ints(strides@) == row_major_strides(
            grid_extents(grid_keys(grid@), grid_keys(grid@)[0].len()),
        ),
{
    let ghost keys = grid_keys(grid@);
    let ghost slots = grid_slots(grid@);
    if grid.len() == 0 {
        return None;
    }
    let ndim = grid[0].0.len();
    proof {
        assert(keys[0] == grid@[0].0@);
    }
    if ndim == 0 {
        return None;
    }
    let mut extents: Vec<usize> = Vec::new();
    let mut d0: usize = 0;
    while d0 < ndim
        invariant
            d0 <= ndim,
            extents@.len() == d0,
            forall|e: int| 0 <= e < d0 ==> #[trigger] extents@[e] == 0,
        decreases ndim - d0,
    {
        extents.push(0);
        d0 = d0 + 1;
    }
    let mut k: usize = 0;
    while k < grid.len()
        invariant
            k <= grid@.len(),
            keys == grid_keys(grid@),
            ndim == keys[0].len(),
            ndim > 0,
            extents@.len() == ndim,
            forall|e: int| 0 <= e < ndim ==> #[trigger] extents@[e] == grid_extent(keys.take(k as int), e),
            forall|j: int| 0 <= j < k ==> (#[trigger] keys[j]).len() == ndim,
            forall|j: int, e: int| 0 <= j < k && 0 <= e < ndim ==> (#[trigger] keys[j][e]) >= 1,
        decreases grid@.len() - k,
    {
        let indices = &grid[k].0;
        proof {
            assert(keys[k as int] == indices@);
            assert(keys.take(k + 1).drop_last() =~= keys.take(k as int));
            assert(keys.take(k + 1).last() == indices@);
        }
        if indices.len() != ndim {
            return None;
        }
        let mut d: usize = 0;
        while d < ndim
            invariant
                d <= ndim,
                k < grid@.len(),
                keys == grid_keys(grid@),
                indices@ == keys[k as int],
                indices@.len() == ndim,
                extents@.len() == ndim,
                forall|e: int| 0 <= e < d ==> indices@[e] >= 1,
                forall|e: int|
                    0 <= e < ndim ==> #[trigger] extents@[e] == (if e < d && indices@[e] > grid_extent(
                        keys.take(k as int),
                        e,
                    ) {
                        indices@[e]
                    } else {
                        grid_extent(keys.take(k as int), e)
                    }),
            decreases ndim - d,
        {
            let i = indices[d];
            if i == 0 {
                proof {
                    assert(keys[k as int][d as int] == 0);
                }
                return None;
            }
            if i > extents[d] {
                extents.set(d, i);
            }
            d = d + 1;
        }
        k = k + 1;
    }
    proof {
        assert(keys.take(grid@.len() as int) =~= keys);
    }
    let ghost ext = grid_extents(keys, ndim as nat);
    proof {
        assert(usize_ints(extents@) =~= ext);
        assert forall|e: int| 0 <= e < ext.len() implies ext[e] >= 1 by {
            lemma_grid_extent_bound(keys, e, 0);
        }
        assert(all_positive(ext));
        crate::dims::lemma_checked_product_positive(ext);
    }
    let total = match checked_dim_product(extents.as_slice()) {
        Some(t) => t,
        None => {
            return None;
        },
    };
    if total != grid.len() {
        return None;
    }
    let strides = row_major_strides_of(extents.as_slice());
    proof {
        assert(usize_ints(strides@).len() == strides@.len());
        assert(row_major_strides(ext).len() == ext.len());
        lemma_dense_span_row_major(ext);
        assert(ext.take(strides@.len() as int) =~= ext);
    }
    let mut base: usize = grid[0].1;
    let mut m: usize = 1;
    proof {
        assert(slots[0] == grid@[0].1);
        assert(slots.take(1).drop_last().len() == 0);
    }
    while m < grid.len()
        invariant
            1 <= m <= grid@.len(),
            slots == grid_slots(grid@),
            base == min_slot(slots.take(m as int)),
        decreases grid@.len() - m,
    {
        proof {
            assert(slots.take(m + 1).drop_last() =~= slots.take(m as int));
            assert(slots.take(m + 1).last() == grid@[m as int].1);
        }
        if grid[m].1 < base {
            base = grid[m].1;
        }
        m = m + 1;
    }
    proof {
        assert(slots.take(grid@.len() as int) =~= slots);
    }
    let mut j: usize = 0;
    while j < grid.len()
        invariant
            j <= grid@.len(),
            keys == grid_keys(grid@),
            slots == grid_slots(grid@),
            ext == grid_extents(keys, ndim as nat),
            ndim == keys[0].len(),
            usize_ints(extents@) == ext,
            usize_ints(strides@) == row_major_strides(ext),
            strides@.len() == ndim,
            extents@.len() == ndim,
            dense_span(ext, row_major_strides(ext)) == product(ext) - 1,
            product(ext) == grid@.len(),
            base == min_slot(slots),
            forall|q: int| 0 <= q < keys.len() ==> (#[trigger] keys[q]).len() == ndim,
            forall|q: int, e: int| 0 <= q < keys.len() && 0 <= e < ndim ==> (#[trigger] keys[q][e]) >= 1,
            forall|q: int| 0 <= q < j ==> #[trigger] slots[q] == base + row_major_flat(ext, usize_ints(keys[q])),
        decreases grid@.len() - j,
    {
        let indices = &grid[j].0;
        let ghost key = keys[j as int];
        proof {
            assert(key == indices@);
            assert(slots[j as int] == grid@[j as int].1);
            assert(ext.take(strides@.len() as int) =~= ext);
            assert(in_box(ext, usize_ints(key))) by {
                assert forall|e: int| 0 <= e < ext.len() implies 1 <= #[trigger] usize_ints(key)[e] <= ext[e] by {
                    lemma_grid_extent_bound(keys, e, j as int);
                    assert(keys[j as int][e] >= 1);
                }
            }
            assert(usize_ints(extents@).take(strides@.len() as int) == ext);
            lemma_strided_offset_row_major(ext, usize_ints(key));
            lemma_row_major_flat_roundtrip(ext, usize_ints(key));
            lemma_dense_span_bounds_prefixes(extents@, key, strides@);
        }
        let flat = match dense_flat_index(indices, extents.as_slice(), strides.as_slice()) {
            Some(f) => f,
            None => {
                return None;
            },
        };
        proof {
            assert(flat as int == row_major_flat(ext, usize_ints(key)));
        }
        match base.checked_add(flat) {
            Some(expected) => {
                if grid[j].1 != expected {
                    proof {
                        assert(slots[j as int] != min_slot(slots) + row_major_flat(ext, usize_ints(keys[j as int])));
                    }
                    return None;
                }
            },
            None => {
                proof {
                    assert(slots[j as int] != min_slot(slots) + row_major_flat(ext, usize_ints(keys[j as int])));
                }
                return None;
            },
        }
        j = j + 1;
    }
    Some((base, grid.len(), strides))
}

} // verus!
