use vstd::prelude::*;

use indexmap::IndexMap;

use crate::capacity::{reserve_capacity, spec_capacity_error, vec_with_capacity};
use crate::collections::{
    id_set_contains, id_set_insert_full, id_set_keys, id_set_new, name_set_index_of, name_set_keys,
};
use crate::error::{texts, LowerError};
use crate::span::Span;

verus! {

/// An alias equation `lhs = rhs` between two discrete scalar targets,
/// named by identifier, with the span of the equation it came from.
pub struct AliasEdge {
    pub lhs: u64,
    pub rhs: u64,
    pub span: Span,
}

/// An oriented alias: the update `target := source`, taken from alias
/// edge `edge`.
#[derive(Clone, Copy, Debug, PartialEq, Eq, Structural)]
pub struct OrientedAlias {
    pub edge: usize,
    pub source: u64,
    pub target: u64,
}

/// The names the alias edges mention, each once, in first-seen order
/// (per edge, its left side before its right side).
pub open spec fn alias_names(edges: Seq<AliasEdge>) -> Seq<u64>
    decreases edges.len(),
{
    if edges.len() == 0 {
        Seq::empty()
    } else {
        let prev = alias_names(edges.drop_last());
        let e = edges.last();
        let with_lhs = if prev.contains(e.lhs) {
            prev
        } else {
            prev.push(e.lhs)
        };
        if with_lhs.contains(e.rhs) {
            with_lhs
        } else {
            with_lhs.push(e.rhs)
        }
    }
}

/// Alias edge `e` joins names `u` and `v`, in either direction.
pub open spec fn edge_joins(edges: Seq<AliasEdge>, e: int, u: u64, v: u64) -> bool {
    &&& 0 <= e < edges.len()
    &&& ((edges[e].lhs == u && edges[e].rhs == v) || (edges[e].lhs == v && edges[e].rhs == u))
}

/// The number of set flags.
pub open spec fn count_true(s: Seq<bool>) -> nat
    decreases s.len(),
{
    if s.len() == 0 {
        0
    } else {
        count_true(s.drop_last()) + if s.last() {
            1nat
        } else {
            0nat
        }
    }
}

proof fn lemma_count_true_le(s: Seq<bool>)
    ensures
        count_true(s) <= s.len(),
    decreases s.len(),
{
    if s.len() > 0 {
        lemma_count_true_le(s.drop_last());
    }
}

proof fn lemma_count_true_set(s: Seq<bool>, i: int)
    requires
        0 <= i < s.len(),
        !s[i],
    ensures
        count_true(s.update(i, true)) == count_true(s) + 1,
    decreases s.len(),
{
    let t = s.update(i, true);
    if i == s.len() - 1 {
        assert(t.drop_last() =~= s.drop_last());
    } else {
        assert(t.drop_last() =~= s.drop_last().update(i, true));
        lemma_count_true_set(s.drop_last(), i);
    }
}

/// The positions (into the name list) of each edge's two sides.
pub open spec fn ends_ok(edges: Seq<AliasEdge>, names: Seq<u64>, ends: Seq<(usize, usize)>) -> bool {
    &&& ends.len() == edges.len()
    &&& forall|e: int|
        0 <= e < ends.len() ==> (#[trigger] ends[e]).0 < names.len() && ends[e].1 < names.len()
            && names[ends[e].0 as int] == edges[e].lhs && names[ends[e].1 as int] == edges[e].rhs
}

/// The adjacency lists, by name position: each entry `(y, e)` of the
/// list of `x` says that edge `e` joins `x` and `y`, and every edge is
/// listed at both of its sides.
pub open spec fn adj_ok(adj: Seq<Seq<(usize, usize)>>, ends: Seq<(usize, usize)>, n: nat) -> bool {
    &&& adj.len() == n
    &&& forall|x: int, j: int|
        0 <= x < n && 0 <= j < adj[x].len() ==> (#[trigger] adj[x][j]).0 < n && adj[x][j].1
            < ends.len() && (ends[adj[x][j].1 as int] == (x as usize, adj[x][j].0) || ends[adj[x][j].1 as int]
            == (adj[x][j].0, x as usize))
    &&& forall|e: int|
        0 <= e < ends.len() ==> adj[(#[trigger] ends[e]).0 as int].contains((ends[e].1, e as usize))
            && adj[ends[e].1 as int].contains((ends[e].0, e as usize))
}

pub open spec fn adj_view(adj: Seq<Vec<(usize, usize)>>) -> Seq<Seq<(usize, usize)>> {
    adj.map_values(|v: Vec<(usize, usize)>| v@)
}

/// The position of `id` in the name list, appended when new.
fn intern_alias_name(
    table: &mut IndexMap<u64, ()>,
    names: &mut Vec<u64>,
    id: u64,
    span: Span,
) -> (r: Result<usize, LowerError>)
    requires
        old(names)@ == id_set_keys(*old(table)),
        old(names)@.no_duplicates(),
    ensures
        match r {
            Ok(p) => final(names)@ == (if old(names)@.contains(id) {
                old(names)@
            } else {
                old(names)@.push(id)
            }) && p < final(names)@.len() && final(names)@[p as int] == id && final(names)@
                == id_set_keys(*final(table)) && final(names)@.no_duplicates(),
            Err(e) => spec_capacity_error(e, "discrete alias ordered name count"@, span),
        },
{
    let ghost before = names@;
    proof {
        assert(names.len() == names@.len());
    }
    let (position, added) = id_set_insert_full(table, id);
    proof {
        before.index_of_first_ensures(id);
    }
    if added {
        reserve_capacity(names, 1, "discrete alias ordered name count", span)?;
        names.push(id);
        proof {
            let now = names@;
            assert forall|a: int, b: int| 0 <= a < now.len() && 0 <= b < now.len() && a != b implies now[a]
                != now[b] by {
                if a == before.len() as int {
                    assert(now[b] == before[b]);
                } else if b == before.len() as int {
                    assert(now[a] == before[a]);
                }
            }
        }
    }
    Ok(position)
}

/// The names of the alias edges in first-seen order, and the positions of
/// each edge's sides in that list.
fn intern_alias_edges(edges: &[AliasEdge], span: Span) -> (r: Result<
    (Vec<u64>, Vec<(usize, usize)>),
    LowerError,
>)
    ensures
        match r {
            Ok((names, ends)) => names@ == alias_names(edges@) && names@.no_duplicates() && ends_ok(
                edges@,
                names@,
                ends@,
            ),
            Err(e) => spec_capacity_error(e, "discrete alias ordered name count"@, span) || exists|k: int|
                0 <= k < edges@.len() && spec_capacity_error(
                    e,
                    "discrete alias ordered name count"@,
                    #[trigger] edges@[k].span,
                ),
        },
{
    let mut table = id_set_new();
    let mut names: Vec<u64> = vec_with_capacity(edges.len(), "discrete alias ordered name count", span)?;
    let mut ends: Vec<(usize, usize)> = Vec::new();
    let mut k: usize = 0;
    while k < edges.len()
        invariant
            k <= edges@.len(),
            names@ == id_set_keys(table),
            names@.no_duplicates(),
            names@ == alias_names(edges@.take(k as int)),
            ends_ok(edges@.take(k as int), names@, ends@),
        decreases edges@.len() - k,
    {
        let ghost before = names@;
        let ghost before_ends = ends@;
        let pl = intern_alias_name(&mut table, &mut names, edges[k].lhs, edges[k].span)?;
        let ghost mid = names@;
        let pr = intern_alias_name(&mut table, &mut names, edges[k].rhs, edges[k].span)?;
        ends.push((pl, pr));
        proof {
            let t = edges@.take(k + 1);
            assert(t.drop_last() =~= edges@.take(k as int));
            assert(t.last() == edges@[k as int]);
            assert(names@ == alias_names(t));
            assert forall|j: int| 0 <= j < before.len() implies mid[j] == before[j] by {}
            assert forall|j: int| 0 <= j < mid.len() implies names@[j] == mid[j] by {}
            assert(ends_ok(t, names@, ends@)) by {
                assert forall|e: int| 0 <= e < ends@.len() implies (#[trigger] ends@[e]).0
                    < names@.len() && ends@[e].1 < names@.len() && names@[ends@[e].0 as int]
                    == t[e].lhs && names@[ends@[e].1 as int] == t[e].rhs by {
                    if e < k {
                        assert(ends@[e] == before_ends[e]);
                        assert(t[e] == edges@.take(k as int)[e]);
                    }
                }
            }
        }
        k = k + 1;
    }
    proof {
        assert(edges@.take(edges@.len() as int) =~= edges@);
    }
    Ok((names, ends))
}

/// The adjacency lists of the alias graph over name positions: for each
/// edge, its right side is listed at its left side and its left side at
/// its right side, in edge order.
fn build_alias_adjacency(ends: &Vec<(usize, usize)>, n: usize, edges: &[AliasEdge]) -> (r: Result<
    Vec<Vec<(usize, usize)>>,
    LowerError,
>)
    requires
        ends@.len() == edges@.len(),
        forall|e: int| 0 <= e < ends@.len() ==> (#[trigger] ends@[e]).0 < n && ends@[e].1 < n,
    ensures
        match r {
            Ok(adj) => adj_ok(adj_view(adj@), ends@, n as nat),
            Err(err) => exists|e: int|
                0 <= e < edges@.len() && (spec_capacity_error(
                    err,
                    "discrete alias adjacency count"@,
                    #[trigger] edges@[e].span,
                )),
        },
{
    let mut adj: Vec<Vec<(usize, usize)>> = Vec::new();
    let mut x: usize = 0;
    while x < n
        invariant
            x <= n,
            adj@.len() == x,
            forall|y: int| 0 <= y < x ==> (#[trigger] adj@[y])@.len() == 0,
        decreases n - x,
    {
        adj.push(Vec::new());
        x = x + 1;
    }
    let mut e: usize = 0;
    while e < ends.len()
        invariant
            e <= ends@.len(),
            ends@.len() == edges@.len(),
            forall|f: int| 0 <= f < ends@.len() ==> (#[trigger] ends@[f]).0 < n && ends@[f].1 < n,
            adj_ok(adj_view(adj@), ends@.take(e as int), n as nat),
        decreases ends@.len() - e,
    {
        let (pl, pr) = ends[e];
        let ghost t = ends@.take(e + 1);
        proof {
            assert(t.drop_last() =~= ends@.take(e as int));
            assert(t[e as int] == (pl, pr));
        }
        let ghost a0 = adj_view(adj@);
        let mut list: Vec<(usize, usize)> = Vec::new();
        adj.set_and_swap(pl, &mut list);
        match reserve_capacity(&mut list, 1, "discrete alias adjacency count", edges[e].span) {
            Ok(()) => {},
            Err(err) => {
                return Err(err);
            },
        }
        list.push((pr, e));
        adj.set_and_swap(pl, &mut list);
        let ghost a1 = adj_view(adj@);
        proof {
            assert(a1 =~= a0.update(pl as int, a0[pl as int].push((pr, e))));
        }
        let mut list2: Vec<(usize, usize)> = Vec::new();
        adj.set_and_swap(pr, &mut list2);
        match reserve_capacity(&mut list2, 1, "discrete alias adjacency count", edges[e].span) {
            Ok(()) => {},
            Err(err) => {
                return Err(err);
            },
        }
        list2.push((pl, e));
        adj.set_and_swap(pr, &mut list2);
        let ghost a2 = adj_view(adj@);
        proof {
            assert(a2 =~= a1.update(pr as int, a1[pr as int].push((pl, e))));
            let t0 = ends@.take(e as int);
            assert forall|y: int, j: int|
                0 <= y < n && 0 <= j < a2[y].len() implies (#[trigger] a2[y][j]).0 < n && a2[y][j].1
                < t.len() && (t[a2[y][j].1 as int] == (y as usize, a2[y][j].0) || t[a2[y][j].1 as int]
                == (a2[y][j].0, y as usize)) by {
                if y == pr as int && j == a1[y].len() {
                    assert(a2[y][j] == (pl, e));
                } else if y == pr as int {
                    assert(a2[y][j] == a1[y][j]);
                    if y == pl as int && j == a0[y].len() {
                        assert(a1[y][j] == (pr, e));
                    } else if y == pl as int {
                        assert(a1[y][j] == a0[y][j]);
                        assert(t[a0[y][j].1 as int] == t0[a0[y][j].1 as int]);
                    } else {
                        assert(a1[y][j] == a0[y][j]);
                        assert(t[a0[y][j].1 as int] == t0[a0[y][j].1 as int]);
                    }
                } else if y == pl as int && j == a0[y].len() {
                    assert(a2[y][j] == (pr, e));
                } else if y == pl as int {
                    assert(a2[y][j] == a0[y][j]);
                    assert(t[a0[y][j].1 as int] == t0[a0[y][j].1 as int]);
                } else {
                    assert(a2[y][j] == a0[y][j]);
                    assert(t[a0[y][j].1 as int] == t0[a0[y][j].1 as int]);
                }
            }
            assert forall|f: int| 0 <= f < t.len() implies a2[(#[trigger] t[f]).0 as int].contains(
                (t[f].1, f as usize),
            ) && a2[t[f].1 as int].contains((t[f].0, f as usize)) by {
                if f == e as int {
                    assert(a1[pl as int][a0[pl as int].len() as int] == (pr, e));
                    assert(a1[pl as int].contains((pr, e)));
                    assert(a2[pr as int][a1[pr as int].len() as int] == (pl, e));
                    assert forall|z: int| 0 <= z < a1[pl as int].len() implies #[trigger] a2[pl as int][z]
                        == a1[pl as int][z] by {}
                    let w = choose|w: int| 0 <= w < a1[pl as int].len() && a1[pl as int][w] == (pr, e);
                    assert(a2[pl as int][w] == (pr, e));
                } else {
                    assert(t[f] == t0[f]);
                    let u = t[f].0 as int;
                    let v = t[f].1 as int;
                    assert(a0[u].contains((t[f].1, f as usize)));
                    assert(a0[v].contains((t[f].0, f as usize)));
                    let w1 = choose|w: int| 0 <= w < a0[u].len() && a0[u][w] == (t[f].1, f as usize);
                    let w2 = choose|w: int| 0 <= w < a0[v].len() && a0[v][w] == (t[f].0, f as usize);
                    assert(a1[u][w1] == a0[u][w1]);
                    assert(a2[u][w1] == a1[u][w1]);
                    assert(a1[v][w2] == a0[v][w2]);
                    assert(a2[v][w2] == a1[v][w2]);
                }
            }
        }
        e = e + 1;
    }
    proof {
        assert(ends@.take(ends@.len() as int) =~= ends@);
    }
    Ok(adj)
}


/// Each name position is flagged when its name is one of `forced`.
fn forced_flags(names: &Vec<u64>, forced: &[u64]) -> (flags: Vec<bool>)
    ensures
        flags@.len() == names@.len(),
        forall|x: int| 0 <= x < names@.len() ==> flags@[x] == forced@.contains(#[trigger] names@[x]),
{
    let mut set = id_set_new();
    let mut i: usize = 0;
    while i < forced.len()
        invariant
            i <= forced@.len(),
            forall|v: u64| id_set_keys(set).contains(v) <==> forced@.take(i as int).contains(v),
        decreases forced@.len() - i,
    {
        let ghost before = id_set_keys(set);
        let f = forced[i];
        let _ = id_set_insert_full(&mut set, f);
        proof {
            before.index_of_first_ensures(f);
            let after = id_set_keys(set);
            assert(after == before || after == before.push(f));
            assert(before.contains(f) ==> after == before);
            let t = forced@.take(i + 1);
            assert(t =~= forced@.take(i as int).push(f));
            assert forall|v: u64| after.contains(v) <==> t.contains(v) by {
                lemma_push_contains(forced@.take(i as int), f, v);
                if after == before.push(f) {
                    lemma_push_contains(before, f, v);
                }
            }
        }
        i = i + 1;
    }
    proof {
        assert(forced@.take(forced@.len() as int) =~= forced@);
    }
    let mut flags: Vec<bool> = Vec::new();
    let mut x: usize = 0;
    while x < names.len()
        invariant
            x <= names@.len(),
            flags@.len() == x,
            forall|v: u64| id_set_keys(set).contains(v) <==> forced@.contains(v),
            forall|y: int| 0 <= y < x ==> flags@[y] == forced@.contains(#[trigger] names@[y]),
        decreases names@.len() - x,
    {
        let f = id_set_contains(&set, names[x]);
        flags.push(f);
        x = x + 1;
    }
    flags
}

/// The names of `comp` whose flag is set, in order.
pub open spec fn forced_members(comp: Seq<usize>, flags: Seq<bool>) -> Seq<usize>
    decreases comp.len(),
{
    if comp.len() == 0 {
        Seq::empty()
    } else {
        let prev = forced_members(comp.drop_last(), flags);
        if flags[comp.last() as int] {
            prev.push(comp.last())
        } else {
            prev
        }
    }
}

/// The forced members of a component without repeats hold no repeats.
proof fn lemma_forced_members_distinct(comp: Seq<usize>, flags: Seq<bool>)
    requires
        comp.no_duplicates(),
    ensures
        forced_members(comp, flags).no_duplicates(),
    decreases comp.len(),
{
    if comp.len() > 0 {
        let prev = comp.drop_last();
        assert(prev.no_duplicates()) by {
            assert forall|i: int, j: int| 0 <= i < prev.len() && 0 <= j < prev.len() && i != j implies prev[i]
                != prev[j] by {
                assert(prev[i] == comp[i] && prev[j] == comp[j]);
            }
        }
        lemma_forced_members_distinct(prev, flags);
        lemma_forced_members(prev, flags);
        let pm = forced_members(prev, flags);
        if flags[comp.last() as int] {
            assert(!prev.contains(comp.last())) by {
                if prev.contains(comp.last()) {
                    let w = choose|w: int| 0 <= w < prev.len() && prev[w] == comp.last();
                    assert(comp[w] == comp[comp.len() - 1]);
                }
            }
            assert(!pm.contains(comp.last()));
            let fm = pm.push(comp.last());
            assert forall|i: int, j: int| 0 <= i < fm.len() && 0 <= j < fm.len() && i != j implies fm[i]
                != fm[j] by {
                if i == pm.len() as int {
                    assert(fm[j] == pm[j]);
                } else if j == pm.len() as int {
                    assert(fm[i] == pm[i]);
                }
            }
        }
    }
}

proof fn lemma_forced_members(comp: Seq<usize>, flags: Seq<bool>)
    ensures
        forall|x: usize| #[trigger] forced_members(comp, flags).contains(x) <==> (comp.contains(x)
            && flags[x as int]),
    decreases comp.len(),
{
    if comp.len() > 0 {
        let prev = comp.drop_last();
        lemma_forced_members(prev, flags);
        let fm = forced_members(comp, flags);
        let pm = forced_members(prev, flags);
        assert forall|x: usize| #[trigger] fm.contains(x) <==> (comp.contains(x) && flags[x as int]) by {
            if comp.contains(x) && flags[x as int] {
                let j = choose|j: int| 0 <= j < comp.len() && comp[j] == x;
                if j < comp.len() - 1 {
                    assert(prev[j] == x);
                    assert(pm.contains(x));
                    let w = choose|w: int| 0 <= w < pm.len() && pm[w] == x;
                    if flags[comp.last() as int] {
                        assert(fm[w] == x);
                    }
                } else {
                    assert(fm[fm.len() - 1] == x);
                }
            }
            if fm.contains(x) {
                let w = choose|w: int| 0 <= w < fm.len() && fm[w] == x;
                if flags[comp.last() as int] && w == fm.len() - 1 {
                    assert(comp[comp.len() - 1] == x);
                } else {
                    assert(pm[w] == x);
                    assert(pm.contains(x));
                    let j = choose|j: int| 0 <= j < prev.len() && prev[j] == x;
                    assert(comp[j] == x);
                }
            }
        }
    }
}

/// Every neighbor of a member of `comp` is a member.
pub open spec fn comp_closed(adj: Seq<Seq<(usize, usize)>>, comp: Seq<usize>) -> bool {
    forall|i: int, j: int|
        0 <= i < comp.len() && 0 <= j < adj[comp[i] as int].len() ==> comp.contains(
            (#[trigger] adj[comp[i] as int][j]).0,
        )
}

/// `disc[i]` records, for each member of `comp` after the first, an
/// earlier member and the entry of its adjacency list that leads to it.
pub open spec fn discovered_by(adj: Seq<Seq<(usize, usize)>>, comp: Seq<usize>, disc: Seq<(int, int)>) -> bool {
    &&& disc.len() == comp.len()
    &&& forall|i: int|
        1 <= i < comp.len() ==> 0 <= (#[trigger] disc[i]).0 < i && 0 <= disc[i].1 < adj[comp[disc[i].0] as int].len()
            && adj[comp[disc[i].0] as int][disc[i].1].0 == comp[i]
}

/// The alias component reachable from `root`, in breadth-first order,
/// with how each member was reached.
fn collect_alias_component(root: usize, adj: &Vec<Vec<(usize, usize)>>, n: usize, span: Span) -> (r:
    Result<(Vec<usize>, Ghost<Seq<(int, int)>>), LowerError>)
    requires
        root < n,
        adj@.len() == n,
        forall|x: int, j: int| 0 <= x < n && 0 <= j < adj@[x]@.len() ==> (#[trigger] adj@[x]@[j]).0 < n,
    ensures
        match r {
            Ok((comp, disc)) => {
                &&& comp@.len() >= 1
                &&& comp@[0] == root
                &&& comp@.no_duplicates()
                &&& forall|i: int| 0 <= i < comp@.len() ==> (#[trigger] comp@[i]) < n
                &&& comp_closed(adj_view(adj@), comp@)
                &&& discovered_by(adj_view(adj@), comp@, disc@)
            },
            Err(e) => spec_capacity_error(e, "alias component name count"@, span),
        },
{
    let ghost a = adj_view(adj@);
    let mut component: Vec<usize> = Vec::new();
    let ghost mut disc: Seq<(int, int)> = Seq::empty();
    let mut seen: Vec<bool> = Vec::new();
    let mut x: usize = 0;
    while x < n
        invariant
            x <= n,
            seen@.len() == x,
            forall|y: int| 0 <= y < x ==> !(#[trigger] seen@[y]),
        decreases n - x,
    {
        seen.push(false);
        x = x + 1;
    }
    proof {
        lemma_count_true_none(seen@);
    }
    let mut queue: Vec<usize> = Vec::new();
    queue.push(root);
    let ghost mut qd: Seq<(int, int)> = seq![(0int, 0int)];
    let mut head: usize = 0;
    while head < queue.len()
        invariant
            root < n,
            adj@.len() == n,
            a == adj_view(adj@),
            forall|x: int, j: int| 0 <= x < n && 0 <= j < adj@[x]@.len() ==> (#[trigger] adj@[x]@[j]).0 < n,
            seen@.len() == n,
            forall|y: int| 0 <= y < n ==> (#[trigger] seen@[y] <==> component@.contains(y as usize)),
            component@.no_duplicates(),
            forall|i: int| 0 <= i < component@.len() ==> (#[trigger] component@[i]) < n,
            component@.len() == count_true(seen@),
            queue@.len() >= 1,
            queue@[0] == root,
            head <= queue@.len(),
            forall|q: int| 0 <= q < queue@.len() ==> (#[trigger] queue@[q]) < n,
            head == 0 ==> component@.len() == 0,
            head >= 1 ==> component@.len() >= 1 && component@[0] == root,
            forall|i: int, j: int|
                0 <= i < component@.len() && 0 <= j < a[component@[i] as int].len() ==> seen@[(#[trigger] a[component@[i] as int][j]).0 as int]
                    || queue@.subrange(head as int, queue@.len() as int).contains(a[component@[i] as int][j].0),
            discovered_by(a, component@, disc),
            qd.len() == queue@.len(),
            forall|q: int|
                1 <= q < queue@.len() ==> 0 <= (#[trigger] qd[q]).0 < component@.len() && 0 <= qd[q].1
                    < a[component@[qd[q].0] as int].len() && a[component@[qd[q].0] as int][qd[q].1].0 == queue@[q],
        decreases n - component@.len(), queue@.len() - head,
    {
        proof {
            lemma_count_true_le(seen@);
        }
        let name = queue[head];
        let ghost old_head = head;
        let ghost q0 = queue@;
        head = head + 1;
        if seen[name] {
            proof {
                assert forall|i: int, j: int|
                    0 <= i < component@.len() && 0 <= j < a[component@[i] as int].len() implies seen@[(#[trigger] a[component@[i] as int][j]).0 as int]
                    || queue@.subrange(head as int, queue@.len() as int).contains(a[component@[i] as int][j].0) by {
                    let y = a[component@[i] as int][j].0;
                    if !seen@[y as int] {
                        let w = choose|w: int| 0 <= w < q0.len() - old_head && q0.subrange(old_head as int, q0.len() as int)[w] == y;
                        if w == 0 {
                            assert(q0[old_head as int] == y);
                        } else {
                            assert(queue@.subrange(head as int, queue@.len() as int)[w - 1] == y);
                        }
                    }
                }
            }
            continue;
        }
        let ghost s0 = seen@;
        seen.set(name, true);
        proof {
            lemma_count_true_set(s0, name as int);
            lemma_count_true_le(seen@);
        }
        let neighbors = &adj[name];
        proof {
            assert forall|t: int| 0 <= t < neighbors@.len() implies (#[trigger] neighbors@[t]).0 < n by {
                assert(adj@[name as int]@[t].0 < n);
            }
        }
        let ghost qd0 = qd;
        let ghost c0 = component@;
        let mut j: usize = 0;
        while j < neighbors.len()
            invariant
                j <= neighbors@.len(),
                forall|t: int| 0 <= t < neighbors@.len() ==> (#[trigger] neighbors@[t]).0 < n,
                queue@.len() == q0.len() + j,
                qd.len() == q0.len() + j,
                forall|t: int| 0 <= t < q0.len() ==> queue@[t] == q0[t] && qd[t] == qd0[t],
                forall|t: int| 0 <= t < j ==> queue@[q0.len() + t] == (#[trigger] neighbors@[t]).0 && qd[q0.len() + t] == (c0.len() as int, t),
            decreases neighbors@.len() - j,
        {
            queue.push(neighbors[j].0);
            proof {
                qd = qd.push((c0.len() as int, j as int));
            }
            j = j + 1;
        }
        reserve_capacity(&mut component, 1, "alias component name count", span)?;
        component.push(name);
        proof {
            disc = disc.push(if old_head == 0 {
                (0int, 0int)
            } else {
                qd0[old_head as int]
            });
            let c1 = component@;
            let tail = queue@.subrange(head as int, queue@.len() as int);
            assert(neighbors@ == a[name as int]);
            assert(c1 =~= c0.push(name));
            assert(!c0.contains(name));
            assert(c1.no_duplicates()) by {
                assert forall|p: int, q: int| 0 <= p < c1.len() && 0 <= q < c1.len() && p != q implies c1[p] != c1[q] by {
                    if p == c0.len() as int {
                        assert(c1[q] == c0[q]);
                    } else if q == c0.len() as int {
                        assert(c1[p] == c0[p]);
                    }
                }
            }
            assert forall|y: int| 0 <= y < n implies (#[trigger] seen@[y] <==> c1.contains(y as usize)) by {
                if y == name as int {
                    assert(c1[c0.len() as int] == name);
                } else {
                    if c1.contains(y as usize) {
                        let w = choose|w: int| 0 <= w < c1.len() && c1[w] == y as usize;
                        assert(c0[w] == y as usize);
                    }
                    if c0.contains(y as usize) {
                        let w = choose|w: int| 0 <= w < c0.len() && c0[w] == y as usize;
                        assert(c1[w] == y as usize);
                    }
                }
            }
            assert forall|i: int, jj: int|
                0 <= i < c1.len() && 0 <= jj < a[c1[i] as int].len() implies seen@[(#[trigger] a[c1[i] as int][jj]).0 as int]
                || tail.contains(a[c1[i] as int][jj].0) by {
                let y = a[c1[i] as int][jj].0;
                if i == c0.len() as int {
                    assert(queue@[q0.len() + jj] == y);
                    assert(tail[q0.len() + jj - head] == y);
                } else {
                    assert(c1[i] == c0[i]);
                    if !seen@[y as int] {
                        assert(!s0[y as int]);
                        let w = choose|w: int| 0 <= w < q0.len() - old_head && q0.subrange(old_head as int, q0.len() as int)[w] == y;
                        if w == 0 {
                            assert(q0[old_head as int] == y);
                        } else {
                            assert(tail[w - 1] == y);
                        }
                    }
                }
            }
            assert(discovered_by(a, c1, disc)) by {
                assert forall|i: int| 1 <= i < c1.len() implies 0 <= (#[trigger] disc[i]).0 < i && 0 <= disc[i].1
                    < a[c1[disc[i].0] as int].len() && a[c1[disc[i].0] as int][disc[i].1].0 == c1[i] by {
                    if i < c0.len() {
                        assert(c1[i] == c0[i]);
                        assert(c1[disc[i].0] == c0[disc[i].0]);
                    } else {
                        assert(old_head >= 1);
                        assert(q0[old_head as int] == name);
                        assert(c1[disc[i].0] == c0[disc[i].0]);
                    }
                }
            }
            assert forall|q: int|
                1 <= q < queue@.len() implies 0 <= (#[trigger] qd[q]).0 < c1.len() && 0 <= qd[q].1
                    < a[c1[qd[q].0] as int].len() && a[c1[qd[q].0] as int][qd[q].1].0 == queue@[q] by {
                if q < q0.len() {
                    assert(c1[qd[q].0] == c0[qd[q].0]);
                } else {
                    let t = q - q0.len();
                    assert(queue@[q] == neighbors@[t].0);
                    assert(c1[c0.len() as int] == name);
                }
            }
            if old_head == 0 {
                assert(c1[0] == name);
            } else {
                assert(c1[0] == c0[0]);
            }
            assert forall|q: int| 0 <= q < queue@.len() implies (#[trigger] queue@[q]) < n by {
                if q < q0.len() {
                    assert(queue@[q] == q0[q]);
                } else {
                    assert(queue@[q] == neighbors@[q - q0.len()].0);
                }
            }
        }
    }
    proof {
        let c = component@;
        assert forall|i: int, j: int|
            0 <= i < c.len() && 0 <= j < a[c[i] as int].len() implies c.contains((#[trigger] a[c[i] as int][j]).0) by {
            let y = a[c[i] as int][j].0;
            assert(queue@.subrange(head as int, queue@.len() as int).len() == 0);
            assert(seen@[y as int]);
        }
    }
    Ok((component, Ghost(disc)))
}

proof fn lemma_push_contains(s: Seq<u64>, x: u64, v: u64)
    ensures
        s.push(x).contains(v) <==> (s.contains(v) || v == x),
{
    if s.contains(v) {
        let j = choose|j: int| 0 <= j < s.len() && s[j] == v;
        assert(s.push(x)[j] == v);
    }
    if v == x {
        assert(s.push(x)[s.len() as int] == v);
    }
    if s.push(x).contains(v) && v != x {
        let j = choose|j: int| 0 <= j < s.push(x).len() && s.push(x)[j] == v;
        assert(s[j] == v);
    }
}

proof fn lemma_count_true_none(s: Seq<bool>)
    requires
        forall|i: int| 0 <= i < s.len() ==> !s[i],
    ensures
        count_true(s) == 0,
    decreases s.len(),
{
    if s.len() > 0 {
        lemma_count_true_none(s.drop_last());
    }
}


/// The roots of an alias component: its forced names, in component
/// order, or its first name when none is forced.
fn alias_component_roots(component: &Vec<usize>, flags: &Vec<bool>, span: Span) -> (r: Result<
    Vec<usize>,
    LowerError,
>)
    requires
        component@.len() >= 1,
        forall|i: int| 0 <= i < component@.len() ==> (#[trigger] component@[i]) < flags@.len(),
    ensures
        match r {
            Ok(roots) => roots@ == (if forced_members(component@, flags@).len() > 0 {
                forced_members(component@, flags@)
            } else {
                seq![component@[0]]
            }),
            Err(e) => spec_capacity_error(e, "alias component forced root count"@, span)
                || spec_capacity_error(e, "alias component root count"@, span),
        },
{
    let mut forced: Vec<usize> = vec_with_capacity(
        component.len(),
        "alias component forced root count",
        span,
    )?;
    let mut i: usize = 0;
    while i < component.len()
        invariant
            i <= component@.len(),
            forall|k: int| 0 <= k < component@.len() ==> (#[trigger] component@[k]) < flags@.len(),
            forced@ == forced_members(component@.take(i as int), flags@),
        decreases component@.len() - i,
    {
        proof {
            assert(component@.take(i + 1).drop_last() =~= component@.take(i as int));
            assert(component@.take(i + 1).last() == component@[i as int]);
        }
        if flags[component[i]] {
            forced.push(component[i]);
        }
        i = i + 1;
    }
    proof {
        assert(component@.take(component@.len() as int) =~= component@);
    }
    if forced.len() > 0 {
        return Ok(forced);
    }
    let mut roots: Vec<usize> = vec_with_capacity(1, "alias component root count", span)?;
    roots.push(component[0]);
    proof {
        assert(roots@ =~= seq![component@[0]]);
    }
    Ok(roots)
}

/// `path` walks the alias graph: consecutive names are joined by the
/// edges `via`.
pub open spec fn alias_walk(edges: Seq<AliasEdge>, path: Seq<u64>, via: Seq<int>) -> bool {
    &&& path.len() >= 1
    &&& via.len() + 1 == path.len()
    &&& forall|i: int| 0 <= i < via.len() ==> edge_joins(edges, #[trigger] via[i], path[i], path[i + 1])
}

/// Names `u` and `v` are linked by a chain of alias edges.
pub open spec fn connected(edges: Seq<AliasEdge>, u: u64, v: u64) -> bool {
    exists|path: Seq<u64>, via: Seq<int>|
        #[trigger] alias_walk(edges, path, via) && path[0] == u && path.last() == v
}

/// The name at position `p` of the first-seen name list roots its alias
/// group: no name linked to it is forced, and none is seen before it.
pub open spec fn is_group_root(edges: Seq<AliasEdge>, forced: Seq<u64>, names: Seq<u64>, p: int) -> bool {
    forall|y: u64|
        #[trigger] connected(edges, names[p], y) ==> !forced.contains(y) && (forall|q: int|
            0 <= q < p ==> #[trigger] names[q] != y)
}

proof fn lemma_walk_push(edges: Seq<AliasEdge>, path: Seq<u64>, via: Seq<int>, v: u64, e: int)
    requires
        alias_walk(edges, path, via),
        edge_joins(edges, e, path.last(), v),
    ensures
        alias_walk(edges, path.push(v), via.push(e)),
{
    let p2 = path.push(v);
    let v2 = via.push(e);
    assert forall|i: int| 0 <= i < v2.len() implies edge_joins(edges, #[trigger] v2[i], p2[i], p2[i + 1]) by {
        if i < via.len() {
            assert(v2[i] == via[i] && p2[i] == path[i] && p2[i + 1] == path[i + 1]);
        } else {
            assert(p2[i] == path.last());
        }
    }
}

proof fn lemma_walk_prepend(edges: Seq<AliasEdge>, path: Seq<u64>, via: Seq<int>, u: u64, e: int)
    requires
        alias_walk(edges, path, via),
        edge_joins(edges, e, u, path[0]),
    ensures
        alias_walk(edges, seq![u] + path, seq![e] + via),
{
    let p2 = seq![u] + path;
    let v2 = seq![e] + via;
    assert forall|i: int| 0 <= i < v2.len() implies edge_joins(edges, #[trigger] v2[i], p2[i], p2[i + 1]) by {
        if i > 0 {
            assert(v2[i] == via[i - 1] && p2[i] == path[i - 1] && p2[i + 1] == path[i]);
            assert(edge_joins(edges, via[i - 1], path[i - 1], path[(i - 1) + 1]));
        } else {
            assert(p2[1] == path[0]);
        }
    }
}

/// An adjacency entry of `x` is an alias edge between the two names.
proof fn lemma_adj_edge(
    edges: Seq<AliasEdge>,
    names: Seq<u64>,
    ends: Seq<(usize, usize)>,
    adj: Seq<Seq<(usize, usize)>>,
    x: usize,
    t: int,
)
    requires
        ends_ok(edges, names, ends),
        adj_ok(adj, ends, names.len()),
        x < names.len(),
        0 <= t < adj[x as int].len(),
    ensures
        edge_joins(edges, adj[x as int][t].1 as int, names[x as int], names[adj[x as int][t].0 as int]),
{
    let (y, k) = adj[x as int][t];
    assert(adj[x as int][t].0 < names.len() && (k as int) < ends.len());
    assert(ends[k as int] == (x, y) || ends[k as int] == (y, x));
    assert(names[ends[k as int].0 as int] == edges[k as int].lhs && names[ends[k as int].1 as int]
        == edges[k as int].rhs);
}

/// Every member of a component is reached from its first member.
proof fn lemma_first_reaches_member(
    edges: Seq<AliasEdge>,
    names: Seq<u64>,
    ends: Seq<(usize, usize)>,
    adj: Seq<Seq<(usize, usize)>>,
    comp: Seq<usize>,
    disc: Seq<(int, int)>,
    j: int,
)
    requires
        ends_ok(edges, names, ends),
        adj_ok(adj, ends, names.len()),
        discovered_by(adj, comp, disc),
        forall|i: int| 0 <= i < comp.len() ==> (#[trigger] comp[i]) < names.len(),
        0 <= j < comp.len(),
    ensures
        connected(edges, names[comp[0] as int], names[comp[j] as int]),
    decreases j,
{
    if j == 0 {
        let path = seq![names[comp[0] as int]];
        let via = Seq::<int>::empty();
        assert(alias_walk(edges, path, via));
    } else {
        let (d, t) = disc[j];
        lemma_first_reaches_member(edges, names, ends, adj, comp, disc, d);
        let (path, via) = choose|path: Seq<u64>, via: Seq<int>|
            #[trigger] alias_walk(edges, path, via) && path[0] == names[comp[0] as int] && path.last()
                == names[comp[d] as int];
        lemma_adj_edge(edges, names, ends, adj, comp[d], t);
        let k = adj[comp[d] as int][t].1 as int;
        lemma_walk_push(edges, path, via, names[comp[j] as int], k);
        let p2 = path.push(names[comp[j] as int]);
        let v2 = via.push(k);
        assert(p2[0] == names[comp[0] as int] && p2.last() == names[comp[j] as int]);
        assert(alias_walk(edges, p2, v2));
    }
}

/// A member of a component reaches whatever its first member reaches.
proof fn lemma_member_reaches(
    edges: Seq<AliasEdge>,
    names: Seq<u64>,
    ends: Seq<(usize, usize)>,
    adj: Seq<Seq<(usize, usize)>>,
    comp: Seq<usize>,
    disc: Seq<(int, int)>,
    j: int,
    y: u64,
)
    requires
        ends_ok(edges, names, ends),
        adj_ok(adj, ends, names.len()),
        discovered_by(adj, comp, disc),
        forall|i: int| 0 <= i < comp.len() ==> (#[trigger] comp[i]) < names.len(),
        0 <= j < comp.len(),
        connected(edges, names[comp[0] as int], y),
    ensures
        connected(edges, names[comp[j] as int], y),
    decreases j,
{
    if j > 0 {
        let (d, t) = disc[j];
        lemma_member_reaches(edges, names, ends, adj, comp, disc, d, y);
        let (path, via) = choose|path: Seq<u64>, via: Seq<int>|
            #[trigger] alias_walk(edges, path, via) && path[0] == names[comp[d] as int] && path.last() == y;
        lemma_adj_edge(edges, names, ends, adj, comp[d], t);
        let k = adj[comp[d] as int][t].1 as int;
        lemma_walk_prepend(edges, path, via, names[comp[j] as int], k);
        let p2 = seq![names[comp[j] as int]] + path;
        let v2 = seq![k] + via;
        assert(p2[0] == names[comp[j] as int] && p2.last() == y);
        assert(alias_walk(edges, p2, v2));
    }
}

/// A name that breadth-first orientation writes, found unvisited while a
/// component is walked, is no group root: the component either holds a
/// forced name, which the written name is linked to, or was started at
/// an earlier, linked name.
proof fn lemma_new_child_not_root(
    edges: Seq<AliasEdge>,
    forced: Seq<u64>,
    names: Seq<u64>,
    ends: Seq<(usize, usize)>,
    adj: Seq<Seq<(usize, usize)>>,
    comp: Seq<usize>,
    disc: Seq<(int, int)>,
    flags: Seq<bool>,
    visited: Seq<bool>,
    rc: usize,
    c: usize,
)
    requires
        ends_ok(edges, names, ends),
        adj_ok(adj, ends, names.len()),
        discovered_by(adj, comp, disc),
        forall|i: int| 0 <= i < comp.len() ==> (#[trigger] comp[i]) < names.len(),
        comp.len() >= 1,
        comp[0] == rc,
        comp.contains(c),
        flags.len() == names.len(),
        forall|x: int| 0 <= x < names.len() ==> flags[x] == forced.contains(#[trigger] names[x]),
        visited.len() == names.len(),
        c < names.len(),
        !visited[c as int],
        forall|q: int| 0 <= q < rc ==> #[trigger] visited[q],
        forced_members(comp, flags).len() == 0 ==> visited[rc as int],
    ensures
        !is_group_root(edges, forced, names, c as int),
{
    let jc = choose|jc: int| 0 <= jc < comp.len() && comp[jc] == c;
    lemma_forced_members(comp, flags);
    let fm = forced_members(comp, flags);
    if fm.len() > 0 {
        let f = fm[0];
        assert(fm.contains(f));
        assert(comp.contains(f) && flags[f as int]);
        let jf = choose|jf: int| 0 <= jf < comp.len() && comp[jf] == f;
        lemma_first_reaches_member(edges, names, ends, adj, comp, disc, jf);
        lemma_member_reaches(edges, names, ends, adj, comp, disc, jc, names[f as int]);
        assert(forced.contains(names[f as int]));
        assert(connected(edges, names[c as int], names[f as int]));
    } else {
        assert(rc < c) by {
            if c < rc {
                assert(visited[c as int]);
            }
        }
        let path = seq![names[rc as int]];
        let via = Seq::<int>::empty();
        assert(alias_walk(edges, path, via));
        assert(connected(edges, names[comp[0] as int], names[rc as int]));
        lemma_member_reaches(edges, names, ends, adj, comp, disc, jc, names[rc as int]);
        assert(connected(edges, names[c as int], names[rc as int]));
        assert(names[rc as int] == names[rc as int]);
    }
}

/// No oriented edge writes a group root.
pub open spec fn no_root_written(
    edges: Seq<AliasEdge>,
    forced: Seq<u64>,
    names: Seq<u64>,
    slot: Seq<Option<(usize, usize)>>,
) -> bool {
    forall|f: int|
        0 <= f < slot.len() && (#[trigger] slot[f]) is Some ==> !is_group_root(
            edges,
            forced,
            names,
            slot[f].unwrap().1 as int,
        )
}

/// Some oriented edge writes the name at position `x`.
pub open spec fn is_written(slot: Seq<Option<(usize, usize)>>, x: usize) -> bool {
    exists|f: int| 0 <= f < slot.len() && (#[trigger] slot[f]) is Some && slot[f].unwrap().1 == x
}

/// Every neighbor of a visited name is visited.
pub open spec fn visited_closed(adj: Seq<Seq<(usize, usize)>>, visited: Seq<bool>) -> bool {
    forall|x: int, j: int|
        0 <= x < visited.len() && visited[x] && 0 <= j < adj[x].len() ==> visited[(#[trigger] adj[x][j]).0 as int]
}

/// The alias graph is undirected: whoever lists a neighbor is listed by it.
proof fn lemma_adj_symmetric(adj: Seq<Seq<(usize, usize)>>, ends: Seq<(usize, usize)>, n: nat, x: int, j: int)
    requires
        adj_ok(adj, ends, n),
        0 <= x < n,
        0 <= j < adj[x].len(),
    ensures
        adj[adj[x][j].0 as int].contains((x as usize, adj[x][j].1)),
{
    let (y, e) = adj[x][j];
    assert(ends[e as int] == (x as usize, y) || ends[e as int] == (y, x as usize));
    assert(adj[ends[e as int].0 as int].contains((ends[e as int].1, e)));
    assert(adj[ends[e as int].1 as int].contains((ends[e as int].0, e)));
}

/// A closed visited set that holds some member of a component holds the
/// component's first member.
proof fn lemma_closed_reaches_first(
    adj: Seq<Seq<(usize, usize)>>,
    ends: Seq<(usize, usize)>,
    n: nat,
    comp: Seq<usize>,
    disc: Seq<(int, int)>,
    visited: Seq<bool>,
    j: int,
)
    requires
        adj_ok(adj, ends, n),
        discovered_by(adj, comp, disc),
        forall|i: int| 0 <= i < comp.len() ==> (#[trigger] comp[i]) < n,
        visited.len() == n,
        visited_closed(adj, visited),
        0 <= j < comp.len(),
        visited[comp[j] as int],
    ensures
        visited[comp[0] as int],
    decreases j,
{
    if j > 0 {
        let (d, t) = disc[j];
        let x = comp[d] as int;
        assert(adj[x][t].0 == comp[j]);
        lemma_adj_symmetric(adj, ends, n, x, t);
        let w = choose|w: int| 0 <= w < adj[comp[j] as int].len() && adj[comp[j] as int][w] == (x as usize, adj[x][t].1);
        assert(visited[adj[comp[j] as int][w].0 as int]);
        lemma_closed_reaches_first(adj, ends, n, comp, disc, visited, d);
    }
}

/// A walk that starts at a member of a closed component stays in it.
proof fn lemma_walk_stays(
    edges: Seq<AliasEdge>,
    names: Seq<u64>,
    ends: Seq<(usize, usize)>,
    adj: Seq<Seq<(usize, usize)>>,
    comp: Seq<usize>,
    path: Seq<u64>,
    via: Seq<int>,
    c0: usize,
)
    requires
        ends_ok(edges, names, ends),
        names.no_duplicates(),
        adj_ok(adj, ends, names.len()),
        comp_closed(adj, comp),
        alias_walk(edges, path, via),
        comp.contains(c0),
        c0 < names.len(),
        names[c0 as int] == path[0],
    ensures
        exists|c: usize| #[trigger] comp.contains(c) && c < names.len() && names[c as int] == path.last(),
    decreases path.len(),
{
    if path.len() == 1 {
        assert(comp.contains(c0) && names[c0 as int] == path.last());
    } else {
        let pp = path.drop_last();
        let vv = via.drop_last();
        assert(alias_walk(edges, pp, vv)) by {
            assert forall|i: int| 0 <= i < vv.len() implies edge_joins(edges, #[trigger] vv[i], pp[i], pp[i + 1]) by {
                assert(vv[i] == via[i]);
                assert(edge_joins(edges, via[i], path[i], path[i + 1]));
            }
        }
        lemma_walk_stays(edges, names, ends, adj, comp, pp, vv, c0);
        let c = choose|c: usize| #[trigger] comp.contains(c) && c < names.len() && names[c as int] == pp.last();
        let k = via.len() - 1;
        let e = via[k];
        assert(edge_joins(edges, e, path[k], path[k + 1]));
        assert(path[k] == pp.last());
        let (pl, pr) = ends[e];
        assert(names[pl as int] == edges[e].lhs && names[pr as int] == edges[e].rhs);
        let i = choose|i: int| 0 <= i < comp.len() && comp[i] == c;
        if edges[e].lhs == path[k] && edges[e].rhs == path[k + 1] {
            assert(names[pl as int] == names[c as int]);
            assert(pl == c);
            assert(adj[pl as int].contains((pr, e as usize)));
            let w = choose|w: int| 0 <= w < adj[pl as int].len() && adj[pl as int][w] == (pr, e as usize);
            assert(comp.contains(adj[comp[i] as int][w].0));
            assert(comp.contains(pr) && pr < names.len() && names[pr as int] == path.last());
        } else {
            assert(names[pr as int] == names[c as int]);
            assert(pr == c);
            assert(adj[pr as int].contains((pl, e as usize)));
            let w = choose|w: int| 0 <= w < adj[pr as int].len() && adj[pr as int][w] == (pl, e as usize);
            assert(comp.contains(adj[comp[i] as int][w].0));
            assert(comp.contains(pl) && pl < names.len() && names[pl as int] == path.last());
        }
    }
}

/// Each oriented edge slot `Some((parent, child))` follows its edge,
/// between two distinct visited names, and writes an unforced child.
pub open spec fn slots_ok(
    slot: Seq<Option<(usize, usize)>>,
    ends: Seq<(usize, usize)>,
    visited: Seq<bool>,
    flags: Seq<bool>,
) -> bool {
    &&& slot.len() == ends.len()
    &&& forall|e: int|
        0 <= e < slot.len() && (#[trigger] slot[e]) is Some ==> {
            let (p, c) = slot[e].unwrap();
            &&& p < visited.len()
            &&& c < visited.len()
            &&& p != c
            &&& (ends[e] == (p, c) || ends[e] == (c, p))
            &&& visited[p as int]
            &&& visited[c as int]
            &&& !flags[c as int]
        }
}

/// `rank` orders the visited names by when they were reached (each below
/// `count`), and every oriented edge leads from an earlier name to a
/// later one.
pub open spec fn rank_ok(rank: Seq<int>, visited: Seq<bool>, count: int, slot: Seq<Option<(usize, usize)>>) -> bool {
    &&& rank.len() == visited.len()
    &&& forall|x: int| 0 <= x < visited.len() && #[trigger] visited[x] ==> 0 <= rank[x] < count
    &&& forall|e: int|
        0 <= e < slot.len() && (#[trigger] slot[e]) is Some ==> rank[slot[e].unwrap().0 as int]
            < rank[slot[e].unwrap().1 as int]
}

/// Every neighbour of `x` has been visited.
pub open spec fn processed(a: Seq<Seq<(usize, usize)>>, visited: Seq<bool>, x: int) -> bool {
    forall|j: int| 0 <= j < a[x].len() ==> visited[(#[trigger] a[x][j]).0 as int]
}

/// Each oriented edge leads from a name reached no later than any visited
/// neighbour of the name it writes.
pub open spec fn parent_first(
    rank: Seq<int>,
    slot: Seq<Option<(usize, usize)>>,
    a: Seq<Seq<(usize, usize)>>,
    visited: Seq<bool>,
) -> bool {
    forall|e: int, j: int|
        #![trigger slot[e], a[slot[e].unwrap().1 as int][j]]
        0 <= e < slot.len() && slot[e] is Some && 0 <= j < a[slot[e].unwrap().1 as int].len()
            && visited[a[slot[e].unwrap().1 as int][j].0 as int] ==> rank[a[slot[e].unwrap().1 as int][j].0 as int]
            >= rank[slot[e].unwrap().0 as int]
}

/// The queue holds names in the order they were reached.
pub open spec fn queue_sorted(rank: Seq<int>, queue: Seq<usize>) -> bool {
    forall|i: int, j: int| 0 <= i <= j < queue.len() ==> rank[#[trigger] queue[i] as int] <= rank[#[trigger] queue[j] as int]
}

/// Every visited name reached before `parent` has all its neighbours
/// visited.
pub open spec fn below_processed(rank: Seq<int>, visited: Seq<bool>, a: Seq<Seq<(usize, usize)>>, parent: int) -> bool {
    forall|x: int| 0 <= x < visited.len() && #[trigger] visited[x] && rank[x] < rank[parent] ==> processed(a, visited, x)
}

/// Some order of discovery fits the visited names and oriented edges,
/// and each oriented edge comes from the earliest-reached neighbour.
pub open spec fn ranked_first(
    visited: Seq<bool>,
    count: int,
    slot: Seq<Option<(usize, usize)>>,
    a: Seq<Seq<(usize, usize)>>,
) -> bool {
    exists|rank: Seq<int>| #[trigger] rank_ok(rank, visited, count, slot) && parent_first(rank, slot, a, visited)
}

/// As `ranked_first`, with the queue in discovery order.
pub open spec fn bfs_ranked(
    visited: Seq<bool>,
    count: int,
    slot: Seq<Option<(usize, usize)>>,
    a: Seq<Seq<(usize, usize)>>,
    queue: Seq<usize>,
) -> bool {
    exists|rank: Seq<int>|
        #[trigger] rank_ok(rank, visited, count, slot) && parent_first(rank, slot, a, visited) && queue_sorted(
            rank,
            queue,
        )
}

/// As `bfs_ranked`, with every name reached before `parent` processed.
pub open spec fn bfs_at(
    visited: Seq<bool>,
    count: int,
    slot: Seq<Option<(usize, usize)>>,
    a: Seq<Seq<(usize, usize)>>,
    queue: Seq<usize>,
    parent: int,
) -> bool {
    exists|rank: Seq<int>|
        #[trigger] rank_ok(rank, visited, count, slot) && parent_first(rank, slot, a, visited) && queue_sorted(
            rank,
            queue,
        ) && below_processed(rank, visited, a, parent)
}

/// No two oriented edges write the same name.
pub open spec fn children_distinct(slot: Seq<Option<(usize, usize)>>) -> bool {
    forall|e1: int, e2: int|
        0 <= e1 < slot.len() && 0 <= e2 < slot.len() && e1 != e2 && (#[trigger] slot[e1]) is Some
            && (#[trigger] slot[e2]) is Some ==> slot[e1].unwrap().1 != slot[e2].unwrap().1
}

/// Visit the unvisited neighbors of `parent`: mark each, queue it, and
/// orient the edge that reached it from `parent` to it.
fn visit_alias_neighbors(
    parent: usize,
    adj: &Vec<Vec<(usize, usize)>>,
    ends: &Vec<(usize, usize)>,
    visited: &mut Vec<bool>,
    count: &mut usize,
    queue: &mut Vec<usize>,
    slot: &mut Vec<Option<(usize, usize)>>,
    comp: &Vec<usize>,
    flags: &Vec<bool>,
)
    requires
        adj_ok(adj_view(adj@), ends@, old(visited)@.len()),
        flags@.len() == old(visited)@.len(),
        parent < old(visited)@.len(),
        old(visited)@[parent as int],
        comp@.contains(parent),
        comp_closed(adj_view(adj@), comp@),
        forall|i: int| 0 <= i < comp@.len() ==> (#[trigger] comp@[i]) < old(visited)@.len(),
        forall|x: int| 0 <= x < old(visited)@.len() && #[trigger] flags@[x] && comp@.contains(x as usize) ==> old(visited)@[x],
        *old(count) == count_true(old(visited)@),
        slots_ok(old(slot)@, ends@, old(visited)@, flags@),
        children_distinct(old(slot)@),
        forall|q: int| 0 <= q < old(queue)@.len() ==> (#[trigger] old(queue)@[q]) < old(visited)@.len()
            && old(visited)@[old(queue)@[q] as int] && comp@.contains(old(queue)@[q]),
        bfs_at(old(visited)@, *old(count) as int, old(slot)@, adj_view(adj@), old(queue)@, parent as int),
    ensures
        bfs_ranked(final(visited)@, *final(count) as int, final(slot)@, adj_view(adj@), final(queue)@),
        final(visited)@.len() == old(visited)@.len(),
        forall|x: int| 0 <= x < old(visited)@.len() && #[trigger] old(visited)@[x] ==> final(visited)@[x],
        *final(count) == count_true(final(visited)@),
        *final(count) - *old(count) == final(queue)@.len() - old(queue)@.len(),
        final(queue)@.len() >= old(queue)@.len(),
        forall|q: int| 0 <= q < old(queue)@.len() ==> (#[trigger] final(queue)@[q]) == old(queue)@[q],
        forall|q: int| 0 <= q < final(queue)@.len() ==> (#[trigger] final(queue)@[q]) < final(visited)@.len()
            && final(visited)@[final(queue)@[q] as int] && comp@.contains(final(queue)@[q]),
        forall|x: int|
            0 <= x < final(visited)@.len() && #[trigger] final(visited)@[x] && !old(visited)@[x] ==> final(queue)@.subrange(
                old(queue)@.len() as int,
                final(queue)@.len() as int,
            ).contains(x as usize),
        forall|j: int|
            0 <= j < adj@[parent as int]@.len() ==> final(visited)@[(#[trigger] adj@[parent as int]@[j]).0 as int],
        forall|x: int|
            0 <= x < final(visited)@.len() && #[trigger] final(visited)@[x] && !old(visited)@[x] ==> is_written(
                final(slot)@,
                x as usize,
            ),
        slots_ok(final(slot)@, ends@, final(visited)@, flags@),
        children_distinct(final(slot)@),
        forall|e: int| 0 <= e < old(slot)@.len() && (#[trigger] old(slot)@[e]) is Some ==> final(slot)@[e] == old(slot)@[e],
        forall|e: int|
            0 <= e < final(slot)@.len() && (#[trigger] final(slot)@[e]) is Some && !(old(slot)@[e] is Some)
                ==> !old(visited)@[final(slot)@[e].unwrap().1 as int] && comp@.contains(final(slot)@[e].unwrap().1),
{
    let ghost n = visited@.len();
    let ghost a = adj_view(adj@);
    let ghost v0 = visited@;
    let ghost q0 = queue@;
    let ghost s0 = slot@;
    let ghost count0 = *count;
    let neighbors = &adj[parent];
    proof {
        assert(neighbors@ == a[parent as int]);
    }
    let mut j: usize = 0;
    while j < neighbors.len()
        invariant
            j <= neighbors@.len(),
            n == visited@.len(),
            a == adj_view(adj@),
            neighbors@ == a[parent as int],
            adj_ok(a, ends@, n),
            flags@.len() == n,
            parent < n,
            visited@[parent as int],
            comp@.contains(parent),
            comp_closed(a, comp@),
            forall|i: int| 0 <= i < comp@.len() ==> (#[trigger] comp@[i]) < n,
            forall|x: int| 0 <= x < n && #[trigger] flags@[x] && comp@.contains(x as usize) ==> v0[x],
            forall|x: int| 0 <= x < n && #[trigger] v0[x] ==> visited@[x],
            v0.len() == n,
            *count == count_true(visited@),
            *count - count0 == queue@.len() - q0.len(),
            queue@.len() >= q0.len(),
            forall|q: int| 0 <= q < q0.len() ==> (#[trigger] queue@[q]) == q0[q],
            forall|q: int| 0 <= q < queue@.len() ==> (#[trigger] queue@[q]) < n && visited@[queue@[q] as int]
                && comp@.contains(queue@[q]),
            forall|x: int|
                0 <= x < n && #[trigger] visited@[x] && !v0[x] ==> queue@.subrange(q0.len() as int, queue@.len() as int).contains(
                    x as usize,
                ),
            forall|t: int| 0 <= t < j ==> visited@[(#[trigger] neighbors@[t]).0 as int],
            forall|x: int| 0 <= x < n && #[trigger] visited@[x] && !v0[x] ==> is_written(slot@, x as usize),
            slots_ok(slot@, ends@, visited@, flags@),
            children_distinct(slot@),
            s0.len() == slot@.len(),
            forall|e: int| 0 <= e < s0.len() && (#[trigger] s0[e]) is Some ==> slot@[e] == s0[e],
            forall|e: int|
                0 <= e < slot@.len() && (#[trigger] slot@[e]) is Some && !(s0[e] is Some) ==> !v0[slot@[e].unwrap().1 as int]
                    && comp@.contains(slot@[e].unwrap().1),
            bfs_at(visited@, *count as int, slot@, a, queue@, parent as int),
        decreases neighbors@.len() - j,
    {
        let (child, e) = neighbors[j];
        proof {
            assert(a[parent as int][j as int] == (child, e));
            assert(child < n && e < ends@.len());
        }
        if !visited[child] {
            let ghost vb = visited@;
            let ghost qb = queue@;
            let ghost sb = slot@;
            proof {
                lemma_count_true_set(vb, child as int);
                lemma_count_true_le(visited@.update(child as int, true));
                assert(comp@.contains(child)) by {
                    let i = choose|i: int| 0 <= i < comp@.len() && comp@[i] == parent;
                    assert(a[comp@[i] as int][j as int].0 == child);
                }
                assert(!flags@[child as int]);
                if sb[e as int] is Some {
                    let (p2, c2) = sb[e as int].unwrap();
                    assert(vb[p2 as int] && vb[c2 as int]);
                    assert(ends@[e as int] == (parent, child) || ends@[e as int] == (child, parent));
                    assert(false);
                }
            }
            let ghost cb = *count as int;
            let ghost rank = choose|r: Seq<int>|
                rank_ok(r, vb, cb, sb) && parent_first(r, sb, a, vb) && queue_sorted(r, qb) && below_processed(
                    r,
                    vb,
                    a,
                    parent as int,
                );
            proof {
                assert(visited.len() == visited@.len());
            }
            visited.set(child, true);
            *count = *count + 1;
            queue.push(child);
            slot.set(e, Some((parent, child)));
            proof {
                let vn = visited@;
                let sn = slot@;
                let r2 = rank.update(child as int, cb);
                assert(parent_first(r2, sn, a, vn)) by {
                    assert forall|f: int, t: int|
                        #![trigger sn[f], a[sn[f].unwrap().1 as int][t]]
                        0 <= f < sn.len() && sn[f] is Some && 0 <= t < a[sn[f].unwrap().1 as int].len()
                            && vn[a[sn[f].unwrap().1 as int][t].0 as int] implies r2[a[sn[f].unwrap().1 as int][t].0 as int]
                        >= r2[sn[f].unwrap().0 as int] by {
                        let (p, c) = sn[f].unwrap();
                        let q = a[c as int][t].0;
                        if f == e as int {
                            assert(p == parent && c == child);
                            assert(vb[parent as int]);
                            if q != child {
                                assert(vb[q as int]);
                                if rank[q as int] < rank[parent as int] {
                                    assert(processed(a, vb, q as int));
                                    lemma_adj_symmetric(a, ends@, n, c as int, t);
                                    let w = choose|w: int| 0 <= w < a[q as int].len() && a[q as int][w] == (child, a[c as int][t].1);
                                    assert(vb[a[q as int][w].0 as int]);
                                }
                            }
                        } else {
                            assert(sn[f] == sb[f]);
                            assert(vb[p as int] && vb[c as int]);
                            if q != child {
                                assert(vb[q as int]);
                            }
                        }
                    }
                }
                assert(queue_sorted(r2, queue@)) by {
                    assert forall|i1: int, j1: int| 0 <= i1 <= j1 < queue@.len() implies r2[#[trigger] queue@[i1] as int]
                        <= r2[#[trigger] queue@[j1] as int] by {
                        if j1 < qb.len() {
                            assert(queue@[i1] == qb[i1] && queue@[j1] == qb[j1]);
                            assert(vb[qb[i1] as int] && vb[qb[j1] as int]);
                        } else if i1 < qb.len() {
                            assert(queue@[i1] == qb[i1]);
                            assert(vb[qb[i1] as int]);
                        }
                    }
                }
                assert(below_processed(r2, vn, a, parent as int)) by {
                    assert forall|x: int| 0 <= x < vn.len() && #[trigger] vn[x] && r2[x] < r2[parent as int] implies processed(a, vn, x) by {
                        assert(vb[parent as int]);
                        assert(x != child as int);
                        assert(vb[x]);
                        assert(processed(a, vb, x));
                        assert forall|t: int| 0 <= t < a[x].len() implies vn[(#[trigger] a[x][t]).0 as int] by {
                            assert(vb[a[x][t].0 as int]);
                        }
                    }
                }
                assert(rank_ok(r2, vn, *count as int, sn)) by {
                    assert forall|x: int| 0 <= x < vn.len() && #[trigger] vn[x] implies 0 <= r2[x] < *count as int by {
                        if x != child as int {
                            assert(vb[x]);
                        }
                    }
                    assert forall|f: int| 0 <= f < sn.len() && (#[trigger] sn[f]) is Some implies r2[sn[f].unwrap().0 as int]
                        < r2[sn[f].unwrap().1 as int] by {
                        if f == e as int {
                            assert(vb[parent as int]);
                            assert(rank[parent as int] < cb);
                        } else {
                            assert(sn[f] == sb[f]);
                            let (p, c) = sb[f].unwrap();
                            assert(vb[p as int] && vb[c as int]);
                        }
                    }
                }
                assert(slots_ok(sn, ends@, vn, flags@)) by {
                    assert forall|f: int| 0 <= f < sn.len() && (#[trigger] sn[f]) is Some implies {
                        let (p, c) = sn[f].unwrap();
                        &&& p < vn.len()
                        &&& c < vn.len()
                        &&& p != c
                        &&& (ends@[f] == (p, c) || ends@[f] == (c, p))
                        &&& vn[p as int]
                        &&& vn[c as int]
                        &&& !flags@[c as int]
                    } by {
                        if f != e as int {
                            assert(sn[f] == sb[f]);
                        }
                    }
                }
                assert(children_distinct(sn)) by {
                    assert forall|e1: int, e2: int|
                        0 <= e1 < sn.len() && 0 <= e2 < sn.len() && e1 != e2 && (#[trigger] sn[e1]) is Some
                            && (#[trigger] sn[e2]) is Some implies sn[e1].unwrap().1 != sn[e2].unwrap().1 by {
                        if e1 == e as int {
                            assert(sn[e2] == sb[e2]);
                            assert(vb[sb[e2].unwrap().1 as int]);
                        } else if e2 == e as int {
                            assert(sn[e1] == sb[e1]);
                            assert(vb[sb[e1].unwrap().1 as int]);
                        } else {
                            assert(sn[e1] == sb[e1] && sn[e2] == sb[e2]);
                        }
                    }
                }
                assert forall|x: int|
                    0 <= x < n && #[trigger] vn[x] && !v0[x] implies queue@.subrange(q0.len() as int, queue@.len() as int).contains(
                        x as usize,
                    ) by {
                    let tail = queue@.subrange(q0.len() as int, queue@.len() as int);
                    if x == child as int {
                        assert(tail[tail.len() - 1] == child);
                    } else {
                        assert(vb[x]);
                        let old_tail = qb.subrange(q0.len() as int, qb.len() as int);
                        let w = choose|w: int| 0 <= w < old_tail.len() && old_tail[w] == x as usize;
                        assert(tail[w] == x as usize);
                    }
                }
                assert forall|q: int| 0 <= q < queue@.len() implies (#[trigger] queue@[q]) < n && vn[queue@[q] as int]
                    && comp@.contains(queue@[q]) by {
                    if q < qb.len() {
                        assert(queue@[q] == qb[q]);
                    }
                }
                assert forall|t: int| 0 <= t <= j implies vn[(#[trigger] neighbors@[t]).0 as int] by {}
                assert forall|x: int| 0 <= x < n && #[trigger] vn[x] && !v0[x] implies is_written(sn, x as usize) by {
                    if x == child as int {
                        assert(sn[e as int] == Some((parent, child)));
                    } else {
                        assert(vb[x]);
                        let f = choose|f: int| 0 <= f < sb.len() && (#[trigger] sb[f]) is Some && sb[f].unwrap().1 == x as usize;
                        assert(sn[f] == sb[f]);
                    }
                }
            }
        }
        j = j + 1;
    }
    proof {
        let r = choose|r: Seq<int>|
            rank_ok(r, visited@, *count as int, slot@) && parent_first(r, slot@, a, visited@) && queue_sorted(
                r,
                queue@,
            ) && below_processed(r, visited@, a, parent as int);
        assert(rank_ok(r, visited@, *count as int, slot@));
    }
}

/// Some ranking of names (the order in which the breadth-first search
/// from the group roots reaches them) puts the source of every update
/// below its target, and no name joined to a written name by an edge
/// below that update's source: following sources back from a written
/// name never returns to it, so the updates of a group form a forest, and
/// each name is written from its earliest-reached neighbour.
pub open spec fn writes_ranked(edges: Seq<AliasEdge>, out: Seq<OrientedAlias>) -> bool {
    exists|rank: spec_fn(u64) -> int|
        #[trigger] sources_ranked_below(rank, out) && sources_reached_first(rank, edges, out)
}

/// `rank` puts the source of every update below its target.
pub open spec fn sources_ranked_below(rank: spec_fn(u64) -> int, out: Seq<OrientedAlias>) -> bool {
    forall|i: int| 0 <= i < out.len() ==> rank((#[trigger] out[i]).source) < rank(out[i].target)
}

/// `rank` puts no name joined by an edge to the target of an update below
/// that update's source.
pub open spec fn sources_reached_first(rank: spec_fn(u64) -> int, edges: Seq<AliasEdge>, out: Seq<OrientedAlias>) -> bool {
    forall|i: int, f: int, q: u64|
        #![trigger out[i], edge_joins(edges, f, out[i].target, q)]
        0 <= i < out.len() && edge_joins(edges, f, out[i].target, q) ==> rank(q) >= rank(out[i].source)
}

/// The alias edges are oriented into single-writer updates: each update
/// follows its edge between two different names, updates come in edge
/// order, no name is written twice, no forced name and no group root is
/// written, no chain of updates comes back to where it started, and each
/// name is written from its earliest-reached neighbour.
pub open spec fn alias_orientation_ok(edges: Seq<AliasEdge>, forced: Seq<u64>, out: Seq<OrientedAlias>) -> bool {
    &&& writes_ranked(edges, out)
    &&& forall|i: int|
        0 <= i < out.len() ==> edge_joins(edges, (#[trigger] out[i]).edge as int, out[i].source, out[i].target)
            && out[i].source != out[i].target
    &&& forall|i: int, j: int| 0 <= i < j < out.len() ==> (#[trigger] out[i]).edge < (#[trigger] out[j]).edge
    &&& forall|i: int, j: int| 0 <= i < j < out.len() ==> (#[trigger] out[i]).target != (#[trigger] out[j]).target
    &&& forall|i: int| 0 <= i < out.len() ==> !forced.contains((#[trigger] out[i]).target)
    &&& forall|i: int, p: int|
        #![trigger out[i], alias_names(edges)[p]]
        0 <= i < out.len() && 0 <= p < alias_names(edges).len() && alias_names(edges)[p] == out[i].target
            ==> !is_group_root(edges, forced, alias_names(edges), p)
}

/// The capacity failures that orienting alias edges can report.
pub open spec fn alias_capacity_error(e: LowerError, span: Span) -> bool {
    ||| spec_capacity_error(e, "discrete alias ordered name count"@, span)
    ||| spec_capacity_error(e, "discrete alias adjacency count"@, span)
    ||| spec_capacity_error(e, "directed alias edge count"@, span)
    ||| spec_capacity_error(e, "alias component name count"@, span)
    ||| spec_capacity_error(e, "alias component forced root count"@, span)
    ||| spec_capacity_error(e, "alias component root count"@, span)
    ||| spec_capacity_error(e, "oriented discrete alias equation count"@, span)
}

/// Every name of the alias edges is written by an update, is forced, or
/// roots its alias group (no name linked to it is forced, and it is the
/// first of them to be seen).
pub open spec fn alias_orientation_complete(edges: Seq<AliasEdge>, forced: Seq<u64>, out: Seq<OrientedAlias>) -> bool {
    forall|p: int|
        0 <= p < alias_names(edges).len() ==> (exists|i: int|
            0 <= i < out.len() && (#[trigger] out[i]).target == alias_names(edges)[p]) || forced.contains(
            alias_names(edges)[p],
        ) || is_group_root(edges, forced, alias_names(edges), p)
}

/// Orient discrete alias edges so that every update target has a single
/// writer. The names of each connected group of aliases form a tree
/// rooted at the group's forced names (inputs and names that other
/// updates already write), or at its first-seen name when none is forced;
/// each other name is written from its parent, found breadth-first. The
/// updates are listed in edge order.
#[verifier::rlimit(60)]
pub fn oriented_discrete_alias_equations(edges: &[AliasEdge], forced: &[u64]) -> (r: Result<
    Vec<OrientedAlias>,
    LowerError,
>)
    ensures
        match r {
            Ok(out) => alias_orientation_ok(edges@, forced@, out@) && alias_orientation_complete(
                edges@,
                forced@,
                out@,
            ),
            Err(e) => exists|k: int| 0 <= k < edges@.len() && alias_capacity_error(e, #[trigger] edges@[k].span),
        },
{
    if edges.len() == 0 {
        let out: Vec<OrientedAlias> = Vec::new();
        proof {
            let rank = |u: u64| 0int;
            assert(sources_ranked_below(rank, out@));
            assert(sources_reached_first(rank, edges@, out@));
        }
        return Ok(out);
    }
    let span = edges[0].span;
    let (names, ends) = match intern_alias_edges(edges, span) {
        Ok(v) => v,
        Err(e) => {
            return Err(e);
        },
    };
    let n = names.len();
    let adj = match build_alias_adjacency(&ends, n, edges) {
        Ok(v) => v,
        Err(e) => {
            return Err(e);
        },
    };
    let flags = forced_flags(&names, forced);
    let ghost a = adj_view(adj@);
    let mut visited: Vec<bool> = Vec::new();
    let mut x: usize = 0;
    while x < n
        invariant
            x <= n,
            visited@.len() == x,
            forall|y: int| 0 <= y < x ==> !(#[trigger] visited@[y]),
        decreases n - x,
    {
        visited.push(false);
        x = x + 1;
    }
    proof {
        lemma_count_true_none(visited@);
    }
    let mut count: usize = 0;
    let mut slot: Vec<Option<(usize, usize)>> = match vec_with_capacity(
        edges.len(),
        "directed alias edge count",
        span,
    ) {
        Ok(v) => v,
        Err(e) => {
            return Err(e);
        },
    };
    let mut e0: usize = 0;
    while e0 < edges.len()
        invariant
            e0 <= edges@.len(),
            slot@.len() == e0,
            forall|f: int| 0 <= f < e0 ==> (#[trigger] slot@[f]) is None,
        decreases edges@.len() - e0,
    {
        slot.push(None);
        e0 = e0 + 1;
    }
    proof {
        let r0 = Seq::new(n as nat, |i: int| 0int);
        assert(rank_ok(r0, visited@, count as int, slot@));
        assert(parent_first(r0, slot@, a, visited@));
    }
    let mut rc: usize = 0;
    while rc < n
        invariant
            rc <= n,
            n == names@.len(),
            names@ == alias_names(edges@),
            names@.no_duplicates(),
            ends_ok(edges@, names@, ends@),
            a == adj_view(adj@),
            adj_ok(a, ends@, n as nat),
            flags@.len() == n,
            forall|x: int| 0 <= x < names@.len() ==> flags@[x] == forced@.contains(#[trigger] names@[x]),
            visited@.len() == n,
            count == count_true(visited@),
            slots_ok(slot@, ends@, visited@, flags@),
            children_distinct(slot@),
            no_root_written(edges@, forced@, names@, slot@),
            ranked_first(visited@, count as int, slot@, a),
            span == edges@[0].span,
            edges@.len() > 0,
            visited_closed(a, visited@),
            forall|q: int| 0 <= q < rc ==> #[trigger] visited@[q],
            forall|x: int|
                0 <= x < n && #[trigger] visited@[x] ==> is_written(slot@, x as usize) || flags@[x]
                    || is_group_root(edges@, forced@, names@, x),
        decreases n - rc,
    {
        if visited[rc] {
            rc = rc + 1;
            continue;
        }
        proof {
            assert forall|x: int, j: int| 0 <= x < n && 0 <= j < adj@[x]@.len() implies (#[trigger] adj@[x]@[j]).0 < n by {
                assert(a[x] == adj@[x]@);
                assert(a[x][j].0 < n);
            }
        }
        let (component, disc) = match collect_alias_component(rc, &adj, n, span) {
            Ok(v) => v,
            Err(e) => {
                return Err(e);
            },
        };
        let roots = match alias_component_roots(&component, &flags, span) {
            Ok(v) => v,
            Err(e) => {
                return Err(e);
            },
        };
        let ghost v_start = visited@;
        proof {
            lemma_forced_members(component@, flags@);
            lemma_forced_members_distinct(component@, flags@);
            assert(!v_start[rc as int]);
            assert forall|i: int| 0 <= i < roots@.len() implies (#[trigger] roots@[i]) < n && component@.contains(roots@[i]) by {
                if forced_members(component@, flags@).len() > 0 {
                    assert(forced_members(component@, flags@).contains(roots@[i]));
                } else {
                    assert(roots@[i] == component@[0]);
                }
                let w = choose|w: int| 0 <= w < component@.len() && component@[w] == roots@[i];
                assert(component@[w] < n);
            }
            assert forall|i: int| 0 <= i < roots@.len() implies flags@[(#[trigger] roots@[i]) as int]
                || is_group_root(edges@, forced@, names@, roots@[i] as int) by {
                if forced_members(component@, flags@).len() > 0 {
                    assert(forced_members(component@, flags@).contains(roots@[i]));
                } else {
                    assert(roots@[i] == rc);
                    assert forall|y: u64| #[trigger] connected(edges@, names@[rc as int], y) implies !forced@.contains(y) && (forall|q: int|
                        0 <= q < rc ==> #[trigger] names@[q] != y) by {
                        let (path, via) = choose|path: Seq<u64>, via: Seq<int>|
                            #[trigger] alias_walk(edges@, path, via) && path[0] == names@[rc as int] && path.last() == y;
                        assert(component@[0] == rc);
                        assert(component@.contains(rc));
                        lemma_walk_stays(edges@, names@, ends@, a, component@, path, via, rc);
                        let c = choose|c: usize| #[trigger] component@.contains(c) && c < names@.len() && names@[c as int] == path.last();
                        assert(!forced_members(component@, flags@).contains(c));
                        assert(!flags@[c as int]);
                        assert forall|q: int| 0 <= q < rc implies #[trigger] names@[q] != y by {
                            if names@[q] == y {
                                assert(q == c as int);
                                assert(v_start[q]);
                                let jj = choose|jj: int| 0 <= jj < component@.len() && component@[jj] == c;
                                lemma_closed_reaches_first(a, ends@, n as nat, component@, disc@, v_start, jj);
                                assert(v_start[rc as int]);
                            }
                        }
                    }
                }
            }
        }
        proof {
            assert forall|i: int| 0 <= i < roots@.len() implies !v_start[(#[trigger] roots@[i]) as int] by {
                if v_start[roots@[i] as int] {
                    let jj = choose|jj: int| 0 <= jj < component@.len() && component@[jj] == roots@[i];
                    lemma_closed_reaches_first(a, ends@, n as nat, component@, disc@, v_start, jj);
                    assert(component@[0] == rc);
                }
            }
            let r = choose|r: Seq<int>| rank_ok(r, visited@, count as int, slot@) && parent_first(r, slot@, a, visited@);
            assert(rank_ok(r, visited@, count as int, slot@));
            assert(queue_sorted(r, Seq::<usize>::empty()));
            assert(bfs_ranked(visited@, count as int, slot@, a, Seq::<usize>::empty()));
        }
        let mut queue: Vec<usize> = Vec::new();
        let mut k: usize = 0;
        while k < roots.len()
            invariant
                k <= roots@.len(),
                visited@.len() == n,
                flags@.len() == n,
                count == count_true(visited@),
                slots_ok(slot@, ends@, visited@, flags@),
                no_root_written(edges@, forced@, names@, slot@),
                bfs_ranked(visited@, count as int, slot@, a, queue@),
                queue@ == roots@.take(k as int),
                forall|i: int| 0 <= i < roots@.len() ==> (#[trigger] roots@[i]) < n && component@.contains(roots@[i]),
                forall|i: int| 0 <= i < roots@.len() ==> flags@[(#[trigger] roots@[i]) as int]
                    || is_group_root(edges@, forced@, names@, roots@[i] as int),
                forall|i: int| 0 <= i < k ==> visited@[(#[trigger] roots@[i]) as int],
                rc < n,
                forall|q: int| 0 <= q < rc ==> #[trigger] visited@[q],
                v_start.len() == n,
                forall|x: int| 0 <= x < n && #[trigger] v_start[x] ==> visited@[x],
                forall|x: int| 0 <= x < n && #[trigger] visited@[x] ==> v_start[x] || queue@.contains(x as usize),
                forall|x: int|
                    0 <= x < n && #[trigger] visited@[x] ==> is_written(slot@, x as usize) || flags@[x]
                        || is_group_root(edges@, forced@, names@, x),
                a == adj_view(adj@),
                adj_ok(a, ends@, n as nat),
                roots@.no_duplicates(),
                forall|i: int| 0 <= i < roots@.len() ==> !v_start[(#[trigger] roots@[i]) as int],
            decreases roots@.len() - k,
        {
            let root = roots[k];
            let ghost qb = queue@;
            let ghost vb0 = visited@;
            let ghost cb0 = count as int;
            let ghost rank0 = choose|r: Seq<int>|
                rank_ok(r, vb0, cb0, slot@) && parent_first(r, slot@, a, vb0) && queue_sorted(r, qb);
            proof {
                if visited@[root as int] {
                    assert(!v_start[roots@[k as int] as int]);
                    assert(qb.contains(root));
                    let w = choose|w: int| 0 <= w < qb.len() && qb[w] == root;
                    assert(roots@[w] == roots@[k as int]);
                    assert(false);
                }
            }
            if !visited[root] {
                let ghost vb = visited@;
                proof {
                    lemma_count_true_set(vb, root as int);
                    lemma_count_true_le(visited@.update(root as int, true));
                }
                let ghost cb = count as int;
                let ghost rank = rank0;
                visited.set(root, true);
                count = count + 1;
                proof {
                    let vn = visited@;
                    let r2 = rank.update(root as int, cb);
                    assert(rank_ok(r2, vn, count as int, slot@)) by {
                        assert forall|x: int| 0 <= x < vn.len() && #[trigger] vn[x] implies 0 <= r2[x] < count as int by {
                            if x != root as int {
                                assert(vb[x]);
                            }
                        }
                        assert forall|f: int| 0 <= f < slot@.len() && (#[trigger] slot@[f]) is Some implies r2[slot@[f].unwrap().0 as int]
                            < r2[slot@[f].unwrap().1 as int] by {
                            let (p, c) = slot@[f].unwrap();
                            assert(vb[p as int] && vb[c as int]);
                        }
                    }
                    assert forall|f: int| 0 <= f < slot@.len() && (#[trigger] slot@[f]) is Some implies {
                        let (p, c) = slot@[f].unwrap();
                        &&& p < vn.len()
                        &&& c < vn.len()
                        &&& p != c
                        &&& (ends@[f] == (p, c) || ends@[f] == (c, p))
                        &&& vn[p as int]
                        &&& vn[c as int]
                        &&& !flags@[c as int]
                    } by {}
                }
            }
            queue.push(root);
            proof {
                let vn = visited@;
                let r2 = rank0.update(root as int, cb0);
                assert(rank_ok(r2, vn, count as int, slot@));
                assert(parent_first(r2, slot@, a, vn)) by {
                    assert forall|f: int, t: int|
                        #![trigger slot@[f], a[slot@[f].unwrap().1 as int][t]]
                        0 <= f < slot@.len() && slot@[f] is Some && 0 <= t < a[slot@[f].unwrap().1 as int].len()
                            && vn[a[slot@[f].unwrap().1 as int][t].0 as int] implies r2[a[slot@[f].unwrap().1 as int][t].0 as int]
                        >= r2[slot@[f].unwrap().0 as int] by {
                        let (p, c) = slot@[f].unwrap();
                        let q = a[c as int][t].0;
                        assert(vn == vb0.update(root as int, true));
                        assert(vb0[p as int] && vb0[c as int]);
                        assert(p != root);
                        assert(rank0[p as int] < cb0);
                        assert(c < n);
                        assert(q < n);
                        if q != root {
                            assert(vb0[q as int]);
                            assert(rank0[q as int] >= rank0[p as int]);
                        }
                    }
                }
                assert(queue_sorted(r2, queue@)) by {
                    assert forall|i1: int, j1: int| 0 <= i1 <= j1 < queue@.len() implies r2[#[trigger] queue@[i1] as int]
                        <= r2[#[trigger] queue@[j1] as int] by {
                        if j1 < qb.len() {
                            assert(queue@[i1] == qb[i1] && queue@[j1] == qb[j1]);
                            assert(qb[i1] == roots@[i1] && qb[j1] == roots@[j1]);
                            assert(vb0[qb[i1] as int] && vb0[qb[j1] as int]);
                        } else if i1 < qb.len() {
                            assert(queue@[i1] == qb[i1]);
                            assert(qb[i1] == roots@[i1]);
                            assert(vb0[qb[i1] as int]);
                        }
                    }
                }
                assert(roots@.take(k + 1) =~= roots@.take(k as int).push(root));
                assert forall|x: int| 0 <= x < n && #[trigger] visited@[x] implies v_start[x] || queue@.contains(x as usize) by {
                    if x == root as int {
                        assert(queue@[k as int] == root);
                    } else if !v_start[x] {
                        assert(qb.contains(x as usize));
                        let w = choose|w: int| 0 <= w < qb.len() && qb[w] == x as usize;
                        assert(queue@[w] == x as usize);
                    }
                }
            }
            k = k + 1;
        }
        proof {
            assert(roots@.take(roots@.len() as int) =~= roots@);
            assert forall|x: int| 0 <= x < n && #[trigger] flags@[x] && component@.contains(x as usize) implies visited@[x] by {
                assert(forced_members(component@, flags@).contains(x as usize));
                assert(roots@ == forced_members(component@, flags@));
                let i = choose|i: int| 0 <= i < roots@.len() && roots@[i] == x as usize;
                assert(visited@[roots@[i] as int]);
            }
            lemma_count_true_le(visited@);
            assert(roots@.len() >= 1);
            assert forall|x: int| 0 <= x < n && #[trigger] visited@[x] implies queue@.subrange(0, queue@.len() as int).contains(
                x as usize,
            ) || (forall|j: int| 0 <= j < a[x].len() ==> visited@[(#[trigger] a[x][j]).0 as int]) by {
                if v_start[x] {
                    assert forall|j: int| 0 <= j < a[x].len() implies visited@[(#[trigger] a[x][j]).0 as int] by {
                        assert(v_start[a[x][j].0 as int]);
                    }
                } else {
                    assert(queue@.subrange(0, queue@.len() as int) =~= queue@);
                }
            }
        }
        let ghost first_root = roots@[0];
        let mut head: usize = 0;
        while head < queue.len()
            invariant
                head <= queue@.len(),
                n == names@.len(),
                a == adj_view(adj@),
                adj_ok(a, ends@, n as nat),
                flags@.len() == n,
                visited@.len() == n,
                count == count_true(visited@),
                count <= n,
                slots_ok(slot@, ends@, visited@, flags@),
                children_distinct(slot@),
                no_root_written(edges@, forced@, names@, slot@),
                bfs_ranked(visited@, count as int, slot@, a, queue@),
                ends_ok(edges@, names@, ends@),
                forall|x: int| 0 <= x < names@.len() ==> flags@[x] == forced@.contains(#[trigger] names@[x]),
                discovered_by(a, component@, disc@),
                component@.len() >= 1,
                component@[0] == rc,
                forced_members(component@, flags@).len() == 0 ==> visited@[rc as int],
                comp_closed(a, component@),
                forall|i: int| 0 <= i < component@.len() ==> (#[trigger] component@[i]) < n,
                forall|x: int| 0 <= x < n && #[trigger] flags@[x] && component@.contains(x as usize) ==> visited@[x],
                forall|q: int| 0 <= q < queue@.len() ==> (#[trigger] queue@[q]) < n && visited@[queue@[q] as int]
                    && component@.contains(queue@[q]),
                rc < n,
                forall|q: int| 0 <= q < rc ==> #[trigger] visited@[q],
                forall|x: int|
                    0 <= x < n && #[trigger] visited@[x] ==> is_written(slot@, x as usize) || flags@[x]
                        || is_group_root(edges@, forced@, names@, x),
                forall|x: int|
                    0 <= x < n && #[trigger] visited@[x] ==> queue@.subrange(head as int, queue@.len() as int).contains(
                        x as usize,
                    ) || (forall|j: int| 0 <= j < a[x].len() ==> visited@[(#[trigger] a[x][j]).0 as int]),
                first_root < n,
                visited@[first_root as int],
                component@.contains(first_root),
            decreases n - count, queue@.len() - head,
        {
            let parent = queue[head];
            let ghost old_head = head;
            head = head + 1;
            let ghost vb = visited@;
            let ghost qb = queue@;
            let ghost sb = slot@;
            visit_alias_neighbors(
                parent,
                &adj,
                &ends,
                &mut visited,
                &mut count,
                &mut queue,
                &mut slot,
                &component,
                &flags,
            );
            proof {
                lemma_count_true_le(visited@);
                let vn = visited@;
                assert forall|q: int| 0 <= q < rc implies #[trigger] vn[q] by {
                    assert(vb[q]);
                }
                assert forall|f: int| 0 <= f < slot@.len() && (#[trigger] slot@[f]) is Some implies !is_group_root(
                    edges@,
                    forced@,
                    names@,
                    slot@[f].unwrap().1 as int,
                ) by {
                    if sb[f] is Some {
                        assert(slot@[f] == sb[f]);
                    } else {
                        let c = slot@[f].unwrap().1;
                        lemma_new_child_not_root(
                            edges@,
                            forced@,
                            names@,
                            ends@,
                            a,
                            component@,
                            disc@,
                            flags@,
                            vb,
                            rc,
                            c,
                        );
                    }
                }
                if forced_members(component@, flags@).len() == 0 {
                    assert(vn[rc as int]);
                }
                assert forall|x: int| 0 <= x < n && #[trigger] vn[x] implies is_written(slot@, x as usize) || flags@[x]
                    || is_group_root(edges@, forced@, names@, x) by {
                    if vb[x] {
                        if is_written(sb, x as usize) {
                            let f = choose|f: int| 0 <= f < sb.len() && (#[trigger] sb[f]) is Some && sb[f].unwrap().1 == x as usize;
                            assert(slot@[f] == sb[f]);
                        }
                    }
                }
                assert forall|x: int| 0 <= x < n && #[trigger] vn[x] implies queue@.subrange(head as int, queue@.len() as int).contains(
                    x as usize,
                ) || (forall|j: int| 0 <= j < a[x].len() ==> vn[(#[trigger] a[x][j]).0 as int]) by {
                    let tail = queue@.subrange(head as int, queue@.len() as int);
                    if !vb[x] {
                        let nt = queue@.subrange(qb.len() as int, queue@.len() as int);
                        let w = choose|w: int| 0 <= w < nt.len() && nt[w] == x as usize;
                        assert(tail[qb.len() - head + w] == x as usize);
                    } else if x == parent as int {
                        assert forall|j: int| 0 <= j < a[x].len() implies vn[(#[trigger] a[x][j]).0 as int] by {
                            assert(a[x] == adj@[x]@);
                            assert(vn[adj@[parent as int]@[j].0 as int]);
                        }
                    } else {
                        let ot = qb.subrange(old_head as int, qb.len() as int);
                        if ot.contains(x as usize) {
                            let w = choose|w: int| 0 <= w < ot.len() && ot[w] == x as usize;
                            assert(w != 0);
                            assert(queue@[old_head + w] == qb[old_head + w]);
                            assert(tail[w - 1] == x as usize);
                        } else {
                            assert forall|j: int| 0 <= j < a[x].len() implies vn[(#[trigger] a[x][j]).0 as int] by {
                                assert(vb[a[x][j].0 as int]);
                            }
                        }
                    }
                }
            }
        }
        proof {
            assert(visited_closed(a, visited@)) by {
                assert forall|x: int, j: int|
                    0 <= x < visited@.len() && visited@[x] && 0 <= j < a[x].len() implies visited@[(#[trigger] a[x][j]).0 as int] by {
                    assert(queue@.subrange(head as int, queue@.len() as int).len() == 0);
                }
            }
            let jj = choose|jj: int| 0 <= jj < component@.len() && component@[jj] == first_root;
            lemma_closed_reaches_first(a, ends@, n as nat, component@, disc@, visited@, jj);
            assert(component@[0] == rc);
            assert forall|q: int| 0 <= q < rc + 1 implies #[trigger] visited@[q] by {}
        }
        rc = rc + 1;
    }
    let mut directed: usize = 0;
    let mut f: usize = 0;
    while f < slot.len()
        invariant
            f <= slot@.len(),
            directed <= f,
        decreases slot@.len() - f,
    {
        if slot[f].is_some() {
            directed = directed + 1;
        }
        f = f + 1;
    }
    let mut out: Vec<OrientedAlias> = match vec_with_capacity(
        directed,
        "oriented discrete alias equation count",
        span,
    ) {
        Ok(v) => v,
        Err(e) => {
            return Err(e);
        },
    };
    let mut e: usize = 0;
    while e < slot.len()
        invariant
            e <= slot@.len(),
            slot@.len() == edges@.len(),
            n == names@.len(),
            names@.no_duplicates(),
            ends_ok(edges@, names@, ends@),
            flags@.len() == n,
            forall|x: int| 0 <= x < names@.len() ==> flags@[x] == forced@.contains(#[trigger] names@[x]),
            slots_ok(slot@, ends@, visited@, flags@),
            children_distinct(slot@),
            no_root_written(edges@, forced@, names@, slot@),
            ranked_first(visited@, count as int, slot@, a),
            visited@.len() == n,
            forall|x: int| 0 <= x < n ==> #[trigger] visited@[x],
            a == adj_view(adj@),
            adj_ok(a, ends@, n as nat),
            forall|i: int| 0 <= i < out@.len() ==> (#[trigger] out@[i]).edge < e && slot@[out@[i].edge as int] is Some
                && out@[i].source == names@[slot@[out@[i].edge as int].unwrap().0 as int]
                && out@[i].target == names@[slot@[out@[i].edge as int].unwrap().1 as int],
            forall|i: int, j: int| 0 <= i < j < out@.len() ==> (#[trigger] out@[i]).edge < (#[trigger] out@[j]).edge,
            forall|g: int| 0 <= g < e && (#[trigger] slot@[g]) is Some ==> exists|i: int| 0 <= i < out@.len() && (#[trigger] out@[i]).edge == g,
        decreases slot@.len() - e,
    {
        let ghost ob = out@;
        match slot[e] {
            Some((p, c)) => {
                out.push(OrientedAlias { edge: e, source: names[p], target: names[c] });
                proof {
                    assert forall|g: int| 0 <= g < e + 1 && (#[trigger] slot@[g]) is Some implies exists|i: int| 0 <= i < out@.len() && (#[trigger] out@[i]).edge == g by {
                        if g == e as int {
                            assert(out@[ob.len() as int].edge == g);
                        } else {
                            let i = choose|i: int| 0 <= i < ob.len() && (#[trigger] ob[i]).edge == g;
                            assert(out@[i] == ob[i]);
                        }
                    }
                }
            },
            None => {},
        }
        e = e + 1;
    }
    proof {
        let o = out@;
        assert forall|i: int| 0 <= i < o.len() implies edge_joins(edges@, (#[trigger] o[i]).edge as int, o[i].source, o[i].target)
            && o[i].source != o[i].target by {
            let k = o[i].edge as int;
            let (p, c) = slot@[k].unwrap();
            assert(ends@[k] == (p, c) || ends@[k] == (c, p));
            assert(p != c);
            assert(names@[p as int] != names@[c as int]);
        }
        assert forall|i: int, j: int| 0 <= i < j < o.len() implies (#[trigger] o[i]).target != (#[trigger] o[j]).target by {
            let ki = o[i].edge as int;
            let kj = o[j].edge as int;
            assert(slot@[ki].unwrap().1 != slot@[kj].unwrap().1);
        }
        assert forall|i: int| 0 <= i < o.len() implies !forced@.contains((#[trigger] o[i]).target) by {
            let k = o[i].edge as int;
            let c = slot@[k].unwrap().1;
            assert(!flags@[c as int]);
            assert(flags@[c as int] == forced@.contains(names@[c as int]));
        }
        assert forall|i: int, p: int|
            #![trigger o[i], names@[p]]
            0 <= i < o.len() && 0 <= p < names@.len() && names@[p] == o[i].target implies !is_group_root(
            edges@,
            forced@,
            names@,
            p,
        ) by {
            let k = o[i].edge as int;
            let c = slot@[k].unwrap().1;
            assert(names@[c as int] == names@[p]);
            assert(c as int == p);
        }
        let r = choose|r: Seq<int>| rank_ok(r, visited@, count as int, slot@) && parent_first(r, slot@, a, visited@);
        let rank = |u: u64| r[choose|p: int| 0 <= p < names@.len() && names@[p] == u];
        assert forall|i: int| 0 <= i < o.len() implies rank((#[trigger] o[i]).source) < rank(o[i].target) by {
            let k = o[i].edge as int;
            let (p, c) = slot@[k].unwrap();
            assert(r[p as int] < r[c as int]);
            let ps = choose|q: int| 0 <= q < names@.len() && names@[q] == names@[p as int];
            let cs = choose|q: int| 0 <= q < names@.len() && names@[q] == names@[c as int];
            assert(ps == p as int);
            assert(cs == c as int);
        }
        assert(sources_ranked_below(rank, o));
        assert forall|i: int, f: int, q: u64|
            #![trigger o[i], edge_joins(edges@, f, o[i].target, q)]
            0 <= i < o.len() && edge_joins(edges@, f, o[i].target, q) implies rank(q) >= rank(o[i].source) by {
            let k = o[i].edge as int;
            let (p, c) = slot@[k].unwrap();
            let (u0, u1) = ends@[f];
            assert(names@[u0 as int] == edges@[f].lhs && names@[u1 as int] == edges@[f].rhs);
            let y: usize = if names@[u0 as int] == names@[c as int] && names@[u1 as int] == q {
                u1
            } else {
                u0
            };
            let cc: usize = if y == u1 { u0 } else { u1 };
            assert(names@[cc as int] == names@[c as int]);
            assert(cc == c);
            assert(names@[y as int] == q);
            assert(a[c as int].contains((y, f as usize)));
            let t = choose|t: int| 0 <= t < a[c as int].len() && a[c as int][t] == (y, f as usize);
            assert(visited@[y as int]);
            assert(r[a[c as int][t].0 as int] >= r[p as int]);
            let ys = choose|z: int| 0 <= z < names@.len() && names@[z] == q;
            let ps = choose|z: int| 0 <= z < names@.len() && names@[z] == names@[p as int];
            assert(ys == y as int);
            assert(ps == p as int);
        }
        assert(sources_reached_first(rank, edges@, o));
        assert(writes_ranked(edges@, o));
        assert forall|p: int| 0 <= p < names@.len() implies (exists|i: int|
            0 <= i < o.len() && (#[trigger] o[i]).target == names@[p]) || forced@.contains(names@[p])
            || is_group_root(edges@, forced@, names@, p) by {
            assert(visited@[p]);
            if is_written(slot@, p as usize) {
                let g = choose|g: int| 0 <= g < slot@.len() && (#[trigger] slot@[g]) is Some && slot@[g].unwrap().1 == p as usize;
                let i = choose|i: int| 0 <= i < o.len() && (#[trigger] o[i]).edge == g;
                assert(o[i].target == names@[p]);
            } else if flags@[p] {
                assert(forced@.contains(names@[p]));
            }
        }
    }
    Ok(out)
}

/// Whether any of `names` is in `set`.
pub open spec fn spec_any_name_in_set(names: Seq<Seq<char>>, set: Seq<Seq<char>>) -> bool {
    exists|i: int| 0 <= i < names.len() && set.contains(#[trigger] names[i])
}

/// Whether any of `names` is in the name set `set`.
pub fn any_name_in_set(names: &[String], set: &IndexMap<String, ()>) -> (r: bool)
    ensures
        r == spec_any_name_in_set(texts(names@), name_set_keys(*set)),
{
    let ghost ts = texts(names@);
    let mut i: usize = 0;
    while i < names.len()
        invariant
            i <= names@.len(),
            ts == texts(names@),
            forall|j: int| 0 <= j < i ==> !name_set_keys(*set).contains(#[trigger] ts[j]),
        decreases names@.len() - i,
    {
        if name_set_index_of(set, names[i].as_str()).is_some() {
            proof {
                assert(name_set_keys(*set).contains(ts[i as int]));
            }
            return true;
        }
        i = i + 1;
    }
    false
}

/// Whether an alias `lhs := target` should be turned round into
/// `target := lhs`, given the scalar names each side writes: never onto an
/// input, always away from one; towards the protected side when only one
/// side is protected; and otherwise away from a side already written when
/// the other is still free.
pub open spec fn spec_should_reorient(
    lhs_names: Seq<Seq<char>>,
    target_names: Seq<Seq<char>>,
    lhs_is_input: bool,
    target_is_input: bool,
    protected: Seq<Seq<char>>,
    occupied: Seq<Seq<char>>,
) -> bool {
    if target_is_input {
        false
    } else if lhs_is_input {
        true
    } else if spec_any_name_in_set(lhs_names, protected) != spec_any_name_in_set(
        target_names,
        protected,
    ) {
        spec_any_name_in_set(lhs_names, protected)
    } else {
        spec_any_name_in_set(lhs_names, occupied) && !spec_any_name_in_set(target_names, occupied)
    }
}

/// Whether to reorient the alias `lhs := target` (see
/// `spec_should_reorient`); whether a side is an input is decided from the
/// model's input variables by the caller.
pub fn should_reorient_discrete_alias(
    lhs_names: &[String],
    target_names: &[String],
    lhs_is_input: bool,
    target_is_input: bool,
    protected_lhs_names: &IndexMap<String, ()>,
    occupied_lhs_names: &IndexMap<String, ()>,
) -> (r: bool)
    ensures
        r == spec_should_reorient(
            texts(lhs_names@),
            texts(target_names@),
            lhs_is_input,
            target_is_input,
            name_set_keys(*protected_lhs_names),
            name_set_keys(*occupied_lhs_names),
        ),
{
    if target_is_input {
        return false;
    }
    if lhs_is_input {
        return true;
    }
    let lhs_protected = any_name_in_set(lhs_names, protected_lhs_names);
    let target_protected = any_name_in_set(target_names, protected_lhs_names);
    if lhs_protected != target_protected {
        return lhs_protected;
    }
    let lhs_occupied = any_name_in_set(lhs_names, occupied_lhs_names);
    let target_occupied = any_name_in_set(target_names, occupied_lhs_names);
    lhs_occupied && !target_occupied
}

} // verus!
