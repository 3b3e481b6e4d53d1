//! Inverse reachability: from the functions that access a table, back along
//! callers to the entry points that can reach them.
use vstd::prelude::*;
use crate::forward::{in_strings, ReachabilityEngine};
use crate::graph::{
    calls_fn, describes_hop, hops_lead, ids_unique, index_of, is_call_path, resolve_call, resolves_to,
    same_access, CallEdge, CallGraph, DataAccessPoint, FunctionNode, PathNode,
};
use crate::traversal::{in_scope, lemma_visited, reached, shortest_depths, traversal_of, Traversal};

verus! {

/// Whether function `v` of `g` is an entry point.
pub open spec fn is_entry(g: &CallGraph, v: int) -> bool {
    g.functions@[v].is_entry_point
}

/// A backward step from `v` to one of its callers `u`. The walk backward
/// stops at entry points: they have no backward steps.
pub open spec fn back_edge(g: &CallGraph, v: int, u: int) -> bool {
    &&& 0 <= v < g.functions@.len()
    &&& !is_entry(g, v)
    &&& calls_fn(g, u, v)
}

/// Whether `rg` is the backward graph of `g`: the same functions, where the
/// calls of `v` lead to the callers of `v` in `g`, and none leave an entry
/// point.
pub open spec fn reverse_of(g: &CallGraph, rg: &CallGraph) -> bool {
    let n = g.functions@.len();
    &&& rg.functions@.len() == n
    &&& forall|v: int|
        0 <= v < n ==> {
            &&& (#[trigger] rg.functions@[v]).id@ == g.functions@[v].id@
            &&& rg.functions@[v].name@ == g.functions@[v].name@
            &&& rg.functions@[v].file@ == g.functions@[v].file@
        }
    &&& forall|v: int, j: int|
        0 <= v < n && 0 <= j < rg.functions@[v].calls@.len() ==> back_call(
            g,
            v,
            #[trigger] rg.functions@[v].calls@[j],
        )
    &&& forall|v: int, u: int| #[trigger] back_edge(g, v, u) ==> calls_fn(rg, v, u)
}

/// Whether `c`, a call of `v` in the backward graph, stands for a call of
/// `g` into `v`, made at the same line by the function that `c` names.
pub open spec fn back_call(g: &CallGraph, v: int, c: CallEdge) -> bool {
    &&& c.resolved
    &&& c.resolved_candidates@.len() == 1
    &&& !is_entry(g, v)
    &&& exists|u: int, k: int|
        0 <= u < g.functions@.len() && 0 <= k < g.functions@[u].calls@.len()
            && g.functions@[u].id@ == c.resolved_candidates@[0]@ && #[trigger] resolves_to(
            g,
            &g.functions@[u].calls@[k],
            v,
        ) && g.functions@[u].calls@[k].line == c.line
}

proof fn lemma_reverse_edges(g: &CallGraph, rg: &CallGraph, v: int, u: int)
    requires
        ids_unique(g),
        reverse_of(g, rg),
    ensures
        calls_fn(rg, v, u) <==> back_edge(g, v, u),
{
    if calls_fn(rg, v, u) {
        let j = choose|j: int|
            0 <= j < rg.functions@[v].calls@.len() && resolves_to(rg, #[trigger] &rg.functions@[v].calls@[j], u);
        let c = rg.functions@[v].calls@[j];
        assert(back_call(g, v, c));
        let (u2, k) = choose|u2: int, k: int|
            0 <= u2 < g.functions@.len() && 0 <= k < g.functions@[u2].calls@.len()
                && g.functions@[u2].id@ == c.resolved_candidates@[0]@ && #[trigger] resolves_to(
                g,
                &g.functions@[u2].calls@[k],
                v,
            ) && g.functions@[u2].calls@[k].line == c.line;
        assert(rg.functions@[u].id@ == g.functions@[u].id@);
        assert(u2 == u);
        assert(resolves_to(g, &g.functions@[u].calls@[k], v));
    }
}

/// The backward graph of `g`.
pub fn reverse_graph(g: &CallGraph) -> (rg: CallGraph)
    requires
        ids_unique(g),
    ensures
        reverse_of(g, &rg),
        ids_unique(&rg),
{
    let n = g.functions.len();
    let mut fs: Vec<FunctionNode> = Vec::new();
    let mut v: usize = 0;
    while v < n
        invariant
            n == g.functions@.len(),
            ids_unique(g),
            v <= n,
            fs@.len() == v,
            forall|w: int|
                0 <= w < v ==> {
                    &&& (#[trigger] fs@[w]).id@ == g.functions@[w].id@
                    &&& fs@[w].name@ == g.functions@[w].name@
                    &&& fs@[w].file@ == g.functions@[w].file@
                },
            forall|w: int, j: int|
                0 <= w < v && 0 <= j < fs@[w].calls@.len() ==> back_call(g, w, #[trigger] fs@[w].calls@[j]),
            forall|w: int, u: int|
                0 <= w < v && #[trigger] back_edge(g, w, u) ==> exists|j: int|
                    0 <= j < fs@[w].calls@.len() && (#[trigger] fs@[w].calls@[j]).resolved
                        && fs@[w].calls@[j].resolved_candidates@.len() == 1
                        && fs@[w].calls@[j].resolved_candidates@[0]@ == g.functions@[u].id@,
        decreases n - v,
    {
        let mut calls: Vec<CallEdge> = Vec::new();
        if !g.functions[v].is_entry_point {
            let mut u: usize = 0;
            while u < n
                invariant
                    n == g.functions@.len(),
                    ids_unique(g),
                    v < n,
                    u <= n,
                    !is_entry(g, v as int),
                    forall|j: int| 0 <= j < calls@.len() ==> back_call(g, v as int, #[trigger] calls@[j]),
                    forall|uu: int|
                        0 <= uu < u && #[trigger] calls_fn(g, uu, v as int) ==> exists|j: int|
                            0 <= j < calls@.len() && (#[trigger] calls@[j]).resolved
                                && calls@[j].resolved_candidates@.len() == 1
                                && calls@[j].resolved_candidates@[0]@ == g.functions@[uu].id@,
                decreases n - u,
            {
                let ucalls = &g.functions[u].calls;
                let ghost calls0 = calls@;
                let mut k: usize = 0;
                while k < ucalls.len()
                    invariant
                        n == g.functions@.len(),
                        ids_unique(g),
                        v < n,
                        u < n,
                        ucalls == &g.functions@[u as int].calls,
                        k <= ucalls@.len(),
                        !is_entry(g, v as int),
                        calls0.len() <= calls@.len(),
                        forall|j: int| 0 <= j < calls0.len() ==> calls@[j] == calls0[j],
                        forall|j: int| 0 <= j < calls@.len() ==> back_call(g, v as int, #[trigger] calls@[j]),
                        forall|kk: int|
                            0 <= kk < k && #[trigger] resolves_to(g, &ucalls@[kk], v as int) ==> exists|j: int|
                                0 <= j < calls@.len() && (#[trigger] calls@[j]).resolved
                                    && calls@[j].resolved_candidates@.len() == 1
                                    && calls@[j].resolved_candidates@[0]@ == g.functions@[u as int].id@,
                    decreases ucalls@.len() - k,
                {
                    match resolve_call(g, &ucalls[k]) {
                        Some(w) => {
                            if w == v {
                                let mut cands: Vec<String> = Vec::new();
                                cands.push(g.functions[u].id.clone());
                                let ghost c1 = calls@;
                                calls.push(CallEdge {
                                    callee_name: g.functions[u].name.clone(),
                                    resolved: true,
                                    resolved_candidates: cands,
                                    line: ucalls[k].line,
                                });
                                proof {
                                    let c = calls@[calls@.len() - 1];
                                    assert(c.resolved_candidates@[0]@ == g.functions@[u as int].id@);
                                    assert(resolves_to(g, &g.functions@[u as int].calls@[k as int], v as int));
                                    assert(back_call(g, v as int, c));
                                    assert forall|j: int| 0 <= j < calls@.len() implies back_call(g, v as int, #[trigger] calls@[j]) by {
                                        if j < c1.len() {
                                            assert(calls@[j] == c1[j]);
                                        }
                                    }
                                    assert forall|kk: int|
                                        0 <= kk < k + 1 && #[trigger] resolves_to(g, &ucalls@[kk], v as int) implies exists|j: int|
                                            0 <= j < calls@.len() && (#[trigger] calls@[j]).resolved
                                                && calls@[j].resolved_candidates@.len() == 1
                                                && calls@[j].resolved_candidates@[0]@ == g.functions@[u as int].id@ by {
                                        assert(calls@[calls@.len() - 1] == c);
                                    }
                                }
                            }
                        },
                        None => {},
                    }
                    k = k + 1;
                }
                proof {
                    assert forall|uu: int|
                        0 <= uu < u + 1 && #[trigger] calls_fn(g, uu, v as int) implies exists|j: int|
                            0 <= j < calls@.len() && (#[trigger] calls@[j]).resolved
                                && calls@[j].resolved_candidates@.len() == 1
                                && calls@[j].resolved_candidates@[0]@ == g.functions@[uu].id@ by {
                        if uu < u {
                            let j = choose|j: int|
                                0 <= j < calls0.len() && (#[trigger] calls0[j]).resolved
                                    && calls0[j].resolved_candidates@.len() == 1
                                    && calls0[j].resolved_candidates@[0]@ == g.functions@[uu].id@;
                            assert(calls@[j] == calls0[j]);
                        } else {
                            let kk = choose|kk: int|
                                0 <= kk < g.functions@[uu].calls@.len() && resolves_to(g, #[trigger] &g.functions@[uu].calls@[kk], v as int);
                            assert(resolves_to(g, &ucalls@[kk], v as int));
                        }
                    }
                }
                u = u + 1;
            }
        }
        let f = &g.functions[v];
        let ghost fs0 = fs@;
        let ghost cv = calls@;
        assert(forall|uu: int| #[trigger] back_edge(g, v as int, uu) ==> exists|j: int|
            0 <= j < cv.len() && (#[trigger] cv[j]).resolved
                && cv[j].resolved_candidates@.len() == 1
                && cv[j].resolved_candidates@[0]@ == g.functions@[uu].id@);
        fs.push(FunctionNode {
            id: f.id.clone(),
            name: f.name.clone(),
            qualified_name: f.qualified_name.clone(),
            file: f.file.clone(),
            start_line: f.start_line,
            end_line: f.end_line,
            calls,
            data_access: Vec::new(),
            is_entry_point: f.is_entry_point,
        });
        proof {
            assert forall|w: int|
                0 <= w < v + 1 implies {
                    &&& (#[trigger] fs@[w]).id@ == g.functions@[w].id@
                    &&& fs@[w].name@ == g.functions@[w].name@
                    &&& fs@[w].file@ == g.functions@[w].file@
                } by {
                if w < v {
                    assert(fs@[w] == fs0[w]);
                }
            }
            assert forall|w: int, j: int|
                0 <= w < v + 1 && 0 <= j < fs@[w].calls@.len() implies back_call(g, w, #[trigger] fs@[w].calls@[j]) by {
                if w < v {
                    assert(fs@[w] == fs0[w]);
                }
            }
            assert forall|w: int, u: int|
                0 <= w < v + 1 && #[trigger] back_edge(g, w, u) implies exists|j: int|
                    0 <= j < fs@[w].calls@.len() && (#[trigger] fs@[w].calls@[j]).resolved
                        && fs@[w].calls@[j].resolved_candidates@.len() == 1
                        && fs@[w].calls@[j].resolved_candidates@[0]@ == g.functions@[u].id@ by {
                if w < v {
                    assert(fs@[w] == fs0[w]);
                    let j = choose|j: int|
                        0 <= j < fs0[w].calls@.len() && (#[trigger] fs0[w].calls@[j]).resolved
                            && fs0[w].calls@[j].resolved_candidates@.len() == 1
                            && fs0[w].calls@[j].resolved_candidates@[0]@ == g.functions@[u].id@;
                    assert(fs@[w].calls@[j] == fs0[w].calls@[j]);
                } else {
                    assert(fs@[w].calls@ == cv);
                    let j = choose|j: int|
                        0 <= j < cv.len() && (#[trigger] cv[j]).resolved
                            && cv[j].resolved_candidates@.len() == 1
                            && cv[j].resolved_candidates@[0]@ == g.functions@[u].id@;
                    assert(fs@[w].calls@[j] == cv[j]);
                }
            }
        }
        v = v + 1;
    }
    let rg = CallGraph { functions: fs, entry_points: Vec::new(), data_accessors: Vec::new() };
    proof {
        assert forall|w: int, u: int| #[trigger] back_edge(g, w, u) implies calls_fn(&rg, w, u) by {
            let j = choose|j: int|
                0 <= j < fs@[w].calls@.len() && (#[trigger] fs@[w].calls@[j]).resolved
                    && fs@[w].calls@[j].resolved_candidates@.len() == 1
                    && fs@[w].calls@[j].resolved_candidates@[0]@ == g.functions@[u].id@;
            assert(0 <= u < n);
            assert(resolves_to(&rg, &rg.functions@[w].calls@[j], u));
        }
        assert forall|i: int, j: int|
            0 <= i < rg.functions@.len() && 0 <= j < rg.functions@.len() && i != j
                implies #[trigger] rg.functions@[i].id@ != #[trigger] rg.functions@[j].id@ by {
            assert(g.functions@[i].id@ != g.functions@[j].id@);
        }
    }
    rg
}

/// Whether `w` is a backward chain of `g` from `a` to `e`: each function is
/// called by the next, and none but the last is an entry point.
pub open spec fn is_back_chain(g: &CallGraph, w: Seq<int>, a: int, e: int) -> bool {
    &&& w.len() > 0
    &&& w[0] == a
    &&& w.last() == e
    &&& forall|i: int| 0 <= i < w.len() ==> 0 <= #[trigger] w[i] < g.functions@.len()
    &&& forall|i: int| 0 <= i < w.len() - 1 ==> back_edge(g, #[trigger] w[i], w[i + 1])
}

/// Whether `e` is reached backward from `a` in at most `n` steps.
pub open spec fn back_within(g: &CallGraph, a: int, e: int, n: nat) -> bool {
    exists|w: Seq<int>| #[trigger] is_back_chain(g, w, a, e) && w.len() <= n + 1
}

/// Whether the shortest backward chain from `a` to `e` has `d` steps.
pub open spec fn back_at_distance(g: &CallGraph, a: int, e: int, d: nat) -> bool {
    &&& back_within(g, a, e, d)
    &&& d > 0 ==> !back_within(g, a, e, (d - 1) as nat)
}

/// Whether `e` is reached backward from `a` within the optional bound.
pub open spec fn back_reached(g: &CallGraph, a: int, e: int, max_depth: Option<u32>) -> bool {
    exists|d: nat| #[trigger] back_at_distance(g, a, e, d) && in_scope(max_depth, d)
}

proof fn lemma_reverse_chains(g: &CallGraph, rg: &CallGraph, a: int, e: int, max_depth: Option<u32>)
    requires
        ids_unique(g),
        reverse_of(g, rg),
    ensures
        reached(rg, a, e, max_depth) <==> back_reached(g, a, e, max_depth),
        forall|d: nat| crate::graph::at_distance(rg, a, e, d) <==> #[trigger] back_at_distance(g, a, e, d),
{
    assert forall|w: Seq<int>| #[trigger] crate::graph::is_chain(rg, w, a, e) <==> is_back_chain(g, w, a, e) by {
        assert forall|i: int| 0 <= i < w.len() - 1 implies (calls_fn(rg, #[trigger] w[i], w[i + 1]) <==> back_edge(g, w[i], w[i + 1])) by {
            lemma_reverse_edges(g, rg, w[i], w[i + 1]);
        }
    }
    assert forall|n: nat| #[trigger] crate::graph::reach_within(rg, a, e, n) <==> back_within(g, a, e, n) by {
        if crate::graph::reach_within(rg, a, e, n) {
            let w = choose|w: Seq<int>| #[trigger] crate::graph::is_chain(rg, w, a, e) && w.len() <= n + 1;
            assert(is_back_chain(g, w, a, e));
        }
        if back_within(g, a, e, n) {
            let w = choose|w: Seq<int>| #[trigger] is_back_chain(g, w, a, e) && w.len() <= n + 1;
            assert(crate::graph::is_chain(rg, w, a, e));
        }
    }
    assert forall|d: nat| crate::graph::at_distance(rg, a, e, d) <==> #[trigger] back_at_distance(g, a, e, d) by {
        assert(crate::graph::reach_within(rg, a, e, d) <==> back_within(g, a, e, d));
        if d > 0 {
            assert(crate::graph::reach_within(rg, a, e, (d - 1) as nat) <==> back_within(g, a, e, (d - 1) as nat));
        }
    }
    if reached(rg, a, e, max_depth) {
        let d = choose|d: nat| #[trigger] crate::graph::at_distance(rg, a, e, d) && in_scope(max_depth, d);
        assert(back_at_distance(g, a, e, d)) by {
            if d > 0 {
                assert(crate::graph::reach_within(rg, a, e, (d - 1) as nat) <==> back_within(g, a, e, (d - 1) as nat));
            }
        }
    }
    if back_reached(g, a, e, max_depth) {
        let d = choose|d: nat| #[trigger] back_at_distance(g, a, e, d) && in_scope(max_depth, d);
        assert(crate::graph::at_distance(rg, a, e, d)) by {
            if d > 0 {
                assert(crate::graph::reach_within(rg, a, e, (d - 1) as nat) <==> back_within(g, a, e, (d - 1) as nat));
            }
        }
    }
}

/// The first call of function `u` that resolves to function `p`.
fn first_call_to(g: &CallGraph, u: usize, p: usize) -> (k: usize)
    requires
        ids_unique(g),
        u < g.functions@.len(),
        calls_fn(g, u as int, p as int),
    ensures
        k < g.functions@[u as int].calls@.len(),
        resolves_to(g, &g.functions@[u as int].calls@[k as int], p as int),
        forall|kk: int| 0 <= kk < k ==> !resolves_to(g, #[trigger] &g.functions@[u as int].calls@[kk], p as int),
{
    let calls = &g.functions[u].calls;
    let mut k: usize = 0;
    while k < calls.len()
        invariant
            ids_unique(g),
            u < g.functions@.len(),
            calls == &g.functions@[u as int].calls,
            calls_fn(g, u as int, p as int),
            k <= calls@.len(),
            forall|kk: int| 0 <= kk < k ==> !resolves_to(g, #[trigger] &g.functions@[u as int].calls@[kk], p as int),
        decreases calls@.len() - k,
    {
        match resolve_call(g, &calls[k]) {
            Some(w) => {
                if w == p {
                    return k;
                }
            },
            None => {},
        }
        k = k + 1;
    }
    proof {
        let kk = choose|kk: int| 0 <= kk < calls@.len() && resolves_to(g, #[trigger] &g.functions@[u as int].calls@[kk], p as int);
    }
    0
}

/// Whether function `p`, at backward distance `d` from `a`, is the first
/// callee of `v` by which a walk back from `a` that visits each level in
/// storage order reaches `v`, and `k` is `v`'s first call to `p`.
pub open spec fn first_back_step(g: &CallGraph, a: int, v: int, p: int, k: int, d: nat) -> bool {
    &&& 0 <= p < g.functions@.len()
    &&& back_at_distance(g, a, p, d)
    &&& back_edge(g, p, v)
    &&& forall|q: int| 0 <= q < p ==> !(#[trigger] back_at_distance(g, a, q, d) && back_edge(g, q, v))
    &&& 0 <= v < g.functions@.len()
    &&& 0 <= k < g.functions@[v].calls@.len()
    &&& resolves_to(g, &g.functions@[v].calls@[k], p)
    &&& forall|kk: int| 0 <= kk < k ==> !resolves_to(g, #[trigger] &g.functions@[v].calls@[kk], p)
}

/// Whether `path` is the chain of first backward steps from entry point `e`
/// down to `a`, in call order: each hop is made by the function that the
/// walk back from `a` reached first, through its first call.
pub open spec fn is_first_back_path(g: &CallGraph, a: int, e: int, path: Seq<PathNode>) -> bool {
    exists|hops: Seq<(int, int)>|
        #[trigger] hops_lead(g, e, a, hops) && hops.len() == path.len() && (forall|i: int|
            0 <= i < path.len() ==> describes_hop(g, &path[i], hops[i].0, hops[i].1)) && forall|i: int|
            0 <= i < hops.len() ==> first_back_step(
                g,
                a,
                (#[trigger] hops[i]).0,
                crate::traversal::hop_target(hops, a, i),
                hops[i].1,
                (hops.len() - 1 - i) as nat,
            )
}

/// The forward call path from `e` down to `a`, along the chain of callers by
/// which the backward traversal `t` from `a` reached `e`.
fn forward_path(g: &CallGraph, rg: &CallGraph, a: usize, max_depth: Option<u32>, t: &Traversal, e: usize) -> (r: Vec<PathNode>)
    requires
        ids_unique(g),
        reverse_of(g, rg),
        traversal_of(rg, a as int, max_depth, t),
        e < g.functions@.len(),
        t.order@.contains(e),
    ensures
        r@.len() == t.depth@[e as int],
        is_call_path(g, e as int, a as int, r@),
        path_ids_distinct(r@),
        is_first_back_path(g, a as int, e as int, r@),
{
    let ghost n = g.functions@.len();
    let mut path: Vec<PathNode> = Vec::new();
    let ghost mut hops: Seq<(int, int)> = Seq::empty();
    let mut cur = e;
    while cur != a
        invariant
            ids_unique(g),
            reverse_of(g, rg),
            traversal_of(rg, a as int, max_depth, t),
            n == g.functions@.len(),
            cur < n,
            t.order@.contains(cur),
            hops_lead(g, e as int, cur as int, hops),
            path@.len() == hops.len(),
            forall|i: int| 0 <= i < path@.len() ==> describes_hop(g, #[trigger] &path@[i], hops[i].0, hops[i].1),
            forall|i: int| 0 <= i < hops.len() ==> t.depth@[(#[trigger] hops[i]).0] + i == t.depth@[e as int],
            forall|i: int| 0 <= i < hops.len() ==> first_back_step(
                g,
                a as int,
                (#[trigger] hops[i]).0,
                crate::traversal::hop_target(hops, cur as int, i),
                hops[i].1,
                (t.depth@[e as int] - 1 - i) as nat,
            ),
            t.depth@[cur as int] + path@.len() == t.depth@[e as int],
        decreases t.depth@[cur as int],
    {
        let (p, j) = t.reached_by[cur];
        proof {
            crate::traversal::lemma_via(rg, a as int, max_depth, t, cur);
            lemma_reverse_edges(g, rg, p as int, cur as int);
            assert(calls_fn(rg, p as int, cur as int));
        }
        let k = first_call_to(g, cur, p);
        proof {
            let d = (t.depth@[cur as int] - 1) as nat;
            lemma_visited(rg, a as int, max_depth, t, p);
            lemma_reverse_chains(g, rg, a as int, p as int, max_depth);
            assert forall|q: int| 0 <= q < p implies !(#[trigger] back_at_distance(g, a as int, q, d) && back_edge(g, q, cur as int)) by {
                lemma_reverse_chains(g, rg, a as int, q, max_depth);
                lemma_reverse_edges(g, rg, q, cur as int);
                assert(!(crate::graph::at_distance(rg, a as int, q, d) && calls_fn(rg, q, cur as int)));
            }
            assert(first_back_step(g, a as int, cur as int, p as int, k as int, d));
        }
        let f = &g.functions[cur];
        let ghost path0 = path@;
        path.push(PathNode {
            function_id: f.id.clone(),
            function_name: f.name.clone(),
            file: f.file.clone(),
            line: f.calls[k].line,
        });
        proof {
            let h0 = hops;
            hops = hops.push((cur as int, k as int));
            assert forall|i: int| 0 <= i < hops.len() implies first_back_step(
                g,
                a as int,
                (#[trigger] hops[i]).0,
                crate::traversal::hop_target(hops, p as int, i),
                hops[i].1,
                (t.depth@[e as int] - 1 - i) as nat,
            ) by {
                if i < h0.len() {
                    assert(hops[i] == h0[i]);
                    if i + 1 < h0.len() {
                        assert(hops[i + 1] == h0[i + 1]);
                    } else {
                        assert(hops[i + 1] == (cur as int, k as int));
                    }
                }
            }
            assert(describes_hop(g, &path@[path@.len() - 1], cur as int, k as int));
            assert forall|i: int| 0 <= i < path@.len() implies describes_hop(g, #[trigger] &path@[i], hops[i].0, hops[i].1) by {
                if i < path0.len() {
                    assert(path@[i] == path0[i]);
                    assert(hops[i] == h0[i]);
                }
            }
            assert forall|i: int| 0 <= i < hops.len() implies t.depth@[(#[trigger] hops[i]).0] + i == t.depth@[e as int] by {
                if i < h0.len() {
                    assert(hops[i] == h0[i]);
                }
            }
            assert(hops_lead(g, e as int, p as int, hops)) by {
                if h0.len() == 0 {
                    assert(cur as int == e as int);
                } else {
                    assert(hops[0] == h0[0]);
                }
                assert forall|i: int| 0 <= i < hops.len() implies {
                    &&& 0 <= #[trigger] hops[i].0 < g.functions@.len()
                    &&& 0 <= hops[i].1 < g.functions@[hops[i].0].calls@.len()
                    &&& resolves_to(g, &g.functions@[hops[i].0].calls@[hops[i].1], if i + 1 < hops.len() { hops[i + 1].0 } else { p as int })
                } by {
                    if i < h0.len() {
                        assert(hops[i] == h0[i]);
                        if i + 1 < h0.len() {
                            assert(hops[i + 1] == h0[i + 1]);
                        }
                    }
                }
            }
        }
        cur = p;
    }
    proof {
        assert(t.depth@[a as int] == 0);
        assert(hops_lead(g, e as int, a as int, hops));
        assert(hops.len() == t.depth@[e as int]);
        assert forall|x: int, y: int| 0 <= x < path@.len() && 0 <= y < path@.len() && x != y implies (#[trigger] path@[x]).function_id@
            != (#[trigger] path@[y]).function_id@ by {
            assert(describes_hop(g, &path@[x], hops[x].0, hops[x].1));
            assert(describes_hop(g, &path@[y], hops[y].0, hops[y].1));
            assert(t.depth@[hops[x].0] + x == t.depth@[e as int]);
            assert(t.depth@[hops[y].0] + y == t.depth@[e as int]);
            assert(hops[x].0 != hops[y].0);
        }
    }
    path
}

/// Whether no function appears twice among the nodes of `path`.
pub open spec fn path_ids_distinct(path: Seq<PathNode>) -> bool {
    forall|x: int, y: int| 0 <= x < path.len() && 0 <= y < path.len() && x != y ==> (#[trigger] path[x]).function_id@
        != (#[trigger] path[y]).function_id@
}

/// The options of an inverse query: the table, and optionally the field,
/// to trace back.
#[derive(Debug)]
pub struct InverseReachabilityOptions {
    pub table: String,
    pub field: Option<String>,
    /// How many calls back to follow; no bound when `None`.
    pub max_depth: Option<u32>,
}

/// The target of an inverse query.
#[derive(Debug)]
pub struct DataTarget {
    pub table: String,
    pub field: Option<String>,
}

/// A call path from an entry point down to a function that accesses the
/// target.
#[derive(Debug)]
pub struct InverseAccessPath {
    pub entry_point: String,
    /// The calls from the entry point to the accessing function, in call
    /// order: one node for each call, naming the calling function and the
    /// call's line. The path is empty where the entry point performs the
    /// access itself.
    pub path: Vec<PathNode>,
    pub access_point: DataAccessPoint,
}

/// What an inverse query found.
#[derive(Debug)]
pub struct InverseReachabilityResult {
    pub target: DataTarget,
    pub access_paths: Vec<InverseAccessPath>,
    /// The entry points of `access_paths`, each once.
    pub entry_points: Vec<String>,
    /// How many functions access the target.
    pub total_accessors: usize,
}

/// Whether access `a` touches the target of `opts`.
pub open spec fn matches_target(opts: &InverseReachabilityOptions, a: &DataAccessPoint) -> bool {
    &&& a.table@ == opts.table@
    &&& match opts.field {
        Some(f) => in_strings(a.fields@, f@),
        None => true,
    }
}

/// Whether function `f` of `g` accesses the target of `opts`.
pub open spec fn is_accessor(g: &CallGraph, opts: &InverseReachabilityOptions, f: int) -> bool {
    exists|k: int|
        0 <= k < g.functions@[f].data_access@.len() && matches_target(opts, #[trigger] &g.functions@[f].data_access@[k])
}

/// The functions of `g` that access the target of `opts`.
pub open spec fn accessors(g: &CallGraph, opts: &InverseReachabilityOptions) -> Set<int> {
    Set::new(|f: int| 0 <= f < g.functions@.len() && is_accessor(g, opts, f))
}

/// Whether `p` reports access `k` of function `a`, reached backward from
/// entry point `e`.
pub open spec fn path_from(
    g: &CallGraph,
    opts: &InverseReachabilityOptions,
    p: &InverseAccessPath,
    a: int,
    k: int,
    e: int,
) -> bool {
    &&& 0 <= a < g.functions@.len()
    &&& 0 <= k < g.functions@[a].data_access@.len()
    &&& matches_target(opts, &g.functions@[a].data_access@[k])
    &&& same_access(&g.functions@[a].data_access@[k], &p.access_point)
    &&& 0 <= e < g.functions@.len()
    &&& is_entry(g, e)
    &&& back_reached(g, a, e, opts.max_depth)
    &&& back_at_distance(g, a, e, p.path@.len() as nat)
    &&& path_ids_distinct(p.path@)
    &&& is_first_back_path(g, a, e, p.path@)
    &&& p.entry_point@ == g.functions@[e].id@
    &&& is_call_path(g, e, a, p.path@)
}

/// Whether `p` reports some access of the target reached from an entry point.
pub open spec fn path_valid(g: &CallGraph, opts: &InverseReachabilityOptions, p: &InverseAccessPath) -> bool {
    exists|a: int, k: int, e: int| #[trigger] path_from(g, opts, p, a, k, e)
}

/// An optional string's characters.
pub open spec fn opt_view(o: Option<String>) -> Option<Seq<char>> {
    match o {
        Some(s) => Some(s@),
        None => None,
    }
}

/// Whether two access points hold the same values.
pub open spec fn same_point(a: &DataAccessPoint, b: &DataAccessPoint) -> bool {
    &&& a.table@ == b.table@
    &&& a.operation == b.operation
    &&& a.fields@.map_values(|s: String| s@) == b.fields@.map_values(|s: String| s@)
    &&& a.file@ == b.file@
    &&& a.line == b.line
    &&& a.confidence == b.confidence
    &&& opt_view(a.framework) == opt_view(b.framework)
}

/// Whether `ps` holds a path from the entry point with id `id` to an access
/// point holding the values of `acc`.
pub open spec fn pair_listed(ps: Seq<InverseAccessPath>, id: Seq<char>, acc: &DataAccessPoint) -> bool {
    exists|i: int| 0 <= i < ps.len() && (#[trigger] ps[i]).entry_point@ == id && same_point(&ps[i].access_point, acc)
}

/// Whether `ps` reports exactly the accesses of the target together with
/// the entry points that reach them backward, along a shortest chain: each
/// path is one of them, each of them is listed, and no two paths share both
/// their entry point and the values of their access point.
pub open spec fn access_paths_of(g: &CallGraph, opts: &InverseReachabilityOptions, ps: Seq<InverseAccessPath>) -> bool {
    &&& forall|i: int| 0 <= i < ps.len() ==> #[trigger] path_valid(g, opts, &ps[i])
    &&& forall|i: int, j: int|
        0 <= i < ps.len() && 0 <= j < ps.len() && i != j ==> !((#[trigger] ps[i]).entry_point@ == (#[trigger] ps[j]).entry_point@
            && same_point(&ps[i].access_point, &ps[j].access_point))
    &&& forall|a: int, k: int, e: int|
        #![trigger matches_target(opts, &g.functions@[a].data_access@[k]), back_reached(g, a, e, opts.max_depth)]
        0 <= a < g.functions@.len() && 0 <= k < g.functions@[a].data_access@.len() && matches_target(
            opts,
            &g.functions@[a].data_access@[k],
        ) && 0 <= e < g.functions@.len() && is_entry(g, e) && back_reached(g, a, e, opts.max_depth)
            ==> pair_listed(ps, g.functions@[e].id@, &g.functions@[a].data_access@[k])
    &&& exists|src: Seq<(int, int, int)>| #[trigger] paths_in_order(g, opts, ps, src)
}

/// Whether `a`, `k`, `e` name an accessing function, its access to the
/// target, and an entry point that reaches it backward.
pub open spec fn target_triple(g: &CallGraph, opts: &InverseReachabilityOptions, a: int, k: int, e: int) -> bool {
    &&& 0 <= a < g.functions@.len()
    &&& 0 <= k < g.functions@[a].data_access@.len()
    &&& matches_target(opts, &g.functions@[a].data_access@[k])
    &&& 0 <= e < g.functions@.len()
    &&& is_entry(g, e)
    &&& back_reached(g, a, e, opts.max_depth)
}

/// Whether triple `x` comes before triple `y`, field by field.
pub open spec fn lex3(x: (int, int, int), y: (int, int, int)) -> bool {
    x.0 < y.0 || (x.0 == y.0 && (x.1 < y.1 || (x.1 == y.1 && x.2 < y.2)))
}

/// Whether `src` names, for each path of `ps`, the accessing function, the
/// access and the entry point it reports: in storage order of the accessing
/// function, then access order, then storage order of the entry point; each
/// one the first triple that gives its entry point and access values.
pub open spec fn paths_in_order(
    g: &CallGraph,
    opts: &InverseReachabilityOptions,
    ps: Seq<InverseAccessPath>,
    src: Seq<(int, int, int)>,
) -> bool {
    &&& src.len() == ps.len()
    &&& forall|i: int| 0 <= i < ps.len() ==> path_from(g, opts, &ps[i], src[i].0, src[i].1, src[i].2)
    &&& forall|i: int, j: int| 0 <= i < j < ps.len() ==> lex3(src[i], src[j])
    &&& forall|i: int, a: int, k: int, e: int|
        #![trigger target_triple(g, opts, a, k, e), ps[i]]
        0 <= i < ps.len() && target_triple(g, opts, a, k, e) && lex3((a, k, e), src[i]) ==> !(g.functions@[e].id@
            == ps[i].entry_point@ && same_point(&g.functions@[a].data_access@[k], &ps[i].access_point))
}

/// Whether two lists of strings hold the same characters, item by item.
pub fn strings_equal(a: &Vec<String>, b: &Vec<String>) -> (r: bool)
    ensures
        r == (a@.map_values(|s: String| s@) == b@.map_values(|s: String| s@)),
{
    if a.len() != b.len() {
        proof {
            assert(a@.map_values(|s: String| s@).len() != b@.map_values(|s: String| s@).len());
        }
        return false;
    }
    let mut i: usize = 0;
    while i < a.len()
        invariant
            i <= a@.len(),
            a@.len() == b@.len(),
            forall|j: int| 0 <= j < i ==> a@[j]@ == b@[j]@,
        decreases a@.len() - i,
    {
        if a[i] != b[i] {
            proof {
                assert(a@.map_values(|s: String| s@)[i as int] != b@.map_values(|s: String| s@)[i as int]);
            }
            return false;
        }
        i = i + 1;
    }
    assert(a@.map_values(|s: String| s@) =~= b@.map_values(|s: String| s@));
    true
}

/// Whether two access points hold the same values.
pub fn points_equal(a: &DataAccessPoint, b: &DataAccessPoint) -> (r: bool)
    ensures
        r == same_point(a, b),
{
    let fw = match (&a.framework, &b.framework) {
        (Some(x), Some(y)) => *x == *y,
        (None, None) => true,
        _ => false,
    };
    a.table == b.table && a.operation == b.operation && strings_equal(&a.fields, &b.fields) && a.file == b.file
        && a.line == b.line && a.confidence == b.confidence && fw
}

/// Whether `ps` holds a path from entry point `id` to an access point with
/// the values of `acc`.
fn pair_known(ps: &Vec<InverseAccessPath>, id: &String, acc: &DataAccessPoint) -> (r: bool)
    ensures
        r == pair_listed(ps@, id@, acc),
{
    let mut i: usize = 0;
    while i < ps.len()
        invariant
            i <= ps@.len(),
            forall|j: int| 0 <= j < i ==> !((#[trigger] ps@[j]).entry_point@ == id@ && same_point(&ps@[j].access_point, acc)),
        decreases ps@.len() - i,
    {
        if ps[i].entry_point == *id && points_equal(&ps[i].access_point, acc) {
            return true;
        }
        i = i + 1;
    }
    false
}

proof fn lemma_same_point_copy(a: &DataAccessPoint, b: &DataAccessPoint)
    requires
        same_access(a, b),
    ensures
        same_point(a, b),
        forall|c: &DataAccessPoint| same_point(c, a) <==> #[trigger] same_point(c, b),
{
}

/// Whether access `a` touches the target of `opts`.
pub fn access_matches(opts: &InverseReachabilityOptions, a: &DataAccessPoint) -> (r: bool)
    ensures
        r == matches_target(opts, a),
{
    if a.table != opts.table {
        return false;
    }
    match &opts.field {
        Some(f) => crate::forward::contains_string(&a.fields, f),
        None => true,
    }
}

/// Whether `r` answers the inverse query `opts` on `g`.
pub open spec fn inverse_result(g: &CallGraph, opts: &InverseReachabilityOptions, r: &InverseReachabilityResult) -> bool {
    &&& r.target.table@ == opts.table@
    &&& r.target.field == opts.field
    &&& access_paths_of(g, opts, r.access_paths@)
    &&& forall|i: int, j: int| 0 <= i < j < r.entry_points@.len() ==> r.entry_points@[i]@ != r.entry_points@[j]@
    &&& forall|i: int| 0 <= i < r.entry_points@.len() ==> #[trigger] entry_listed(r.access_paths@, r.entry_points@[i]@)
    &&& forall|j: int| 0 <= j < r.access_paths@.len() ==> #[trigger] in_strings(r.entry_points@, r.access_paths@[j].entry_point@)
    &&& exists|pos: Seq<int>| #[trigger] crate::forward::first_appearances(entry_seq(r.access_paths@), r.entry_points@, pos)
    &&& accessors(g, opts).finite()
    &&& r.total_accessors == accessors(g, opts).len()
}

/// The entry point of each path of `ps`.
pub open spec fn entry_seq(ps: Seq<InverseAccessPath>) -> Seq<Seq<char>> {
    ps.map_values(|p: InverseAccessPath| p.entry_point@)
}

/// Whether one of `ps` starts at entry point `e`.
pub open spec fn entry_listed(ps: Seq<InverseAccessPath>, e: Seq<char>) -> bool {
    exists|j: int| 0 <= j < ps.len() && #[trigger] ps[j].entry_point@ == e
}

/// The entry points of `ps`, each once, in order of first appearance.
fn distinct_entry_points(ps: &Vec<InverseAccessPath>) -> (r: Vec<String>)
    ensures
        forall|i: int, j: int| 0 <= i < j < r@.len() ==> r@[i]@ != r@[j]@,
        forall|i: int| 0 <= i < r@.len() ==> #[trigger] entry_listed(ps@, r@[i]@),
        forall|j: int| 0 <= j < ps@.len() ==> #[trigger] in_strings(r@, ps@[j].entry_point@),
        exists|pos: Seq<int>| #[trigger] crate::forward::first_appearances(entry_seq(ps@), r@, pos),
{
    let mut ids: Vec<String> = Vec::new();
    let mut j: usize = 0;
    while j < ps.len()
        invariant
            j <= ps@.len(),
            ids@.len() == j,
            forall|i: int| 0 <= i < j ==> (#[trigger] ids@[i])@ == ps@[i].entry_point@,
        decreases ps@.len() - j,
    {
        ids.push(ps[j].entry_point.clone());
        j = j + 1;
    }
    let r = crate::forward::distinct_strings(&ids);
    proof {
        assert forall|i: int| 0 <= i < r@.len() implies #[trigger] entry_listed(ps@, r@[i]@) by {
            assert(in_strings(ids@, r@[i]@));
            let k = choose|k: int| 0 <= k < ids@.len() && #[trigger] ids@[k]@ == r@[i]@;
        }
        assert forall|j: int| 0 <= j < ps@.len() implies #[trigger] in_strings(r@, ps@[j].entry_point@) by {
            assert(in_strings(r@, ids@[j]@));
        }
        assert(crate::forward::views(ids@) =~= entry_seq(ps@));
    }
    r
}

proof fn lemma_accessors_step(g: &CallGraph, opts: &InverseReachabilityOptions, a: int)
    requires
        0 <= a < g.functions@.len(),
        Set::new(|f: int| 0 <= f < a && is_accessor(g, opts, f)).finite(),
    ensures
        Set::new(|f: int| 0 <= f < a + 1 && is_accessor(g, opts, f)).finite(),
        is_accessor(g, opts, a) ==> Set::new(|f: int| 0 <= f < a + 1 && is_accessor(g, opts, f)).len()
            == Set::new(|f: int| 0 <= f < a && is_accessor(g, opts, f)).len() + 1,
        !is_accessor(g, opts, a) ==> Set::new(|f: int| 0 <= f < a + 1 && is_accessor(g, opts, f)).len()
            == Set::new(|f: int| 0 <= f < a && is_accessor(g, opts, f)).len(),
{
    let s0 = Set::new(|f: int| 0 <= f < a && is_accessor(g, opts, f));
    let s1 = Set::new(|f: int| 0 <= f < a + 1 && is_accessor(g, opts, f));
    if is_accessor(g, opts, a) {
        assert(s1 =~= s0.insert(a));
    } else {
        assert(s1 =~= s0);
    }
}

impl ReachabilityEngine {
    /// Every entry point that can reach an access to the target table (and
    /// field, if given), with the call path to it.
    pub fn paths_to_data(&self, options: &InverseReachabilityOptions) -> (r: InverseReachabilityResult)
        requires
            ids_unique(&self.graph),
        ensures
            inverse_result(&self.graph, options, &r),
    {
        inverse_query(&self.graph, options)
    }
}

/// For access `k` of function `a`, one path from each entry point that
/// reaches `a` backward, in storage order, along the chain by which `t`
/// reached it, but for the entry points that `prior` already pairs with an
/// access of these values.
fn entry_paths_for(
    g: &CallGraph,
    rg: &CallGraph,
    options: &InverseReachabilityOptions,
    a: usize,
    k: usize,
    t: &Traversal,
    prior: &Vec<InverseAccessPath>,
) -> (r: Vec<InverseAccessPath>)
    requires
        ids_unique(g),
        reverse_of(g, rg),
        a < g.functions@.len(),
        k < g.functions@[a as int].data_access@.len(),
        matches_target(options, &g.functions@[a as int].data_access@[k as int]),
        traversal_of(rg, a as int, options.max_depth, t),
    ensures
        forall|j: int| 0 <= j < r@.len() ==> path_from(g, options, #[trigger] &r@[j], a as int, k as int, index_of(g, r@[j].entry_point@)),
        forall|x: int, y: int| 0 <= x < y < r@.len() ==> index_of(g, (#[trigger] r@[x]).entry_point@) < index_of(g, (#[trigger] r@[y]).entry_point@),
        forall|x: int, y: int| 0 <= x < r@.len() && 0 <= y < r@.len() && x != y ==> #[trigger] r@[x].entry_point@ != #[trigger] r@[y].entry_point@,
        forall|j: int| 0 <= j < r@.len() ==> !pair_listed(prior@, (#[trigger] r@[j]).entry_point@, &r@[j].access_point),
        forall|e: int|
            0 <= e < g.functions@.len() && is_entry(g, e) && back_reached(g, a as int, e, options.max_depth) ==> pair_listed(
                prior@,
                g.functions@[e].id@,
                &g.functions@[a as int].data_access@[k as int],
            ) || exists|j: int| 0 <= j < r@.len() && (#[trigger] r@[j]).entry_point@ == g.functions@[e].id@,
{
    let n = g.functions.len();
    let mut r: Vec<InverseAccessPath> = Vec::new();
    let ghost mut es: Seq<int> = Seq::empty();
    let mut e: usize = 0;
    while e < n
        invariant
            ids_unique(g),
            reverse_of(g, rg),
            n == g.functions@.len(),
            a < n,
            k < g.functions@[a as int].data_access@.len(),
            matches_target(options, &g.functions@[a as int].data_access@[k as int]),
            traversal_of(rg, a as int, options.max_depth, t),
            e <= n,
            es.len() == r@.len(),
            forall|j: int| 0 <= j < r@.len() ==> 0 <= #[trigger] es[j] < e && r@[j].entry_point@ == g.functions@[es[j]].id@
                && index_of(g, r@[j].entry_point@) == es[j],
            forall|x: int, y: int| 0 <= x < y < r@.len() ==> es[x] < es[y],
            forall|j: int| 0 <= j < r@.len() ==> path_from(g, options, #[trigger] &r@[j], a as int, k as int, index_of(g, r@[j].entry_point@)),
            forall|j: int| 0 <= j < r@.len() ==> !pair_listed(prior@, (#[trigger] r@[j]).entry_point@, &r@[j].access_point),
            forall|x: int|
                0 <= x < e && is_entry(g, x) && back_reached(g, a as int, x, options.max_depth) ==> pair_listed(
                    prior@,
                    g.functions@[x].id@,
                    &g.functions@[a as int].data_access@[k as int],
                ) || exists|i: int| 0 <= i < r@.len() && (#[trigger] r@[i]).entry_point@ == g.functions@[x].id@,
        decreases n - e,
    {
        let ghost r0 = r@;
        let ghost es0 = es;
        if t.visited[e] && g.functions[e].is_entry_point && !pair_known(prior, &g.functions[e].id, &g.functions[a].data_access[k]) {
            proof {
                assert(t.order@.contains(e));
                lemma_visited(rg, a as int, options.max_depth, t, e);
                lemma_reverse_chains(g, rg, a as int, e as int, options.max_depth);
            }
            let p = InverseAccessPath {
                entry_point: g.functions[e].id.clone(),
                path: forward_path(g, rg, a, options.max_depth, t, e),
                access_point: g.functions[a].data_access[k].copy(),
            };
            r.push(p);
            proof {
                es = es.push(e as int);
                lemma_same_point_copy(&g.functions@[a as int].data_access@[k as int], &r@[r@.len() - 1].access_point);
                assert(index_of(g, g.functions@[e as int].id@) == e as int);
                assert(path_from(g, options, &r@[r@.len() - 1], a as int, k as int, e as int));
                assert forall|j: int| 0 <= j < r@.len() implies 0 <= #[trigger] es[j] < e + 1 && r@[j].entry_point@ == g.functions@[es[j]].id@
                    && index_of(g, r@[j].entry_point@) == es[j] by {
                    if j < r0.len() {
                        assert(r@[j] == r0[j] && es[j] == es0[j]);
                    }
                }
                assert forall|x: int, y: int| 0 <= x < y < r@.len() implies es[x] < es[y] by {
                    assert(es[x] == es0[x]);
                    if y < r0.len() {
                        assert(es[y] == es0[y]);
                    }
                }
                assert forall|j: int| 0 <= j < r@.len() implies path_from(g, options, #[trigger] &r@[j], a as int, k as int, index_of(g, r@[j].entry_point@)) by {
                    if j < r0.len() {
                        assert(r@[j] == r0[j]);
                    }
                }
                assert forall|j: int| 0 <= j < r@.len() implies !pair_listed(prior@, (#[trigger] r@[j]).entry_point@, &r@[j].access_point) by {
                    if j < r0.len() {
                        assert(r@[j] == r0[j]);
                    }
                }
            }
        } else {
            proof {
                if is_entry(g, e as int) && back_reached(g, a as int, e as int, options.max_depth) {
                    lemma_reverse_chains(g, rg, a as int, e as int, options.max_depth);
                    assert(t.order@.contains(e as usize));
                    assert(t.visited@[e as int]);
                }
            }
        }
        proof {
            assert forall|x: int|
                0 <= x < e + 1 && is_entry(g, x) && back_reached(g, a as int, x, options.max_depth) implies pair_listed(
                    prior@,
                    g.functions@[x].id@,
                    &g.functions@[a as int].data_access@[k as int],
                ) || exists|i: int| 0 <= i < r@.len() && (#[trigger] r@[i]).entry_point@ == g.functions@[x].id@ by {
                if x < e {
                    if !pair_listed(prior@, g.functions@[x].id@, &g.functions@[a as int].data_access@[k as int]) {
                        let i = choose|i: int| 0 <= i < r0.len() && (#[trigger] r0[i]).entry_point@ == g.functions@[x].id@;
                        assert(r@[i] == r0[i]);
                    }
                } else if r@.len() > r0.len() {
                    assert(r@[r@.len() - 1].entry_point@ == g.functions@[x].id@);
                }
            }
        }
        e = e + 1;
    }
    proof {
        assert forall|x: int, y: int| 0 <= x < r@.len() && 0 <= y < r@.len() && x != y implies #[trigger] r@[x].entry_point@ != #[trigger] r@[y].entry_point@ by {
            if x < y {
                assert(es[x] < es[y]);
            } else {
                assert(es[y] < es[x]);
            }
            assert(g.functions@[es[x]].id@ != g.functions@[es[y]].id@);
        }
        assert forall|x: int, y: int| 0 <= x < y < r@.len() implies index_of(g, (#[trigger] r@[x]).entry_point@) < index_of(g, (#[trigger] r@[y]).entry_point@) by {
            assert(es[x] < es[y]);
        }
    }
    r
}

/// Every entry point of `g` that can reach an access to the target table
/// (and field, if given), with the call path to it.
pub fn inverse_query(g: &CallGraph, options: &InverseReachabilityOptions) -> (r: InverseReachabilityResult)
    requires
        ids_unique(g),
    ensures
        inverse_result(g, options, &r),
{
    let n = g.functions.len();
    let rg = reverse_graph(g);
    let mut paths: Vec<InverseAccessPath> = Vec::new();
    let ghost mut src: Seq<(int, int, int)> = Seq::empty();
    let mut total: usize = 0;
    let mut a: usize = 0;
    proof {
        assert(Set::new(|f: int| 0 <= f < 0 && is_accessor(g, options, f)) =~= Set::<int>::empty());
    }
    while a < n
        invariant
            n == g.functions@.len(),
            ids_unique(g),
            reverse_of(g, &rg),
            ids_unique(&rg),
            a <= n,
            Set::new(|f: int| 0 <= f < a && is_accessor(g, options, f)).finite(),
            total == Set::new(|f: int| 0 <= f < a && is_accessor(g, options, f)).len(),
            total <= a,
            paths_in_order(g, options, paths@, src),
            forall|i: int| 0 <= i < src.len() ==> (#[trigger] src[i]).0 < a,
            forall|i: int| 0 <= i < paths@.len() ==> #[trigger] path_valid(g, options, &paths@[i]),
            forall|i: int, j: int|
                0 <= i < paths@.len() && 0 <= j < paths@.len() && i != j ==> !((#[trigger] paths@[i]).entry_point@
                    == (#[trigger] paths@[j]).entry_point@ && same_point(&paths@[i].access_point, &paths@[j].access_point)),
            forall|aa: int, k: int, e: int|
                #![trigger matches_target(options, &g.functions@[aa].data_access@[k]), back_reached(g, aa, e, options.max_depth)]
                0 <= aa < a && 0 <= k < g.functions@[aa].data_access@.len() && matches_target(
                    options,
                    &g.functions@[aa].data_access@[k],
                ) && 0 <= e < n && is_entry(g, e) && back_reached(g, aa, e, options.max_depth)
                    ==> pair_listed(paths@, g.functions@[e].id@, &g.functions@[aa].data_access@[k]),
        decreases n - a,
    {
        let accs = &g.functions[a].data_access;
        let mut any = false;
        let mut k: usize = 0;
        while k < accs.len()
            invariant
                a < n,
                n == g.functions@.len(),
                accs == &g.functions@[a as int].data_access,
                k <= accs@.len(),
                any <==> exists|kk: int| 0 <= kk < k && matches_target(options, #[trigger] &accs@[kk]),
            decreases accs@.len() - k,
        {
            if access_matches(options, &accs[k]) {
                any = true;
            }
            k = k + 1;
        }
        proof {
            lemma_accessors_step(g, options, a as int);
            assert(any == is_accessor(g, options, a as int));
        }
        let ghost paths0 = paths@;
        if any {
            total = total + 1;
            let t = shortest_depths(&rg, a, options.max_depth);
            let mut k: usize = 0;
            while k < accs.len()
                invariant
                    a < n,
                    n == g.functions@.len(),
                    ids_unique(g),
                    reverse_of(g, &rg),
                    traversal_of(&rg, a as int, options.max_depth, &t),
                    accs == &g.functions@[a as int].data_access,
                    k <= accs@.len(),
                    paths_in_order(g, options, paths@, src),
                    forall|i: int| 0 <= i < src.len() ==> (#[trigger] src[i]).0 < a || (src[i].0 == a && src[i].1 < k),
                    forall|i: int| 0 <= i < paths@.len() ==> #[trigger] path_valid(g, options, &paths@[i]),
                    forall|i: int, j: int|
                        0 <= i < paths@.len() && 0 <= j < paths@.len() && i != j ==> !((#[trigger] paths@[i]).entry_point@
                            == (#[trigger] paths@[j]).entry_point@ && same_point(&paths@[i].access_point, &paths@[j].access_point)),
                    forall|aa: int, kk: int, e: int|
                        #![trigger matches_target(options, &g.functions@[aa].data_access@[kk]), back_reached(g, aa, e, options.max_depth)]
                        (0 <= aa < a || (aa == a && 0 <= kk < k)) && 0 <= kk < g.functions@[aa].data_access@.len() && matches_target(
                            options,
                            &g.functions@[aa].data_access@[kk],
                        ) && 0 <= e < n && is_entry(g, e) && back_reached(g, aa, e, options.max_depth)
                            ==> pair_listed(paths@, g.functions@[e].id@, &g.functions@[aa].data_access@[kk]),
                decreases accs@.len() - k,
            {
                let ghost paths1 = paths@;
                if access_matches(options, &accs[k]) {
                    let mut found = entry_paths_for(g, &rg, options, a, k, &t, &paths);
                    let ghost fv = found@;
                    paths.append(&mut found);
                    proof {
                        assert(paths@ == paths1 + fv);
                        let src1 = src;
                        let added = Seq::new(fv.len(), |j: int| (a as int, k as int, index_of(g, fv[j].entry_point@)));
                        src = src1 + added;
                        assert forall|i: int| 0 <= i < paths@.len() implies path_from(g, options, &paths@[i], src[i].0, src[i].1, src[i].2) by {
                            if i < paths1.len() {
                                assert(paths@[i] == paths1[i] && src[i] == src1[i]);
                            } else {
                                let j = i - paths1.len();
                                assert(paths@[i] == fv[j] && src[i] == added[j]);
                            }
                        }
                        assert forall|i: int, j: int| 0 <= i < j < paths@.len() implies lex3(src[i], src[j]) by {
                            if j < paths1.len() {
                                assert(src[i] == src1[i] && src[j] == src1[j]);
                            } else if i < paths1.len() {
                                assert(src[i] == src1[i] && src[j] == added[j - paths1.len()]);
                            } else {
                                assert(src[i] == added[i - paths1.len()] && src[j] == added[j - paths1.len()]);
                            }
                        }
                        assert forall|i: int, aa: int, kk: int, e: int|
                            #![trigger target_triple(g, options, aa, kk, e), paths@[i]]
                            0 <= i < paths@.len() && target_triple(g, options, aa, kk, e) && lex3((aa, kk, e), src[i]) implies !(g.functions@[e].id@
                                == paths@[i].entry_point@ && same_point(&g.functions@[aa].data_access@[kk], &paths@[i].access_point)) by {
                            if i < paths1.len() {
                                assert(paths@[i] == paths1[i] && src[i] == src1[i]);
                            } else {
                                let j = i - paths1.len();
                                assert(paths@[i] == fv[j] && src[i] == added[j]);
                                if aa < a || (aa == a && kk < k) {
                                    if g.functions@[e].id@ == paths@[i].entry_point@ && same_point(&g.functions@[aa].data_access@[kk], &paths@[i].access_point) {
                                        assert(pair_listed(paths1, g.functions@[e].id@, &g.functions@[aa].data_access@[kk]));
                                        let i0 = choose|i0: int| 0 <= i0 < paths1.len() && (#[trigger] paths1[i0]).entry_point@ == g.functions@[e].id@
                                            && same_point(&paths1[i0].access_point, &g.functions@[aa].data_access@[kk]);
                                        assert(same_point(&paths1[i0].access_point, &fv[j].access_point));
                                        assert(pair_listed(paths1, fv[j].entry_point@, &fv[j].access_point));
                                    }
                                } else {
                                    assert(path_from(g, options, &fv[j], a as int, k as int, index_of(g, fv[j].entry_point@)));
                                    assert(e < index_of(g, fv[j].entry_point@));
                                    assert(g.functions@[e].id@ != g.functions@[index_of(g, fv[j].entry_point@)].id@);
                                }
                            }
                        }
                        assert(paths_in_order(g, options, paths@, src));
                        assert forall|i: int| 0 <= i < src.len() implies (#[trigger] src[i]).0 < a || (src[i].0 == a && src[i].1 < k + 1) by {
                            if i < src1.len() {
                                assert(src[i] == src1[i]);
                            } else {
                                assert(src[i] == added[i - src1.len()]);
                            }
                        }
                        assert forall|i: int| 0 <= i < paths@.len() implies #[trigger] path_valid(g, options, &paths@[i]) by {
                            if i < paths1.len() {
                                assert(paths@[i] == paths1[i]);
                            } else {
                                let j = i - paths1.len();
                                assert(paths@[i] == fv[j]);
                                assert(path_from(g, options, &fv[j], a as int, k as int, index_of(g, fv[j].entry_point@)));
                            }
                        }
                        assert forall|x: int, y: int|
                            0 <= x < paths@.len() && 0 <= y < paths@.len() && x != y implies !((#[trigger] paths@[x]).entry_point@
                                == (#[trigger] paths@[y]).entry_point@ && same_point(&paths@[x].access_point, &paths@[y].access_point)) by {
                            if x < paths1.len() && y < paths1.len() {
                                assert(paths@[x] == paths1[x] && paths@[y] == paths1[y]);
                            } else if x < paths1.len() {
                                let j = y - paths1.len();
                                assert(paths@[x] == paths1[x] && paths@[y] == fv[j]);
                                assert(!pair_listed(paths1, fv[j].entry_point@, &fv[j].access_point));
                            } else if y < paths1.len() {
                                let j = x - paths1.len();
                                assert(paths@[y] == paths1[y] && paths@[x] == fv[j]);
                                assert(!pair_listed(paths1, fv[j].entry_point@, &fv[j].access_point));
                                if paths@[x].entry_point@ == paths@[y].entry_point@ && same_point(&paths@[x].access_point, &paths@[y].access_point) {
                                    assert(same_point(&paths1[y].access_point, &fv[j].access_point));
                                }
                            } else {
                                assert(paths@[x] == fv[x - paths1.len()] && paths@[y] == fv[y - paths1.len()]);
                            }
                        }
                        assert forall|aa: int, kk: int, e: int|
                            #![trigger matches_target(options, &g.functions@[aa].data_access@[kk]), back_reached(g, aa, e, options.max_depth)]
                            (0 <= aa < a || (aa == a && 0 <= kk < k + 1)) && 0 <= kk < g.functions@[aa].data_access@.len() && matches_target(
                                options,
                                &g.functions@[aa].data_access@[kk],
                            ) && 0 <= e < n && is_entry(g, e) && back_reached(g, aa, e, options.max_depth)
                                implies pair_listed(paths@, g.functions@[e].id@, &g.functions@[aa].data_access@[kk]) by {
                            if aa == a && kk == k {
                                if pair_listed(paths1, g.functions@[e].id@, &g.functions@[aa].data_access@[kk]) {
                                    let i = choose|i: int| 0 <= i < paths1.len() && (#[trigger] paths1[i]).entry_point@ == g.functions@[e].id@
                                        && same_point(&paths1[i].access_point, &g.functions@[aa].data_access@[kk]);
                                    assert(paths@[i] == paths1[i]);
                                } else {
                                    let j = choose|j: int| 0 <= j < fv.len() && (#[trigger] fv[j]).entry_point@ == g.functions@[e].id@;
                                    assert(paths@[paths1.len() + j] == fv[j]);
                                    assert(path_from(g, options, &fv[j], a as int, k as int, index_of(g, fv[j].entry_point@)));
                                    assert(same_point(&fv[j].access_point, &g.functions@[aa].data_access@[kk]));
                                }
                            } else {
                                assert(pair_listed(paths1, g.functions@[e].id@, &g.functions@[aa].data_access@[kk]));
                                let i = choose|i: int| 0 <= i < paths1.len() && (#[trigger] paths1[i]).entry_point@ == g.functions@[e].id@
                                    && same_point(&paths1[i].access_point, &g.functions@[aa].data_access@[kk]);
                                assert(paths@[i] == paths1[i]);
                            }
                        }
                    }
                }
                proof {
                    assert forall|i: int| 0 <= i < src.len() implies (#[trigger] src[i]).0 < a || (src[i].0 == a && src[i].1 < k + 1) by {
                    }
                }
                k = k + 1;
            }
        }
        proof {
            assert forall|i: int| 0 <= i < src.len() implies (#[trigger] src[i]).0 < a + 1 by {
            }
        }
        a = a + 1;
    }
    proof {
        assert(Set::new(|f: int| 0 <= f < n && is_accessor(g, options, f)) =~= accessors(g, options));
    }
    proof {
        assert(paths_in_order(g, options, paths@, src));
    }
    let entry_points = distinct_entry_points(&paths);
    let ghost pv = paths@;
    let res = InverseReachabilityResult {
        target: DataTarget {
            table: options.table.clone(),
            field: crate::graph::copy_opt_string(&options.field),
        },
        access_paths: paths,
        entry_points,
        total_accessors: total,
    };
    proof {
        assert(res.access_paths@ == pv);
        assert(access_paths_of(g, options, res.access_paths@));
        let pos = choose|pos: Seq<int>| #[trigger] crate::forward::first_appearances(entry_seq(pv), res.entry_points@, pos);
        assert(crate::forward::first_appearances(entry_seq(res.access_paths@), res.entry_points@, pos));
    }
    res
}

/// Whether some chain of resolved calls leads from `o` to `f` on which no
/// function after `o` is an entry point.
pub open spec fn entry_free_chain(g: &CallGraph, o: int, f: int) -> bool {
    exists|w: Seq<int>|
        #[trigger] crate::graph::is_chain(g, w, o, f) && forall|i: int| 1 <= i < w.len() ==> !is_entry(g, #[trigger] w[i])
}

proof fn lemma_least_back(g: &CallGraph, a: int, e: int, n: nat)
    requires
        back_within(g, a, e, n),
    ensures
        exists|d: nat| d <= n && #[trigger] back_at_distance(g, a, e, d),
    decreases n,
{
    if n > 0 && back_within(g, a, e, (n - 1) as nat) {
        lemma_least_back(g, a, e, (n - 1) as nat);
        let d = choose|d: nat| d <= n - 1 && #[trigger] back_at_distance(g, a, e, d);
        assert(d <= n && back_at_distance(g, a, e, d));
    } else {
        assert(back_at_distance(g, a, e, n));
    }
}

/// Forward and inverse reachability agree. Where a forward query from an
/// entry point `o` reports access `k` of function `f`, the inverse query on
/// that access's table, unbounded, reports a path from `o` to an access
/// point with the same values.
/// This needs a call chain from `o` to `f` that passes through no other
/// entry point, since the walk back from `f` stops at entry points.
pub proof fn lemma_forward_inverse_duality(
    g: &CallGraph,
    rules: Seq<crate::forward::FieldSensitivity>,
    opts: &crate::forward::ReachabilityOptions,
    fr: &crate::forward::ReachabilityResult,
    o: int,
    f: int,
    k: int,
    iopts: &InverseReachabilityOptions,
    ir: &InverseReachabilityResult,
)
    requires
        ids_unique(g),
        0 <= o < g.functions@.len(),
        crate::forward::forward_result(g, rules, o, opts, fr),
        exists|i: int|
            0 <= i < fr.reachable_access@.len() && #[trigger] crate::forward::entry_from(
                g,
                o,
                opts,
                rules,
                &fr.reachable_access@[i],
                f,
                k,
            ),
        is_entry(g, o),
        iopts.table@ == g.functions@[f].data_access@[k].table@,
        iopts.field is None,
        iopts.max_depth is None,
        inverse_result(g, iopts, ir),
        entry_free_chain(g, o, f),
    ensures
        pair_listed(ir.access_paths@, g.functions@[o].id@, &g.functions@[f].data_access@[k]),
{
    let i = choose|i: int|
        0 <= i < fr.reachable_access@.len() && #[trigger] crate::forward::entry_from(
            g,
            o,
            opts,
            rules,
            &fr.reachable_access@[i],
            f,
            k,
        );
    assert(0 <= f < g.functions@.len() && 0 <= k < g.functions@[f].data_access@.len());
    assert(access_paths_of(g, iopts, ir.access_paths@));
    lemma_duality_core(g, o, f, k, iopts, ir);
}

proof fn lemma_duality_core(g: &CallGraph, o: int, f: int, k: int, iopts: &InverseReachabilityOptions, ir: &InverseReachabilityResult)
    requires
        ids_unique(g),
        0 <= o < g.functions@.len(),
        0 <= f < g.functions@.len(),
        0 <= k < g.functions@[f].data_access@.len(),
        is_entry(g, o),
        iopts.table@ == g.functions@[f].data_access@[k].table@,
        iopts.field is None,
        iopts.max_depth is None,
        access_paths_of(g, iopts, ir.access_paths@),
        entry_free_chain(g, o, f),
    ensures
        pair_listed(ir.access_paths@, g.functions@[o].id@, &g.functions@[f].data_access@[k]),
{
    let w = choose|w: Seq<int>|
        #[trigger] crate::graph::is_chain(g, w, o, f) && forall|i: int| 1 <= i < w.len() ==> !is_entry(g, #[trigger] w[i]);
    let m = w.len() - 1;
    let wr = Seq::new(w.len(), |i: int| w[m - i]);
    assert(is_back_chain(g, wr, f, o)) by {
        assert forall|i: int| 0 <= i < wr.len() - 1 implies back_edge(g, #[trigger] wr[i], wr[i + 1]) by {
            assert(wr[i] == w[m - i]);
            assert(wr[i + 1] == w[m - i - 1]);
            assert(crate::graph::calls_fn(g, w[m - i - 1], w[m - i - 1 + 1]));
            assert(!is_entry(g, w[m - i]));
        }
        assert(wr[0] == w.last());
        assert(wr.last() == w[0]);
        assert forall|i: int| 0 <= i < wr.len() implies 0 <= #[trigger] wr[i] < g.functions@.len() by {
            assert(wr[i] == w[m - i]);
        }
    }
    assert(back_within(g, f, o, m as nat));
    lemma_least_back(g, f, o, m as nat);
    let d = choose|d: nat| d <= m && #[trigger] back_at_distance(g, f, o, d);
    assert(back_reached(g, f, o, iopts.max_depth)) by {
        assert(back_at_distance(g, f, o, d) && in_scope(iopts.max_depth, d));
    }
    assert(matches_target(iopts, &g.functions@[f].data_access@[k]));
}

} // verus!
