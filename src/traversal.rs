//! Breadth-first traversal of resolved call edges, level by level, which
//! records for each function reached the length of its shortest call chain.
use vstd::prelude::*;
use crate::graph::{
    at_distance, calls_fn, describes_hop, hops_lead, ids_unique, is_call_path, is_chain, reach_within,
    resolve_call, resolves_to, CallGraph, PathNode,
};

verus! {

/// Whether depth `d` is within the optional bound.
pub open spec fn in_scope(max_depth: Option<u32>, d: nat) -> bool {
    match max_depth {
        Some(m) => d <= m,
        None => true,
    }
}

/// Whether `v` is reached from `o` within the optional depth bound: its
/// shortest chain of resolved calls from `o` is no longer than the bound.
pub open spec fn reached(g: &CallGraph, o: int, v: int, max_depth: Option<u32>) -> bool {
    exists|d: nat| #[trigger] at_distance(g, o, v, d) && in_scope(max_depth, d)
}

/// Whether call `k` of function `p`, at distance `d` from `o`, is the first
/// call into `v` that a traversal visiting each level in storage order meets:
/// no function before `p` at distance `d` calls `v`, and no call of `p` before
/// `k` resolves to `v`.
pub open spec fn first_caller(g: &CallGraph, o: int, p: int, k: int, v: int, d: nat) -> bool {
    &&& 0 <= p < g.functions@.len()
    &&& at_distance(g, o, p, d)
    &&& 0 <= k < g.functions@[p].calls@.len()
    &&& resolves_to(g, &g.functions@[p].calls@[k], v)
    &&& forall|q: int| 0 <= q < p ==> !(#[trigger] at_distance(g, o, q, d) && calls_fn(g, q, v))
    &&& forall|kk: int| 0 <= kk < k ==> !resolves_to(g, #[trigger] &g.functions@[p].calls@[kk], v)
}

/// What a traversal found.
pub struct Traversal {
    /// The functions reached, in order of discovery; the origin first.
    pub order: Vec<usize>,
    /// For each function, whether it was reached.
    pub visited: Vec<bool>,
    /// For each function, its depth when it was reached.
    pub depth: Vec<usize>,
    /// For each function reached but the origin, the function that reached
    /// it first and the index of that function's call.
    pub reached_by: Vec<(usize, usize)>,
}

/// Whether `t` is a traversal of `g` from `o`: what every well-formed result
/// of [`shortest_depths`] satisfies.
pub open spec fn traversal_of(g: &CallGraph, o: int, max_depth: Option<u32>, t: &Traversal) -> bool {
    let n = g.functions@.len();
    &&& n <= usize::MAX
    &&& t.depth@.len() == n
    &&& t.reached_by@.len() == n
    &&& t.visited@.len() == n
    &&& forall|v: int| 0 <= v < n ==> (#[trigger] t.visited@[v] <==> t.order@.contains(v as usize))
    &&& t.order@.no_duplicates()
    &&& t.order@.len() <= n
    &&& t.order@.len() > 0
    &&& t.order@[0] == o
    &&& forall|i: int| 0 <= i < t.order@.len() ==> #[trigger] t.order@[i] < n
    &&& forall|v: int| 0 <= v < n ==> (#[trigger] t.order@.contains(v as usize) <==> reached(g, o, v, max_depth))
    &&& forall|v: int| 0 <= v < n && #[trigger] t.order@.contains(v as usize) ==> at_distance(
        g,
        o,
        v,
        t.depth@[v] as nat,
    ) && in_scope(max_depth, t.depth@[v] as nat)
    &&& t.depth@[o] == 0
    &&& forall|v: int|
        0 <= v < n && v != o && #[trigger] t.order@.contains(v as usize) ==> {
            let (p, k) = t.reached_by@[v];
            &&& t.order@.contains(p)
            &&& p < n
            &&& t.depth@[p as int] + 1 == t.depth@[v]
            &&& k < g.functions@[p as int].calls@.len()
            &&& resolves_to(g, &g.functions@[p as int].calls@[k as int], v)
            &&& first_caller(g, o, p as int, k as int, v, (t.depth@[v] - 1) as nat)
        }
}

proof fn lemma_within_mono(g: &CallGraph, o: int, v: int, a: nat, b: nat)
    requires
        a <= b,
        reach_within(g, o, v, a),
    ensures
        reach_within(g, o, v, b),
{
}

proof fn lemma_within_origin(g: &CallGraph, o: int, d: nat)
    requires
        0 <= o < g.functions@.len(),
    ensures
        reach_within(g, o, o, d),
{
    assert(is_chain(g, seq![o], o, o));
}

proof fn lemma_within_step(g: &CallGraph, o: int, u: int, v: int, d: nat)
    requires
        reach_within(g, o, u, d),
        calls_fn(g, u, v),
    ensures
        reach_within(g, o, v, d + 1),
{
    let w = choose|w: Seq<int>| #[trigger] is_chain(g, w, o, u) && w.len() <= d + 1;
    let w2 = w.push(v);
    assert(is_chain(g, w2, o, v)) by {
        assert(forall|i: int| 0 <= i < w.len() ==> w2[i] == w[i]);
        assert(w2[w.len() - 1] == u);
    }
}

/// A chain of more than one function ends with a call from a function that
/// is reached with one call less.
proof fn lemma_within_last(g: &CallGraph, o: int, v: int, d: nat)
    requires
        reach_within(g, o, v, d),
        v != o,
    ensures
        d > 0,
        exists|u: int|
            0 <= u < g.functions@.len() && #[trigger] reach_within(g, o, u, (d - 1) as nat)
                && calls_fn(g, u, v),
{
    let w = choose|w: Seq<int>| #[trigger] is_chain(g, w, o, v) && w.len() <= d + 1;
    assert(w.len() >= 2) by {
        if w.len() == 1 {
            assert(w[0] == w.last());
        }
    }
    let w1 = w.drop_last();
    let u = w[w.len() - 2];
    assert(is_chain(g, w1, o, u)) by {
        assert(forall|i: int| 0 <= i < w1.len() ==> w1[i] == w[i]);
    }
    assert(calls_fn(g, w[w.len() - 2], w[w.len() - 1]));
    assert(reach_within(g, o, u, (d - 1) as nat));
    assert(0 <= u < g.functions@.len());
}

proof fn lemma_stable(g: &CallGraph, o: int, l: nat, d: nat)
    requires
        l > 0,
        forall|v: int|
            0 <= v < g.functions@.len() && #[trigger] reach_within(g, o, v, l) ==> reach_within(
                g,
                o,
                v,
                (l - 1) as nat,
            ),
    ensures
        forall|v: int|
            0 <= v < g.functions@.len() && #[trigger] reach_within(g, o, v, d) ==> reach_within(
                g,
                o,
                v,
                (l - 1) as nat,
            ),
    decreases d,
{
    if d > 0 {
        lemma_stable(g, o, l, (d - 1) as nat);
        assert forall|v: int|
            0 <= v < g.functions@.len() && #[trigger] reach_within(g, o, v, d) implies reach_within(
                g,
                o,
                v,
                (l - 1) as nat,
            ) by {
            if v == o {
                lemma_within_origin(g, o, (l - 1) as nat);
            } else {
                lemma_within_last(g, o, v, d);
                let u = choose|u: int|
                    0 <= u < g.functions@.len() && #[trigger] reach_within(g, o, u, (d - 1) as nat)
                        && calls_fn(g, u, v);
                lemma_within_step(g, o, u, v, (l - 1) as nat);
            }
        }
    } else {
        assert forall|v: int|
            0 <= v < g.functions@.len() && #[trigger] reach_within(g, o, v, d) implies reach_within(
                g,
                o,
                v,
                (l - 1) as nat,
            ) by {
            let w = choose|w: Seq<int>| #[trigger] is_chain(g, w, o, v) && w.len() <= d + 1;
            assert(w[0] == w.last());
            lemma_within_origin(g, o, (l - 1) as nat);
        }
    }
}

proof fn lemma_distinct_below(s: Seq<usize>, n: nat)
    requires
        s.no_duplicates(),
        forall|i: int| 0 <= i < s.len() ==> s[i] < n,
    ensures
        s.len() <= n,
{
    let t = s.map_values(|x: usize| x as int);
    assert(t.no_duplicates()) by {
        assert forall|i: int, j: int| 0 <= i < t.len() && 0 <= j < t.len() && i != j implies t[i]
            != t[j] by {
            assert(s[i] != s[j]);
        }
    }
    t.unique_seq_to_set();
    vstd::set_lib::lemma_int_range(0, n as int);
    assert(t.to_set().subset_of(vstd::set_lib::set_int_range(0, n as int))) by {
        assert forall|x: int| t.to_set().contains(x) implies 0 <= x < n by {
            let i = choose|i: int| 0 <= i < t.len() && t[i] == x;
        }
    }
    vstd::set_lib::lemma_len_subset(t.to_set(), vstd::set_lib::set_int_range(0, n as int));
}

proof fn lemma_push_contains(s: Seq<usize>, x: usize)
    ensures
        s.push(x).contains(x),
        forall|y: usize| #[trigger] s.push(x).contains(y) <==> s.contains(y) || y == x,
{
    let t = s.push(x);
    assert(t[s.len() as int] == x);
    assert forall|y: usize| #[trigger] t.contains(y) implies s.contains(y) || y == x by {
        let i = choose|i: int| 0 <= i < t.len() && t[i] == y;
        if i < s.len() {
            assert(s[i] == y);
        }
    }
    assert forall|y: usize| s.contains(y) implies #[trigger] t.contains(y) by {
        let i = choose|i: int| 0 <= i < s.len() && s[i] == y;
        assert(t[i] == y);
    }
}

proof fn lemma_push_distinct(s: Seq<usize>, x: usize)
    requires
        s.no_duplicates(),
        !s.contains(x),
    ensures
        s.push(x).no_duplicates(),
{
    let t = s.push(x);
    assert forall|i: int, j: int| 0 <= i < t.len() && 0 <= j < t.len() && i != j implies t[i] != t[j] by {
        if i < s.len() && j < s.len() {
            assert(s[i] != s[j]);
        } else if i < s.len() {
            assert(s.contains(s[i]));
        } else if j < s.len() {
            assert(s.contains(s[j]));
        }
    }
}

/// The state of a traversal while one level is expanded.
struct Search {
    visited: Vec<bool>,
    depth: Vec<usize>,
    reached_by: Vec<(usize, usize)>,
    order: Vec<usize>,
    next: Vec<usize>,
}

/// What holds of the search while level `level` is expanded: every function
/// within `level` calls is visited at its distance, and those visited since
/// are at distance `level + 1` and wait in `next`.
#[verifier::opaque]
spec fn level_inv(g: &CallGraph, o: int, level: nat, s: &Search) -> bool {
    let n = g.functions@.len();
    &&& 0 <= o < n
    &&& s.visited@.len() == n
    &&& s.depth@.len() == n
    &&& s.reached_by@.len() == n
    &&& forall|v: int| 0 <= v < n && reach_within(g, o, v, level) ==> #[trigger] s.visited@[v]
    &&& forall|v: int|
        0 <= v < n && #[trigger] s.visited@[v] ==> if reach_within(g, o, v, level) {
            s.depth@[v] <= level && at_distance(g, o, v, s.depth@[v] as nat)
        } else {
            s.depth@[v] == level + 1 && at_distance(g, o, v, level + 1) && s.next@.contains(
                v as usize,
            )
        }
    &&& forall|i: int|
        0 <= i < s.next@.len() ==> #[trigger] s.next@[i] < n && s.visited@[s.next@[i] as int]
            && s.depth@[s.next@[i] as int] == level + 1
    &&& s.order@.no_duplicates()
    &&& s.order@.len() > 0
    &&& s.order@[0] == o
    &&& forall|i: int| 0 <= i < s.order@.len() ==> #[trigger] s.order@[i] < n
    &&& forall|v: int| 0 <= v < n ==> (#[trigger] s.visited@[v] <==> s.order@.contains(v as usize))
    &&& s.depth@[o] == 0
    &&& forall|v: int| 0 <= v < n && v != o && #[trigger] s.visited@[v] ==> via_ok(g, o, s, v)
}

/// The recorded first call into `v` comes from a visited function one level
/// up.
spec fn via_ok(g: &CallGraph, o: int, s: &Search, v: int) -> bool {
    let (p, k) = s.reached_by@[v];
    &&& p < g.functions@.len()
    &&& s.visited@[p as int]
    &&& s.depth@[p as int] + 1 == s.depth@[v]
    &&& k < g.functions@[p as int].calls@.len()
    &&& resolves_to(g, &g.functions@[p as int].calls@[k as int], v)
    &&& first_caller(g, o, p as int, k as int, v, (s.depth@[v] - 1) as nat)
}

/// Visits the targets of the resolved calls of `u`, a function at depth
/// `level`, that were not visited yet.
fn visit_calls(g: &CallGraph, o: Ghost<int>, level: usize, u: usize, s: &mut Search)
    requires
        ids_unique(g),
        level_inv(g, o@, level as nat, old(s)),
        u < g.functions@.len(),
        reach_within(g, o@, u as int, level as nat),
        old(s).depth@[u as int] == level,
        level < g.functions@.len(),
        forall|q: int, j: int|
            0 <= q < u && old(s).visited@[q] && old(s).depth@[q] == level && #[trigger] calls_fn(g, q, j) ==> old(s).visited@[j],
    ensures
        level_inv(g, o@, level as nat, final(s)),
        forall|j: int| #[trigger] calls_fn(g, u as int, j) ==> final(s).visited@[j],
        forall|v: int| 0 <= v < g.functions@.len() && #[trigger] old(s).visited@[v] ==> final(s).visited@[v]
            && final(s).depth@[v] == old(s).depth@[v],
        final(s).order@.len() == old(s).order@.len() + final(s).next@.len() - old(s).next@.len(),
{
    let n = g.functions.len();
    let calls = &g.functions[u].calls;
    let ghost s0 = *s;
    reveal(level_inv);
    assert(level_inv(g, o@, level as nat, &s0));
    let mut k: usize = 0;
    while k < calls.len()
        invariant
            n == g.functions@.len(),
            ids_unique(g),
            u < n,
            level < n,
            calls == &g.functions@[u as int].calls,
            level_inv(g, o@, level as nat, s),
            reach_within(g, o@, u as int, level as nat),
            s.depth@[u as int] == level,
            forall|i: int, j: int| 0 <= i < k && #[trigger] resolves_to(g, &calls@[i], j) ==> s.visited@[j],
            forall|v: int| 0 <= v < n && #[trigger] s0.visited@[v] ==> s.visited@[v] && s.depth@[v] == s0.depth@[v],
            s.order@.len() == s0.order@.len() + s.next@.len() - s0.next@.len(),
            level_inv(g, o@, level as nat, &s0),
            forall|q: int, j: int|
                0 <= q < u && s0.visited@[q] && s0.depth@[q] == level && #[trigger] calls_fn(g, q, j) ==> s0.visited@[j],
        decreases calls@.len() - k,
    {
        reveal(level_inv);
        match resolve_call(g, &calls[k]) {
            Some(v) => {
                if !s.visited[v] {
                    proof {
                        assert(calls_fn(g, u as int, v as int));
                        lemma_within_step(g, o@, u as int, v as int, level as nat);
                        assert(!s.visited@[v as int]);
                        assert(!s.order@.contains(v));
                        lemma_push_distinct(s.order@, v);
                        lemma_push_contains(s.order@, v);
                        lemma_push_contains(s.next@, v);
                        assert(s.visited@[u as int]);
                        assert(at_distance(g, o@, u as int, level as nat));
                        assert forall|q: int| 0 <= q < u implies !(#[trigger] at_distance(g, o@, q, level as nat) && calls_fn(g, q, v as int)) by {
                            if at_distance(g, o@, q, level as nat) && calls_fn(g, q, v as int) {
                                assert(reach_within(g, o@, q, level as nat));
                                assert(s0.visited@[q]);
                                assert(at_distance(g, o@, q, s0.depth@[q] as nat));
                                crate::graph::lemma_distance_unique(g, o@, q, level as nat, s0.depth@[q] as nat);
                                assert(s0.visited@[v as int]);
                            }
                        }
                        assert forall|kk: int| 0 <= kk < k implies !resolves_to(g, #[trigger] &g.functions@[u as int].calls@[kk], v as int) by {
                            if resolves_to(g, &g.functions@[u as int].calls@[kk], v as int) {
                                assert(resolves_to(g, &calls@[kk], v as int));
                            }
                        }
                        assert(first_caller(g, o@, u as int, k as int, v as int, level as nat));
                    }
                    let ghost s1 = *s;
                    s.visited.set(v, true);
                    s.depth.set(v, level + 1);
                    s.reached_by.set(v, (u, k));
                    s.next.push(v);
                    s.order.push(v);
                    proof {
                        assert(s.order@[0] == s1.order@[0]);
                        assert forall|x: int| 0 <= x < n && #[trigger] s.visited@[x] && x != o@ implies via_ok(g, o@, s, x) by {
                            if x != v {
                                assert(s1.visited@[x]);
                                assert(via_ok(g, o@, &s1, x));
                            }
                        }
                        assert forall|i: int| 0 <= i < s.next@.len() implies #[trigger] s.next@[i] < n && s.visited@[s.next@[i] as int]
                            && s.depth@[s.next@[i] as int] == level + 1 by {
                            if i < s1.next@.len() {
                                assert(s.next@[i] == s1.next@[i]);
                            }
                        }
                        assert forall|i: int| 0 <= i < s.order@.len() implies #[trigger] s.order@[i] < n by {
                            if i < s1.order@.len() {
                                assert(s.order@[i] == s1.order@[i]);
                            }
                        }
                    }
                }
            },
            None => {},
        }
        k = k + 1;
    }
    proof {
        assert forall|j: int| #[trigger] calls_fn(g, u as int, j) implies s.visited@[j] by {
            let kk = choose|kk: int| 0 <= kk < calls@.len() && resolves_to(g, #[trigger] &g.functions@[u as int].calls@[kk], j);
            assert(resolves_to(g, &calls@[kk], j));
        }
    }
}

/// Visits every function reachable from `origin` along resolved calls, level
/// by level, down to `max_depth` calls when a bound is given. Each function
/// is visited once, at the length of its shortest call chain from `origin`.
pub fn shortest_depths(g: &CallGraph, origin: usize, max_depth: Option<u32>) -> (t: Traversal)
    requires
        ids_unique(g),
        origin < g.functions@.len(),
    ensures
        traversal_of(g, origin as int, max_depth, &t),
{
    let n = g.functions.len();
    let mut visited: Vec<bool> = Vec::new();
    let mut depth: Vec<usize> = Vec::new();
    let mut reached_by: Vec<(usize, usize)> = Vec::new();
    let mut i: usize = 0;
    while i < n
        invariant
            i <= n,
            n == g.functions@.len(),
            visited@.len() == i,
            depth@.len() == i,
            reached_by@.len() == i,
            forall|j: int| 0 <= j < i ==> !visited@[j],
            forall|j: int| 0 <= j < i ==> depth@[j] == 0,
        decreases n - i,
    {
        visited.push(false);
        depth.push(0);
        reached_by.push((0, 0));
        i = i + 1;
    }
    let ghost o = origin as int;
    visited.set(origin, true);
    let mut order: Vec<usize> = Vec::new();
    order.push(origin);
    let mut frontier: Vec<usize> = Vec::new();
    frontier.push(origin);
    let mut s = Search { visited, depth, reached_by, order, next: Vec::new() };
    let mut level: usize = 0;
    proof {
        reveal(level_inv);
        lemma_within_origin(g, o, 0);
        assert(s.order@[0] == origin);
        assert(frontier@[0] == origin);
        assert forall|v: int| 0 <= v < n implies (s.visited@[v] <==> reach_within(g, o, v, 0)) by {
            if reach_within(g, o, v, 0) {
                let w = choose|w: Seq<int>| #[trigger] is_chain(g, w, o, v) && w.len() <= 1;
                assert(w[0] == w.last());
            }
        }
        assert forall|v: int| 0 <= v < n implies (#[trigger] s.visited@[v] <==> s.order@.contains(v as usize)) by {
            if s.order@.contains(v as usize) {
                let i = choose|i: int| 0 <= i < s.order@.len() && s.order@[i] == v as usize;
            }
        }
    }
    let limit: usize = match max_depth {
        Some(m) => m as usize,
        None => n,
    };
    while frontier.len() > 0 && level < limit
        invariant
            n == g.functions@.len(),
            ids_unique(g),
            o == origin as int,
            origin < n,
            limit == (match max_depth {
                Some(m) => m as usize,
                None => n,
            }),
            frontier@.len() > 0 ==> level < s.order@.len(),
            level <= s.order@.len(),
            in_scope(max_depth, level as nat),
            s.next@.len() == 0,
            level_inv(g, o, level as nat, &s),
            forall|v: int| 0 <= v < n ==> (s.visited@[v] <==> reach_within(g, o, v, level as nat)),
            forall|i: int|
                0 <= i < frontier@.len() ==> #[trigger] frontier@[i] < n && s.visited@[frontier@[i] as int]
                    && s.depth@[frontier@[i] as int] == level,
            forall|v: int|
                0 <= v < n && s.visited@[v] && s.depth@[v] == level ==> frontier@.contains(v as usize),
            forall|i: int, j: int| 0 <= i < j < frontier@.len() ==> frontier@[i] < frontier@[j],
        decreases n - s.order@.len(), frontier@.len(),
    {
        proof {
            reveal(level_inv);
            lemma_distinct_below(s.order@, n as nat);
        }
        let ghost s0 = s;
        let mut fi: usize = 0;
        while fi < frontier.len()
            invariant
                n == g.functions@.len(),
                ids_unique(g),
                o == origin as int,
                level < n,
                level_inv(g, o, level as nat, &s),
                forall|v: int| 0 <= v < n ==> (s0.visited@[v] <==> reach_within(g, o, v, level as nat)),
                forall|i: int|
                    0 <= i < frontier@.len() ==> #[trigger] frontier@[i] < n && s0.visited@[frontier@[i] as int]
                        && s0.depth@[frontier@[i] as int] == level,
                forall|v: int| 0 <= v < n && #[trigger] s0.visited@[v] ==> s.visited@[v] && s.depth@[v] == s0.depth@[v],
                forall|i: int, j: int| 0 <= i < fi && #[trigger] calls_fn(g, frontier@[i] as int, j) ==> s.visited@[j],
                s.order@.len() == s0.order@.len() + s.next@.len(),
                forall|v: int| 0 <= v < n && s0.visited@[v] && s0.depth@[v] == level ==> frontier@.contains(v as usize),
                forall|i: int, j: int| 0 <= i < j < frontier@.len() ==> frontier@[i] < frontier@[j],
            decreases frontier@.len() - fi,
        {
            let u = frontier[fi];
            let ghost s1 = s;
            proof {
                reveal(level_inv);
                assert forall|q: int, j: int|
                    0 <= q < u && s.visited@[q] && s.depth@[q] == level && #[trigger] calls_fn(g, q, j) implies s.visited@[j] by {
                    assert(reach_within(g, o, q, level as nat));
                    assert(s0.visited@[q]);
                    assert(frontier@.contains(q as usize));
                    let i = choose|i: int| 0 <= i < frontier@.len() && frontier@[i] == q as usize;
                    if i >= fi {
                        if i > fi {
                            assert(frontier@[fi as int] < frontier@[i]);
                        }
                    }
                    assert(calls_fn(g, frontier@[i] as int, j));
                }
            }
            visit_calls(g, Ghost(o), level, u, &mut s);
            proof {
                assert forall|i: int, j: int| 0 <= i < fi + 1 && #[trigger] calls_fn(g, frontier@[i] as int, j) implies s.visited@[j] by {
                    if i < fi {
                        assert(s1.visited@[j]);
                    }
                }
            }
            fi = fi + 1;
        }
        proof {
            reveal(level_inv);
            assert forall|v: int| 0 <= v < n implies (s.visited@[v] <==> reach_within(g, o, v, (level + 1) as nat)) by {
                if s.visited@[v] && reach_within(g, o, v, level as nat) {
                    lemma_within_mono(g, o, v, level as nat, (level + 1) as nat);
                }
                if reach_within(g, o, v, (level + 1) as nat) && !reach_within(g, o, v, level as nat) {
                    if v == o {
                        lemma_within_origin(g, o, level as nat);
                    }
                    lemma_within_last(g, o, v, (level + 1) as nat);
                    let u = choose|u: int|
                        0 <= u < n && #[trigger] reach_within(g, o, u, level as nat) && calls_fn(g, u, v);
                    assert(s0.visited@[u]);
                    if s0.depth@[u] == level {
                        assert(frontier@.contains(u as usize));
                        let i = choose|i: int| 0 <= i < frontier@.len() && frontier@[i] == u as usize;
                        assert(calls_fn(g, frontier@[i] as int, v));
                    } else {
                        assert(at_distance(g, o, u, s0.depth@[u] as nat));
                        lemma_within_step(g, o, u, v, s0.depth@[u] as nat);
                        lemma_within_mono(g, o, v, (s0.depth@[u] + 1) as nat, level as nat);
                    }
                }
            }
            assert forall|v: int| 0 <= v < n && s.visited@[v] && s.depth@[v] == level + 1 implies s.next@.contains(v as usize) by {
                if reach_within(g, o, v, level as nat) {
                }
            }
            lemma_distinct_below(s.order@, n as nat);
        }
        let mut nf: Vec<usize> = Vec::new();
        let mut v: usize = 0;
        while v < n
            invariant
                n == g.functions@.len(),
                v <= n,
                level < n,
                s.visited@.len() == n,
                s.depth@.len() == n,
                forall|i: int| 0 <= i < nf@.len() ==> #[trigger] nf@[i] < v && s.visited@[nf@[i] as int]
                    && s.depth@[nf@[i] as int] == level + 1,
                forall|x: int| 0 <= x < v && s.visited@[x] && s.depth@[x] == level + 1 ==> nf@.contains(x as usize),
                forall|i: int, j: int| 0 <= i < j < nf@.len() ==> nf@[i] < nf@[j],
            decreases n - v,
        {
            if s.visited[v] && s.depth[v] == level + 1 {
                let ghost nf0 = nf@;
                nf.push(v);
                proof {
                    assert(nf@[nf@.len() - 1] == v);
                    assert forall|x: int| 0 <= x < v + 1 && s.visited@[x] && s.depth@[x] == level + 1 implies nf@.contains(x as usize) by {
                        if x < v {
                            let i = choose|i: int| 0 <= i < nf0.len() && nf0[i] == x as usize;
                            assert(nf@[i] == nf0[i]);
                        }
                    }
                }
            }
            v = v + 1;
        }
        proof {
            reveal(level_inv);
            assert forall|x: int| 0 <= x < n && s.visited@[x] && s.depth@[x] == level + 1 implies s.next@.contains(x as usize) by {
                if reach_within(g, o, x, level as nat) {
                }
            }
            if nf@.len() > 0 {
                assert(s.visited@[nf@[0] as int] && s.depth@[nf@[0] as int] == level + 1);
                assert(s.next@.contains(nf@[0]));
            }
        }
        frontier = nf;
        s.next = Vec::new();
        level = level + 1;
        proof {
            reveal(level_inv);
        }
    }
    proof {
        reveal(level_inv);
        assert forall|v: int| 0 <= v < n implies (#[trigger] s.order@.contains(v as usize) <==> reached(g, o, v, max_depth)) by {
            if s.order@.contains(v as usize) {
                assert(s.visited@[v]);
                assert(at_distance(g, o, v, s.depth@[v] as nat));
            }
            if reached(g, o, v, max_depth) {
                let d = choose|d: nat| #[trigger] at_distance(g, o, v, d) && in_scope(max_depth, d);
                if frontier@.len() > 0 {
                    lemma_distinct_below(s.order@, n as nat);
                    lemma_within_mono(g, o, v, d, level as nat);
                } else {
                    assert(level > 0) by {
                        if level == 0 {
                            assert(s.visited@[o]);
                            assert(frontier@.contains(origin));
                        }
                    }
                    assert forall|x: int|
                        0 <= x < n && #[trigger] reach_within(g, o, x, level as nat) implies reach_within(g, o, x, (level - 1) as nat) by {
                        assert(s.visited@[x]);
                        if s.depth@[x] == level {
                            assert(frontier@.contains(x as usize));
                        }
                        lemma_within_mono(g, o, x, s.depth@[x] as nat, (level - 1) as nat);
                    }
                    lemma_stable(g, o, level as nat, d);
                    lemma_within_mono(g, o, v, (level - 1) as nat, level as nat);
                }
                assert(s.visited@[v]);
            }
        }
        assert forall|v: int| 0 <= v < n && #[trigger] s.order@.contains(v as usize) implies at_distance(
            g, o, v, s.depth@[v] as nat) && in_scope(max_depth, s.depth@[v] as nat) by {
            assert(s.visited@[v]);
        }
        assert forall|v: int| 0 <= v < n && v != o && #[trigger] s.order@.contains(v as usize) implies {
            let (p, k) = s.reached_by@[v];
            &&& s.order@.contains(p)
            &&& p < n
            &&& s.depth@[p as int] + 1 == s.depth@[v]
            &&& k < g.functions@[p as int].calls@.len()
            &&& resolves_to(g, &g.functions@[p as int].calls@[k as int], v)
            &&& first_caller(g, o, p as int, k as int, v, (s.depth@[v] - 1) as nat)
        } by {
            assert(s.visited@[v]);
            assert(via_ok(g, o, &s, v));
            assert(s.visited@[s.reached_by@[v].0 as int]);
        }
        lemma_distinct_below(s.order@, n as nat);
    }
    proof {
        reveal(level_inv);
        assert forall|v: int| 0 <= v < n implies (#[trigger] s.visited@[v] <==> s.order@.contains(v as usize)) by {
        }
    }
    Traversal { order: s.order, visited: s.visited, depth: s.depth, reached_by: s.reached_by }
}

/// Whether the shortest chain of resolved calls from `o` to `v` has exactly
/// `d` calls: one such chain exists, and every chain has at least `d`.
pub open spec fn shortest_chain(g: &CallGraph, o: int, v: int, d: nat) -> bool {
    &&& exists|w: Seq<int>| #[trigger] is_chain(g, w, o, v) && w.len() == d + 1
    &&& forall|w: Seq<int>| #[trigger] is_chain(g, w, o, v) ==> w.len() >= d + 1
}

/// The depth of a function is the length of a shortest call chain to it:
/// at distance `d` there is a chain of exactly `d` resolved calls from `o`
/// to `v`, and every chain from `o` to `v` has at least `d` calls.
pub proof fn lemma_depth_is_shortest(g: &CallGraph, o: int, v: int, d: nat)
    requires
        at_distance(g, o, v, d),
    ensures
        exists|w: Seq<int>| #[trigger] is_chain(g, w, o, v) && w.len() == d + 1,
        forall|w: Seq<int>| #[trigger] is_chain(g, w, o, v) ==> w.len() >= d + 1,
{
    let w = choose|w: Seq<int>| #[trigger] is_chain(g, w, o, v) && w.len() <= d + 1;
    assert forall|w2: Seq<int>| #[trigger] is_chain(g, w2, o, v) implies w2.len() >= d + 1 by {
        if w2.len() < d + 1 {
            assert(reach_within(g, o, v, (w2.len() - 1) as nat));
            lemma_within_mono(g, o, v, (w2.len() - 1) as nat, (d - 1) as nat);
        }
    }
    assert(w.len() == d + 1);
}

/// What a traversal knows of a function that it reached.
pub proof fn lemma_visited(g: &CallGraph, o: int, max_depth: Option<u32>, t: &Traversal, v: usize)
    requires
        traversal_of(g, o, max_depth, t),
        v < g.functions@.len(),
        t.order@.contains(v),
    ensures
        at_distance(g, o, v as int, t.depth@[v as int] as nat),
        in_scope(max_depth, t.depth@[v as int] as nat),
        reached(g, o, v as int, max_depth),
{
    assert(t.order@.contains((v as int) as usize));
}

/// The set of functions reached from `o` within the bound.
pub open spec fn reached_set(g: &CallGraph, o: int, max_depth: Option<u32>) -> Set<int> {
    Set::new(|v: int| 0 <= v < g.functions@.len() && reached(g, o, v, max_depth))
}

/// A traversal lists each function that it reaches once.
pub proof fn lemma_order_counts_reached(g: &CallGraph, o: int, max_depth: Option<u32>, t: &Traversal)
    requires
        traversal_of(g, o, max_depth, t),
    ensures
        reached_set(g, o, max_depth).finite(),
        t.order@.len() == reached_set(g, o, max_depth).len(),
{
    let s = t.order@.map_values(|x: usize| x as int);
    assert(s.no_duplicates()) by {
        assert forall|i: int, j: int| 0 <= i < s.len() && 0 <= j < s.len() && i != j implies s[i] != s[j] by {
            assert(t.order@[i] != t.order@[j]);
        }
    }
    s.unique_seq_to_set();
    assert(s.to_set() =~= reached_set(g, o, max_depth)) by {
        assert forall|v: int| s.to_set().contains(v) implies reached_set(g, o, max_depth).contains(v) by {
            let i = choose|i: int| 0 <= i < s.len() && s[i] == v;
            assert(t.order@[i] < g.functions@.len());
            assert(t.order@.contains(t.order@[i]));
            assert(t.order@.contains(v as usize));
        }
        assert forall|v: int| reached_set(g, o, max_depth).contains(v) implies s.to_set().contains(v) by {
            assert(t.order@.contains(v as usize));
            let i = choose|i: int| 0 <= i < t.order@.len() && t.order@[i] == v as usize;
            assert(s[i] == v);
        }
    }
    vstd::seq_lib::seq_to_set_is_finite(s);
}

pub proof fn lemma_via(g: &CallGraph, o: int, max_depth: Option<u32>, t: &Traversal, v: usize)
    requires
        traversal_of(g, o, max_depth, t),
        v < g.functions@.len(),
        v != o,
        t.order@.contains(v),
    ensures
        t.order@.contains(t.reached_by@[v as int].0),
        t.reached_by@[v as int].0 < g.functions@.len(),
        t.depth@[t.reached_by@[v as int].0 as int] + 1 == t.depth@[v as int],
        t.reached_by@[v as int].1 < g.functions@[t.reached_by@[v as int].0 as int].calls@.len(),
        resolves_to(g, &g.functions@[t.reached_by@[v as int].0 as int].calls@[t.reached_by@[v as int].1 as int], v as int),
        first_caller(g, o, t.reached_by@[v as int].0 as int, t.reached_by@[v as int].1 as int, v as int, (t.depth@[v as int] - 1) as nat),
{
    assert(t.order@.contains((v as int) as usize));
}

/// The function that hop `i` of `hops` leads to: the next hop's function, or
/// `v` after the last hop.
pub open spec fn hop_target(hops: Seq<(int, int)>, v: int, i: int) -> int {
    if i + 1 < hops.len() {
        hops[i + 1].0
    } else {
        v
    }
}

/// Whether `path` is the chain of first callers from `o` to `v`: a call path
/// whose every hop is the first call into the next function, in the order a
/// traversal visiting each level in storage order meets them.
pub open spec fn is_first_path(g: &CallGraph, o: int, v: int, path: Seq<PathNode>) -> bool {
    exists|hops: Seq<(int, int)>|
        #[trigger] hops_lead(g, o, v, hops) && hops.len() == path.len() && (forall|i: int|
            0 <= i < path.len() ==> describes_hop(g, &path[i], hops[i].0, hops[i].1)) && forall|i: int|
            0 <= i < hops.len() ==> first_caller(g, o, (#[trigger] hops[i]).0, hops[i].1, hop_target(hops, v, i), i as nat)
}

/// The call path along which the traversal first reached `v`: one node for
/// each call, from `origin` down to the caller of `v`.
pub fn path_to(g: &CallGraph, origin: usize, max_depth: Option<u32>, t: &Traversal, v: usize) -> (r: Vec<PathNode>)
    requires
        traversal_of(g, origin as int, max_depth, t),
        v < g.functions@.len(),
        t.order@.contains(v),
    ensures
        r@.len() == t.depth@[v as int],
        is_call_path(g, origin as int, v as int, r@),
        is_first_path(g, origin as int, v as int, r@),
{
    let ghost o = origin as int;
    let ghost n = g.functions@.len();
    let mut rev: Vec<(usize, usize)> = Vec::new();
    let ghost mut hops: Seq<(int, int)> = Seq::empty();
    let mut cur = v;
    while cur != origin
        invariant
            traversal_of(g, o, max_depth, t),
            o == origin as int,
            cur < n,
            n == g.functions@.len(),
            t.order@.contains(cur),
            hops_lead(g, cur as int, v as int, hops),
            rev@.len() == hops.len(),
            forall|i: int| 0 <= i < rev@.len() ==> (#[trigger] rev@[i].0 as int, rev@[i].1 as int) == hops[hops.len() - 1 - i],
            t.depth@[cur as int] + hops.len() == t.depth@[v as int],
            forall|i: int| 0 <= i < hops.len() ==> first_caller(g, o, (#[trigger] hops[i]).0, hops[i].1, hop_target(hops, v as int, i), (t.depth@[cur as int] + i) as nat),
        decreases t.depth@[cur as int],
    {
        let (p, k) = t.reached_by[cur];
        proof {
            lemma_via(g, o, max_depth, t, cur);
            let h2 = seq![(p as int, k as int)] + hops;
            assert(hops_lead(g, p as int, v as int, h2)) by {
                assert forall|i: int| 0 <= i < h2.len() implies {
                    &&& 0 <= #[trigger] h2[i].0 < g.functions@.len()
                    &&& 0 <= h2[i].1 < g.functions@[h2[i].0].calls@.len()
                    &&& resolves_to(g, &g.functions@[h2[i].0].calls@[h2[i].1], if i + 1 < h2.len() { h2[i + 1].0 } else { v as int })
                } by {
                    if i > 0 {
                        assert(h2[i] == hops[i - 1]);
                    }
                    if i + 1 < h2.len() {
                        assert(h2[i + 1] == hops[i]);
                    }
                    if i == 0 && hops.len() > 0 {
                        assert(hops[0].0 == cur as int);
                    }
                }
            }
            assert forall|i: int| 0 <= i < h2.len() implies first_caller(g, o, (#[trigger] h2[i]).0, h2[i].1, hop_target(h2, v as int, i), (t.depth@[p as int] + i) as nat) by {
                if i > 0 {
                    assert(h2[i] == hops[i - 1]);
                    assert(hop_target(h2, v as int, i) == hop_target(hops, v as int, i - 1));
                } else if hops.len() > 0 {
                    assert(h2[1] == hops[0]);
                    assert(hops[0].0 == cur as int);
                }
            }
            hops = h2;
        }
        let ghost rev0 = rev@;
        rev.push((p, k));
        proof {
            assert forall|i: int| 0 <= i < rev@.len() implies (#[trigger] rev@[i].0 as int, rev@[i].1 as int) == hops[hops.len() - 1 - i] by {
                if i < rev0.len() {
                    assert(rev@[i] == rev0[i]);
                }
            }
        }
        cur = p;
    }
    proof {
        assert(t.depth@[o] == 0);
    }
    let m = rev.len();
    let mut r: Vec<PathNode> = Vec::new();
    let mut i: usize = 0;
    while i < m
        invariant
            m == rev@.len(),
            m == hops.len(),
            i <= m,
            n == g.functions@.len(),
            hops_lead(g, o, v as int, hops),
            forall|i: int| 0 <= i < rev@.len() ==> (#[trigger] rev@[i].0 as int, rev@[i].1 as int) == hops[hops.len() - 1 - i],
            r@.len() == i,
            forall|j: int| 0 <= j < i ==> describes_hop(g, #[trigger] &r@[j], hops[j].0, hops[j].1),
            forall|i: int| 0 <= i < hops.len() ==> first_caller(g, o, (#[trigger] hops[i]).0, hops[i].1, hop_target(hops, v as int, i), i as nat),
        decreases m - i,
    {
        let (p, k) = rev[m - 1 - i];
        assert(hops[i as int] == (p as int, k as int));
        assert(0 <= hops[i as int].0 < n);
        let f = &g.functions[p];
        r.push(PathNode {
            function_id: f.id.clone(),
            function_name: f.name.clone(),
            file: f.file.clone(),
            line: f.calls[k].line,
        });
        proof {
            assert forall|j: int| 0 <= j < i + 1 implies describes_hop(g, #[trigger] &r@[j], hops[j].0, hops[j].1) by {
            }
        }
        i = i + 1;
    }
    proof {
        assert(hops.len() == r@.len());
    }
    r
}

} // verus!
