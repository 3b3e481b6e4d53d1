//! Forward reachability: from one function, every data access it can reach
//! along resolved calls, with the path taken.
use vstd::prelude::*;
use crate::graph::{
    at_distance, find_function, has_function, ids_unique, index_of, is_call_path, same_access,
    CallGraph, DataAccessPoint, PathNode, QueryError,
};
use crate::traversal::{
    lemma_order_counts_reached, lemma_visited, path_to, reached, reached_set, shortest_depths,
    traversal_of, Traversal,
};

verus! {

/// The class of sensitive data that a field holds.
#[derive(Debug, Clone, Copy, PartialEq, Eq, Structural)]
pub enum SensitivityType {
    Pii,
    Credentials,
    Financial,
    Health,
    Unknown,
}

/// The verdict of the sensitivity detector on one field name.
#[derive(Debug)]
pub struct FieldSensitivity {
    pub field: String,
    pub sensitivity: SensitivityType,
}

/// The class of field `f`: the verdict of the first rule on that name, or
/// `Unknown` where no rule names it.
pub open spec fn classify(rules: Seq<FieldSensitivity>, f: Seq<char>) -> SensitivityType
    decreases rules.len(),
{
    if rules.len() == 0 {
        SensitivityType::Unknown
    } else if rules[0].field@ == f {
        rules[0].sensitivity
    } else {
        classify(rules.drop_first(), f)
    }
}

/// The class of field `f` under `rules`.
pub fn classify_field(rules: &Vec<FieldSensitivity>, f: &String) -> (r: SensitivityType)
    ensures
        r == classify(rules@, f@),
{
    let mut i: usize = 0;
    assert(rules@.subrange(0, rules@.len() as int) =~= rules@);
    while i < rules.len()
        invariant
            i <= rules@.len(),
            classify(rules@, f@) == classify(rules@.subrange(i as int, rules@.len() as int), f@),
        decreases rules@.len() - i,
    {
        let ghost rest = rules@.subrange(i as int, rules@.len() as int);
        if rules[i].field == *f {
            return rules[i].sensitivity;
        }
        assert(rest.drop_first() =~= rules@.subrange(i + 1, rules@.len() as int));
        i = i + 1;
    }
    SensitivityType::Unknown
}

/// Query-time filters of a forward query. They never change the graph.
#[derive(Debug)]
pub struct ReachabilityOptions {
    /// How many calls deep to follow; no bound when `None`.
    pub max_depth: Option<u32>,
    /// Keep only accesses that touch a field classified as sensitive.
    pub sensitive_only: bool,
    /// Keep only accesses to these tables; all tables when empty.
    pub tables: Vec<String>,
    /// Report the unresolved calls met on the way.
    pub include_unresolved: bool,
}

/// Whether one of `v` reads `t`.
pub open spec fn in_strings(v: Seq<String>, t: Seq<char>) -> bool {
    exists|i: int| 0 <= i < v.len() && #[trigger] v[i]@ == t
}

/// Whether one of the entries of `es` accesses table `t`.
pub open spec fn table_listed(es: Seq<ReachableDataAccess>, t: Seq<char>) -> bool {
    exists|j: int| 0 <= j < es.len() && #[trigger] es[j].access.table@ == t
}

/// Whether table `t` passes the filter `tables`.
pub open spec fn table_selected(tables: Seq<String>, t: Seq<char>) -> bool {
    tables.len() == 0 || in_strings(tables, t)
}

/// Whether one of `fields` is classified as sensitive.
pub open spec fn has_sensitive_field(rules: Seq<FieldSensitivity>, fields: Seq<String>) -> bool {
    exists|i: int|
        0 <= i < fields.len() && classify(rules, #[trigger] fields[i]@) != SensitivityType::Unknown
}

/// Whether access `a` passes the filters of `opts`.
pub open spec fn emitted(
    opts: &ReachabilityOptions,
    rules: Seq<FieldSensitivity>,
    a: &DataAccessPoint,
) -> bool {
    &&& table_selected(opts.tables@, a.table@)
    &&& opts.sensitive_only ==> has_sensitive_field(rules, a.fields@)
}

/// Whether `t` is one of `tables`.
pub fn contains_string(tables: &Vec<String>, t: &String) -> (r: bool)
    ensures
        r == in_strings(tables@, t@),
{
    let mut i: usize = 0;
    while i < tables.len()
        invariant
            i <= tables@.len(),
            forall|j: int| 0 <= j < i ==> tables@[j]@ != t@,
        decreases tables@.len() - i,
    {
        if tables[i] == *t {
            return true;
        }
        i = i + 1;
    }
    false
}

/// Whether access `a` passes the filters of `opts`.
pub fn passes_filters(opts: &ReachabilityOptions, rules: &Vec<FieldSensitivity>, a: &DataAccessPoint) -> (r: bool)
    ensures
        r == emitted(opts, rules@, a),
{
    if opts.tables.len() > 0 && !contains_string(&opts.tables, &a.table) {
        return false;
    }
    if !opts.sensitive_only {
        return true;
    }
    let mut i: usize = 0;
    while i < a.fields.len()
        invariant
            i <= a.fields@.len(),
            table_selected(opts.tables@, a.table@),
            forall|j: int| 0 <= j < i ==> classify(rules@, a.fields@[j]@) == SensitivityType::Unknown,
        decreases a.fields@.len() - i,
    {
        if classify_field(rules, &a.fields[i]) != SensitivityType::Unknown {
            assert(classify(rules@, a.fields@[i as int]@) != SensitivityType::Unknown);
            return true;
        }
        i = i + 1;
    }
    false
}

/// A data access reached from the origin.
#[derive(Debug)]
pub struct ReachableDataAccess {
    pub access: DataAccessPoint,
    /// The calls from the origin to the function that performs the access:
    /// one node for each call, naming the calling function and the call's
    /// line. The accessing function is no node of its own, so an access of
    /// the origin itself has an empty path.
    pub path: Vec<PathNode>,
    /// The number of calls on the path.
    pub depth: usize,
}

/// Whether entry `e` reports access `k` of function `f`, reached from `o`.
pub open spec fn entry_from(
    g: &CallGraph,
    o: int,
    opts: &ReachabilityOptions,
    rules: Seq<FieldSensitivity>,
    e: &ReachableDataAccess,
    f: int,
    k: int,
) -> bool {
    &&& 0 <= f < g.functions@.len()
    &&& reached(g, o, f, opts.max_depth)
    &&& 0 <= k < g.functions@[f].data_access@.len()
    &&& emitted(opts, rules, &g.functions@[f].data_access@[k])
    &&& same_access(&g.functions@[f].data_access@[k], &e.access)
    &&& at_distance(g, o, f, e.depth as nat)
    &&& e.path@.len() == e.depth
    &&& is_call_path(g, o, f, e.path@)
    &&& crate::traversal::is_first_path(g, o, f, e.path@)
}

/// Whether `a` comes before `b`, pairs of a function and an index at depths
/// `da` and `db`: by depth, then by function, then by index.
pub open spec fn before3(da: int, a: (int, int), db: int, b: (int, int)) -> bool {
    da < db || (da == db && (a.0 < b.0 || (a.0 == b.0 && a.1 < b.1)))
}

/// Whether `src` names, for each entry of `es`, the function and access
/// index it reports, the entries coming level by level, each level in
/// storage order, then in access order.
pub open spec fn entries_in_order(
    g: &CallGraph,
    o: int,
    opts: &ReachabilityOptions,
    rules: Seq<FieldSensitivity>,
    es: Seq<ReachableDataAccess>,
    src: Seq<(int, int)>,
) -> bool {
    &&& src.len() == es.len()
    &&& forall|i: int| 0 <= i < es.len() ==> entry_from(g, o, opts, rules, &es[i], src[i].0, src[i].1)
    &&& forall|i: int, j: int| 0 <= i < j < es.len() ==> before3(es[i].depth as int, src[i], es[j].depth as int, src[j])
}

/// Whether entry `e` reports some access reached from `o`.
pub open spec fn entry_valid(
    g: &CallGraph,
    o: int,
    opts: &ReachabilityOptions,
    rules: Seq<FieldSensitivity>,
    e: &ReachableDataAccess,
) -> bool {
    exists|f: int, k: int| #[trigger] entry_from(g, o, opts, rules, e, f, k)
}

/// The accesses reached from `o` that pass the filters, as pairs of a
/// function and the index of one of its accesses.
pub open spec fn emitted_pairs(
    g: &CallGraph,
    o: int,
    opts: &ReachabilityOptions,
    rules: Seq<FieldSensitivity>,
) -> Set<(int, int)> {
    Set::new(
        |p: (int, int)|
            0 <= p.0 < g.functions@.len() && reached(g, o, p.0, opts.max_depth) && 0 <= p.1
                < g.functions@[p.0].data_access@.len() && emitted(opts, rules, &g.functions@[p.0].data_access@[p.1]),
    )
}

/// Whether `es` reports exactly the accesses reached from `o` that pass the
/// filters, each once: each entry is one of them, each of them has an
/// entry, and there are as many entries as accesses.
pub open spec fn accesses_of(
    g: &CallGraph,
    o: int,
    opts: &ReachabilityOptions,
    rules: Seq<FieldSensitivity>,
    es: Seq<ReachableDataAccess>,
) -> bool {
    &&& forall|i: int| 0 <= i < es.len() ==> #[trigger] entry_valid(g, o, opts, rules, &es[i])
    &&& forall|f: int, k: int|
        0 <= f < g.functions@.len() && reached(g, o, f, opts.max_depth) && 0 <= k
            < g.functions@[f].data_access@.len() && #[trigger] emitted(
            opts,
            rules,
            &g.functions@[f].data_access@[k],
        ) ==> exists|i: int| 0 <= i < es.len() && entry_from(g, o, opts, rules, &es[i], f, k)
    &&& emitted_pairs(g, o, opts, rules).finite()
    &&& es.len() == emitted_pairs(g, o, opts, rules).len()
    &&& exists|src: Seq<(int, int)>| #[trigger] entries_in_order(g, o, opts, rules, es, src)
}

fn copy_path(p: &Vec<PathNode>) -> (r: Vec<PathNode>)
    ensures
        r@ == p@,
{
    let mut r: Vec<PathNode> = Vec::new();
    let mut i: usize = 0;
    while i < p.len()
        invariant
            i <= p@.len(),
            r@ == p@.subrange(0, i as int),
        decreases p@.len() - i,
    {
        let n = &p[i];
        r.push(PathNode {
            function_id: n.function_id.clone(),
            function_name: n.function_name.clone(),
            file: n.file.clone(),
            line: n.line,
        });
        i = i + 1;
    }
    assert(r@ =~= p@);
    r
}

/// The accesses of the functions that `t` reached that pass the filters,
/// level by level, each level in storage order, then in access order.
fn collect_accesses(g: &CallGraph, origin: usize, opts: &ReachabilityOptions, rules: &Vec<FieldSensitivity>, t: &Traversal, top: usize) -> (r: Vec<ReachableDataAccess>)
    requires
        traversal_of(g, origin as int, opts.max_depth, t),
        forall|v: int, d: nat|
            0 <= v < g.functions@.len() && reached(g, origin as int, v, opts.max_depth) && #[trigger] at_distance(g, origin as int, v, d) ==> d <= top,
    ensures
        accesses_of(g, origin as int, opts, rules@, r@),
{
    let ghost o = origin as int;
    let n = g.functions.len();
    let mut r: Vec<ReachableDataAccess> = Vec::new();
    let ghost mut src: Seq<(int, int)> = Seq::empty();
    let mut d: usize = 0;
    let mut done = false;
    while !done
        invariant
            traversal_of(g, o, opts.max_depth, t),
            o == origin as int,
            n == g.functions@.len(),
            d <= top,
            forall|v: int, dd: nat|
                0 <= v < n && reached(g, o, v, opts.max_depth) && #[trigger] at_distance(g, o, v, dd) ==> dd <= top,
            r@.len() == src.len(),
            forall|i: int| 0 <= i < r@.len() ==> entry_from(g, o, opts, rules@, &r@[i], src[i].0, src[i].1) && r@[i].depth == t.depth@[src[i].0],
            forall|i: int| 0 <= i < src.len() ==> 0 <= (#[trigger] src[i]).0 < n && (done || t.depth@[src[i].0] < d),
            forall|i: int, j: int| 0 <= i < j < src.len() ==> before3(t.depth@[src[i].0] as int, src[i], t.depth@[src[j].0] as int, src[j]),
            forall|f: int, k: int|
                0 <= f < n && reached(g, o, f, opts.max_depth) && 0 <= k < g.functions@[f].data_access@.len() && emitted(opts, rules@, &g.functions@[f].data_access@[k]) && (done || t.depth@[f] < d)
                    ==> exists|i: int| 0 <= i < src.len() && #[trigger] src[i] == (f, k),
        decreases top - d + (if done { 0int } else { 1int }),
    {
        let mut f: usize = 0;
        while f < n
            invariant
                traversal_of(g, o, opts.max_depth, t),
                o == origin as int,
                n == g.functions@.len(),
                d <= top,
                !done,
                f <= n,
                r@.len() == src.len(),
                forall|i: int| 0 <= i < r@.len() ==> entry_from(g, o, opts, rules@, &r@[i], src[i].0, src[i].1) && r@[i].depth == t.depth@[src[i].0],
                forall|i: int| 0 <= i < src.len() ==> 0 <= (#[trigger] src[i]).0 < n && (t.depth@[src[i].0] < d || (t.depth@[src[i].0] == d && src[i].0 < f)),
                forall|i: int, j: int| 0 <= i < j < src.len() ==> before3(t.depth@[src[i].0] as int, src[i], t.depth@[src[j].0] as int, src[j]),
                forall|ff: int, k: int|
                    0 <= ff < n && reached(g, o, ff, opts.max_depth) && 0 <= k < g.functions@[ff].data_access@.len() && emitted(opts, rules@, &g.functions@[ff].data_access@[k]) && (t.depth@[ff] < d || (t.depth@[ff] == d && ff < f))
                        ==> exists|i: int| 0 <= i < src.len() && #[trigger] src[i] == (ff, k),
            decreases n - f,
        {
            let ghost src0 = src;
            if t.visited[f] && t.depth[f] == d {
                proof {
                    lemma_visited(g, o, opts.max_depth, t, f);
                }
                let path = path_to(g, origin, opts.max_depth, t, f);
                let items = &g.functions[f].data_access;
                let mut k: usize = 0;
                while k < items.len()
                    invariant
                        traversal_of(g, o, opts.max_depth, t),
                        o == origin as int,
                        n == g.functions@.len(),
                        f < n,
                        t.order@.contains(f),
                        t.depth@[f as int] == d,
                        reached(g, o, f as int, opts.max_depth),
                        at_distance(g, o, f as int, d as nat),
                        items == &g.functions@[f as int].data_access,
                        k <= items@.len(),
                        path@.len() == t.depth@[f as int],
                        is_call_path(g, o, f as int, path@),
                        crate::traversal::is_first_path(g, o, f as int, path@),
                        r@.len() == src.len(),
                        src0.len() <= src.len(),
                        forall|i: int| 0 <= i < src0.len() ==> src[i] == src0[i],
                        forall|i: int| 0 <= i < r@.len() ==> entry_from(g, o, opts, rules@, &r@[i], src[i].0, src[i].1) && r@[i].depth == t.depth@[src[i].0],
                        forall|i: int| 0 <= i < src.len() ==> 0 <= (#[trigger] src[i]).0 < n && (t.depth@[src[i].0] < d || (t.depth@[src[i].0] == d && src[i].0 < f) || (src[i].0 == f && src[i].1 < k)),
                        forall|i: int, j: int| 0 <= i < j < src.len() ==> before3(t.depth@[src[i].0] as int, src[i], t.depth@[src[j].0] as int, src[j]),
                        forall|ff: int, kk: int|
                            0 <= ff < n && reached(g, o, ff, opts.max_depth) && 0 <= kk < g.functions@[ff].data_access@.len() && emitted(opts, rules@, &g.functions@[ff].data_access@[kk]) && (t.depth@[ff] < d || (t.depth@[ff] == d && ff < f) || (ff == f && kk < k))
                                ==> exists|i: int| 0 <= i < src.len() && #[trigger] src[i] == (ff, kk),
                    decreases items@.len() - k,
                {
                    if passes_filters(opts, rules, &items[k]) {
                        let e = ReachableDataAccess { access: items[k].copy(), path: copy_path(&path), depth: t.depth[f] };
                        let ghost r1 = r@;
                        let ghost src1 = src;
                        r.push(e);
                        proof {
                            src = src.push((f as int, k as int));
                            assert(entry_from(g, o, opts, rules@, &r@[r@.len() - 1], f as int, k as int));
                            assert forall|i: int| 0 <= i < r@.len() implies entry_from(g, o, opts, rules@, &r@[i], src[i].0, src[i].1) && r@[i].depth == t.depth@[src[i].0] by {
                                if i < r1.len() {
                                    assert(r@[i] == r1[i]);
                                    assert(src[i] == src1[i]);
                                }
                            }
                            assert forall|i: int| 0 <= i < src.len() implies 0 <= (#[trigger] src[i]).0 < n && (t.depth@[src[i].0] < d || (t.depth@[src[i].0] == d && src[i].0 < f) || (src[i].0 == f && src[i].1 < k + 1)) by {
                                if i < src1.len() {
                                    assert(src[i] == src1[i]);
                                }
                            }
                            assert forall|i: int, j: int| 0 <= i < j < src.len() implies before3(t.depth@[src[i].0] as int, src[i], t.depth@[src[j].0] as int, src[j]) by {
                                assert(src[i] == src1[i]);
                                if j < src1.len() {
                                    assert(src[j] == src1[j]);
                                }
                            }
                            assert forall|ff: int, kk: int|
                                0 <= ff < n && reached(g, o, ff, opts.max_depth) && 0 <= kk < g.functions@[ff].data_access@.len() && emitted(opts, rules@, &g.functions@[ff].data_access@[kk]) && (t.depth@[ff] < d || (t.depth@[ff] == d && ff < f) || (ff == f && kk < k + 1))
                                    implies exists|i: int| 0 <= i < src.len() && #[trigger] src[i] == (ff, kk) by {
                                if ff == f && kk == k {
                                    assert(src[src.len() - 1] == (ff, kk));
                                } else {
                                    let i = choose|i: int| 0 <= i < src1.len() && #[trigger] src1[i] == (ff, kk);
                                    assert(src[i] == src1[i]);
                                }
                            }
                        }
                    }
                    k = k + 1;
                }
            } else {
                proof {
                    assert forall|ff: int, kk: int|
                        0 <= ff < n && reached(g, o, ff, opts.max_depth) && 0 <= kk < g.functions@[ff].data_access@.len() && emitted(opts, rules@, &g.functions@[ff].data_access@[kk]) && (t.depth@[ff] < d || (t.depth@[ff] == d && ff < f + 1))
                            implies exists|i: int| 0 <= i < src.len() && #[trigger] src[i] == (ff, kk) by {
                        if ff == f {
                            assert(t.order@.contains(ff as usize));
                            assert(t.visited@[ff]);
                        }
                    }
                }
            }
            f = f + 1;
        }
        if d == top {
            done = true;
        } else {
            d = d + 1;
        }
        proof {
            assert forall|ff: int, kk: int|
                0 <= ff < n && reached(g, o, ff, opts.max_depth) && 0 <= kk < g.functions@[ff].data_access@.len() && emitted(opts, rules@, &g.functions@[ff].data_access@[kk]) && (done || t.depth@[ff] < d)
                    implies exists|i: int| 0 <= i < src.len() && #[trigger] src[i] == (ff, kk) by {
                assert(t.order@.contains(ff as usize));
                lemma_visited(g, o, opts.max_depth, t, ff as usize);
            }
        }
    }
    proof {
        assert(src.no_duplicates()) by {
            assert forall|i: int, j: int| 0 <= i < src.len() && 0 <= j < src.len() && i != j implies src[i] != src[j] by {
                if i < j {
                    assert(before3(t.depth@[src[i].0] as int, src[i], t.depth@[src[j].0] as int, src[j]));
                } else {
                    assert(before3(t.depth@[src[j].0] as int, src[j], t.depth@[src[i].0] as int, src[i]));
                }
            }
        }
        assert forall|i: int| 0 <= i < r@.len() implies #[trigger] entry_valid(g, o, opts, rules@, &r@[i]) by {
            assert(entry_from(g, o, opts, rules@, &r@[i], src[i].0, src[i].1));
        }
        assert forall|ff: int, kk: int|
            0 <= ff < g.functions@.len() && reached(g, o, ff, opts.max_depth) && 0 <= kk
                < g.functions@[ff].data_access@.len() && #[trigger] emitted(
                opts,
                rules@,
                &g.functions@[ff].data_access@[kk],
            ) implies exists|i: int| 0 <= i < r@.len() && entry_from(g, o, opts, rules@, &r@[i], ff, kk) by {
            let i = choose|i: int| 0 <= i < src.len() && #[trigger] src[i] == (ff, kk);
            assert(entry_from(g, o, opts, rules@, &r@[i], src[i].0, src[i].1));
        }
        let pairs = emitted_pairs(g, o, opts, rules@);
        assert(src.to_set() =~= pairs) by {
            assert forall|q: (int, int)| src.to_set().contains(q) implies pairs.contains(q) by {
                let i = choose|i: int| 0 <= i < src.len() && src[i] == q;
                assert(entry_from(g, o, opts, rules@, &r@[i], src[i].0, src[i].1));
            }
            assert forall|q: (int, int)| pairs.contains(q) implies src.to_set().contains(q) by {
                let i = choose|i: int| 0 <= i < src.len() && #[trigger] src[i] == (q.0, q.1);
                assert(src[i] == q);
            }
        }
        src.unique_seq_to_set();
        vstd::seq_lib::seq_to_set_is_finite(src);
        assert(entries_in_order(g, o, opts, rules@, r@, src));
    }
    r
}

/// A call that could not be resolved, met on the way and not followed.
#[derive(Debug)]
pub struct UnresolvedCall {
    /// The function that makes the call.
    pub caller_id: String,
    pub callee_name: String,
    pub line: u32,
    /// The ambiguous candidates, if any.
    pub candidates: Vec<String>,
    /// The depth of the calling function.
    pub depth: usize,
}

/// Whether marker `m` reports the unresolved call `k` of function `f`,
/// reached from `o`.
pub open spec fn marker_from(
    g: &CallGraph,
    o: int,
    max_depth: Option<u32>,
    m: &UnresolvedCall,
    f: int,
    k: int,
) -> bool {
    &&& 0 <= f < g.functions@.len()
    &&& reached(g, o, f, max_depth)
    &&& 0 <= k < g.functions@[f].calls@.len()
    &&& !g.functions@[f].calls@[k].resolved
    &&& m.caller_id@ == g.functions@[f].id@
    &&& m.callee_name@ == g.functions@[f].calls@[k].callee_name@
    &&& m.line == g.functions@[f].calls@[k].line
    &&& m.candidates@ == g.functions@[f].calls@[k].resolved_candidates@
    &&& at_distance(g, o, f, m.depth as nat)
}

/// Whether `src` names, for each marker of `ms`, the function and call index
/// it reports, the markers coming level by level, each level in storage
/// order, then in call order.
pub open spec fn markers_in_order(g: &CallGraph, o: int, max_depth: Option<u32>, ms: Seq<UnresolvedCall>, src: Seq<(int, int)>) -> bool {
    &&& src.len() == ms.len()
    &&& forall|i: int| 0 <= i < ms.len() ==> marker_from(g, o, max_depth, &ms[i], src[i].0, src[i].1)
    &&& forall|i: int, j: int| 0 <= i < j < ms.len() ==> before3(ms[i].depth as int, src[i], ms[j].depth as int, src[j])
}

/// Whether marker `m` reports some unresolved call reached from `o`.
pub open spec fn marker_valid(g: &CallGraph, o: int, max_depth: Option<u32>, m: &UnresolvedCall) -> bool {
    exists|f: int, k: int| #[trigger] marker_from(g, o, max_depth, m, f, k)
}

/// The unresolved calls of the functions reached from `o`, as pairs of a
/// function and the index of one of its calls.
pub open spec fn marker_pairs(g: &CallGraph, o: int, max_depth: Option<u32>) -> Set<(int, int)> {
    Set::new(
        |p: (int, int)|
            0 <= p.0 < g.functions@.len() && reached(g, o, p.0, max_depth) && 0 <= p.1 < g.functions@[p.0].calls@.len()
                && !g.functions@[p.0].calls@[p.1].resolved,
    )
}

/// Whether `ms` reports exactly the unresolved calls of the functions
/// reached from `o`, each once.
pub open spec fn markers_of(g: &CallGraph, o: int, max_depth: Option<u32>, ms: Seq<UnresolvedCall>) -> bool {
    &&& forall|i: int| 0 <= i < ms.len() ==> #[trigger] marker_valid(g, o, max_depth, &ms[i])
    &&& forall|f: int, k: int|
        0 <= f < g.functions@.len() && reached(g, o, f, max_depth) && 0 <= k
            < g.functions@[f].calls@.len() && !(#[trigger] g.functions@[f].calls@[k]).resolved
            ==> exists|i: int| 0 <= i < ms.len() && marker_from(g, o, max_depth, &ms[i], f, k)
    &&& marker_pairs(g, o, max_depth).finite()
    &&& ms.len() == marker_pairs(g, o, max_depth).len()
    &&& exists|src: Seq<(int, int)>| #[trigger] markers_in_order(g, o, max_depth, ms, src)
}

/// The unresolved calls of the functions that `t` reached, level by level,
/// each level in storage order, then in call order.
fn collect_unresolved(g: &CallGraph, origin: usize, max_depth: Option<u32>, t: &Traversal, top: usize) -> (r: Vec<UnresolvedCall>)
    requires
        traversal_of(g, origin as int, max_depth, t),
        forall|v: int, d: nat|
            0 <= v < g.functions@.len() && reached(g, origin as int, v, max_depth) && #[trigger] at_distance(g, origin as int, v, d) ==> d <= top,
    ensures
        markers_of(g, origin as int, max_depth, r@),
{
    let ghost o = origin as int;
    let n = g.functions.len();
    let mut r: Vec<UnresolvedCall> = Vec::new();
    let ghost mut src: Seq<(int, int)> = Seq::empty();
    let mut d: usize = 0;
    let mut done = false;
    while !done
        invariant
            traversal_of(g, o, max_depth, t),
            o == origin as int,
            n == g.functions@.len(),
            d <= top,
            forall|v: int, dd: nat|
                0 <= v < n && reached(g, o, v, max_depth) && #[trigger] at_distance(g, o, v, dd) ==> dd <= top,
            r@.len() == src.len(),
            forall|i: int| 0 <= i < r@.len() ==> marker_from(g, o, max_depth, &r@[i], src[i].0, src[i].1) && r@[i].depth == t.depth@[src[i].0],
            forall|i: int| 0 <= i < src.len() ==> 0 <= (#[trigger] src[i]).0 < n && (done || t.depth@[src[i].0] < d),
            forall|i: int, j: int| 0 <= i < j < src.len() ==> before3(t.depth@[src[i].0] as int, src[i], t.depth@[src[j].0] as int, src[j]),
            forall|f: int, k: int|
                0 <= f < n && reached(g, o, f, max_depth) && 0 <= k < g.functions@[f].calls@.len() && !g.functions@[f].calls@[k].resolved && (done || t.depth@[f] < d)
                    ==> exists|i: int| 0 <= i < src.len() && #[trigger] src[i] == (f, k),
        decreases top - d + (if done { 0int } else { 1int }),
    {
        let mut f: usize = 0;
        while f < n
            invariant
                traversal_of(g, o, max_depth, t),
                o == origin as int,
                n == g.functions@.len(),
                d <= top,
                !done,
                f <= n,
                r@.len() == src.len(),
                forall|i: int| 0 <= i < r@.len() ==> marker_from(g, o, max_depth, &r@[i], src[i].0, src[i].1) && r@[i].depth == t.depth@[src[i].0],
                forall|i: int| 0 <= i < src.len() ==> 0 <= (#[trigger] src[i]).0 < n && (t.depth@[src[i].0] < d || (t.depth@[src[i].0] == d && src[i].0 < f)),
                forall|i: int, j: int| 0 <= i < j < src.len() ==> before3(t.depth@[src[i].0] as int, src[i], t.depth@[src[j].0] as int, src[j]),
                forall|ff: int, k: int|
                    0 <= ff < n && reached(g, o, ff, max_depth) && 0 <= k < g.functions@[ff].calls@.len() && !g.functions@[ff].calls@[k].resolved && (t.depth@[ff] < d || (t.depth@[ff] == d && ff < f))
                        ==> exists|i: int| 0 <= i < src.len() && #[trigger] src[i] == (ff, k),
            decreases n - f,
        {
            let ghost src0 = src;
            if t.visited[f] && t.depth[f] == d {
                proof {
                    lemma_visited(g, o, max_depth, t, f);
                }

                let items = &g.functions[f].calls;
                let mut k: usize = 0;
                while k < items.len()
                    invariant
                        traversal_of(g, o, max_depth, t),
                        o == origin as int,
                        n == g.functions@.len(),
                        f < n,
                        t.order@.contains(f),
                        t.depth@[f as int] == d,
                        reached(g, o, f as int, max_depth),
                        at_distance(g, o, f as int, d as nat),
                        items == &g.functions@[f as int].calls,
                        k <= items@.len(),
                        r@.len() == src.len(),
                        src0.len() <= src.len(),
                        forall|i: int| 0 <= i < src0.len() ==> src[i] == src0[i],
                        forall|i: int| 0 <= i < r@.len() ==> marker_from(g, o, max_depth, &r@[i], src[i].0, src[i].1) && r@[i].depth == t.depth@[src[i].0],
                        forall|i: int| 0 <= i < src.len() ==> 0 <= (#[trigger] src[i]).0 < n && (t.depth@[src[i].0] < d || (t.depth@[src[i].0] == d && src[i].0 < f) || (src[i].0 == f && src[i].1 < k)),
                        forall|i: int, j: int| 0 <= i < j < src.len() ==> before3(t.depth@[src[i].0] as int, src[i], t.depth@[src[j].0] as int, src[j]),
                        forall|ff: int, kk: int|
                            0 <= ff < n && reached(g, o, ff, max_depth) && 0 <= kk < g.functions@[ff].calls@.len() && !g.functions@[ff].calls@[kk].resolved && (t.depth@[ff] < d || (t.depth@[ff] == d && ff < f) || (ff == f && kk < k))
                                ==> exists|i: int| 0 <= i < src.len() && #[trigger] src[i] == (ff, kk),
                    decreases items@.len() - k,
                {
                    if !items[k].resolved {
                        let e = UnresolvedCall { caller_id: g.functions[f].id.clone(), callee_name: items[k].callee_name.clone(), line: items[k].line, candidates: crate::graph::copy_strings(&items[k].resolved_candidates), depth: t.depth[f] };
                        let ghost r1 = r@;
                        let ghost src1 = src;
                        r.push(e);
                        proof {
                            src = src.push((f as int, k as int));
                            assert(marker_from(g, o, max_depth, &r@[r@.len() - 1], f as int, k as int));
                            assert forall|i: int| 0 <= i < r@.len() implies marker_from(g, o, max_depth, &r@[i], src[i].0, src[i].1) && r@[i].depth == t.depth@[src[i].0] by {
                                if i < r1.len() {
                                    assert(r@[i] == r1[i]);
                                    assert(src[i] == src1[i]);
                                }
                            }
                            assert forall|i: int| 0 <= i < src.len() implies 0 <= (#[trigger] src[i]).0 < n && (t.depth@[src[i].0] < d || (t.depth@[src[i].0] == d && src[i].0 < f) || (src[i].0 == f && src[i].1 < k + 1)) by {
                                if i < src1.len() {
                                    assert(src[i] == src1[i]);
                                }
                            }
                            assert forall|i: int, j: int| 0 <= i < j < src.len() implies before3(t.depth@[src[i].0] as int, src[i], t.depth@[src[j].0] as int, src[j]) by {
                                assert(src[i] == src1[i]);
                                if j < src1.len() {
                                    assert(src[j] == src1[j]);
                                }
                            }
                            assert forall|ff: int, kk: int|
                                0 <= ff < n && reached(g, o, ff, max_depth) && 0 <= kk < g.functions@[ff].calls@.len() && !g.functions@[ff].calls@[kk].resolved && (t.depth@[ff] < d || (t.depth@[ff] == d && ff < f) || (ff == f && kk < k + 1))
                                    implies exists|i: int| 0 <= i < src.len() && #[trigger] src[i] == (ff, kk) by {
                                if ff == f && kk == k {
                                    assert(src[src.len() - 1] == (ff, kk));
                                } else {
                                    let i = choose|i: int| 0 <= i < src1.len() && #[trigger] src1[i] == (ff, kk);
                                    assert(src[i] == src1[i]);
                                }
                            }
                        }
                    }
                    k = k + 1;
                }
            } else {
                proof {
                    assert forall|ff: int, kk: int|
                        0 <= ff < n && reached(g, o, ff, max_depth) && 0 <= kk < g.functions@[ff].calls@.len() && !g.functions@[ff].calls@[kk].resolved && (t.depth@[ff] < d || (t.depth@[ff] == d && ff < f + 1))
                            implies exists|i: int| 0 <= i < src.len() && #[trigger] src[i] == (ff, kk) by {
                        if ff == f {
                            assert(t.order@.contains(ff as usize));
                            assert(t.visited@[ff]);
                        }
                    }
                }
            }
            f = f + 1;
        }
        if d == top {
            done = true;
        } else {
            d = d + 1;
        }
        proof {
            assert forall|ff: int, kk: int|
                0 <= ff < n && reached(g, o, ff, max_depth) && 0 <= kk < g.functions@[ff].calls@.len() && !g.functions@[ff].calls@[kk].resolved && (done || t.depth@[ff] < d)
                    implies exists|i: int| 0 <= i < src.len() && #[trigger] src[i] == (ff, kk) by {
                assert(t.order@.contains(ff as usize));
                lemma_visited(g, o, max_depth, t, ff as usize);
            }
        }
    }
    proof {
        assert(src.no_duplicates()) by {
            assert forall|i: int, j: int| 0 <= i < src.len() && 0 <= j < src.len() && i != j implies src[i] != src[j] by {
                if i < j {
                    assert(before3(t.depth@[src[i].0] as int, src[i], t.depth@[src[j].0] as int, src[j]));
                } else {
                    assert(before3(t.depth@[src[j].0] as int, src[j], t.depth@[src[i].0] as int, src[i]));
                }
            }
        }
        assert forall|i: int| 0 <= i < r@.len() implies #[trigger] marker_valid(g, o, max_depth, &r@[i]) by {
            assert(marker_from(g, o, max_depth, &r@[i], src[i].0, src[i].1));
        }
        assert forall|ff: int, kk: int|
            0 <= ff < g.functions@.len() && reached(g, o, ff, max_depth) && 0 <= kk
                < g.functions@[ff].calls@.len() && !(#[trigger] g.functions@[ff].calls@[kk]).resolved
                implies exists|i: int| 0 <= i < r@.len() && marker_from(g, o, max_depth, &r@[i], ff, kk) by {
            let i = choose|i: int| 0 <= i < src.len() && #[trigger] src[i] == (ff, kk);
            assert(marker_from(g, o, max_depth, &r@[i], src[i].0, src[i].1));
        }
        let pairs = marker_pairs(g, o, max_depth);
        assert(src.to_set() =~= pairs) by {
            assert forall|q: (int, int)| src.to_set().contains(q) implies pairs.contains(q) by {
                let i = choose|i: int| 0 <= i < src.len() && src[i] == q;
                assert(marker_from(g, o, max_depth, &r@[i], src[i].0, src[i].1));
            }
            assert forall|q: (int, int)| pairs.contains(q) implies src.to_set().contains(q) by {
                let i = choose|i: int| 0 <= i < src.len() && #[trigger] src[i] == (q.0, q.1);
                assert(src[i] == q);
            }
        }
        src.unique_seq_to_set();
        vstd::seq_lib::seq_to_set_is_finite(src);
        assert(markers_in_order(g, o, max_depth, r@, src));
    }
    r
}

/// The characters of each string of `v`.
pub open spec fn views(v: Seq<String>) -> Seq<Seq<char>> {
    v.map_values(|s: String| s@)
}

/// The table of each entry of `es`.
pub open spec fn tables_seq(es: Seq<ReachableDataAccess>) -> Seq<Seq<char>> {
    es.map_values(|e: ReachableDataAccess| e.access.table@)
}

/// Whether `pos` gives, for each item of `r`, the position in `vs` where it
/// first appears, the positions rising: `r` lists the items of `vs` in order
/// of first appearance.
pub open spec fn first_appearances(vs: Seq<Seq<char>>, r: Seq<String>, pos: Seq<int>) -> bool {
    &&& pos.len() == r.len()
    &&& forall|i: int|
        0 <= i < r.len() ==> 0 <= #[trigger] pos[i] < vs.len() && vs[pos[i]] == r[i]@ && forall|j: int|
            0 <= j < pos[i] ==> vs[j] != r[i]@
    &&& forall|i: int, j: int| 0 <= i < j < r.len() ==> pos[i] < pos[j]
}

/// The strings of `v`, each once, in order of first appearance.
pub fn distinct_strings(v: &Vec<String>) -> (r: Vec<String>)
    ensures
        forall|i: int, j: int| 0 <= i < j < r@.len() ==> r@[i]@ != r@[j]@,
        forall|i: int| 0 <= i < r@.len() ==> #[trigger] in_strings(v@, r@[i]@),
        forall|j: int| 0 <= j < v@.len() ==> #[trigger] in_strings(r@, v@[j]@),
        exists|pos: Seq<int>| #[trigger] first_appearances(views(v@), r@, pos),
{
    let mut r: Vec<String> = Vec::new();
    let ghost mut pos: Seq<int> = Seq::empty();
    let mut j: usize = 0;
    while j < v.len()
        invariant
            j <= v@.len(),
            pos.len() == r@.len(),
            forall|i: int|
                0 <= i < r@.len() ==> 0 <= #[trigger] pos[i] < j && v@[pos[i]]@ == r@[i]@ && forall|jj: int|
                    0 <= jj < pos[i] ==> v@[jj]@ != r@[i]@,
            forall|a: int, b: int| 0 <= a < b < r@.len() ==> pos[a] < pos[b],
            forall|a: int, b: int| 0 <= a < b < r@.len() ==> r@[a]@ != r@[b]@,
            forall|i: int| 0 <= i < r@.len() ==> #[trigger] in_strings(v@, r@[i]@),
            forall|jj: int| 0 <= jj < j ==> #[trigger] in_strings(r@, v@[jj]@),
        decreases v@.len() - j,
    {
        let t = &v[j];
        if !contains_string(&r, t) {
            let ghost r0 = r@;
            let ghost pos0 = pos;
            r.push(t.clone());
            proof {
                pos = pos.push(j as int);
                assert(r@[r@.len() - 1]@ == v@[j as int]@);
                assert forall|i: int|
                    0 <= i < r@.len() implies 0 <= #[trigger] pos[i] < j + 1 && v@[pos[i]]@ == r@[i]@ && forall|jj: int|
                        0 <= jj < pos[i] ==> v@[jj]@ != r@[i]@ by {
                    if i < r0.len() {
                        assert(r@[i] == r0[i] && pos[i] == pos0[i]);
                    } else {
                        assert forall|jj: int| 0 <= jj < j implies v@[jj]@ != r@[i]@ by {
                            assert(in_strings(r0, v@[jj]@));
                        }
                    }
                }
                assert forall|a: int, b: int| 0 <= a < b < r@.len() implies pos[a] < pos[b] by {
                    assert(pos[a] == pos0[a]);
                    if b < r0.len() {
                        assert(pos[b] == pos0[b]);
                    }
                }
                assert forall|i: int| 0 <= i < r@.len() implies #[trigger] in_strings(v@, r@[i]@) by {
                    if i < r0.len() {
                        assert(r@[i] == r0[i]);
                        assert(in_strings(v@, r0[i]@));
                    }
                }
                assert forall|jj: int| 0 <= jj < j + 1 implies #[trigger] in_strings(r@, v@[jj]@) by {
                    if jj < j {
                        assert(in_strings(r0, v@[jj]@));
                        let i = choose|i: int| 0 <= i < r0.len() && #[trigger] r0[i]@ == v@[jj]@;
                        assert(r@[i] == r0[i]);
                    } else {
                        assert(r@[r@.len() - 1]@ == v@[jj]@);
                    }
                }
                assert forall|a: int, b: int| 0 <= a < b < r@.len() implies r@[a]@ != r@[b]@ by {
                    if b == r@.len() - 1 {
                        assert(r@[a] == r0[a]);
                    } else {
                        assert(r@[a] == r0[a]);
                        assert(r@[b] == r0[b]);
                    }
                }
            }
        }
        j = j + 1;
    }
    proof {
        assert(first_appearances(views(v@), r@, pos));
    }
    r
}

/// The tables of `es`, each once, in order of first appearance.
pub fn distinct_tables(es: &Vec<ReachableDataAccess>) -> (r: Vec<String>)
    ensures
        forall|i: int, j: int| 0 <= i < j < r@.len() ==> r@[i]@ != r@[j]@,
        forall|i: int| 0 <= i < r@.len() ==> #[trigger] table_listed(es@, r@[i]@),
        forall|j: int| 0 <= j < es@.len() ==> #[trigger] in_strings(r@, es@[j].access.table@),
        exists|pos: Seq<int>| #[trigger] first_appearances(tables_seq(es@), r@, pos),
{
    let mut ts: Vec<String> = Vec::new();
    let mut j: usize = 0;
    while j < es.len()
        invariant
            j <= es@.len(),
            ts@.len() == j,
            forall|i: int| 0 <= i < j ==> (#[trigger] ts@[i])@ == es@[i].access.table@,
        decreases es@.len() - j,
    {
        ts.push(es[j].access.table.clone());
        j = j + 1;
    }
    let r = distinct_strings(&ts);
    proof {
        assert forall|i: int| 0 <= i < r@.len() implies #[trigger] table_listed(es@, r@[i]@) by {
            assert(in_strings(ts@, r@[i]@));
            let k = choose|k: int| 0 <= k < ts@.len() && #[trigger] ts@[k]@ == r@[i]@;
        }
        assert forall|j: int| 0 <= j < es@.len() implies #[trigger] in_strings(r@, es@[j].access.table@) by {
            assert(in_strings(r@, ts@[j]@));
        }
        assert(views(ts@) =~= tables_seq(es@));
    }
    r
}

/// A sensitive field met on the way.
#[derive(Debug)]
pub struct SensitiveField {
    pub field: String,
    pub table: Option<String>,
    pub sensitivity_type: SensitivityType,
    pub file: String,
    pub line: u32,
    /// Confidence in thousandths (`0..=1000`).
    pub confidence: u16,
}

/// A sensitive field with every path along which it is accessed.
#[derive(Debug)]
pub struct SensitiveFieldAccess {
    pub field: SensitiveField,
    pub paths: Vec<Vec<PathNode>>,
    pub access_count: usize,
}

/// How many of `fields` read `f`.
pub open spec fn field_count(fields: Seq<String>, f: Seq<char>) -> nat
    decreases fields.len(),
{
    if fields.len() == 0 {
        0
    } else {
        field_count(fields.drop_last(), f) + if fields.last()@ == f {
            1nat
        } else {
            0nat
        }
    }
}

/// How many times the entries of `es` access field `f` of table `t`.
pub open spec fn occurrences(es: Seq<ReachableDataAccess>, t: Seq<char>, f: Seq<char>) -> nat
    decreases es.len(),
{
    if es.len() == 0 {
        0
    } else {
        occurrences(es.drop_last(), t, f) + if es.last().access.table@ == t {
            field_count(es.last().access.fields@, f)
        } else {
            0nat
        }
    }
}

/// The table of a sensitive field, empty where it has none.
pub open spec fn table_of(s: &SensitiveFieldAccess) -> Seq<char> {
    match s.field.table {
        Some(t) => t@,
        None => Seq::empty(),
    }
}

/// The paths of each path list of `ps`, as sequences.
pub open spec fn paths_views(ps: Seq<Vec<PathNode>>) -> Seq<Seq<PathNode>> {
    ps.map_values(|p: Vec<PathNode>| p@)
}

/// The path of each access of field `f` of table `t` by the entries of
/// `es`, in order: one for each time the field is named.
pub open spec fn occ_paths(es: Seq<ReachableDataAccess>, t: Seq<char>, f: Seq<char>) -> Seq<Seq<PathNode>>
    decreases es.len(),
{
    if es.len() == 0 {
        Seq::empty()
    } else {
        occ_paths(es.drop_last(), t, f) + if es.last().access.table@ == t {
            Seq::new(field_count(es.last().access.fields@, f), |q: int| es.last().path@)
        } else {
            Seq::empty()
        }
    }
}

proof fn lemma_occ_paths_len(es: Seq<ReachableDataAccess>, t: Seq<char>, f: Seq<char>)
    ensures
        occ_paths(es, t, f).len() == occurrences(es, t, f),
    decreases es.len(),
{
    if es.len() > 0 {
        lemma_occ_paths_len(es.drop_last(), t, f);
    }
}

/// Whether field `j` of entry `i` of `es` is field `f` of table `t`, and is
/// classified as sensitive.
pub open spec fn sens_hit(rules: Seq<FieldSensitivity>, es: Seq<ReachableDataAccess>, t: Seq<char>, f: Seq<char>, i: int, j: int) -> bool {
    &&& 0 <= i < es.len()
    &&& 0 <= j < es[i].access.fields@.len()
    &&& es[i].access.table@ == t
    &&& es[i].access.fields@[j]@ == f
    &&& classify(rules, f) != SensitivityType::Unknown
}

/// Whether position `x` comes before position `y`.
pub open spec fn lex2(x: (int, int), y: (int, int)) -> bool {
    x.0 < y.0 || (x.0 == y.0 && x.1 < y.1)
}

/// Whether `hits` gives, for each sensitive field of `ss`, the entry and
/// field position where it first occurs in `es`, the positions rising: the
/// fields are listed in order of first occurrence, with the place and
/// confidence of that occurrence.
pub open spec fn sens_in_order(
    rules: Seq<FieldSensitivity>,
    es: Seq<ReachableDataAccess>,
    ss: Seq<SensitiveFieldAccess>,
    hits: Seq<(int, int)>,
) -> bool {
    &&& hits.len() == ss.len()
    &&& forall|a: int|
        0 <= a < ss.len() ==> {
            &&& sens_hit(rules, es, table_of(&ss[a]), ss[a].field.field@, (#[trigger] hits[a]).0, hits[a].1)
            &&& ss[a].field.file@ == es[hits[a].0].access.file@
            &&& ss[a].field.line == es[hits[a].0].access.line
            &&& ss[a].field.confidence == es[hits[a].0].access.confidence
            &&& forall|i: int, j: int|
                lex2((i, j), hits[a]) ==> !#[trigger] sens_hit(rules, es, table_of(&ss[a]), ss[a].field.field@, i, j)
        }
    &&& forall|a: int, b: int| 0 <= a < b < ss.len() ==> lex2(hits[a], hits[b])
}

proof fn lemma_count_pos(fields: Seq<String>, f: Seq<char>, j: int)
    requires
        0 <= j < fields.len(),
        fields[j]@ == f,
    ensures
        field_count(fields, f) > 0,
    decreases fields.len(),
{
    if j < fields.len() - 1 {
        lemma_count_pos(fields.drop_last(), f, j);
    }
}

proof fn lemma_occ_pos(es: Seq<ReachableDataAccess>, t: Seq<char>, f: Seq<char>, i: int)
    requires
        0 <= i < es.len(),
        es[i].access.table@ == t,
        field_count(es[i].access.fields@, f) > 0,
    ensures
        occurrences(es, t, f) > 0,
    decreases es.len(),
{
    if i < es.len() - 1 {
        lemma_occ_pos(es.drop_last(), t, f, i);
    }
}

/// Whether the place and confidence recorded for `s` are those of an entry
/// of `es` that accesses the field and table of `s`.
pub open spec fn field_from(es: Seq<ReachableDataAccess>, s: SensitiveFieldAccess) -> bool {
    exists|i: int|
        0 <= i < es.len() && #[trigger] es[i].access.table@ == table_of(&s) && in_strings(es[i].access.fields@, s.field.field@)
            && es[i].access.file@ == s.field.file@ && es[i].access.line == s.field.line && es[i].access.confidence
            == s.field.confidence
}

/// Whether `ss` sums up the sensitive fields that `es` accesses: one entry
/// for each table and field classified as sensitive that is accessed, which
/// counts the accesses.
pub open spec fn sensitive_summary_of(
    rules: Seq<FieldSensitivity>,
    es: Seq<ReachableDataAccess>,
    ss: Seq<SensitiveFieldAccess>,
) -> bool {
    &&& forall|a: int, b: int|
        0 <= a < b < ss.len() ==> !(ss[a].field.field@ == ss[b].field.field@ && table_of(&ss[a])
            == table_of(&ss[b]))
    &&& forall|a: int|
        0 <= a < ss.len() ==> {
            &&& (#[trigger] ss[a]).field.table is Some
            &&& ss[a].field.sensitivity_type == classify(rules, ss[a].field.field@)
            &&& ss[a].field.sensitivity_type != SensitivityType::Unknown
            &&& ss[a].access_count == ss[a].paths@.len()
            &&& ss[a].access_count == occurrences(es, table_of(&ss[a]), ss[a].field.field@)
        }
    &&& forall|t: Seq<char>, f: Seq<char>|
        classify(rules, f) != SensitivityType::Unknown && #[trigger] occurrences(es, t, f) > 0
            ==> exists|a: int|
            0 <= a < ss.len() && ss[a].field.field@ == f && table_of(&ss[a]) == t
    &&& forall|a: int| 0 <= a < ss.len() ==> #[trigger] paths_views(ss[a].paths@) == occ_paths(es, table_of(&ss[a]), ss[a].field.field@)
    &&& forall|a: int| 0 <= a < ss.len() ==> #[trigger] field_from(es, ss[a])
    &&& exists|hits: Seq<(int, int)>| #[trigger] sens_in_order(rules, es, ss, hits)
}

fn find_key(ss: &Vec<SensitiveFieldAccess>, f: &String, t: &String) -> (r: Option<usize>)
    ensures
        match r {
            Some(a) => a < ss@.len() && ss@[a as int].field.field@ == f@ && table_of(&ss@[a as int]) == t@,
            None => forall|a: int| 0 <= a < ss@.len() ==> !(ss@[a].field.field@ == f@ && table_of(&ss@[a]) == t@),
        },
{
    let mut a: usize = 0;
    while a < ss.len()
        invariant
            a <= ss@.len(),
            forall|b: int| 0 <= b < a ==> !(ss@[b].field.field@ == f@ && table_of(&ss@[b]) == t@),
        decreases ss@.len() - a,
    {
        let s = &ss[a];
        if s.field.field == *f {
            match &s.field.table {
                Some(st) => {
                    if *st == *t {
                        return Some(a);
                    }
                },
                None => {
                    if t.as_str().is_empty() {
                        return Some(a);
                    }
                },
            }
        }
        a = a + 1;
    }
    None
}

/// Sums up, for each sensitive table field that `es` accesses, the paths
/// along which it is accessed.
pub fn summarize_sensitive(rules: &Vec<FieldSensitivity>, es: &Vec<ReachableDataAccess>) -> (r: Vec<SensitiveFieldAccess>)
    ensures
        sensitive_summary_of(rules@, es@, r@),
{
    let mut ss: Vec<SensitiveFieldAccess> = Vec::new();
    let ghost mut hits: Seq<(int, int)> = Seq::empty();
    let mut i: usize = 0;
    while i < es.len()
        invariant
            i <= es@.len(),
            sens_in_order(rules@, es@, ss@, hits),
            forall|a: int| 0 <= a < hits.len() ==> (#[trigger] hits[a]).0 < i,
            forall|a: int, b: int|
                0 <= a < b < ss@.len() ==> !(ss@[a].field.field@ == ss@[b].field.field@ && table_of(&ss@[a])
                    == table_of(&ss@[b])),
            forall|a: int|
                0 <= a < ss@.len() ==> {
                    &&& (#[trigger] ss@[a]).field.table is Some
                    &&& ss@[a].field.sensitivity_type == classify(rules@, ss@[a].field.field@)
                    &&& ss@[a].field.sensitivity_type != SensitivityType::Unknown
                    &&& ss@[a].access_count == ss@[a].paths@.len()
                    &&& ss@[a].access_count == occurrences(es@.subrange(0, i as int), table_of(&ss@[a]), ss@[a].field.field@)
                },
            forall|t: Seq<char>, f: Seq<char>|
                classify(rules@, f) != SensitivityType::Unknown && #[trigger] occurrences(es@.subrange(0, i as int), t, f) > 0
                    ==> exists|a: int|
                    0 <= a < ss@.len() && ss@[a].field.field@ == f && table_of(&ss@[a]) == t,
            forall|a: int| 0 <= a < ss@.len() ==> #[trigger] paths_views(ss@[a].paths@) == occ_paths(es@.subrange(0, i as int), table_of(&ss@[a]), ss@[a].field.field@),
            forall|a: int| 0 <= a < ss@.len() ==> #[trigger] field_from(es@, ss@[a]),
        decreases es@.len() - i,
    {
        let e = &es[i];
        let fields = &e.access.fields;
        let ghost pre = es@.subrange(0, i as int);
        let ghost ss0 = ss@;
        let mut j: usize = 0;
        while j < fields.len()
            invariant
                i < es@.len(),
                e == &es@[i as int],
                fields == &e.access.fields,
                pre == es@.subrange(0, i as int),
                j <= fields@.len(),
                sens_in_order(rules@, es@, ss@, hits),
                forall|a: int| 0 <= a < hits.len() ==> lex2(#[trigger] hits[a], (i as int, j as int)),
                forall|a: int, b: int|
                    0 <= a < b < ss@.len() ==> !(ss@[a].field.field@ == ss@[b].field.field@ && table_of(&ss@[a])
                        == table_of(&ss@[b])),
                forall|a: int|
                    0 <= a < ss@.len() ==> {
                        &&& (#[trigger] ss@[a]).field.table is Some
                        &&& ss@[a].field.sensitivity_type == classify(rules@, ss@[a].field.field@)
                        &&& ss@[a].field.sensitivity_type != SensitivityType::Unknown
                        &&& ss@[a].access_count == ss@[a].paths@.len()
                        &&& ss@[a].access_count == occurrences(pre, table_of(&ss@[a]), ss@[a].field.field@)
                            + if e.access.table@ == table_of(&ss@[a]) {
                                field_count(fields@.subrange(0, j as int), ss@[a].field.field@)
                            } else {
                                0nat
                            }
                    },
                forall|t: Seq<char>, f: Seq<char>|
                    classify(rules@, f) != SensitivityType::Unknown && #[trigger] occurrences(pre, t, f) + (if e.access.table@ == t {
                        field_count(fields@.subrange(0, j as int), f)
                    } else {
                        0nat
                    }) > 0 ==> exists|a: int|
                        0 <= a < ss@.len() && ss@[a].field.field@ == f && table_of(&ss@[a]) == t,
                forall|a: int| 0 <= a < ss@.len() ==> #[trigger] paths_views(ss@[a].paths@) == occ_paths(pre, table_of(&ss@[a]), ss@[a].field.field@)
                    + if e.access.table@ == table_of(&ss@[a]) {
                        Seq::new(field_count(fields@.subrange(0, j as int), ss@[a].field.field@), |q: int| e.path@)
                    } else {
                        Seq::empty()
                    },
                forall|a: int| 0 <= a < ss@.len() ==> #[trigger] field_from(es@, ss@[a]),
            decreases fields@.len() - j,
        {
            let fname = &fields[j];
            let cls = classify_field(rules, fname);
            let ghost ss1 = ss@;
            let ghost mut wit: int = 0;
            proof {
                assert(fields@.subrange(0, j + 1).drop_last() =~= fields@.subrange(0, j as int));
            }
            if cls != SensitivityType::Unknown {
                match find_key(&ss, fname, &e.access.table) {
                    Some(a) => {
                        let mut entry = ss.remove(a);
                        entry.paths.push(copy_path(&e.path));
                        entry.access_count = entry.paths.len();
                        ss.insert(a, entry);
                        proof {
                            assert forall|b: int| 0 <= b < ss@.len() && b != a implies ss@[b] == ss1[b] by {}
                            wit = a as int;
                            assert(ss@[a as int].field == ss1[a as int].field);
                            assert forall|b: int| 0 <= b < ss@.len() implies #[trigger] ss@[b].field == ss1[b].field by {
                            }
                            assert(sens_in_order(rules@, es@, ss@, hits));
                            assert forall|b: int| 0 <= b < hits.len() implies lex2(#[trigger] hits[b], (i as int, j + 1)) by {
                                assert(lex2(hits[b], (i as int, j as int)));
                            }
                            assert(in_strings(fields@, ss@[wit].field.field@)) by {
                                assert(fields@[j as int]@ == fname@);
                            }
                            let fj = fields@.subrange(0, j as int);
                            let fj1 = fields@.subrange(0, j + 1);
                            assert(fj1.drop_last() =~= fj);
                            assert(fj1.last() == fields@[j as int]);
                            assert forall|b: int| 0 <= b < ss@.len() implies #[trigger] paths_views(ss@[b].paths@) == occ_paths(pre, table_of(&ss@[b]), ss@[b].field.field@)
                                + if e.access.table@ == table_of(&ss@[b]) {
                                    Seq::new(field_count(fj1, ss@[b].field.field@), |q: int| e.path@)
                                } else {
                                    Seq::empty()
                                } by {
                                if b != a {
                                    assert(ss@[b] == ss1[b]);
                                    assert(paths_views(ss1[b].paths@) == occ_paths(pre, table_of(&ss1[b]), ss1[b].field.field@)
                                        + if e.access.table@ == table_of(&ss1[b]) {
                                            Seq::new(field_count(fj, ss1[b].field.field@), |q: int| e.path@)
                                        } else {
                                            Seq::empty()
                                        });
                                    if e.access.table@ == table_of(&ss1[b]) {
                                        assert(fname@ != ss1[b].field.field@);
                                        assert(field_count(fj1, ss1[b].field.field@) == field_count(fj, ss1[b].field.field@));
                                    }
                                } else {
                                    assert(paths_views(ss1[b].paths@) == occ_paths(pre, table_of(&ss1[b]), ss1[b].field.field@)
                                        + Seq::new(field_count(fj, ss1[b].field.field@), |q: int| e.path@));
                                    assert(field_count(fj1, fname@) == field_count(fj, fname@) + 1);
                                    assert(paths_views(ss@[b].paths@) =~= paths_views(ss1[b].paths@).push(e.path@));
                                    assert(Seq::new(field_count(fj1, fname@), |q: int| e.path@) =~= Seq::new(field_count(fj, fname@), |q: int| e.path@).push(e.path@));
                                    assert(paths_views(ss@[b].paths@) =~= occ_paths(pre, table_of(&ss@[b]), ss@[b].field.field@)
                                        + Seq::new(field_count(fj1, ss@[b].field.field@), |q: int| e.path@));
                                }
                            }
                            assert forall|b: int| 0 <= b < ss@.len() implies #[trigger] field_from(es@, ss@[b]) by {
                                assert(field_from(es@, ss1[b]));
                                if b == a {
                                    assert(ss@[b].field == ss1[b].field);
                                    let i2 = choose|i2: int|
                                        0 <= i2 < es@.len() && #[trigger] es@[i2].access.table@ == table_of(&ss1[b]) && in_strings(es@[i2].access.fields@, ss1[b].field.field@)
                                            && es@[i2].access.file@ == ss1[b].field.file@ && es@[i2].access.line == ss1[b].field.line && es@[i2].access.confidence
                                            == ss1[b].field.confidence;
                                    assert(es@[i2].access.table@ == table_of(&ss@[b]));
                                }
                            }
                        }
                    },
                    None => {
                        let mut paths: Vec<Vec<PathNode>> = Vec::new();
                        paths.push(copy_path(&e.path));
                        ss.push(SensitiveFieldAccess {
                            field: SensitiveField {
                                field: fname.clone(),
                                table: Some(e.access.table.clone()),
                                sensitivity_type: cls,
                                file: e.access.file.clone(),
                                line: e.access.line,
                                confidence: e.access.confidence,
                            },
                            paths,
                            access_count: 1,
                        });
                        proof {
                            assert forall|b: int| 0 <= b < ss1.len() implies ss@[b] == ss1[b] by {}
                            wit = ss1.len() as int;
                            assert(table_of(&ss@[wit]) == e.access.table@);
                            assert(in_strings(fields@, ss@[wit].field.field@)) by {
                                assert(fields@[j as int]@ == fname@);
                            }
                            let fj = fields@.subrange(0, j as int);
                            let fj1 = fields@.subrange(0, j + 1);
                            assert(fj1.drop_last() =~= fj);
                            assert(fj1.last() == fields@[j as int]);
                            assert(occurrences(pre, e.access.table@, fname@) + field_count(fj, fname@) == 0) by {
                                if occurrences(pre, e.access.table@, fname@) + field_count(fj, fname@) > 0 {
                                    let a2 = choose|a2: int| 0 <= a2 < ss1.len() && ss1[a2].field.field@ == fname@ && table_of(&ss1[a2]) == e.access.table@;
                                }
                            }
                            lemma_occ_paths_len(pre, e.access.table@, fname@);
                            let hits0 = hits;
                            hits = hits.push((i as int, j as int));
                            assert forall|i2: int, j2: int|
                                lex2((i2, j2), (i as int, j as int)) implies !#[trigger] sens_hit(rules@, es@, e.access.table@, fname@, i2, j2) by {
                                if sens_hit(rules@, es@, e.access.table@, fname@, i2, j2) {
                                    if i2 < i {
                                        lemma_count_pos(es@[i2].access.fields@, fname@, j2);
                                        assert(pre[i2] == es@[i2]);
                                        lemma_occ_pos(pre, e.access.table@, fname@, i2);
                                    } else {
                                        assert(fj[j2] == fields@[j2]);
                                        lemma_count_pos(fj, fname@, j2);
                                    }
                                }
                            }
                            assert(sens_in_order(rules@, es@, ss@, hits)) by {
                                assert forall|b: int| 0 <= b < ss1.len() implies ss@[b] == ss1[b] && hits[b] == hits0[b] by {}
                                assert(fields@[j as int]@ == fname@);
                                assert(sens_hit(rules@, es@, table_of(&ss@[ss1.len() as int]), fname@, i as int, j as int));
                            }
                            assert forall|b: int| 0 <= b < hits.len() implies lex2(#[trigger] hits[b], (i as int, j + 1)) by {
                                if b < hits0.len() {
                                    assert(hits[b] == hits0[b]);
                                }
                            }
                            assert forall|b: int| 0 <= b < ss@.len() implies #[trigger] paths_views(ss@[b].paths@) == occ_paths(pre, table_of(&ss@[b]), ss@[b].field.field@)
                                + if e.access.table@ == table_of(&ss@[b]) {
                                    Seq::new(field_count(fj1, ss@[b].field.field@), |q: int| e.path@)
                                } else {
                                    Seq::empty()
                                } by {
                                if b < ss1.len() {
                                    assert(ss@[b] == ss1[b]);
                                    assert(paths_views(ss1[b].paths@) == occ_paths(pre, table_of(&ss1[b]), ss1[b].field.field@)
                                        + if e.access.table@ == table_of(&ss1[b]) {
                                            Seq::new(field_count(fj, ss1[b].field.field@), |q: int| e.path@)
                                        } else {
                                            Seq::empty()
                                        });
                                    if e.access.table@ == table_of(&ss1[b]) {
                                        assert(fname@ != ss1[b].field.field@);
                                        assert(field_count(fj1, ss1[b].field.field@) == field_count(fj, ss1[b].field.field@));
                                    }
                                } else {
                                    assert(field_count(fj1, fname@) == 1);
                                    assert(occ_paths(pre, e.access.table@, fname@) =~= Seq::<Seq<PathNode>>::empty());
                                    assert(paths_views(ss@[b].paths@) =~= seq![e.path@]);
                                    assert(paths_views(ss@[b].paths@) =~= occ_paths(pre, table_of(&ss@[b]), ss@[b].field.field@)
                                        + Seq::new(field_count(fj1, ss@[b].field.field@), |q: int| e.path@));
                                }
                            }
                            assert forall|b: int| 0 <= b < ss@.len() implies #[trigger] field_from(es@, ss@[b]) by {
                                if b < ss1.len() {
                                    assert(field_from(es@, ss1[b]));
                                } else {
                                    assert(es@[i as int].access.table@ == table_of(&ss@[b]));
                                }
                            }
                        }
                    },
                }
            } else {
                proof {
                    let fj = fields@.subrange(0, j as int);
                    let fj1 = fields@.subrange(0, j + 1);
                    assert(fj1.drop_last() =~= fj);
                    assert(fj1.last() == fields@[j as int]);
                    assert forall|b: int| 0 <= b < ss@.len() implies #[trigger] paths_views(ss@[b].paths@) == occ_paths(pre, table_of(&ss@[b]), ss@[b].field.field@)
                        + if e.access.table@ == table_of(&ss@[b]) {
                            Seq::new(field_count(fj1, ss@[b].field.field@), |q: int| e.path@)
                        } else {
                            Seq::empty()
                        } by {
                        if e.access.table@ == table_of(&ss@[b]) {
                            assert(fname@ != ss@[b].field.field@);
                            assert(field_count(fj1, ss@[b].field.field@) == field_count(fj, ss@[b].field.field@));
                        }
                    }
                    assert forall|b: int| 0 <= b < hits.len() implies lex2(#[trigger] hits[b], (i as int, j + 1)) by {
                        assert(lex2(hits[b], (i as int, j as int)));
                    }
                }
            }
            proof {
                let fj = fields@.subrange(0, j as int);
                let fj1 = fields@.subrange(0, j + 1);
                assert(fj1.last() == fields@[j as int]);
                assert forall|t: Seq<char>, f: Seq<char>|
                    classify(rules@, f) != SensitivityType::Unknown && #[trigger] occurrences(pre, t, f) + (if e.access.table@ == t {
                        field_count(fj1, f)
                    } else {
                        0nat
                    }) > 0 implies exists|a: int|
                        0 <= a < ss@.len() && ss@[a].field.field@ == f && table_of(&ss@[a]) == t by {
                    if e.access.table@ == t && fname@ == f {
                        assert(cls != SensitivityType::Unknown);
                        assert(0 <= wit < ss@.len() && ss@[wit].field.field@ == f && table_of(&ss@[wit]) == t);
                    } else {
                        assert(occurrences(pre, t, f) + (if e.access.table@ == t {
                            field_count(fj, f)
                        } else {
                            0nat
                        }) > 0);
                        let a = choose|a: int| 0 <= a < ss1.len() && ss1[a].field.field@ == f && table_of(&ss1[a]) == t;
                        assert(ss@[a].field.field@ == f && table_of(&ss@[a]) == t);
                    }
                }
            }
            j = j + 1;
        }
        proof {
            let pre1 = es@.subrange(0, i + 1);
            assert(pre1.drop_last() =~= pre);
            assert(pre1.last() == es@[i as int]);
            assert(fields@.subrange(0, fields@.len() as int) =~= fields@);
            assert forall|t: Seq<char>, f: Seq<char>|
                classify(rules@, f) != SensitivityType::Unknown && #[trigger] occurrences(pre1, t, f) > 0
                    implies exists|a: int|
                    0 <= a < ss@.len() && ss@[a].field.field@ == f && table_of(&ss@[a]) == t by {
                assert(occurrences(pre1, t, f) == occurrences(pre, t, f) + (if e.access.table@ == t {
                    field_count(fields@.subrange(0, fields@.len() as int), f)
                } else {
                    0nat
                }));
            }
            assert forall|a: int| 0 <= a < hits.len() implies (#[trigger] hits[a]).0 < i + 1 by {
                assert(lex2(hits[a], (i as int, fields@.len() as int)));
            }
            assert forall|a: int| 0 <= a < ss@.len() implies #[trigger] paths_views(ss@[a].paths@) == occ_paths(pre1, table_of(&ss@[a]), ss@[a].field.field@) by {
                assert(occ_paths(pre1, table_of(&ss@[a]), ss@[a].field.field@) == occ_paths(pre, table_of(&ss@[a]), ss@[a].field.field@) + if e.access.table@ == table_of(&ss@[a]) {
                    Seq::new(field_count(fields@.subrange(0, fields@.len() as int), ss@[a].field.field@), |q: int| e.path@)
                } else {
                    Seq::empty()
                });
            }
            assert forall|a: int| 0 <= a < ss@.len() implies #[trigger] ss@[a].access_count == occurrences(pre1, table_of(&ss@[a]), ss@[a].field.field@) by {
                assert(occurrences(pre1, table_of(&ss@[a]), ss@[a].field.field@) == occurrences(pre, table_of(&ss@[a]), ss@[a].field.field@) + (if e.access.table@ == table_of(&ss@[a]) {
                    field_count(fields@.subrange(0, fields@.len() as int), ss@[a].field.field@)
                } else {
                    0nat
                }));
            }
        }
        i = i + 1;
    }
    proof {
        assert(es@.subrange(0, es@.len() as int) =~= es@);
    }
    ss
}

/// A place in the source.
#[derive(Debug)]
pub struct CodeLocation {
    pub file: String,
    pub line: u32,
    pub column: Option<u32>,
    pub function_id: Option<String>,
}

/// What a forward query found.
#[derive(Debug)]
pub struct ReachabilityResult {
    pub origin: CodeLocation,
    /// Each access reached that passes the filters, once, with the first
    /// shortest path found to it.
    pub reachable_access: Vec<ReachableDataAccess>,
    /// The tables of `reachable_access`, each once.
    pub tables: Vec<String>,
    pub sensitive_fields: Vec<SensitiveFieldAccess>,
    /// The unresolved calls met, where the options ask for them.
    pub unresolved_calls: Vec<UnresolvedCall>,
    /// The largest depth at which a function was reached.
    pub max_depth: usize,
    /// How many functions were visited, the origin included.
    pub functions_traversed: usize,
}

/// Whether `r` answers a forward query from function `o` of `g`.
pub open spec fn forward_result(
    g: &CallGraph,
    rules: Seq<FieldSensitivity>,
    o: int,
    opts: &ReachabilityOptions,
    r: &ReachabilityResult,
) -> bool {
    &&& accesses_of(g, o, opts, rules, r.reachable_access@)
    &&& forall|i: int, j: int| 0 <= i < j < r.tables@.len() ==> r.tables@[i]@ != r.tables@[j]@
    &&& forall|i: int| 0 <= i < r.tables@.len() ==> #[trigger] table_listed(r.reachable_access@, r.tables@[i]@)
    &&& forall|j: int|
        0 <= j < r.reachable_access@.len() ==> #[trigger] in_strings(
            r.tables@,
            r.reachable_access@[j].access.table@,
        )
    &&& exists|pos: Seq<int>|
        #[trigger] first_appearances(tables_seq(r.reachable_access@), r.tables@, pos)
    &&& sensitive_summary_of(rules, r.reachable_access@, r.sensitive_fields@)
    &&& opts.include_unresolved ==> markers_of(g, o, opts.max_depth, r.unresolved_calls@)
    &&& !opts.include_unresolved ==> r.unresolved_calls@.len() == 0
    &&& r.functions_traversed == reached_set(g, o, opts.max_depth).len()
    &&& r.functions_traversed <= g.functions@.len()
    &&& forall|v: int, d: nat|
        0 <= v < g.functions@.len() && reached(g, o, v, opts.max_depth) && #[trigger] at_distance(g, o, v, d)
            ==> d <= r.max_depth
    &&& exists|v: int|
        0 <= v < g.functions@.len() && reached(g, o, v, opts.max_depth) && #[trigger] at_distance(
            g,
            o,
            v,
            r.max_depth as nat,
        )
    &&& r.origin.file@ == g.functions@[o].file@
    &&& r.origin.line == g.functions@[o].start_line
    &&& r.origin.column is None
    &&& r.origin.function_id == Some(g.functions@[o].id)
}

/// The largest depth of the functions that `t` reached.
fn deepest(g: &CallGraph, origin: usize, max_depth: Option<u32>, t: &Traversal) -> (r: usize)
    requires
        traversal_of(g, origin as int, max_depth, t),
    ensures
        forall|v: int, d: nat|
            0 <= v < g.functions@.len() && reached(g, origin as int, v, max_depth) && #[trigger] at_distance(g, origin as int, v, d)
                ==> d <= r,
        exists|v: int|
            0 <= v < g.functions@.len() && reached(g, origin as int, v, max_depth) && #[trigger] at_distance(
                g,
                origin as int,
                v,
                r as nat,
            ),
{
    let ghost o = origin as int;
    let mut best: usize = 0;
    let ghost mut wit: int = o;
    proof {
        lemma_visited(g, o, max_depth, t, origin);
        assert(t.order@.contains(origin)) by {
            assert(t.order@[0] == origin);
        }
        lemma_visited(g, o, max_depth, t, origin);
    }
    let mut i: usize = 0;
    while i < t.order.len()
        invariant
            traversal_of(g, o, max_depth, t),
            o == origin as int,
            i <= t.order@.len(),
            0 <= wit < g.functions@.len(),
            reached(g, o, wit, max_depth),
            at_distance(g, o, wit, best as nat),
            forall|j: int| 0 <= j < i ==> t.depth@[#[trigger] t.order@[j] as int] <= best,
        decreases t.order@.len() - i,
    {
        let v = t.order[i];
        proof {
            assert(t.order@.contains(v));
            lemma_visited(g, o, max_depth, t, v);
        }
        if t.depth[v] > best {
            best = t.depth[v];
            proof {
                wit = v as int;
            }
        }
        i = i + 1;
    }
    proof {
        assert forall|v: int, d: nat|
            0 <= v < g.functions@.len() && reached(g, o, v, max_depth) && #[trigger] at_distance(g, o, v, d)
                implies d <= best by {
            assert(t.order@.contains(v as usize));
            let j = choose|j: int| 0 <= j < t.order@.len() && t.order@[j] == v as usize;
            lemma_visited(g, o, max_depth, t, v as usize);
            crate::graph::lemma_distance_unique(g, o, v, d, t.depth@[v] as nat);
        }
    }
    best
}

/// The forward reachability engine, over a graph held in memory.
#[derive(Debug)]
pub struct ReachabilityEngine {
    pub graph: CallGraph,
    /// The verdicts of the sensitivity detector.
    pub sensitivity: Vec<FieldSensitivity>,
}

impl ReachabilityEngine {
    pub fn new(graph: CallGraph, sensitivity: Vec<FieldSensitivity>) -> (r: ReachabilityEngine)
        ensures
            r.graph == graph,
            r.sensitivity == sensitivity,
    {
        ReachabilityEngine { graph, sensitivity }
    }

    /// Every data access reachable from the function `origin_id`, with the
    /// path taken; `NotFound` when the graph has no such function.
    pub fn reachable_from(&self, origin_id: &String, options: &ReachabilityOptions) -> (r: Result<ReachabilityResult, QueryError>)
        requires
            ids_unique(&self.graph),
        ensures
            match r {
                Ok(res) => has_function(&self.graph, origin_id@) && forward_result(
                    &self.graph,
                    self.sensitivity@,
                    index_of(&self.graph, origin_id@),
                    options,
                    &res,
                ),
                Err(e) => e == QueryError::NotFound && !has_function(&self.graph, origin_id@),
            },
    {
        forward_query(&self.graph, &self.sensitivity, origin_id, options)
    }
}

/// Every data access of `g` reachable from the function `origin_id`, with
/// the path taken; `NotFound` when `g` has no such function. `rules` are the
/// verdicts of the sensitivity detector.
pub fn forward_query(g: &CallGraph, rules: &Vec<FieldSensitivity>, origin_id: &String, options: &ReachabilityOptions) -> (r: Result<ReachabilityResult, QueryError>)
    requires
        ids_unique(g),
    ensures
        match r {
            Ok(res) => has_function(g, origin_id@) && forward_result(g, rules@, index_of(g, origin_id@), options, &res),
            Err(e) => e == QueryError::NotFound && !has_function(g, origin_id@),
        },
{
    let origin = match find_function(g, origin_id) {
        Some(i) => i,
        None => {
            return Err(QueryError::NotFound);
        },
    };
    let t = shortest_depths(g, origin, options.max_depth);
    let max_depth = deepest(g, origin, options.max_depth, &t);
    let reachable_access = collect_accesses(g, origin, options, rules, &t, max_depth);
    let tables = distinct_tables(&reachable_access);
    let sensitive_fields = summarize_sensitive(rules, &reachable_access);
    let unresolved_calls = if options.include_unresolved {
        collect_unresolved(g, origin, options.max_depth, &t, max_depth)
    } else {
        Vec::new()
    };
    proof {
        lemma_order_counts_reached(g, origin as int, options.max_depth, &t);
    }
    let f = &g.functions[origin];
    let res = ReachabilityResult {
        origin: CodeLocation {
            file: f.file.clone(),
            line: f.start_line,
            column: None,
            function_id: Some(f.id.clone()),
        },
        reachable_access,
        tables,
        sensitive_fields,
        unresolved_calls,
        max_depth,
        functions_traversed: t.order.len(),
    };
    assert(forall|v: int, d: nat|
        0 <= v < g.functions@.len() && reached(g, origin as int, v, options.max_depth) && #[trigger] at_distance(g, origin as int, v, d)
            ==> d <= res.max_depth);
    assert(forall|i: int| 0 <= i < res.tables@.len() ==> #[trigger] table_listed(res.reachable_access@, res.tables@[i]@));
    assert(forall|j: int|
        0 <= j < res.reachable_access@.len() ==> #[trigger] in_strings(
            res.tables@,
            res.reachable_access@[j].access.table@,
        ));
    Ok(res)
}

/// Depth is the shortest distance: each access that a forward query
/// reports belongs to a function reached by a chain of exactly `depth`
/// resolved calls from the origin and by none shorter, and its path has one
/// node for each of those calls.
pub proof fn lemma_reported_depth_is_shortest(
    g: &CallGraph,
    rules: Seq<FieldSensitivity>,
    o: int,
    opts: &ReachabilityOptions,
    r: &ReachabilityResult,
    i: int,
)
    requires
        forward_result(g, rules, o, opts, r),
        0 <= i < r.reachable_access@.len(),
    ensures
        exists|f: int, k: int|
            #[trigger] entry_from(g, o, opts, rules, &r.reachable_access@[i], f, k) && crate::traversal::shortest_chain(
                g,
                o,
                f,
                r.reachable_access@[i].depth as nat,
            ) && r.reachable_access@[i].path@.len() == r.reachable_access@[i].depth && is_call_path(
                g,
                o,
                f,
                r.reachable_access@[i].path@,
            ),
{
    assert(entry_valid(g, o, opts, rules, &r.reachable_access@[i]));
    let (f, k) = choose|f: int, k: int| #[trigger] entry_from(g, o, opts, rules, &r.reachable_access@[i], f, k);
    crate::traversal::lemma_depth_is_shortest(g, o, f, r.reachable_access@[i].depth as nat);
}

/// Unresolved calls are dead ends: no access of a function that no chain of
/// resolved calls reaches from the origin within the bound is reported, and
/// such a function is not counted as traversed.
pub proof fn lemma_unreached_not_reported(
    g: &CallGraph,
    rules: Seq<FieldSensitivity>,
    o: int,
    opts: &ReachabilityOptions,
    r: &ReachabilityResult,
    f: int,
)
    requires
        forward_result(g, rules, o, opts, r),
        !reached(g, o, f, opts.max_depth),
    ensures
        forall|i: int, k: int| 0 <= i < r.reachable_access@.len() ==> !#[trigger] entry_from(g, o, opts, rules, &r.reachable_access@[i], f, k),
        !reached_set(g, o, opts.max_depth).contains(f),
{
}

/// The table filter holds: where `opts` names tables, every access that a
/// forward query reports is to one of them.
pub proof fn lemma_table_filter(
    g: &CallGraph,
    rules: Seq<FieldSensitivity>,
    o: int,
    opts: &ReachabilityOptions,
    r: &ReachabilityResult,
)
    requires
        forward_result(g, rules, o, opts, r),
        opts.tables@.len() > 0,
    ensures
        forall|i: int|
            0 <= i < r.reachable_access@.len() ==> in_strings(opts.tables@, #[trigger] r.reachable_access@[i].access.table@),
{
    assert forall|i: int| 0 <= i < r.reachable_access@.len() implies in_strings(
        opts.tables@,
        #[trigger] r.reachable_access@[i].access.table@,
    ) by {
        assert(entry_valid(g, o, opts, rules, &r.reachable_access@[i]));
        let (f, k) = choose|f: int, k: int| #[trigger] entry_from(g, o, opts, rules, &r.reachable_access@[i], f, k);
        assert(emitted(opts, rules, &g.functions@[f].data_access@[k]));
    }
}

} // verus!
