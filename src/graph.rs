//! The call graph: functions, call edges, data-access points, and what it
//! means for one function to reach another.
use vstd::prelude::*;
use vstd::string::StringExecFns;

verus! {

/// What a data-access point does to its table.
#[derive(Debug, Clone, Copy, PartialEq, Eq, Structural)]
pub enum DataOperation {
    Read,
    Write,
    Delete,
}

/// A table-level read, write or delete performed by a function.
#[derive(Debug)]
pub struct DataAccessPoint {
    pub table: String,
    pub operation: DataOperation,
    pub fields: Vec<String>,
    pub file: String,
    pub line: u32,
    /// Confidence of the detection, in thousandths (`0..=1000`).
    pub confidence: u16,
    pub framework: Option<String>,
}

/// A call made by a function.
///
/// A resolved call names its single target in `resolved_candidates`; an
/// unresolved one lists zero or more ambiguous candidates.
#[derive(Debug)]
pub struct CallEdge {
    pub callee_name: String,
    pub resolved: bool,
    pub resolved_candidates: Vec<String>,
    pub line: u32,
}

/// A vertex of the call graph.
#[derive(Debug)]
pub struct FunctionNode {
    pub id: String,
    pub name: String,
    pub qualified_name: String,
    pub file: String,
    pub start_line: u32,
    pub end_line: u32,
    pub calls: Vec<CallEdge>,
    pub data_access: Vec<DataAccessPoint>,
    pub is_entry_point: bool,
}

/// One hop of a call path: the calling function and the line of the call.
#[derive(Debug)]
pub struct PathNode {
    pub function_id: String,
    pub function_name: String,
    pub file: String,
    pub line: u32,
}

/// A whole call graph. `functions` plays the part of a map from id to node:
/// no two nodes share an id.
#[derive(Debug)]
pub struct CallGraph {
    pub functions: Vec<FunctionNode>,
    pub entry_points: Vec<String>,
    pub data_accessors: Vec<String>,
}

/// The character of a decimal digit.
pub open spec fn digit_char(d: nat) -> char {
    if d == 0 { '0' } else if d == 1 { '1' } else if d == 2 { '2' } else if d == 3 { '3' }
    else if d == 4 { '4' } else if d == 5 { '5' } else if d == 6 { '6' } else if d == 7 { '7' }
    else if d == 8 { '8' } else { '9' }
}

/// The decimal notation of `n`, without leading zeros.
pub open spec fn decimal(n: nat) -> Seq<char>
    decreases n,
{
    if n < 10 {
        seq![digit_char(n)]
    } else {
        decimal(n / 10).push(digit_char(n % 10))
    }
}

/// The id of a function: `file:name:start_line`.
pub open spec fn id_of(file: Seq<char>, name: Seq<char>, start_line: u32) -> Seq<char> {
    file + seq![':'] + name + seq![':'] + decimal(start_line as nat)
}

fn digit_str(d: u32) -> (r: &'static str)
    requires
        d < 10,
    ensures
        r@ == seq![digit_char(d as nat)],
{
    proof {
        reveal_strlit("0"); reveal_strlit("1"); reveal_strlit("2"); reveal_strlit("3");
        reveal_strlit("4"); reveal_strlit("5"); reveal_strlit("6"); reveal_strlit("7");
        reveal_strlit("8"); reveal_strlit("9");
    }
    let r = if d == 0 { "0" } else if d == 1 { "1" } else if d == 2 { "2" } else if d == 3 { "3" }
    else if d == 4 { "4" } else if d == 5 { "5" } else if d == 6 { "6" } else if d == 7 { "7" }
    else if d == 8 { "8" } else { "9" };
    assert(r@ =~= seq![digit_char(d as nat)]);
    r
}

/// Appends the decimal notation of `n` to `s`.
fn append_decimal(s: &mut String, n: u32)
    ensures
        final(s)@ == old(s)@ + decimal(n as nat),
    decreases n,
{
    if n >= 10 {
        append_decimal(s, n / 10);
    }
    s.append(digit_str(n % 10));
    assert(final(s)@ =~= old(s)@ + decimal(n as nat));
}

/// The id of the function named `name` that starts at `start_line` of `file`.
pub fn function_id(file: &str, name: &str, start_line: u32) -> (r: String)
    ensures
        r@ == id_of(file@, name@, start_line),
{
    let mut s = String::from_str(file);
    s.append(":");
    s.append(name);
    s.append(":");
    append_decimal(&mut s, start_line);
    proof {
        reveal_strlit(":");
    }
    assert(s@ =~= id_of(file@, name@, start_line));
    s
}

/// Why a query could not be answered.
#[derive(Debug, Clone, Copy, PartialEq, Eq, Structural)]
pub enum QueryError {
    /// The function id is absent from the graph.
    NotFound,
    /// The store is missing or holds no graph: it must be built first.
    StoreUnavailable,
}

/// The index of the function of `g` with the given id.
pub open spec fn index_of(g: &CallGraph, id: Seq<char>) -> int {
    choose|i: int| 0 <= i < g.functions@.len() && #[trigger] g.functions@[i].id@ == id
}

/// No two functions of `g` share an id.
pub open spec fn ids_unique(g: &CallGraph) -> bool {
    forall|i: int, j: int|
        0 <= i < g.functions@.len() && 0 <= j < g.functions@.len() && i != j
            ==> #[trigger] g.functions@[i].id@ != #[trigger] g.functions@[j].id@
}

/// Whether `g` holds a function with the given id.
pub open spec fn has_function(g: &CallGraph, id: Seq<char>) -> bool {
    exists|i: int| 0 <= i < g.functions@.len() && #[trigger] g.functions@[i].id@ == id
}

/// Whether the call `c` is resolved, and its single target is function `j` of `g`.
pub open spec fn resolves_to(g: &CallGraph, c: &CallEdge, j: int) -> bool {
    &&& c.resolved
    &&& c.resolved_candidates@.len() == 1
    &&& 0 <= j < g.functions@.len()
    &&& c.resolved_candidates@[0]@ == g.functions@[j].id@
}

/// Whether function `i` of `g` has a resolved call to function `j`.
pub open spec fn calls_fn(g: &CallGraph, i: int, j: int) -> bool {
    &&& 0 <= i < g.functions@.len()
    &&& exists|k: int|
        0 <= k < g.functions@[i].calls@.len() && resolves_to(g, #[trigger] &g.functions@[i].calls@[k], j)
}

/// Whether `w` is a chain of functions of `g` from `o` to `v`, each one
/// making a resolved call to the next.
pub open spec fn is_chain(g: &CallGraph, w: Seq<int>, o: int, v: int) -> bool {
    &&& w.len() > 0
    &&& w[0] == o
    &&& w.last() == v
    &&& forall|i: int| 0 <= i < w.len() ==> 0 <= #[trigger] w[i] < g.functions@.len()
    &&& forall|i: int| 0 <= i < w.len() - 1 ==> calls_fn(g, #[trigger] w[i], w[i + 1])
}

/// Whether function `v` can be reached from function `o` along at most `n`
/// resolved calls.
pub open spec fn reach_within(g: &CallGraph, o: int, v: int, n: nat) -> bool {
    exists|w: Seq<int>| #[trigger] is_chain(g, w, o, v) && w.len() <= n + 1
}

/// Whether the shortest chain of resolved calls from `o` to `v` has length `d`.
pub open spec fn at_distance(g: &CallGraph, o: int, v: int, d: nat) -> bool {
    &&& reach_within(g, o, v, d)
    &&& d > 0 ==> !reach_within(g, o, v, (d - 1) as nat)
}

/// A function has one distance from the origin.
pub proof fn lemma_distance_unique(g: &CallGraph, o: int, v: int, d1: nat, d2: nat)
    requires
        at_distance(g, o, v, d1),
        at_distance(g, o, v, d2),
    ensures
        d1 == d2,
{
    if d1 < d2 {
        lemma_within_grows(g, o, v, d1, (d2 - 1) as nat);
    } else if d2 < d1 {
        lemma_within_grows(g, o, v, d2, (d1 - 1) as nat);
    }
}

/// A chain within `a` calls is within any larger number of calls.
pub proof fn lemma_within_grows(g: &CallGraph, o: int, v: int, a: nat, b: nat)
    requires
        a <= b,
        reach_within(g, o, v, a),
    ensures
        reach_within(g, o, v, b),
{
}

/// The index of the function with the given id.
pub fn find_function(g: &CallGraph, id: &String) -> (r: Option<usize>)
    requires
        ids_unique(g),
    ensures
        match r {
            Some(i) => i < g.functions@.len() && g.functions@[i as int].id@ == id@ && i == index_of(g, id@),
            None => !has_function(g, id@),
        },
{
    let mut i: usize = 0;
    while i < g.functions.len()
        invariant
            ids_unique(g),
            i <= g.functions@.len(),
            forall|j: int| 0 <= j < i ==> g.functions@[j].id@ != id@,
        decreases g.functions@.len() - i,
    {
        if g.functions[i].id == *id {
            proof {
                assert(g.functions@[i as int].id@ == id@);
                let j = index_of(g, id@);
                assert(0 <= j < g.functions@.len() && g.functions@[j].id@ == id@);
            }
            return Some(i);
        }
        i = i + 1;
    }
    None
}

/// The function that a call leads to, where the call is resolved to a
/// function of `g`.
pub fn resolve_call(g: &CallGraph, c: &CallEdge) -> (r: Option<usize>)
    requires
        ids_unique(g),
    ensures
        match r {
            Some(j) => resolves_to(g, c, j as int),
            None => forall|j: int| !resolves_to(g, c, j),
        },
{
    if !c.resolved || c.resolved_candidates.len() != 1 {
        return None;
    }
    find_function(g, &c.resolved_candidates[0])
}

/// A copy of a list of strings.
pub fn copy_strings(v: &Vec<String>) -> (r: Vec<String>)
    ensures
        r@ == v@,
{
    let mut r: Vec<String> = Vec::new();
    let mut i: usize = 0;
    while i < v.len()
        invariant
            i <= v@.len(),
            r@ == v@.subrange(0, i as int),
        decreases v@.len() - i,
    {
        r.push(v[i].clone());
        i = i + 1;
    }
    assert(r@ =~= v@);
    r
}

/// A copy of an optional string.
pub fn copy_opt_string(v: &Option<String>) -> (r: Option<String>)
    ensures
        r == *v,
{
    match v {
        Some(s) => Some(s.clone()),
        None => None,
    }
}

/// Whether two access points hold the same values.
pub open spec fn same_access(a: &DataAccessPoint, b: &DataAccessPoint) -> bool {
    &&& a.table@ == b.table@
    &&& a.operation == b.operation
    &&& a.fields@ == b.fields@
    &&& a.file@ == b.file@
    &&& a.line == b.line
    &&& a.confidence == b.confidence
    &&& a.framework == b.framework
}

impl DataAccessPoint {
    /// A copy of this access point.
    pub fn copy(&self) -> (r: DataAccessPoint)
        ensures
            same_access(self, &r),
    {
        DataAccessPoint {
            table: self.table.clone(),
            operation: self.operation,
            fields: copy_strings(&self.fields),
            file: self.file.clone(),
            line: self.line,
            confidence: self.confidence,
            framework: copy_opt_string(&self.framework),
        }
    }
}

/// Whether `n` names function `p` of `g` and the line of its call `k`.
pub open spec fn describes_hop(g: &CallGraph, n: &PathNode, p: int, k: int) -> bool {
    &&& 0 <= p < g.functions@.len()
    &&& 0 <= k < g.functions@[p].calls@.len()
    &&& n.function_id@ == g.functions@[p].id@
    &&& n.function_name@ == g.functions@[p].name@
    &&& n.file@ == g.functions@[p].file@
    &&& n.line == g.functions@[p].calls@[k].line
}

/// Whether `hops`, pairs of a function and the index of one of its calls,
/// lead from function `o` to function `v`: the first hop is made by `o`, each
/// call resolves to the function of the next hop, and the last one to `v`.
pub open spec fn hops_lead(g: &CallGraph, o: int, v: int, hops: Seq<(int, int)>) -> bool {
    &&& hops.len() == 0 ==> v == o
    &&& hops.len() > 0 ==> hops[0].0 == o
    &&& forall|i: int|
        0 <= i < hops.len() ==> {
            &&& 0 <= #[trigger] hops[i].0 < g.functions@.len()
            &&& 0 <= hops[i].1 < g.functions@[hops[i].0].calls@.len()
            &&& resolves_to(
                g,
                &g.functions@[hops[i].0].calls@[hops[i].1],
                if i + 1 < hops.len() {
                    hops[i + 1].0
                } else {
                    v
                },
            )
        }
}

/// Whether `path` is a chain of resolved calls from function `o` to function
/// `v`, one node for each call.
pub open spec fn is_call_path(g: &CallGraph, o: int, v: int, path: Seq<PathNode>) -> bool {
    exists|hops: Seq<(int, int)>|
        #[trigger] hops_lead(g, o, v, hops) && hops.len() == path.len() && forall|i: int|
            0 <= i < path.len() ==> describes_hop(g, &path[i], hops[i].0, hops[i].1)
}

} // verus!
