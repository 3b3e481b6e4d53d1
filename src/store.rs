//! The graph store: one snapshot of a built call graph, written in batches
//! and read by point lookups, and the reachability engines that query it.
use vstd::prelude::*;
use crate::builder::{
    accessor_ids, build, built_from, call_count, capped, distinct_ids, entry_ids, resolved_count,
    stats_of, BuildStats, FileOutcome,
};
use crate::forward::{forward_query, forward_result, FieldSensitivity, ReachabilityOptions, ReachabilityResult};
use crate::codec::{decode_snapshot, enc_snapshot, encode_snapshot, same_nodes};
use crate::forward::in_strings;
use crate::graph::{
    has_function, ids_unique, index_of, CallGraph, DataAccessPoint, FunctionNode, QueryError,
};
use crate::inverse::{inverse_query, inverse_result, InverseReachabilityOptions, InverseReachabilityResult};

verus! {

/// The layout version of stored snapshots that this library reads.
pub const SCHEMA_VERSION: u32 = 1;

/// Why the store refused an operation.
#[derive(Debug, Clone, Copy, PartialEq, Eq, Structural)]
pub enum StoreError {
    /// The store was opened read-only.
    ReadOnly,
    /// A function of the batch has an id that is already stored, or that
    /// another function of the batch has.
    DuplicateId,
    /// The snapshot was written with another layout version: rebuild it.
    Incompatible,
    /// The snapshot holds two functions with one id: rebuild it.
    Corrupt,
}

/// Totals of a stored graph.
#[derive(Debug)]
pub struct GraphStats {
    pub total_functions: usize,
    pub total_calls: usize,
    pub resolved_calls: usize,
    pub entry_points: usize,
    pub data_accessors: usize,
}

/// One snapshot of a call graph.
#[derive(Debug)]
pub struct GraphStore {
    pub graph: CallGraph,
    pub read_only: bool,
}

impl GraphStore {
    /// The store's invariant: ids are unique, and its indices are those of
    /// its functions' flags and annotations.
    pub open spec fn wf(&self) -> bool {
        &&& ids_unique(&self.graph)
        &&& self.graph.entry_points@.map_values(|s: String| s@) == entry_ids(self.graph.functions@)
        &&& self.graph.data_accessors@.map_values(|s: String| s@) == accessor_ids(self.graph.functions@)
    }

    /// An empty store to write a new snapshot into.
    pub fn open_readwrite() -> (r: GraphStore)
        ensures
            r.wf(),
            r.graph.functions@.len() == 0,
            !r.read_only,
    {
        let r = GraphStore {
            graph: CallGraph { functions: Vec::new(), entry_points: Vec::new(), data_accessors: Vec::new() },
            read_only: false,
        };
        assert(r.graph.entry_points@.map_values(|s: String| s@) =~= entry_ids(r.graph.functions@));
        assert(r.graph.data_accessors@.map_values(|s: String| s@) =~= accessor_ids(r.graph.functions@));
        r
    }

    /// A read-only store over a snapshot written with layout `version`.
    /// The snapshot's own indices are not trusted: they are derived again.
    pub fn open_readonly(version: u32, functions: Vec<FunctionNode>) -> (r: Result<GraphStore, StoreError>)
        ensures
            match r {
                Ok(s) => version == SCHEMA_VERSION && s.wf() && s.read_only && s.graph.functions@ == functions@,
                Err(e) => (e == StoreError::Incompatible && version != SCHEMA_VERSION) || (e
                    == StoreError::Corrupt && version == SCHEMA_VERSION && !crate::builder::distinct_ids(functions@)),
            },
    {
        if version != SCHEMA_VERSION {
            return Err(StoreError::Incompatible);
        }
        if !ids_distinct(&functions) {
            return Err(StoreError::Corrupt);
        }
        let entry_points = crate::builder::entry_index(&functions);
        let data_accessors = crate::builder::accessor_index(&functions);
        Ok(GraphStore { graph: CallGraph { functions, entry_points, data_accessors }, read_only: true })
    }

    /// The stored form of this snapshot.
    pub fn snapshot(&self) -> (r: Vec<u8>)
        ensures
            r@ == enc_snapshot(SCHEMA_VERSION, self.graph.functions@),
    {
        encode_snapshot(&self.graph.functions)
    }

    /// A read-only store over the snapshot stored in `bytes`. `Incompatible`
    /// when it was written with another layout version; `Corrupt` when the
    /// bytes are no snapshot, or one with two functions of one id.
    pub fn open_snapshot(bytes: &Vec<u8>) -> (r: Result<GraphStore, StoreError>)
        ensures
            match r {
                Ok(s) => s.wf() && s.read_only && bytes@ == enc_snapshot(SCHEMA_VERSION, s.graph.functions@),
                Err(e) => (e == StoreError::Incompatible && exists|v: u32|
                    v != SCHEMA_VERSION && #[trigger] crate::codec::holds_at(bytes@, 0, crate::codec::enc_u32(v)))
                    || (e == StoreError::Corrupt && forall|t: Seq<FunctionNode>|
                    bytes@ == #[trigger] enc_snapshot(SCHEMA_VERSION, t) ==> !distinct_ids(t)),
            },
            forall|t: Seq<FunctionNode>|
                bytes@ == #[trigger] enc_snapshot(SCHEMA_VERSION, t) && distinct_ids(t) ==> (r matches Ok(s)
                    && same_nodes(s.graph.functions@, t)),
    {
        let functions = match decode_snapshot(bytes) {
            Ok(fs) => fs,
            Err(e) => {
                return Err(e);
            },
        };
        let ghost fv = functions@;
        proof {
            assert forall|t: Seq<FunctionNode>| bytes@ == #[trigger] enc_snapshot(SCHEMA_VERSION, t) implies (distinct_ids(t) <==> distinct_ids(fv)) by {
                assert(same_nodes(fv, t));
                assert forall|i: int| 0 <= i < t.len() implies (#[trigger] t[i]).id@ == fv[i].id@ by {
                    assert(crate::codec::same_node(fv[i], t[i]));
                }
                if distinct_ids(t) {
                    assert forall|i: int, j: int| 0 <= i < fv.len() && 0 <= j < fv.len() && i != j implies #[trigger] fv[i].id@ != #[trigger] fv[j].id@ by {
                        assert(t[i].id@ == fv[i].id@ && t[j].id@ == fv[j].id@);
                    }
                }
                if distinct_ids(fv) {
                    assert forall|i: int, j: int| 0 <= i < t.len() && 0 <= j < t.len() && i != j implies #[trigger] t[i].id@ != #[trigger] t[j].id@ by {
                        assert(t[i].id@ == fv[i].id@ && t[j].id@ == fv[j].id@);
                    }
                }
            }
        }
        GraphStore::open_readonly(SCHEMA_VERSION, functions)
    }

    /// Adds a batch of functions, all of it or nothing.
    pub fn write_batch(&mut self, batch: Vec<FunctionNode>) -> (r: Result<(), StoreError>)
        requires
            old(self).wf(),
        ensures
            final(self).wf(),
            final(self).read_only == old(self).read_only,
            match r {
                Ok(()) => !old(self).read_only && final(self).graph.functions@ == old(self).graph.functions@ + batch@,
                Err(e) => final(self).graph.functions@ == old(self).graph.functions@ && ((e == StoreError::ReadOnly
                    && old(self).read_only) || (e == StoreError::DuplicateId && !old(self).read_only
                    && !crate::builder::distinct_ids(old(self).graph.functions@ + batch@))),
            },
    {
        if self.read_only {
            return Err(StoreError::ReadOnly);
        }
        let ghost before = self.graph.functions@;
        let mut i: usize = 0;
        while i < batch.len()
            invariant
                i <= batch@.len(),
                self.graph.functions@ == before,
                before == old(self).graph.functions@,
                *self == *old(self),
                self.wf(),
                !self.read_only,
                forall|j: int| 0 <= j < i ==> !crate::builder::id_in(before, #[trigger] batch@[j].id@),
                forall|a: int, b: int| 0 <= a < i && 0 <= b < i && a != b ==> #[trigger] batch@[a].id@ != #[trigger] batch@[b].id@,
            decreases batch@.len() - i,
        {
            if crate::builder::id_known(&self.graph.functions, &batch[i].id) {
                proof {
                    let k = choose|k: int| 0 <= k < before.len() && #[trigger] before[k].id@ == batch@[i as int].id@;
                    let all = before + batch@;
                    assert(all[k] == before[k]);
                    assert(all[before.len() + i] == batch@[i as int]);
                    assert(all[k].id@ == all[before.len() + i].id@);
                }
                return Err(StoreError::DuplicateId);
            }
            let mut j: usize = 0;
            while j < i
                invariant
                    i < batch@.len(),
                    j <= i,
                    before == old(self).graph.functions@,
                    *self == *old(self),
                    self.wf(),
                    !self.read_only,
                    forall|jj: int| 0 <= jj < j ==> batch@[jj].id@ != batch@[i as int].id@,
                decreases i - j,
            {
                if batch[j].id == batch[i].id {
                    proof {
                        let all = before + batch@;
                        assert(all[before.len() + j] == batch@[j as int]);
                        assert(all[before.len() + i] == batch@[i as int]);
                        assert(all[before.len() + j].id@ == all[before.len() + i].id@);
                    }
                    return Err(StoreError::DuplicateId);
                }
                j = j + 1;
            }
            i = i + 1;
        }
        let mut batch = batch;
        let ghost added = batch@;
        self.graph.functions.append(&mut batch);
        proof {
            let all = self.graph.functions@;
            assert(all == before + added);
            assert forall|a: int, b: int|
                0 <= a < all.len() && 0 <= b < all.len() && a != b implies #[trigger] all[a].id@ != #[trigger] all[b].id@ by {
                if a < before.len() && b < before.len() {
                    assert(all[a] == before[a] && all[b] == before[b]);
                } else if a < before.len() {
                    assert(all[a] == before[a]);
                    assert(all[b] == added[b - before.len()]);
                } else if b < before.len() {
                    assert(all[b] == before[b]);
                    assert(all[a] == added[a - before.len()]);
                } else {
                    assert(all[a] == added[a - before.len()]);
                    assert(all[b] == added[b - before.len()]);
                }
            }
        }
        self.graph.entry_points = crate::builder::entry_index(&self.graph.functions);
        self.graph.data_accessors = crate::builder::accessor_index(&self.graph.functions);
        Ok(())
    }

    /// The stored function with the given id.
    pub fn get_function(&self, id: &String) -> (r: Option<&FunctionNode>)
        requires
            self.wf(),
        ensures
            match r {
                Some(f) => has_function(&self.graph, id@) && *f == self.graph.functions@[index_of(&self.graph, id@)],
                None => !has_function(&self.graph, id@),
            },
    {
        match crate::graph::find_function(&self.graph, id) {
            Some(i) => Some(&self.graph.functions[i]),
            None => None,
        }
    }

    /// The ids of the entry points, in storage order.
    pub fn get_entry_points(&self) -> (r: Vec<String>)
        ensures
            r@.map_values(|s: String| s@) == entry_ids(self.graph.functions@),
    {
        crate::builder::entry_index(&self.graph.functions)
    }

    /// The ids of the functions that access data, in storage order.
    pub fn get_data_accessors(&self) -> (r: Vec<String>)
        ensures
            r@.map_values(|s: String| s@) == accessor_ids(self.graph.functions@),
    {
        crate::builder::accessor_index(&self.graph.functions)
    }

    /// The totals of the stored graph.
    pub fn get_stats(&self) -> (r: GraphStats)
        requires
            self.wf(),
        ensures
            r.total_functions == self.graph.functions@.len(),
            r.total_calls == capped(call_count(self.graph.functions@)),
            r.resolved_calls == capped(resolved_count(self.graph.functions@)),
            r.entry_points == entry_ids(self.graph.functions@).len(),
            r.data_accessors == accessor_ids(self.graph.functions@).len(),
    {
        let (total_calls, resolved_calls) = crate::builder::count_calls(&self.graph.functions);
        GraphStats {
            total_functions: self.graph.functions.len(),
            total_calls,
            resolved_calls,
            entry_points: self.graph.entry_points.len(),
            data_accessors: self.graph.data_accessors.len(),
        }
    }

    /// Whether the store holds a graph: it exists and is not empty.
    pub fn is_available(&self) -> (r: bool)
        ensures
            r == (self.graph.functions@.len() > 0),
    {
        self.graph.functions.len() > 0
    }
}

/// Whether no two of `fs` share an id.
pub fn ids_distinct(fs: &Vec<FunctionNode>) -> (r: bool)
    ensures
        r == crate::builder::distinct_ids(fs@),
{
    let mut i: usize = 0;
    while i < fs.len()
        invariant
            i <= fs@.len(),
            forall|a: int, b: int| 0 <= a < i && 0 <= b < fs@.len() && a != b ==> #[trigger] fs@[a].id@ != #[trigger] fs@[b].id@,
        decreases fs@.len() - i,
    {
        let mut j: usize = 0;
        while j < fs.len()
            invariant
                i < fs@.len(),
                j <= fs@.len(),
                forall|a: int, b: int| 0 <= a < i && 0 <= b < fs@.len() && a != b ==> #[trigger] fs@[a].id@ != #[trigger] fs@[b].id@,
                forall|b: int| 0 <= b < j && b != i ==> fs@[i as int].id@ != #[trigger] fs@[b].id@,
            decreases fs@.len() - j,
        {
            if j != i && fs[i].id == fs[j].id {
                return false;
            }
            j = j + 1;
        }
        i = i + 1;
    }
    true
}

/// Whether `m` functions make whole batches of `batch_size` functions (of
/// one function when `batch_size` is 0).
pub open spec fn whole_batches(m: int, batch_size: usize) -> bool {
    exists|nb: nat| m == #[trigger] batches_len(nb, batch_size)
}

/// How many functions `nb` whole batches of `batch_size` hold.
pub open spec fn batches_len(nb: nat, batch_size: usize) -> int {
    nb * (if batch_size == 0 { 1 } else { batch_size as int })
}

/// Builds the call graph of `outs` and writes it into `store`, in batches of
/// `batch_size` functions (of one function when `batch_size` is 0). Each
/// batch is written whole or not at all; a refused batch ends the build.
pub fn build_into_store(outs: &Vec<FileOutcome>, batch_size: usize, store: &mut GraphStore) -> (r: Result<BuildStats, StoreError>)
    requires
        old(store).wf(),
    ensures
        final(store).wf(),
        final(store).read_only == old(store).read_only,
        match r {
            Ok(stats) => exists|g: CallGraph|
                built_from(outs@, &g) && stats_of(outs@, &g, &stats) && #[trigger] final(store).graph.functions@
                    == old(store).graph.functions@ + g.functions@,
            Err(e) => exists|g: CallGraph, m: int|
                built_from(outs@, &g) && 0 <= m <= g.functions@.len() && #[trigger] final(store).graph.functions@
                    == old(store).graph.functions@ + g.functions@.subrange(0, m) && whole_batches(m, batch_size) && ((e == StoreError::ReadOnly
                    && old(store).read_only && m == 0) || (e == StoreError::DuplicateId && !old(store).read_only
                    && !distinct_ids(old(store).graph.functions@ + g.functions@))),
        },
        !old(store).read_only && old(store).graph.functions@.len() == 0 ==> r is Ok,
{
    let (g, stats) = build(outs);
    let ghost gg = g;
    proof {
        assert(store.graph.functions@ =~= store.graph.functions@ + gg.functions@.subrange(0, 0));
    }
    let ghost before = store.graph.functions@;
    let size: usize = if batch_size == 0 {
        1
    } else {
        batch_size
    };
    let mut rest = g.functions;
    let ghost mut nb: nat = 0;
    proof {
        assert(0 == nb * size);
    }
    while rest.len() > 0
        invariant
            size == (if batch_size == 0 { 1 } else { batch_size as int }),
            rest@.len() > 0 ==> store.graph.functions@.len() - before.len() == nb * size,
            store.wf(),
            store.read_only == old(store).read_only,
            before == old(store).graph.functions@,
            ids_unique(&gg),
            store.graph.functions@ + rest@ == before + gg.functions@,
            store.graph.functions@.len() >= before.len(),
            old(store).read_only ==> store.graph.functions@ == before,
            size > 0,
            built_from(outs@, &gg),
            store.graph.functions@.len() - before.len() <= gg.functions@.len(),
            store.graph.functions@ == before + gg.functions@.subrange(0, store.graph.functions@.len() - before.len()),
        decreases rest@.len(),
    {
        let take: usize = if rest.len() < size {
            rest.len()
        } else {
            size
        };
        let tail = rest.split_off(take);
        let batch = rest;
        rest = tail;
        let ghost written = store.graph.functions@;
        let ghost b = batch@;
        match store.write_batch(batch) {
            Ok(()) => {
                proof {
                    assert(store.graph.functions@ + rest@ =~= written + b + rest@);
                    let cur = store.graph.functions@;
                    let whole = before + gg.functions@;
                    assert(cur + rest@ == whole);
                    assert(cur.len() + rest@.len() == whole.len());
                    let m = cur.len() - before.len();
                    assert(whole.subrange(0, cur.len() as int) =~= cur);
                    assert(before + gg.functions@.subrange(0, m) =~= whole.subrange(0, cur.len() as int));
                    if rest@.len() > 0 {
                        assert(b.len() == size);
                        assert(nb * size + size == (nb + 1) * size) by (nonlinear_arith);
                        nb = nb + 1;
                    }
                }
            },
            Err(e) => {
                proof {
                    let m = written.len() - before.len();
                    assert(store.graph.functions@ == before + gg.functions@.subrange(0, m));
                    assert(batches_len(nb, batch_size) == m);
                    assert(whole_batches(m, batch_size));
                    if e == StoreError::DuplicateId {
                        let all = written + b;
                        let whole = before + gg.functions@;
                        assert(all =~= whole.subrange(0, all.len() as int));
                        if distinct_ids(whole) {
                            assert forall|i: int, j: int|
                                0 <= i < all.len() && 0 <= j < all.len() && i != j implies #[trigger] all[i].id@ != #[trigger] all[j].id@ by {
                                assert(all[i] == whole[i]);
                                assert(all[j] == whole[j]);
                            }
                        }
                        if before.len() == 0 {
                            assert(distinct_ids(all)) by {
                                assert forall|i: int, j: int|
                                    0 <= i < all.len() && 0 <= j < all.len() && i != j implies #[trigger] all[i].id@ != #[trigger] all[j].id@ by {
                                    assert(all[i] == gg.functions@[i]);
                                    assert(all[j] == gg.functions@[j]);
                                }
                            }
                        }
                    }
                }
                return Err(e);
            },
        }
    }
    proof {
        assert(store.graph.functions@ =~= store.graph.functions@ + rest@);
    }
    Ok(stats)
}

/// The reachability engines over a stored snapshot: each query looks the
/// graph up in the store, and fails when the store holds no graph.
#[derive(Debug)]
pub struct StoreReachabilityEngine {
    pub store: GraphStore,
    /// The verdicts of the sensitivity detector.
    pub sensitivity: Vec<FieldSensitivity>,
}

impl StoreReachabilityEngine {
    pub fn new(store: GraphStore, sensitivity: Vec<FieldSensitivity>) -> (r: StoreReachabilityEngine)
        ensures
            r.store == store,
            r.sensitivity == sensitivity,
    {
        StoreReachabilityEngine { store, sensitivity }
    }

    /// Whether the store holds a graph to query.
    pub fn is_available(&self) -> (r: bool)
        ensures
            r == (self.store.graph.functions@.len() > 0),
    {
        self.store.is_available()
    }

    /// Forward reachability from `origin_id` over the stored graph.
    pub fn reachable_from(&self, origin_id: &String, options: &ReachabilityOptions) -> (r: Result<ReachabilityResult, QueryError>)
        requires
            self.store.wf(),
        ensures
            match r {
                Ok(res) => self.store.graph.functions@.len() > 0 && has_function(&self.store.graph, origin_id@)
                    && forward_result(&self.store.graph, self.sensitivity@, index_of(&self.store.graph, origin_id@), options, &res),
                Err(e) => (e == QueryError::StoreUnavailable && self.store.graph.functions@.len() == 0) || (e
                    == QueryError::NotFound && self.store.graph.functions@.len() > 0 && !has_function(
                    &self.store.graph,
                    origin_id@,
                )),
            },
    {
        if !self.store.is_available() {
            return Err(QueryError::StoreUnavailable);
        }
        forward_query(&self.store.graph, &self.sensitivity, origin_id, options)
    }

    /// Inverse reachability to a table (and field) over the stored graph.
    pub fn paths_to_data(&self, options: &InverseReachabilityOptions) -> (r: Result<InverseReachabilityResult, QueryError>)
        requires
            self.store.wf(),
        ensures
            match r {
                Ok(res) => self.store.graph.functions@.len() > 0 && inverse_result(&self.store.graph, options, &res),
                Err(e) => e == QueryError::StoreUnavailable && self.store.graph.functions@.len() == 0,
            },
    {
        if !self.store.is_available() {
            return Err(QueryError::StoreUnavailable);
        }
        Ok(inverse_query(&self.store.graph, options))
    }
}

/// The tables that the access points `accs` touch, each once, in order of
/// first appearance.
pub fn accessed_tables(accs: &Vec<DataAccessPoint>) -> (r: Vec<String>)
    ensures
        forall|i: int, j: int| 0 <= i < j < r@.len() ==> r@[i]@ != r@[j]@,
        forall|i: int| 0 <= i < r@.len() ==> #[trigger] table_touched(accs@, r@[i]@),
        forall|j: int| 0 <= j < accs@.len() ==> #[trigger] in_strings(r@, accs@[j].table@),
{
    let mut ts: Vec<String> = Vec::new();
    let mut j: usize = 0;
    while j < accs.len()
        invariant
            j <= accs@.len(),
            ts@.len() == j,
            forall|i: int| 0 <= i < j ==> (#[trigger] ts@[i])@ == accs@[i].table@,
        decreases accs@.len() - j,
    {
        ts.push(accs[j].table.clone());
        j = j + 1;
    }
    let r = crate::forward::distinct_strings(&ts);
    proof {
        assert forall|i: int| 0 <= i < r@.len() implies #[trigger] table_touched(accs@, r@[i]@) by {
            assert(in_strings(ts@, r@[i]@));
            let k = choose|k: int| 0 <= k < ts@.len() && #[trigger] ts@[k]@ == r@[i]@;
        }
        assert forall|j: int| 0 <= j < accs@.len() implies #[trigger] in_strings(r@, accs@[j].table@) by {
            assert(in_strings(r@, ts@[j]@));
        }
    }
    r
}

/// Whether one of `accs` touches table `t`.
pub open spec fn table_touched(accs: Seq<DataAccessPoint>, t: Seq<char>) -> bool {
    exists|j: int| 0 <= j < accs.len() && #[trigger] accs[j].table@ == t
}

} // verus!
