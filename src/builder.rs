//! The call-graph builder: turns what extraction found in each file into a
//! call graph, resolving call sites to function ids.
use vstd::prelude::*;
use crate::graph::{
    function_id, has_function, id_of, ids_unique, CallEdge, CallGraph, DataAccessPoint,
    DataOperation, FunctionNode,
};
use crate::types::CallSite;

verus! {

/// The directory part of a path: what precedes its last `/`; empty when it
/// holds none.
pub open spec fn dir_of(s: Seq<char>) -> Seq<char>
    decreases s.len(),
{
    if s.len() == 0 {
        s
    } else if s.last() == '/' {
        s.drop_last()
    } else {
        dir_of(s.drop_last())
    }
}

/// The directory part of `path`.
pub fn module_of(path: &str) -> (r: String)
    ensures
        r@ == dir_of(path@),
{
    let n = path.unicode_len();
    let mut end: usize = 0;
    let mut i: usize = 0;
    while i < n
        invariant
            n == path@.len(),
            end <= i <= n,
            dir_of(path@.subrange(0, i as int)) == path@.subrange(0, end as int),
        decreases n - i,
    {
        let c = path.get_char(i);
        proof {
            let pre = path@.subrange(0, i + 1);
            assert(pre.drop_last() == path@.subrange(0, i as int));
            assert(pre.last() == c);
        }
        if c == '/' {
            end = i;
        }
        i = i + 1;
    }
    assert(path@.subrange(0, n as int) =~= path@);
    String::from_str(path.substring_char(0, end))
}

/// Where a call site looks for its callee.
#[derive(Debug, Clone, Copy, PartialEq, Eq, Structural)]
pub enum Scope {
    /// Functions of the calling file.
    File,
    /// Functions of the calling file's directory.
    Module,
    /// Every function of the project.
    Project,
}

/// Whether function `f` is named `name` and lies within `scope` of `file`.
pub open spec fn in_scope_of(f: &FunctionNode, name: Seq<char>, file: Seq<char>, scope: Scope) -> bool {
    &&& f.name@ == name
    &&& match scope {
        Scope::File => f.file@ == file,
        Scope::Module => dir_of(f.file@) == dir_of(file),
        Scope::Project => true,
    }
}

/// The indices of the functions of `fs` that a call of `name` from `file`
/// matches within `scope`, in order.
pub open spec fn candidates(fs: Seq<FunctionNode>, name: Seq<char>, file: Seq<char>, scope: Scope) -> Seq<int>
    decreases fs.len(),
{
    if fs.len() == 0 {
        Seq::empty()
    } else {
        let rest = candidates(fs.drop_last(), name, file, scope);
        if in_scope_of(&fs.last(), name, file, scope) {
            rest.push(fs.len() - 1)
        } else {
            rest
        }
    }
}

/// The functions that a call of `name` from `file` may target: those of the
/// same file if any, else those of the same directory if any, else those of
/// the whole project.
pub open spec fn resolution(fs: Seq<FunctionNode>, name: Seq<char>, file: Seq<char>) -> Seq<int> {
    if candidates(fs, name, file, Scope::File).len() > 0 {
        candidates(fs, name, file, Scope::File)
    } else if candidates(fs, name, file, Scope::Module).len() > 0 {
        candidates(fs, name, file, Scope::Module)
    } else {
        candidates(fs, name, file, Scope::Project)
    }
}

proof fn lemma_candidates_in_range(fs: Seq<FunctionNode>, name: Seq<char>, file: Seq<char>, scope: Scope)
    ensures
        forall|i: int| 0 <= i < candidates(fs, name, file, scope).len() ==> 0 <= #[trigger] candidates(fs, name, file, scope)[i] < fs.len(),
    decreases fs.len(),
{
    if fs.len() > 0 {
        lemma_candidates_in_range(fs.drop_last(), name, file, scope);
        let rest = candidates(fs.drop_last(), name, file, scope);
        let c = candidates(fs, name, file, scope);
        assert forall|i: int| 0 <= i < c.len() implies 0 <= #[trigger] c[i] < fs.len() by {
            if i < rest.len() {
                assert(c[i] == rest[i]);
            }
        }
    }
}

/// The indices of the functions of `fs` within `scope` of a call of `name`
/// from `file`.
fn scope_candidates(fs: &Vec<FunctionNode>, dirs: &Vec<String>, name: &String, file: &String, file_dir: &String, scope: Scope) -> (r: Vec<usize>)
    requires
        dirs@.len() == fs@.len(),
        forall|i: int| 0 <= i < dirs@.len() ==> #[trigger] dirs@[i]@ == dir_of(fs@[i].file@),
        file_dir@ == dir_of(file@),
    ensures
        r@.len() == candidates(fs@, name@, file@, scope).len(),
        forall|i: int| 0 <= i < r@.len() ==> #[trigger] r@[i] as int == candidates(fs@, name@, file@, scope)[i],
{
    let mut r: Vec<usize> = Vec::new();
    let mut i: usize = 0;
    while i < fs.len()
        invariant
            i <= fs@.len(),
            dirs@.len() == fs@.len(),
            forall|i: int| 0 <= i < dirs@.len() ==> #[trigger] dirs@[i]@ == dir_of(fs@[i].file@),
            file_dir@ == dir_of(file@),
            r@.len() == candidates(fs@.subrange(0, i as int), name@, file@, scope).len(),
            forall|j: int| 0 <= j < r@.len() ==> r@[j] as int == #[trigger] candidates(fs@.subrange(0, i as int), name@, file@, scope)[j],
        decreases fs@.len() - i,
    {
        let f = &fs[i];
        let hit = f.name == *name && match scope {
            Scope::File => f.file == *file,
            Scope::Module => dirs[i] == *file_dir,
            Scope::Project => true,
        };
        let ghost pre = fs@.subrange(0, i + 1);
        proof {
            assert(pre.drop_last() =~= fs@.subrange(0, i as int));
            assert(pre.last() == fs@[i as int]);
        }
        let ghost r0 = r@;
        if hit {
            r.push(i);
        }
        proof {
            assert(hit == in_scope_of(&pre.last(), name@, file@, scope));
            assert forall|j: int| 0 <= j < r@.len() implies r@[j] as int == #[trigger] candidates(pre, name@, file@, scope)[j] by {
                if j < r0.len() {
                    assert(r@[j] == r0[j]);
                }
            }
        }
        i = i + 1;
    }
    assert(fs@.subrange(0, fs@.len() as int) =~= fs@);
    r
}

/// The functions that a call of `name` from `file` may target.
pub fn resolve_targets(fs: &Vec<FunctionNode>, dirs: &Vec<String>, name: &String, file: &String) -> (r: Vec<usize>)
    requires
        dirs@.len() == fs@.len(),
        forall|i: int| 0 <= i < dirs@.len() ==> #[trigger] dirs@[i]@ == dir_of(fs@[i].file@),
    ensures
        r@.len() == resolution(fs@, name@, file@).len(),
        forall|i: int| 0 <= i < r@.len() ==> #[trigger] r@[i] as int == resolution(fs@, name@, file@)[i],
        forall|i: int| 0 <= i < r@.len() ==> r@[i] < fs@.len(),
{
    proof {
        lemma_candidates_in_range(fs@, name@, file@, Scope::File);
        lemma_candidates_in_range(fs@, name@, file@, Scope::Module);
        lemma_candidates_in_range(fs@, name@, file@, Scope::Project);
    }
    let file_dir = module_of(file.as_str());
    let same_file = scope_candidates(fs, dirs, name, file, &file_dir, Scope::File);
    if same_file.len() > 0 {
        return same_file;
    }
    let same_module = scope_candidates(fs, dirs, name, file, &file_dir, Scope::Module);
    if same_module.len() > 0 {
        return same_module;
    }
    scope_candidates(fs, dirs, name, file, &file_dir, Scope::Project)
}

/// A function as extraction reports it.
#[derive(Debug)]
pub struct ExtractedFunction {
    pub name: String,
    pub qualified_name: Option<String>,
    pub start_line: u32,
    pub end_line: u32,
    pub is_exported: bool,
    /// The call sites in the function's body.
    pub calls: Vec<CallSite>,
}

/// A data access that extraction attached to the function enclosing it.
#[derive(Debug)]
pub struct DataAccessAnnotation {
    pub enclosing_function: String,
    pub table: String,
    pub operation: DataOperation,
    pub fields: Vec<String>,
    pub line: u32,
    /// Confidence in thousandths (`0..=1000`).
    pub confidence: u16,
    pub framework: Option<String>,
}

/// What extraction found in one file.
#[derive(Debug)]
pub struct FileExtraction {
    pub file: String,
    pub functions: Vec<ExtractedFunction>,
    pub annotations: Vec<DataAccessAnnotation>,
    /// Names of the functions that a collaborator marks as entry points
    /// (route handlers and the like).
    pub entry_markers: Vec<String>,
}

/// The outcome of extraction for one file.
#[derive(Debug)]
pub enum FileOutcome {
    Extracted(FileExtraction),
    /// Extraction failed: the file is left out of the graph.
    Failed { file: String, message: String },
}

/// The annotations of `anns` attached to the function named `name`, in order.
pub open spec fn attached(anns: Seq<DataAccessAnnotation>, name: Seq<char>) -> Seq<DataAccessAnnotation>
    decreases anns.len(),
{
    if anns.len() == 0 {
        Seq::empty()
    } else {
        let rest = attached(anns.drop_last(), name);
        if anns.last().enclosing_function@ == name {
            rest.push(anns.last())
        } else {
            rest
        }
    }
}

/// Whether access point `a` records annotation `ann` of `file`.
pub open spec fn access_from(a: &DataAccessPoint, ann: &DataAccessAnnotation, file: Seq<char>) -> bool {
    &&& a.table@ == ann.table@
    &&& a.operation == ann.operation
    &&& a.fields@ == ann.fields@
    &&& a.file@ == file
    &&& a.line == ann.line
    &&& a.confidence == ann.confidence
    &&& a.framework == ann.framework
}

/// Whether `accs` records exactly the annotations of `fx` attached to `name`.
pub open spec fn accesses_attached(accs: Seq<DataAccessPoint>, fx: &FileExtraction, name: Seq<char>) -> bool {
    let att = attached(fx.annotations@, name);
    &&& accs.len() == att.len()
    &&& forall|k: int| 0 <= k < accs.len() ==> access_from(&accs[k], &(#[trigger] att[k]), fx.file@)
}

/// The data-access points of the function named `name` of `fx`.
fn attach_accesses(fx: &FileExtraction, name: &String) -> (r: Vec<DataAccessPoint>)
    ensures
        accesses_attached(r@, fx, name@),
{
    let anns = &fx.annotations;
    let mut r: Vec<DataAccessPoint> = Vec::new();
    let mut i: usize = 0;
    while i < anns.len()
        invariant
            i <= anns@.len(),
            anns == &fx.annotations,
            r@.len() == attached(anns@.subrange(0, i as int), name@).len(),
            forall|k: int| 0 <= k < r@.len() ==> access_from(&r@[k], &(#[trigger] attached(anns@.subrange(0, i as int), name@)[k]), fx.file@),
        decreases anns@.len() - i,
    {
        let ghost pre = anns@.subrange(0, i + 1);
        proof {
            assert(pre.drop_last() =~= anns@.subrange(0, i as int));
            assert(pre.last() == anns@[i as int]);
        }
        let ann = &anns[i];
        let ghost r0 = r@;
        if ann.enclosing_function == *name {
            r.push(DataAccessPoint {
                table: ann.table.clone(),
                operation: ann.operation,
                fields: crate::graph::copy_strings(&ann.fields),
                file: fx.file.clone(),
                line: ann.line,
                confidence: ann.confidence,
                framework: crate::graph::copy_opt_string(&ann.framework),
            });
        }
        proof {
            assert forall|k: int| 0 <= k < r@.len() implies access_from(&r@[k], &(#[trigger] attached(pre, name@)[k]), fx.file@) by {
                if k < r0.len() {
                    assert(r@[k] == r0[k]);
                }
            }
        }
        i = i + 1;
    }
    assert(anns@.subrange(0, anns@.len() as int) =~= anns@);
    r
}

/// Whether node `n` comes from function `fj` of file `fi`, calls aside.
pub open spec fn node_base(outs: Seq<FileOutcome>, n: &FunctionNode, fi: int, fj: int) -> bool {
    &&& 0 <= fi < outs.len()
    &&& match outs[fi] {
        FileOutcome::Extracted(fx) => {
            &&& 0 <= fj < fx.functions@.len()
            &&& n.name@ == fx.functions@[fj].name@
            &&& n.file@ == fx.file@
            &&& n.start_line == fx.functions@[fj].start_line
            &&& n.end_line == fx.functions@[fj].end_line
            &&& n.id@ == id_of(fx.file@, fx.functions@[fj].name@, fx.functions@[fj].start_line)
            &&& n.qualified_name@ == match fx.functions@[fj].qualified_name {
                Some(q) => q@,
                None => fx.functions@[fj].name@,
            }
            &&& accesses_attached(n.data_access@, &fx, n.name@)
        },
        FileOutcome::Failed { .. } => false,
    }
}

/// Whether function `fj` of file `fi`, if there is one, has a node in `fs`.
pub open spec fn function_kept(outs: Seq<FileOutcome>, fi: int, fj: int, fs: Seq<FunctionNode>) -> bool {
    match outs[fi] {
        FileOutcome::Extracted(fx) => 0 <= fj < fx.functions@.len() ==> id_in(
            fs,
            id_of(fx.file@, fx.functions@[fj].name@, fx.functions@[fj].start_line),
        ),
        FileOutcome::Failed { .. } => true,
    }
}

/// Whether one of `fs` has id `id`.
pub open spec fn id_in(fs: Seq<FunctionNode>, id: Seq<char>) -> bool {
    exists|i: int| 0 <= i < fs.len() && #[trigger] fs[i].id@ == id
}

/// No two of `fs` share an id.
pub open spec fn distinct_ids(fs: Seq<FunctionNode>) -> bool {
    forall|i: int, j: int|
        0 <= i < fs.len() && 0 <= j < fs.len() && i != j ==> #[trigger] fs[i].id@ != #[trigger] fs[j].id@
}

/// The messages of the files whose extraction failed, in order: each is
/// the file, a colon and a space, and the failure.
pub open spec fn failure_messages(outs: Seq<FileOutcome>) -> Seq<Seq<char>>
    decreases outs.len(),
{
    if outs.len() == 0 {
        Seq::empty()
    } else {
        let rest = failure_messages(outs.drop_last());
        match outs.last() {
            FileOutcome::Failed { file, message } => rest.push(file@ + seq![':', ' '] + message@),
            FileOutcome::Extracted(_) => rest,
        }
    }
}

pub(crate) fn id_known(fs: &Vec<FunctionNode>, id: &String) -> (r: bool)
    ensures
        r == id_in(fs@, id@),
{
    let mut i: usize = 0;
    while i < fs.len()
        invariant
            i <= fs@.len(),
            forall|j: int| 0 <= j < i ==> fs@[j].id@ != id@,
        decreases fs@.len() - i,
    {
        if fs[i].id == *id {
            return true;
        }
        i = i + 1;
    }
    false
}

/// The functions of every extracted file, each id once, and the messages of
/// the files that failed.
fn collect_functions(outs: &Vec<FileOutcome>) -> (r: (Vec<FunctionNode>, Vec<(usize, usize)>, Vec<String>))
    ensures
        distinct_ids(r.0@),
        r.0@.len() == r.1@.len(),
        forall|i: int| 0 <= i < r.0@.len() ==> node_base(outs@, #[trigger] &r.0@[i], r.1@[i].0 as int, r.1@[i].1 as int),
        forall|i: int| 0 <= i < r.0@.len() ==> (#[trigger] r.0@[i]).calls@.len() == 0,
        forall|fi: int, fj: int| 0 <= fi < outs@.len() ==> #[trigger] function_kept(outs@, fi, fj, r.0@),
        r.2@.len() == failure_messages(outs@).len(),
        forall|k: int| 0 <= k < r.2@.len() ==> #[trigger] r.2@[k]@ == failure_messages(outs@)[k],
{
    let mut nodes: Vec<FunctionNode> = Vec::new();
    let mut sources: Vec<(usize, usize)> = Vec::new();
    let mut errors: Vec<String> = Vec::new();
    let mut fi: usize = 0;
    while fi < outs.len()
        invariant
            fi <= outs@.len(),
            distinct_ids(nodes@),
            nodes@.len() == sources@.len(),
            forall|i: int| 0 <= i < nodes@.len() ==> node_base(outs@, #[trigger] &nodes@[i], sources@[i].0 as int, sources@[i].1 as int),
            forall|i: int| 0 <= i < nodes@.len() ==> (#[trigger] nodes@[i]).calls@.len() == 0,
            forall|fi2: int, fj: int| 0 <= fi2 < fi ==> #[trigger] function_kept(outs@, fi2, fj, nodes@),
            errors@.len() == failure_messages(outs@.subrange(0, fi as int)).len(),
            forall|k: int| 0 <= k < errors@.len() ==> #[trigger] errors@[k]@ == failure_messages(outs@.subrange(0, fi as int))[k],
        decreases outs@.len() - fi,
    {
        let ghost pre = outs@.subrange(0, fi + 1);
        proof {
            assert(pre.drop_last() =~= outs@.subrange(0, fi as int));
            assert(pre.last() == outs@[fi as int]);
        }
        match &outs[fi] {
            FileOutcome::Failed { file, message } => {
                let mut m = file.clone();
                m.append(": ");
                m.append(message.as_str());
                proof {
                    reveal_strlit(": ");
                    assert(m@ =~= file@ + seq![':', ' '] + message@);
                }
                let ghost e0 = errors@;
                errors.push(m);
                proof {
                    assert forall|k: int| 0 <= k < errors@.len() implies #[trigger] errors@[k]@ == failure_messages(pre)[k] by {
                        if k < e0.len() {
                            assert(errors@[k] == e0[k]);
                        }
                    }
                    assert forall|fi2: int, fj: int| 0 <= fi2 < fi + 1 implies #[trigger] function_kept(outs@, fi2, fj, nodes@) by {
                    }
                }
            },
            FileOutcome::Extracted(fx) => {
                let fs = &fx.functions;
                let mut fj: usize = 0;
                while fj < fs.len()
                    invariant
                        fi < outs@.len(),
                        outs@[fi as int] == FileOutcome::Extracted(*fx),
                        fs == &fx.functions,
                        fj <= fs@.len(),
                        distinct_ids(nodes@),
                        nodes@.len() == sources@.len(),
                        forall|i: int| 0 <= i < nodes@.len() ==> node_base(outs@, #[trigger] &nodes@[i], sources@[i].0 as int, sources@[i].1 as int),
                        forall|i: int| 0 <= i < nodes@.len() ==> (#[trigger] nodes@[i]).calls@.len() == 0,
                        forall|fi2: int, fj2: int| 0 <= fi2 < fi ==> #[trigger] function_kept(outs@, fi2, fj2, nodes@),
                        forall|fj2: int| 0 <= fj2 < fj ==> id_in(nodes@, id_of(fx.file@, #[trigger] fs@[fj2].name@, fs@[fj2].start_line)),
                    decreases fs@.len() - fj,
                {
                    let f = &fs[fj];
                    let id = function_id(fx.file.as_str(), f.name.as_str(), f.start_line);
                    if !id_known(&nodes, &id) {
                        let qualified_name = match &f.qualified_name {
                            Some(q) => q.clone(),
                            None => f.name.clone(),
                        };
                        let node = FunctionNode {
                            id,
                            name: f.name.clone(),
                            qualified_name,
                            file: fx.file.clone(),
                            start_line: f.start_line,
                            end_line: f.end_line,
                            calls: Vec::new(),
                            data_access: attach_accesses(fx, &f.name),
                            is_entry_point: false,
                        };
                        let ghost n0 = nodes@;
                        let ghost s0 = sources@;
                        nodes.push(node);
                        sources.push((fi, fj));
                        proof {
                            let last = nodes@.len() - 1;
                            assert(nodes@[last].id@ == id_of(fx.file@, f.name@, f.start_line));
                            assert(node_base(outs@, &nodes@[last], fi as int, fj as int));
                            assert forall|i: int, j: int|
                                0 <= i < nodes@.len() && 0 <= j < nodes@.len() && i != j implies #[trigger] nodes@[i].id@ != #[trigger] nodes@[j].id@ by {
                                if i < n0.len() && j < n0.len() {
                                    assert(nodes@[i] == n0[i] && nodes@[j] == n0[j]);
                                } else if i < n0.len() {
                                    assert(nodes@[i] == n0[i]);
                                    assert(!id_in(n0, nodes@[j].id@));
                                } else {
                                    assert(nodes@[j] == n0[j]);
                                    assert(!id_in(n0, nodes@[i].id@));
                                }
                            }
                            assert forall|i: int| 0 <= i < nodes@.len() implies node_base(outs@, #[trigger] &nodes@[i], sources@[i].0 as int, sources@[i].1 as int) by {
                                if i < n0.len() {
                                    assert(nodes@[i] == n0[i]);
                                    assert(sources@[i] == s0[i]);
                                }
                            }
                            assert forall|i: int| 0 <= i < nodes@.len() implies (#[trigger] nodes@[i]).calls@.len() == 0 by {
                                if i < n0.len() {
                                    assert(nodes@[i] == n0[i]);
                                }
                            }
                            assert forall|idv: Seq<char>| id_in(n0, idv) implies id_in(nodes@, idv) by {
                                let i = choose|i: int| 0 <= i < n0.len() && #[trigger] n0[i].id@ == idv;
                                assert(nodes@[i] == n0[i]);
                            }
                            assert(id_in(nodes@, nodes@[last].id@));
                            assert forall|fi2: int, fj2: int| 0 <= fi2 < fi implies #[trigger] function_kept(outs@, fi2, fj2, nodes@) by {
                                assert(function_kept(outs@, fi2, fj2, n0));
                            }
                        }
                    }
                    fj = fj + 1;
                }
                proof {
                    assert forall|fi2: int, fj2: int| 0 <= fi2 < fi + 1 implies #[trigger] function_kept(outs@, fi2, fj2, nodes@) by {
                        if fi2 == fi && 0 <= fj2 < fs@.len() {
                            assert(id_in(nodes@, id_of(fx.file@, fs@[fj2].name@, fs@[fj2].start_line)));
                        }
                    }
                }
            },
        }
        fi = fi + 1;
    }
    assert(outs@.subrange(0, outs@.len() as int) =~= outs@);
    (nodes, sources, errors)
}

/// Whether `e` is the edge for call site `site` of `file`, resolved against
/// the functions `fs`.
pub open spec fn edge_of(fs: Seq<FunctionNode>, site: &CallSite, file: Seq<char>, e: &CallEdge) -> bool {
    let res = resolution(fs, site.callee@, file);
    &&& e.callee_name@ == site.callee@
    &&& e.line == site.range.start.line
    &&& e.resolved == (res.len() == 1)
    &&& e.resolved_candidates@.len() == res.len()
    &&& forall|c: int| 0 <= c < res.len() ==> (#[trigger] e.resolved_candidates@[c])@ == fs[res[c]].id@
}

/// The call sites of the function that node `n` comes from.
pub open spec fn sites_of(outs: Seq<FileOutcome>, fi: int, fj: int) -> Seq<CallSite> {
    match outs[fi] {
        FileOutcome::Extracted(fx) => fx.functions@[fj].calls@,
        FileOutcome::Failed { .. } => Seq::empty(),
    }
}

/// The edges of the call sites `sites` of `file`.
fn resolve_sites(fs: &Vec<FunctionNode>, dirs: &Vec<String>, sites: &Vec<CallSite>, file: &String) -> (r: Vec<CallEdge>)
    requires
        dirs@.len() == fs@.len(),
        forall|i: int| 0 <= i < dirs@.len() ==> #[trigger] dirs@[i]@ == dir_of(fs@[i].file@),
    ensures
        r@.len() == sites@.len(),
        forall|k: int| 0 <= k < r@.len() ==> edge_of(fs@, &sites@[k], file@, #[trigger] &r@[k]),
{
    let mut r: Vec<CallEdge> = Vec::new();
    let mut k: usize = 0;
    while k < sites.len()
        invariant
            k <= sites@.len(),
            dirs@.len() == fs@.len(),
            forall|i: int| 0 <= i < dirs@.len() ==> #[trigger] dirs@[i]@ == dir_of(fs@[i].file@),
            r@.len() == k,
            forall|kk: int| 0 <= kk < r@.len() ==> edge_of(fs@, &sites@[kk], file@, #[trigger] &r@[kk]),
        decreases sites@.len() - k,
    {
        let site = &sites[k];
        let targets = resolve_targets(fs, dirs, &site.callee, file);
        let mut cands: Vec<String> = Vec::new();
        let mut c: usize = 0;
        while c < targets.len()
            invariant
                c <= targets@.len(),
                forall|j: int| 0 <= j < targets@.len() ==> targets@[j] < fs@.len(),
                cands@.len() == c,
                forall|j: int| 0 <= j < c ==> (#[trigger] cands@[j])@ == fs@[targets@[j] as int].id@,
            decreases targets@.len() - c,
        {
            cands.push(fs[targets[c]].id.clone());
            c = c + 1;
        }
        let e = CallEdge {
            callee_name: site.callee.clone(),
            resolved: targets.len() == 1,
            resolved_candidates: cands,
            line: site.range.start.line,
        };
        let ghost r0 = r@;
        r.push(e);
        proof {
            let res = resolution(fs@, site.callee@, file@);
            assert forall|j: int| 0 <= j < res.len() implies (#[trigger] r@[k as int].resolved_candidates@[j])@ == fs@[res[j]].id@ by {
                assert(targets@[j] as int == res[j]);
            }
            assert forall|kk: int| 0 <= kk < r@.len() implies edge_of(fs@, &sites@[kk], file@, #[trigger] &r@[kk]) by {
                if kk < r0.len() {
                    assert(r@[kk] == r0[kk]);
                }
            }
        }
        k = k + 1;
    }
    r
}

/// Whether call `c` is resolved to the single candidate `id`.
pub open spec fn resolves_to_id(c: CallEdge, id: Seq<char>) -> bool {
    &&& c.resolved
    &&& c.resolved_candidates@.len() == 1
    &&& c.resolved_candidates@[0]@ == id
}

/// Whether some resolved call of `fs` leads to the function with id `id`.
/// Ambiguous and unresolved calls do not count.
pub open spec fn called_in(fs: Seq<FunctionNode>, id: Seq<char>) -> bool {
    exists|j: int, k: int|
        0 <= j < fs.len() && 0 <= k < fs[j].calls@.len() && #[trigger] resolves_to_id(fs[j].calls@[k], id)
}

fn is_called(fs: &Vec<FunctionNode>, id: &String) -> (r: bool)
    ensures
        r == called_in(fs@, id@),
{
    let mut j: usize = 0;
    while j < fs.len()
        invariant
            j <= fs@.len(),
            forall|jj: int, k: int|
                0 <= jj < j && 0 <= k < fs@[jj].calls@.len() ==> !#[trigger] resolves_to_id(fs@[jj].calls@[k], id@),
        decreases fs@.len() - j,
    {
        let calls = &fs[j].calls;
        let mut k: usize = 0;
        while k < calls.len()
            invariant
                j < fs@.len(),
                calls == &fs@[j as int].calls,
                k <= calls@.len(),
                forall|jj: int, k: int|
                    0 <= jj < j && 0 <= k < fs@[jj].calls@.len() ==> !#[trigger] resolves_to_id(fs@[jj].calls@[k], id@),
                forall|kk: int| 0 <= kk < k ==> !#[trigger] resolves_to_id(calls@[kk], id@),
            decreases calls@.len() - k,
        {
            let c = &calls[k];
            if c.resolved && c.resolved_candidates.len() == 1 && c.resolved_candidates[0] == *id {
                assert(resolves_to_id(fs@[j as int].calls@[k as int], id@));
                return true;
            }
            k = k + 1;
        }
        j = j + 1;
    }
    false
}

/// Whether function `name` of file `fi` is marked as an entry point.
pub open spec fn marked(outs: Seq<FileOutcome>, fi: int, name: Seq<char>) -> bool {
    match outs[fi] {
        FileOutcome::Extracted(fx) => crate::forward::in_strings(fx.entry_markers@, name),
        FileOutcome::Failed { .. } => false,
    }
}

/// Whether node `i` of `fs` is built from function `fj` of file `fi`: its
/// fields, its resolved call sites, and its entry-point flag.
pub open spec fn node_of(outs: Seq<FileOutcome>, fs: Seq<FunctionNode>, i: int, fi: int, fj: int) -> bool {
    &&& node_base(outs, &fs[i], fi, fj)
    &&& fs[i].calls@.len() == sites_of(outs, fi, fj).len()
    &&& forall|k: int|
        0 <= k < fs[i].calls@.len() ==> edge_of(fs, &sites_of(outs, fi, fj)[k], fs[i].file@, #[trigger] &fs[i].calls@[k])
    &&& fs[i].is_entry_point == (!called_in(fs, fs[i].id@) || marked(outs, fi, fs[i].name@))
}

/// Whether node `i` of `fs` is built from some extracted function.
pub open spec fn node_built(outs: Seq<FileOutcome>, fs: Seq<FunctionNode>, i: int) -> bool {
    exists|fi: int, fj: int| #[trigger] node_of(outs, fs, i, fi, fj)
}

/// The ids of the entry points of `fs`, in order.
pub open spec fn entry_ids(fs: Seq<FunctionNode>) -> Seq<Seq<char>>
    decreases fs.len(),
{
    if fs.len() == 0 {
        Seq::empty()
    } else if fs.last().is_entry_point {
        entry_ids(fs.drop_last()).push(fs.last().id@)
    } else {
        entry_ids(fs.drop_last())
    }
}

/// The ids of the functions of `fs` that access data, in order.
pub open spec fn accessor_ids(fs: Seq<FunctionNode>) -> Seq<Seq<char>>
    decreases fs.len(),
{
    if fs.len() == 0 {
        Seq::empty()
    } else if fs.last().data_access@.len() > 0 {
        accessor_ids(fs.drop_last()).push(fs.last().id@)
    } else {
        accessor_ids(fs.drop_last())
    }
}

/// Whether `g` is the call graph built from `outs`.
pub open spec fn built_from(outs: Seq<FileOutcome>, g: &CallGraph) -> bool {
    &&& ids_unique(g)
    &&& forall|i: int| 0 <= i < g.functions@.len() ==> #[trigger] node_built(outs, g.functions@, i)
    &&& forall|fi: int, fj: int| 0 <= fi < outs.len() ==> #[trigger] function_kept(outs, fi, fj, g.functions@)
    &&& g.entry_points@.map_values(|s: String| s@) == entry_ids(g.functions@)
    &&& g.data_accessors@.map_values(|s: String| s@) == accessor_ids(g.functions@)
}

proof fn lemma_same_candidates(a: Seq<FunctionNode>, b: Seq<FunctionNode>, name: Seq<char>, file: Seq<char>, scope: Scope)
    requires
        a.len() == b.len(),
        forall|i: int| 0 <= i < a.len() ==> (#[trigger] a[i]).name@ == b[i].name@ && a[i].file@ == b[i].file@,
    ensures
        candidates(a, name, file, scope) == candidates(b, name, file, scope),
    decreases a.len(),
{
    if a.len() > 0 {
        lemma_same_candidates(a.drop_last(), b.drop_last(), name, file, scope);
        assert(a.last() == a[a.len() - 1]);
    }
}

/// Edges depend on the names, files and ids of the functions alone.
proof fn lemma_same_edges(a: Seq<FunctionNode>, b: Seq<FunctionNode>, site: &CallSite, file: Seq<char>, e: &CallEdge)
    requires
        a.len() == b.len(),
        forall|i: int| 0 <= i < a.len() ==> (#[trigger] a[i]).name@ == b[i].name@ && a[i].file@ == b[i].file@ && a[i].id@ == b[i].id@,
        edge_of(a, site, file, e),
    ensures
        edge_of(b, site, file, e),
{
    lemma_same_candidates(a, b, site.callee@, file, Scope::File);
    lemma_same_candidates(a, b, site.callee@, file, Scope::Module);
    lemma_same_candidates(a, b, site.callee@, file, Scope::Project);
    lemma_candidates_in_range(a, site.callee@, file, Scope::File);
    lemma_candidates_in_range(a, site.callee@, file, Scope::Module);
    lemma_candidates_in_range(a, site.callee@, file, Scope::Project);
    let res = resolution(a, site.callee@, file);
    assert forall|c: int| 0 <= c < res.len() implies (#[trigger] e.resolved_candidates@[c])@ == b[res[c]].id@ by {
        assert(a[res[c]].id@ == b[res[c]].id@);
    }
}

/// Whether `b` holds the nodes of `a`, with the same fields but the calls
/// and the entry-point flag.
pub open spec fn same_nodes(a: Seq<FunctionNode>, b: Seq<FunctionNode>) -> bool {
    &&& a.len() == b.len()
    &&& forall|i: int|
        0 <= i < a.len() ==> {
            &&& (#[trigger] b[i]).id == a[i].id
            &&& b[i].name == a[i].name
            &&& b[i].qualified_name == a[i].qualified_name
            &&& b[i].file == a[i].file
            &&& b[i].start_line == a[i].start_line
            &&& b[i].end_line == a[i].end_line
            &&& b[i].data_access == a[i].data_access
        }
}

/// Builds the call graph of the files that extraction reported on. Returns
/// the graph and the messages of the files whose extraction failed, which
/// are left out.
pub fn build_graph(outs: &Vec<FileOutcome>) -> (r: (CallGraph, Vec<String>))
    ensures
        built_from(outs@, &r.0),
        r.1@.len() == failure_messages(outs@).len(),
        forall|k: int| 0 <= k < r.1@.len() ==> #[trigger] r.1@[k]@ == failure_messages(outs@)[k],
{
    let (mut nodes, sources, errors) = collect_functions(outs);
    let n = nodes.len();
    let ghost orig = nodes@;
    let mut dirs: Vec<String> = Vec::new();
    let mut i: usize = 0;
    while i < n
        invariant
            n == nodes@.len(),
            i <= n,
            dirs@.len() == i,
            forall|j: int| 0 <= j < i ==> #[trigger] dirs@[j]@ == dir_of(nodes@[j].file@),
        decreases n - i,
    {
        dirs.push(module_of(nodes[i].file.as_str()));
        i = i + 1;
    }
    let empty: Vec<CallSite> = Vec::new();
    let mut all_edges: Vec<Vec<CallEdge>> = Vec::new();
    let mut i: usize = 0;
    while i < n
        invariant
            n == nodes@.len(),
            nodes@ == orig,
            n == sources@.len(),
            empty@.len() == 0,
            i <= n,
            dirs@.len() == n,
            forall|j: int| 0 <= j < n ==> #[trigger] dirs@[j]@ == dir_of(nodes@[j].file@),
            forall|j: int| 0 <= j < n ==> node_base(outs@, #[trigger] &nodes@[j], sources@[j].0 as int, sources@[j].1 as int),
            all_edges@.len() == i,
            forall|j: int|
                0 <= j < i ==> (#[trigger] all_edges@[j])@.len() == sites_of(outs@, sources@[j].0 as int, sources@[j].1 as int).len()
                    && forall|k: int|
                    0 <= k < all_edges@[j]@.len() ==> edge_of(
                        nodes@,
                        &sites_of(outs@, sources@[j].0 as int, sources@[j].1 as int)[k],
                        nodes@[j].file@,
                        #[trigger] &all_edges@[j]@[k],
                    ),
        decreases n - i,
    {
        let (fi, fj) = sources[i];
        assert(node_base(outs@, &nodes@[i as int], fi as int, fj as int));
        let sites: &Vec<CallSite> = match &outs[fi] {
            FileOutcome::Extracted(fx) => &fx.functions[fj].calls,
            FileOutcome::Failed { .. } => &empty,
        };
        let edges = resolve_sites(&nodes, &dirs, sites, &nodes[i].file);
        let ghost a0 = all_edges@;
        all_edges.push(edges);
        proof {
            assert forall|j: int| 0 <= j < i + 1 implies (#[trigger] all_edges@[j])@.len() == sites_of(outs@, sources@[j].0 as int, sources@[j].1 as int).len()
                && forall|k: int|
                0 <= k < all_edges@[j]@.len() ==> edge_of(
                    nodes@,
                    &sites_of(outs@, sources@[j].0 as int, sources@[j].1 as int)[k],
                    nodes@[j].file@,
                    #[trigger] &all_edges@[j]@[k],
                ) by {
                if j < i {
                    assert(all_edges@[j] == a0[j]);
                }
            }
        }
        i = i + 1;
    }
    let ghost edges_g = all_edges@;
    let mut fs: Vec<FunctionNode> = Vec::new();
    let mut i: usize = 0;
    while i < n
        invariant
            n == orig.len(),
            n == edges_g.len(),
            i <= n,
            nodes@ == orig.subrange(i as int, n as int),
            all_edges@ == edges_g.subrange(i as int, n as int),
            fs@.len() == i,
            forall|j: int|
                0 <= j < i ==> {
                    &&& (#[trigger] fs@[j]).id == orig[j].id
                    &&& fs@[j].name == orig[j].name
                    &&& fs@[j].qualified_name == orig[j].qualified_name
                    &&& fs@[j].file == orig[j].file
                    &&& fs@[j].start_line == orig[j].start_line
                    &&& fs@[j].end_line == orig[j].end_line
                    &&& fs@[j].data_access == orig[j].data_access
                    &&& fs@[j].calls == edges_g[j]
                },
        decreases n - i,
    {
        let node = nodes.remove(0);
        let calls = all_edges.remove(0);
        proof {
            assert(node == orig[i as int]);
            assert(calls == edges_g[i as int]);
            assert(nodes@ =~= orig.subrange(i + 1, n as int));
            assert(all_edges@ =~= edges_g.subrange(i + 1, n as int));
        }
        fs.push(FunctionNode {
            id: node.id,
            name: node.name,
            qualified_name: node.qualified_name,
            file: node.file,
            start_line: node.start_line,
            end_line: node.end_line,
            calls,
            data_access: node.data_access,
            is_entry_point: false,
        });
        i = i + 1;
    }
    let ghost fs0 = fs@;
    let mut flags: Vec<bool> = Vec::new();
    let mut t: usize = 0;
    while t < n
        invariant
            n == fs@.len(),
            fs@ == fs0,
            n == sources@.len(),
            t <= n,
            flags@.len() == t,
            forall|j: int| 0 <= j < n ==> node_base(outs@, #[trigger] &orig[j], sources@[j].0 as int, sources@[j].1 as int),
            forall|j: int| 0 <= j < n ==> (#[trigger] fs@[j]).name == orig[j].name,
            forall|j: int|
                0 <= j < t ==> #[trigger] flags@[j] == (!called_in(fs0, fs0[j].id@) || marked(outs@, sources@[j].0 as int, fs0[j].name@)),
        decreases n - t,
    {
        let called = is_called(&fs, &fs[t].id);
        let (fi, fj) = sources[t];
        assert(node_base(outs@, &orig[t as int], fi as int, fj as int));
        let marker = match &outs[fi] {
            FileOutcome::Extracted(fx) => crate::forward::contains_string(&fx.entry_markers, &fs[t].name),
            FileOutcome::Failed { .. } => false,
        };
        flags.push(!called || marker);
        t = t + 1;
    }
    let mut fs2: Vec<FunctionNode> = Vec::new();
    let mut i: usize = 0;
    while i < n
        invariant
            n == fs0.len(),
            n == flags@.len(),
            i <= n,
            fs@ == fs0.subrange(i as int, n as int),
            fs2@.len() == i,
            forall|j: int|
                0 <= j < i ==> {
                    &&& (#[trigger] fs2@[j]).id == fs0[j].id
                    &&& fs2@[j].name == fs0[j].name
                    &&& fs2@[j].qualified_name == fs0[j].qualified_name
                    &&& fs2@[j].file == fs0[j].file
                    &&& fs2@[j].start_line == fs0[j].start_line
                    &&& fs2@[j].end_line == fs0[j].end_line
                    &&& fs2@[j].data_access == fs0[j].data_access
                    &&& fs2@[j].calls == fs0[j].calls
                    &&& fs2@[j].is_entry_point == flags@[j]
                },
        decreases n - i,
    {
        let node = fs.remove(0);
        proof {
            assert(node == fs0[i as int]);
            assert(fs@ =~= fs0.subrange(i + 1, n as int));
        }
        fs2.push(FunctionNode {
            id: node.id,
            name: node.name,
            qualified_name: node.qualified_name,
            file: node.file,
            start_line: node.start_line,
            end_line: node.end_line,
            calls: node.calls,
            data_access: node.data_access,
            is_entry_point: flags[i],
        });
        i = i + 1;
    }
    let ghost fsf = fs2@;
    proof {
        assert forall|x: Seq<char>| called_in(fs0, x) == called_in(fsf, x) by {
            if called_in(fs0, x) {
                let (j, k) = choose|j: int, k: int|
                    0 <= j < fs0.len() && 0 <= k < fs0[j].calls@.len() && #[trigger] resolves_to_id(fs0[j].calls@[k], x);
                assert(fsf[j].calls == fs0[j].calls);
                assert(resolves_to_id(fsf[j].calls@[k], x));
            }
            if called_in(fsf, x) {
                let (j, k) = choose|j: int, k: int|
                    0 <= j < fsf.len() && 0 <= k < fsf[j].calls@.len() && #[trigger] resolves_to_id(fsf[j].calls@[k], x);
                assert(fsf[j].calls == fs0[j].calls);
                assert(resolves_to_id(fs0[j].calls@[k], x));
            }
        }
        assert forall|i: int| 0 <= i < n implies #[trigger] node_built(outs@, fsf, i) by {
            let fi = sources@[i].0 as int;
            let fj = sources@[i].1 as int;
            assert(node_base(outs@, &orig[i], fi, fj));
            assert(fsf[i].calls == edges_g[i]);
            assert forall|k: int| 0 <= k < fsf[i].calls@.len() implies edge_of(fsf, &sites_of(outs@, fi, fj)[k], fsf[i].file@, #[trigger] &fsf[i].calls@[k]) by {
                assert(edge_of(orig, &sites_of(outs@, fi, fj)[k], orig[i].file@, &edges_g[i]@[k]));
                lemma_same_edges(orig, fsf, &sites_of(outs@, fi, fj)[k], orig[i].file@, &edges_g[i]@[k]);
            }
            assert(node_of(outs@, fsf, i, fi, fj));
        }
        assert forall|fi: int, fj: int| 0 <= fi < outs@.len() implies #[trigger] function_kept(outs@, fi, fj, fsf) by {
            assert(function_kept(outs@, fi, fj, orig));
            if let FileOutcome::Extracted(fx) = outs@[fi] {
                if 0 <= fj < fx.functions@.len() {
                    let x = id_of(fx.file@, fx.functions@[fj].name@, fx.functions@[fj].start_line);
                    let j = choose|j: int| 0 <= j < orig.len() && #[trigger] orig[j].id@ == x;
                    assert(fsf[j].id == orig[j].id);
                }
            }
        }
    }
    let entry_points = entry_index(&fs2);
    let data_accessors = accessor_index(&fs2);
    let g = CallGraph { functions: fs2, entry_points, data_accessors };
    proof {
        assert forall|a: int, b: int|
            0 <= a < g.functions@.len() && 0 <= b < g.functions@.len() && a != b
                implies #[trigger] g.functions@[a].id@ != #[trigger] g.functions@[b].id@ by {
            assert(orig[a].id@ != orig[b].id@);
        }
    }
    (g, errors)
}

/// The ids of the entry points of `fs`, in order.
pub(crate) fn entry_index(fs: &Vec<FunctionNode>) -> (r: Vec<String>)
    ensures
        r@.map_values(|s: String| s@) == entry_ids(fs@),
{
    let mut r: Vec<String> = Vec::new();
    let mut i: usize = 0;
    while i < fs.len()
        invariant
            i <= fs@.len(),
            r@.map_values(|s: String| s@) == entry_ids(fs@.subrange(0, i as int)),
        decreases fs@.len() - i,
    {
        let ghost pre = fs@.subrange(0, i + 1);
        proof {
            assert(pre.drop_last() =~= fs@.subrange(0, i as int));
            assert(pre.last() == fs@[i as int]);
        }
        if fs[i].is_entry_point {
            let ghost r0 = r@;
            r.push(fs[i].id.clone());
            assert(r@.map_values(|s: String| s@) =~= r0.map_values(|s: String| s@).push(fs@[i as int].id@));
        }
        i = i + 1;
    }
    assert(fs@.subrange(0, fs@.len() as int) =~= fs@);
    r
}

/// The ids of the functions of `fs` that access data, in order.
pub(crate) fn accessor_index(fs: &Vec<FunctionNode>) -> (r: Vec<String>)
    ensures
        r@.map_values(|s: String| s@) == accessor_ids(fs@),
{
    let mut r: Vec<String> = Vec::new();
    let mut i: usize = 0;
    while i < fs.len()
        invariant
            i <= fs@.len(),
            r@.map_values(|s: String| s@) == accessor_ids(fs@.subrange(0, i as int)),
        decreases fs@.len() - i,
    {
        let ghost pre = fs@.subrange(0, i + 1);
        proof {
            assert(pre.drop_last() =~= fs@.subrange(0, i as int));
            assert(pre.last() == fs@[i as int]);
        }
        if fs[i].data_access.len() > 0 {
            let ghost r0 = r@;
            r.push(fs[i].id.clone());
            assert(r@.map_values(|s: String| s@) =~= r0.map_values(|s: String| s@).push(fs@[i as int].id@));
        }
        i = i + 1;
    }
    assert(fs@.subrange(0, fs@.len() as int) =~= fs@);
    r
}

/// Totals of a build.
#[derive(Debug)]
pub struct BuildStats {
    pub files_processed: usize,
    pub total_functions: usize,
    pub total_calls: usize,
    pub resolved_calls: usize,
    /// Resolved calls per thousand calls; 0 when there are no calls.
    pub resolution_permille: u32,
    pub entry_points: usize,
    pub data_accessors: usize,
    /// The messages of the files whose extraction failed.
    pub errors: Vec<String>,
}

/// `x`, or the largest `usize` where `x` exceeds it.
pub open spec fn capped(x: nat) -> nat {
    if x <= usize::MAX {
        x
    } else {
        usize::MAX as nat
    }
}

/// How many calls the functions of `fs` make.
pub open spec fn call_count(fs: Seq<FunctionNode>) -> nat
    decreases fs.len(),
{
    if fs.len() == 0 {
        0
    } else {
        call_count(fs.drop_last()) + fs.last().calls@.len()
    }
}

/// How many of `cs` are resolved.
pub open spec fn resolved_in(cs: Seq<CallEdge>) -> nat
    decreases cs.len(),
{
    if cs.len() == 0 {
        0
    } else {
        resolved_in(cs.drop_last()) + if cs.last().resolved {
            1nat
        } else {
            0nat
        }
    }
}

/// How many calls of the functions of `fs` are resolved.
pub open spec fn resolved_count(fs: Seq<FunctionNode>) -> nat
    decreases fs.len(),
{
    if fs.len() == 0 {
        0
    } else {
        resolved_count(fs.drop_last()) + resolved_in(fs.last().calls@)
    }
}

proof fn lemma_resolved_in_bound(cs: Seq<CallEdge>)
    ensures
        resolved_in(cs) <= cs.len(),
    decreases cs.len(),
{
    if cs.len() > 0 {
        lemma_resolved_in_bound(cs.drop_last());
    }
}

fn count_resolved(cs: &Vec<CallEdge>) -> (r: usize)
    ensures
        r == resolved_in(cs@),
{
    let mut r: usize = 0;
    let mut i: usize = 0;
    while i < cs.len()
        invariant
            i <= cs@.len(),
            r == resolved_in(cs@.subrange(0, i as int)),
        decreases cs@.len() - i,
    {
        let ghost pre = cs@.subrange(0, i + 1);
        proof {
            assert(pre.drop_last() =~= cs@.subrange(0, i as int));
            lemma_resolved_in_bound(cs@.subrange(0, i as int));
        }
        if cs[i].resolved {
            r = r + 1;
        }
        i = i + 1;
    }
    assert(cs@.subrange(0, cs@.len() as int) =~= cs@);
    r
}

/// Whether `st` holds the totals of graph `g` built from `outs`.
pub open spec fn stats_of(outs: Seq<FileOutcome>, g: &CallGraph, st: &BuildStats) -> bool {
    &&& st.files_processed == outs.len()
    &&& st.total_functions == g.functions@.len()
    &&& st.total_calls == capped(call_count(g.functions@))
    &&& st.resolved_calls == capped(resolved_count(g.functions@))
    &&& st.resolution_permille == if st.total_calls == 0 {
        0
    } else {
        st.resolved_calls as int * 1000 / st.total_calls as int
    }
    &&& st.entry_points == g.entry_points@.len()
    &&& st.data_accessors == g.data_accessors@.len()
    &&& st.errors@.len() == failure_messages(outs).len()
    &&& forall|k: int| 0 <= k < st.errors@.len() ==> #[trigger] st.errors@[k]@ == failure_messages(outs)[k]
}

/// Builds the call graph of the files that extraction reported on, and its
/// totals.
pub fn build(outs: &Vec<FileOutcome>) -> (r: (CallGraph, BuildStats))
    ensures
        built_from(outs@, &r.0),
        stats_of(outs@, &r.0, &r.1),
{
    let (g, errors) = build_graph(outs);
    let fs = &g.functions;
    let (total, resolved) = count_calls(fs);
    let resolution_permille: u32 = if total == 0 {
        0
    } else {
        assert(resolved <= total) by {
            lemma_counts_ordered(fs@);
        }
        assert(resolved as int * 1000 / total as int <= 1000) by (nonlinear_arith)
            requires resolved <= total, total > 0;
        ((resolved as u128 * 1000) / total as u128) as u32
    };
    let stats = BuildStats {
        files_processed: outs.len(),
        total_functions: g.functions.len(),
        total_calls: total,
        resolved_calls: resolved,
        resolution_permille,
        entry_points: g.entry_points.len(),
        data_accessors: g.data_accessors.len(),
        errors,
    };
    (g, stats)
}

/// How many calls the functions of `fs` make, and how many are resolved,
/// each capped at the largest `usize`.
pub(crate) fn count_calls(fs: &Vec<FunctionNode>) -> (r: (usize, usize))
    ensures
        r.0 == capped(call_count(fs@)),
        r.1 == capped(resolved_count(fs@)),
{
    let mut total: usize = 0;
    let mut resolved: usize = 0;
    let mut i: usize = 0;
    while i < fs.len()
        invariant
            i <= fs@.len(),
            total == capped(call_count(fs@.subrange(0, i as int))),
            resolved == capped(resolved_count(fs@.subrange(0, i as int))),
        decreases fs@.len() - i,
    {
        let ghost pre = fs@.subrange(0, i + 1);
        proof {
            assert(pre.drop_last() =~= fs@.subrange(0, i as int));
            assert(pre.last() == fs@[i as int]);
        }
        total = total.saturating_add(fs[i].calls.len());
        resolved = resolved.saturating_add(count_resolved(&fs[i].calls));
        i = i + 1;
    }
    assert(fs@.subrange(0, fs@.len() as int) =~= fs@);
    (total, resolved)
}

proof fn lemma_counts_ordered(fs: Seq<FunctionNode>)
    ensures
        resolved_count(fs) <= call_count(fs),
    decreases fs.len(),
{
    if fs.len() > 0 {
        lemma_counts_ordered(fs.drop_last());
        lemma_resolved_in_bound(fs.last().calls@);
    }
}

/// Every resolved call of `g` names exactly one candidate, and that
/// candidate is a function of `g`.
pub open spec fn resolution_sound(g: &CallGraph) -> bool {
    forall|i: int, k: int|
        0 <= i < g.functions@.len() && 0 <= k < g.functions@[i].calls@.len() && (#[trigger] g.functions@[i].calls@[k]).resolved
            ==> g.functions@[i].calls@[k].resolved_candidates@.len() == 1 && has_function(
            g,
            g.functions@[i].calls@[k].resolved_candidates@[0]@,
        )
}

/// Resolution is sound: in a built graph, a resolved call has exactly one
/// candidate, and that id is a function of the graph.
pub proof fn lemma_resolution_sound(outs: Seq<FileOutcome>, g: &CallGraph)
    requires
        built_from(outs, g),
    ensures
        resolution_sound(g),
{
    assert forall|i: int, k: int|
        0 <= i < g.functions@.len() && 0 <= k < g.functions@[i].calls@.len() && (#[trigger] g.functions@[i].calls@[k]).resolved
            implies g.functions@[i].calls@[k].resolved_candidates@.len() == 1 && has_function(
            g,
            g.functions@[i].calls@[k].resolved_candidates@[0]@,
        ) by {
        assert(node_built(outs, g.functions@, i));
        let (fi, fj) = choose|fi: int, fj: int| #[trigger] node_of(outs, g.functions@, i, fi, fj);
        let site = sites_of(outs, fi, fj)[k];
        let fs = g.functions@;
        let e = fs[i].calls@[k];
        assert(edge_of(fs, &site, fs[i].file@, &e));
        let res = resolution(fs, site.callee@, fs[i].file@);
        lemma_candidates_in_range(fs, site.callee@, fs[i].file@, Scope::File);
        lemma_candidates_in_range(fs, site.callee@, fs[i].file@, Scope::Module);
        lemma_candidates_in_range(fs, site.callee@, fs[i].file@, Scope::Project);
        assert(0 <= res[0] < fs.len());
        assert((e.resolved_candidates@[0])@ == fs[res[0]].id@);
    }
}

/// Ids are idempotent: two builds of the same extraction output give a
/// function, known by its file, name and start line, the same id, and hold
/// the same ids.
pub proof fn lemma_ids_idempotent(outs: Seq<FileOutcome>, g1: &CallGraph, g2: &CallGraph)
    requires
        built_from(outs, g1),
        built_from(outs, g2),
    ensures
        forall|i: int, j: int|
            0 <= i < g1.functions@.len() && 0 <= j < g2.functions@.len() && g1.functions@[i].file@ == g2.functions@[j].file@
                && g1.functions@[i].name@ == g2.functions@[j].name@ && g1.functions@[i].start_line
                == g2.functions@[j].start_line ==> #[trigger] g1.functions@[i].id@ == #[trigger] g2.functions@[j].id@,
        forall|i: int| 0 <= i < g1.functions@.len() ==> id_in(g2.functions@, #[trigger] g1.functions@[i].id@),
        forall|j: int| 0 <= j < g2.functions@.len() ==> id_in(g1.functions@, #[trigger] g2.functions@[j].id@),
{
    assert forall|i: int, j: int|
        0 <= i < g1.functions@.len() && 0 <= j < g2.functions@.len() && g1.functions@[i].file@ == g2.functions@[j].file@
            && g1.functions@[i].name@ == g2.functions@[j].name@ && g1.functions@[i].start_line
            == g2.functions@[j].start_line implies #[trigger] g1.functions@[i].id@ == #[trigger] g2.functions@[j].id@ by {
        lemma_node_id(outs, g1.functions@, i);
        lemma_node_id(outs, g2.functions@, j);
    }
    assert forall|i: int| 0 <= i < g1.functions@.len() implies id_in(g2.functions@, #[trigger] g1.functions@[i].id@) by {
        lemma_node_kept(outs, g1.functions@, g2.functions@, i);
    }
    assert forall|j: int| 0 <= j < g2.functions@.len() implies id_in(g1.functions@, #[trigger] g2.functions@[j].id@) by {
        lemma_node_kept(outs, g2.functions@, g1.functions@, j);
    }
}

proof fn lemma_node_id(outs: Seq<FileOutcome>, fs: Seq<FunctionNode>, i: int)
    requires
        0 <= i < fs.len(),
        node_built(outs, fs, i),
    ensures
        fs[i].id@ == id_of(fs[i].file@, fs[i].name@, fs[i].start_line),
{
    let (fi, fj) = choose|fi: int, fj: int| #[trigger] node_of(outs, fs, i, fi, fj);
    assert(node_base(outs, &fs[i], fi, fj));
}

proof fn lemma_node_kept(outs: Seq<FileOutcome>, fs: Seq<FunctionNode>, other: Seq<FunctionNode>, i: int)
    requires
        0 <= i < fs.len(),
        node_built(outs, fs, i),
        forall|fi: int, fj: int| 0 <= fi < outs.len() ==> #[trigger] function_kept(outs, fi, fj, other),
    ensures
        id_in(other, fs[i].id@),
{
    let (fi, fj) = choose|fi: int, fj: int| #[trigger] node_of(outs, fs, i, fi, fj);
    assert(node_base(outs, &fs[i], fi, fj));
    assert(function_kept(outs, fi, fj, other));
}

/// Ambiguity is kept: in a built graph, a call whose callee name matches
/// two or more functions at the first scope that matches any (same file,
/// then same directory, then the whole project) stays unresolved and lists
/// every one of them.
pub proof fn lemma_ambiguity_kept(outs: Seq<FileOutcome>, g: &CallGraph, i: int, k: int)
    requires
        built_from(outs, g),
        0 <= i < g.functions@.len(),
        0 <= k < g.functions@[i].calls@.len(),
        resolution(g.functions@, g.functions@[i].calls@[k].callee_name@, g.functions@[i].file@).len() >= 2,
    ensures
        !g.functions@[i].calls@[k].resolved,
        g.functions@[i].calls@[k].resolved_candidates@.len() == resolution(
            g.functions@,
            g.functions@[i].calls@[k].callee_name@,
            g.functions@[i].file@,
        ).len(),
        forall|c: int|
            0 <= c < g.functions@[i].calls@[k].resolved_candidates@.len() ==> (#[trigger] g.functions@[i].calls@[k].resolved_candidates@[c])@
                == g.functions@[resolution(g.functions@, g.functions@[i].calls@[k].callee_name@, g.functions@[i].file@)[c]].id@,
{
    assert(node_built(outs, g.functions@, i));
    let (fi, fj) = choose|fi: int, fj: int| #[trigger] node_of(outs, g.functions@, i, fi, fj);
    let site = sites_of(outs, fi, fj)[k];
    assert(edge_of(g.functions@, &site, g.functions@[i].file@, &g.functions@[i].calls@[k]));
}

} // verus!
