//! Building the internal import DAG of a source tree for one backend.

use vstd::prelude::*;
use crate::graph::{Edge, GraphNode, ImportGraph, SourceFile, SourceTree, text_at};
use crate::order::{lt, sorted, sorted_set_of, set_contains, strs, lemma_lt_irrefl, lemma_lt_trans};
use crate::path::extension_of;
use crate::prover::{str_views, Backend};
use crate::text::{chars_of, has_prefix, slice_vec, starts_with, string_of, str_eq};

verus! {

/// The path of `file` below `root` as text: what follows `root` and its
/// separator, or `file` itself when it does not start that way.
pub open spec fn rel_text(file: Seq<char>, root: Seq<char>) -> Seq<char> {
    if root.len() > 0 && root.last() == '/' && starts_with(file, root) {
        file.skip(root.len() as int)
    } else if starts_with(file, root + seq!['/']) {
        file.skip(root.len() as int + 1)
    } else {
        file
    }
}

/// `file` has one of the backend's extensions.
pub open spec fn claimed<B: Backend>(b: B, file: Seq<char>) -> bool {
    extension_of(file) matches Some(e) && b.exts_spec().contains(e)
}

/// The (module, relative path) of every claimed, nameable file, in tree
/// order.
pub open spec fn graph_cands<B: Backend>(b: B, root: Seq<char>, files: Seq<SourceFile>) -> Seq<(Seq<char>, Seq<char>)>
    decreases files.len(),
{
    if files.len() == 0 {
        Seq::empty()
    } else {
        let rest = graph_cands(b, root, files.drop_last());
        let p = files.last().path@;
        if claimed(b, p) && b.module_id_spec(p, root) is Some {
            rest.push((b.module_id_spec(p, root)->0, rel_text(p, root)))
        } else {
            rest
        }
    }
}

/// The modules of the candidates.
pub open spec fn cand_ids(cs: Seq<(Seq<char>, Seq<char>)>) -> Seq<Seq<char>> {
    cs.map_values(|c: (Seq<char>, Seq<char>)| c.0)
}

/// The relative path of the last candidate named `id` (a later file with
/// the same module name replaces an earlier one).
pub open spec fn last_rel(cs: Seq<(Seq<char>, Seq<char>)>, id: Seq<char>) -> Seq<char>
    decreases cs.len(),
{
    if cs.len() == 0 {
        Seq::empty()
    } else if cs.last().0 == id {
        cs.last().1
    } else {
        last_rel(cs.drop_last(), id)
    }
}

/// The module names of the nodes.
pub open spec fn node_ids(ns: Seq<GraphNode>) -> Seq<Seq<char>> {
    ns.map_values(|n: GraphNode| n.id@)
}

/// An edge as a pair of module names.
pub open spec fn edge_pair(e: Edge) -> (Seq<char>, Seq<char>) {
    (e.from@, e.to@)
}

/// The pairs of the edges.
pub open spec fn edge_pairs(es: Seq<Edge>) -> Seq<(Seq<char>, Seq<char>)> {
    es.map_values(|e: Edge| edge_pair(e))
}

/// Lexicographic order on (from, to) pairs.
pub open spec fn pair_lt(a: (Seq<char>, Seq<char>), b: (Seq<char>, Seq<char>)) -> bool {
    lt(a.0, b.0) || (a.0 == b.0 && lt(a.1, b.1))
}

/// Strictly increasing by (from, to): ordered, with each pair once.
pub open spec fn pairs_sorted(ps: Seq<(Seq<char>, Seq<char>)>) -> bool {
    forall|i: int, j: int| 0 <= i < j < ps.len() ==> pair_lt(#[trigger] ps[i], #[trigger] ps[j])
}

/// The source text the backend reads for module `id`.
pub open spec fn module_text<B: Backend>(b: B, root: Seq<char>, files: Seq<SourceFile>, id: Seq<char>) -> Option<Option<Seq<char>>> {
    text_at(files, b.module_path_spec(id, root))
}

/// Every module's file can be read.
pub open spec fn all_readable<B: Backend>(b: B, root: Seq<char>, files: Seq<SourceFile>) -> bool {
    forall|id: Seq<char>| #[trigger] cand_ids(graph_cands(b, root, files)).contains(id)
        ==> module_text(b, root, files, id) matches Some(Some(_))
}

/// `from` imports the in-tree module `to`.
pub open spec fn imports_edge<B: Backend>(b: B, root: Seq<char>, files: Seq<SourceFile>, from: Seq<char>, to: Seq<char>) -> bool {
    let ids = cand_ids(graph_cands(b, root, files));
    &&& ids.contains(from)
    &&& ids.contains(to)
    &&& module_text(b, root, files, from) matches Some(Some(t))
    &&& b.imports_spec(t).contains(to)
}

/// The import graph of `tree` below `include_root` for `backend`: one node
/// per module name among the files with the backend's extensions (a later
/// file with the same name replaces an earlier one), ordered by name; one
/// `imports` edge per pair of in-tree modules where the first imports the
/// second, ordered by (from, to), each once. Fails when a module's file
/// cannot be read. A backend with no import notion yields isolated nodes.
pub fn build<B: Backend>(include_root: &str, tree: &SourceTree, backend: &B) -> (r: Result<ImportGraph, String>)
    ensures
        r is Ok <==> all_readable(*backend, include_root@, tree.files@),
        r matches Ok(g) ==> {
            let cs = graph_cands(*backend, include_root@, tree.files@);
            &&& sorted(node_ids(g.nodes@))
            &&& node_ids(g.nodes@).to_set() == cand_ids(cs).to_set()
            &&& forall|i: int| 0 <= i < g.nodes@.len() ==> (#[trigger] g.nodes@[i]).file@ == last_rel(cs, g.nodes@[i].id@)
            &&& pairs_sorted(edge_pairs(g.edges@))
            &&& forall|f: Seq<char>, t: Seq<char>| #[trigger] edge_pairs(g.edges@).contains((f, t))
                <==> imports_edge(*backend, include_root@, tree.files@, f, t)
            &&& forall|i: int| 0 <= i < g.edges@.len() ==> (#[trigger] g.edges@[i]).kind@ == "imports"@
        },
{
    let cands = collect_cands(include_root, tree, backend);
    let mut ids_all: Vec<String> = Vec::new();
    let mut i: usize = 0;
    while i < cands.len()
        invariant
            i <= cands@.len(),
            strs(ids_all@) == cand_ids(cand_views(cands@)).take(i as int),
        decreases cands.len() - i,
    {
        let ghost prev = strs(ids_all@);
        ids_all.push(cands[i].0.clone());
        proof {
            assert(strs(ids_all@) =~= prev.push(cands@[i as int].0@));
            assert(cand_ids(cand_views(cands@)).take(i + 1) =~= cand_ids(cand_views(cands@)).take(i as int).push(cands@[i as int].0@));
        }
        i = i + 1;
    }
    assert(cand_ids(cand_views(cands@)).take(cands@.len() as int) =~= cand_ids(cand_views(cands@)));
    let ids = sorted_set_of(&ids_all);
    let ghost cs = graph_cands(*backend, include_root@, tree.files@);
    // nodes
    let mut nodes: Vec<GraphNode> = Vec::new();
    let mut k: usize = 0;
    while k < ids.len()
        invariant
            k <= ids@.len(),
            cand_views(cands@) == cs,
            node_ids(nodes@) == strs(ids@).take(k as int),
            forall|j: int| 0 <= j < nodes@.len() ==> (#[trigger] nodes@[j]).file@ == last_rel(cs, nodes@[j].id@),
        decreases ids.len() - k,
    {
        let rel = last_rel_of(&cands, ids[k].as_str());
        let ghost prev = node_ids(nodes@);
        nodes.push(GraphNode { id: ids[k].clone(), file: rel });
        proof {
            assert(node_ids(nodes@) =~= prev.push(ids@[k as int]@));
            assert(strs(ids@).take(k + 1) =~= strs(ids@).take(k as int).push(ids@[k as int]@));
        }
        k = k + 1;
    }
    assert(strs(ids@).take(ids@.len() as int) =~= strs(ids@));
    // edges
    assert(strs(ids_all@).to_set() == cand_ids(cs).to_set());
    let mut edges: Vec<Edge> = Vec::new();
    let mut k: usize = 0;
    while k < ids.len()
        invariant
            k <= ids@.len(),
            sorted(strs(ids@)),
            strs(ids@).to_set() == cand_ids(cs).to_set(),
            cs == graph_cands(*backend, include_root@, tree.files@),
            node_ids(nodes@) == strs(ids@),
            forall|j: int| 0 <= j < nodes@.len() ==> (#[trigger] nodes@[j]).file@ == last_rel(cs, nodes@[j].id@),
            pairs_sorted(edge_pairs(edges@)),
            forall|j: int| 0 <= j < edges@.len() ==> (#[trigger] edges@[j]).kind@ == "imports"@,
            forall|j: int| 0 <= j < edges@.len() ==> strs(ids@).take(k as int).contains((#[trigger] edges@[j]).from@),
            forall|j: int| 0 <= j < k ==> module_text(*backend, include_root@, tree.files@, #[trigger] strs(ids@)[j]) matches Some(Some(_)),
            forall|f: Seq<char>, t: Seq<char>| #[trigger] edge_pairs(edges@).contains((f, t))
                <==> (strs(ids@).take(k as int).contains(f) && imports_edge(*backend, include_root@, tree.files@, f, t)),
        decreases ids.len() - k,
    {
        let path = backend.module_to_path(ids[k].as_str(), include_root);
        let idx = match tree.find(path.as_str()) {
            None => {
                proof {
                    assert(cand_ids(cs).to_set().contains(ids@[k as int]@)) by {
                        assert(strs(ids@).to_set().contains(strs(ids@)[k as int]));
                    }
                    assert(cand_ids(cs).contains(ids@[k as int]@));
                }
                return Err(path);
            },
            Some(x) => x,
        };
        proof {
            crate::graph::lemma_file_pos(tree.files@, path@);
        }
        let text = match &tree.files[idx].text {
            None => {
                proof {
                    assert(cand_ids(cs).to_set().contains(ids@[k as int]@)) by {
                        assert(strs(ids@).to_set().contains(strs(ids@)[k as int]));
                    }
                    assert(cand_ids(cs).contains(ids@[k as int]@));
                }
                return Err(path);
            },
            Some(t) => t,
        };
        let imports = backend.direct_imports(text.as_str());
        let mut inside: Vec<String> = Vec::new();
        let mut q: usize = 0;
        while q < imports.len()
            invariant
                q <= imports@.len(),
                sorted(strs(ids@)),
                forall|t: Seq<char>| #[trigger] strs(inside@).contains(t) <==> (strs(imports@).take(q as int).contains(t) && strs(ids@).to_set().contains(t)),
            decreases imports.len() - q,
        {
            let ghost prev = strs(inside@);
            if set_contains(&ids, imports[q].as_str()) {
                inside.push(imports[q].clone());
                assert(strs(inside@) =~= prev.push(imports@[q as int]@));
            }
            proof {
                assert(strs(imports@).take(q + 1) =~= strs(imports@).take(q as int).push(imports@[q as int]@));
                assert forall|t: Seq<char>| #[trigger] strs(inside@).contains(t) <==> (strs(imports@).take(q + 1).contains(t) && strs(ids@).to_set().contains(t)) by {
                    crate::text::lemma_push_contains(strs(imports@).take(q as int), imports@[q as int]@, t);
                    crate::text::lemma_push_contains(prev, imports@[q as int]@, t);
                }
            }
            q = q + 1;
        }
        assert(strs(imports@).take(imports@.len() as int) =~= strs(imports@));
        let tos = sorted_set_of(&inside);
        let ghost before = edge_pairs(edges@);
        let ghost from = ids@[k as int]@;
        let mut q: usize = 0;
        while q < tos.len()
            invariant
                q <= tos@.len(),
                sorted(strs(tos@)),
                sorted(strs(ids@)),
                from == strs(ids@)[k as int],
                k < ids@.len(),
                edge_pairs(edges@) == before + strs(tos@).take(q as int).map_values(|t: Seq<char>| (from, t)),
                pairs_sorted(before),
                forall|j: int| 0 <= j < before.len() ==> strs(ids@).take(k as int).contains(#[trigger] before[j].0),
                pairs_sorted(edge_pairs(edges@)),
                forall|j: int| 0 <= j < edges@.len() ==> (#[trigger] edges@[j]).kind@ == "imports"@,
            decreases tos.len() - q,
        {
            let ghost prevp = edge_pairs(edges@);
            edges.push(Edge { from: ids[k].clone(), to: tos[q].clone(), kind: "imports" });
            proof {
                let np = (from, tos@[q as int]@);
                assert(edge_pairs(edges@) =~= prevp.push(np));
                assert(strs(tos@).take(q + 1).map_values(|t: Seq<char>| (from, t)) =~= strs(tos@).take(q as int).map_values(|t: Seq<char>| (from, t)).push(np));
                assert forall|a: int, b: int| 0 <= a < b < edge_pairs(edges@).len() implies pair_lt(#[trigger] edge_pairs(edges@)[a], #[trigger] edge_pairs(edges@)[b]) by {
                    if b == edge_pairs(edges@).len() - 1 {
                        if a < before.len() {
                            let f0 = before[a].0;
                            assert(strs(ids@).take(k as int).contains(f0));
                            let z = choose|z: int| 0 <= z < k && strs(ids@).take(k as int)[z] == f0;
                            assert(strs(ids@)[z] == f0);
                            assert(lt(strs(ids@)[z], strs(ids@)[k as int]));
                        } else {
                            let w = a - before.len();
                            assert(edge_pairs(edges@)[a] == (from, strs(tos@)[w]));
                            assert(lt(strs(tos@)[w], strs(tos@)[q as int]));
                        }
                    } else {
                        assert(edge_pairs(edges@)[a] == prevp[a]);
                        assert(edge_pairs(edges@)[b] == prevp[b]);
                    }
                }
            }
            q = q + 1;
        }
        proof {
            assert(strs(tos@).take(tos@.len() as int) =~= strs(tos@));
            let ids_s = strs(ids@);
            assert(ids_s.take(k + 1) =~= ids_s.take(k as int).push(from));
            assert(module_text(*backend, include_root@, tree.files@, from) == Some(Some(text@)));
            assert forall|f: Seq<char>, t: Seq<char>| #[trigger] edge_pairs(edges@).contains((f, t))
                <==> (ids_s.take(k + 1).contains(f) && imports_edge(*backend, include_root@, tree.files@, f, t)) by {
                crate::text::lemma_push_contains(ids_s.take(k as int), from, f);
                let newp = strs(tos@).map_values(|t: Seq<char>| (from, t));
                assert(edge_pairs(edges@) == before + newp);
                if edge_pairs(edges@).contains((f, t)) {
                    let z = choose|z: int| 0 <= z < edge_pairs(edges@).len() && edge_pairs(edges@)[z] == (f, t);
                    if z >= before.len() {
                        assert(newp[z - before.len()] == (f, t));
                        assert(strs(tos@).contains(t));
                        assert(strs(tos@).to_set().contains(t));
                        assert(strs(inside@).to_set().contains(t));
                        assert(strs(inside@).contains(t));
                        assert(cand_ids(cs).to_set().contains(t));
                        assert(cand_ids(cs).contains(t));
                        assert(ids_s.to_set().contains(f)) by { assert(ids_s.contains(f)); }
                        assert(cand_ids(cs).contains(f));
                    } else {
                        assert(before.contains((f, t)));
                    }
                }
                if ids_s.take(k + 1).contains(f) && imports_edge(*backend, include_root@, tree.files@, f, t) {
                    if ids_s.take(k as int).contains(f) {
                        assert(before.contains((f, t)));
                        let z = choose|z: int| 0 <= z < before.len() && before[z] == (f, t);
                        assert(edge_pairs(edges@)[z] == (f, t));
                    } else {
                        assert(f == from);
                        assert(strs(imports@).contains(t));
                        assert(cand_ids(cs).contains(t));
                        assert(cand_ids(cs).to_set().contains(t));
                        assert(strs(inside@).contains(t));
                        assert(strs(inside@).to_set().contains(t));
                        assert(strs(tos@).to_set().contains(t));
                        let z = choose|z: int| 0 <= z < strs(tos@).len() && strs(tos@)[z] == t;
                        assert(newp[z] == (f, t));
                        assert(edge_pairs(edges@)[before.len() + z] == (f, t));
                    }
                }
            }
            assert forall|j: int| 0 <= j < edges@.len() implies ids_s.take(k + 1).contains((#[trigger] edges@[j]).from@) by {
                if j < before.len() {
                    assert(edge_pairs(edges@)[j] == before[j]);
                    crate::text::lemma_push_contains(ids_s.take(k as int), from, before[j].0);
                } else {
                    assert(edge_pairs(edges@)[j].0 == from);
                    assert(ids_s.take(k + 1)[k as int] == from);
                }
            }
            assert forall|j: int| 0 <= j < k + 1 implies module_text(*backend, include_root@, tree.files@, #[trigger] ids_s[j]) matches Some(Some(_)) by {
                if j == k {
                }
            }
        }
        k = k + 1;
    }
    proof {
        let ids_s = strs(ids@);
        assert(ids_s.take(ids_s.len() as int) =~= ids_s);
        assert forall|id: Seq<char>| #[trigger] cand_ids(cs).contains(id)
            implies module_text(*backend, include_root@, tree.files@, id) matches Some(Some(_)) by {
            assert(cand_ids(cs).to_set().contains(id));
            assert(ids_s.to_set().contains(id));
            let z = choose|z: int| 0 <= z < ids_s.len() && ids_s[z] == id;
        }
        assert(node_ids(nodes@).to_set() == cand_ids(cs).to_set());
        assert forall|f: Seq<char>, t: Seq<char>| #[trigger] edge_pairs(edges@).contains((f, t))
            <==> imports_edge(*backend, include_root@, tree.files@, f, t) by {
            if imports_edge(*backend, include_root@, tree.files@, f, t) {
                assert(cand_ids(cs).contains(f));
                assert(cand_ids(cs).to_set().contains(f));
                assert(ids_s.to_set().contains(f));
                assert(ids_s.contains(f));
            }
        }
    }
    Ok(ImportGraph { nodes, edges })
}

/// The views of candidate pairs.
pub open spec fn cand_views(cs: Seq<(String, String)>) -> Seq<(Seq<char>, Seq<char>)> {
    cs.map_values(|c: (String, String)| (c.0@, c.1@))
}

fn rel_path(file: &str, root: &str) -> (r: String)
    ensures
        r@ == rel_text(file@, root@),
{
    let f = chars_of(file);
    let rt = chars_of(root);
    if rt.len() > 0 && rt[rt.len() - 1] == '/' && has_prefix(&f, &rt) {
        return string_of(&slice_vec(&f, rt.len(), f.len()));
    }
    let mut rs = slice_vec(&rt, 0, rt.len());
    rs.push('/');
    assert(rs@ =~= root@ + seq!['/']);
    if has_prefix(&f, &rs) {
        return string_of(&slice_vec(&f, rs.len(), f.len()));
    }
    String::from_str(file)
}

fn collect_cands<B: Backend>(include_root: &str, tree: &SourceTree, backend: &B) -> (r: Vec<(String, String)>)
    ensures
        cand_views(r@) == graph_cands(*backend, include_root@, tree.files@),
{
    let exts = backend.extensions();
    let mut out: Vec<(String, String)> = Vec::new();
    let mut i: usize = 0;
    while i < tree.files.len()
        invariant
            i <= tree.files@.len(),
            str_views(exts@) == backend.exts_spec(),
            cand_views(out@) == graph_cands(*backend, include_root@, tree.files@.take(i as int)),
        decreases tree.files.len() - i,
    {
        proof {
            assert(tree.files@.take(i + 1).drop_last() =~= tree.files@.take(i as int));
            assert(tree.files@.take(i + 1).last() == tree.files@[i as int]);
        }
        let p = &tree.files[i].path;
        let claimed_now = match crate::path::extension(p.as_str()) {
            Some(e) => {
                let mut hit = false;
                let mut k: usize = 0;
                while k < exts.len()
                    invariant
                        k <= exts@.len(),
                        hit <==> exists|j: int| 0 <= j < k && str_views(exts@)[j] == e@,
                    decreases exts.len() - k,
                {
                    assert(str_views(exts@)[k as int] == exts@[k as int]@);
                    if str_eq(exts[k], e.as_str()) {
                        hit = true;
                    }
                    k = k + 1;
                }
                proof {
                    if backend.exts_spec().contains(e@) {
                        let j = choose|j: int| 0 <= j < backend.exts_spec().len() && backend.exts_spec()[j] == e@;
                    }
                }
                hit
            },
            None => false,
        };
        if claimed_now {
            match backend.module_name_of(p.as_str(), include_root) {
                Some(id) => {
                    let rel = rel_path(p.as_str(), include_root);
                    let ghost prev = cand_views(out@);
                    out.push((id, rel));
                    assert(cand_views(out@) =~= prev.push((out@[out@.len() - 1].0@, out@[out@.len() - 1].1@)));
                },
                None => {},
            }
        }
        i = i + 1;
    }
    assert(tree.files@.take(tree.files@.len() as int) =~= tree.files@);
    out
}

fn last_rel_of(cands: &Vec<(String, String)>, id: &str) -> (r: String)
    ensures
        r@ == last_rel(cand_views(cands@), id@),
{
    let mut n = cands.len();
    assert(cand_views(cands@).take(n as int) =~= cand_views(cands@));
    while n > 0
        invariant
            n <= cands@.len(),
            last_rel(cand_views(cands@), id@) == last_rel(cand_views(cands@).take(n as int), id@),
        decreases n,
    {
        let ghost t = cand_views(cands@).take(n as int);
        assert(t.last() == (cands@[n - 1].0@, cands@[n - 1].1@));
        if str_eq(cands[n - 1].0.as_str(), id) {
            return cands[n - 1].1.clone();
        }
        assert(t.drop_last() =~= cand_views(cands@).take(n - 1));
        n = n - 1;
    }
    String::new()
}

} // verus!
