//! The DAG document: the import graph plus a lint pass over every node.
//! A node's `status` is lint-derived (`clean` / `warn` / `blocked`), never a
//! claim of `proven`.

use vstd::prelude::*;
use crate::diagnostic::{DiagView, LintReport, Severity, with_sev, diag_views};
use crate::graph::{Edge, join, join_chars, SourceTree, text_at};
use crate::graph_build::{edge_pairs, node_ids};
use crate::lint::{pack_findings, run_lints, LintContext, Rule};
use crate::order::{lt, sorted, sorted_set_of, set_contains, strs, lemma_lt_irrefl, lemma_lt_total};
use crate::prover::Backend;
use crate::graph_build::{all_readable, cand_ids, graph_cands, imports_edge, last_rel, pairs_sorted};
use crate::lint::unpinned_headline::{headlines, regex_compiles};
use crate::path::path_join;
use crate::text::{chars_of, str_eq, string_of, views};

verus! {

/// Per-node lint summary: the rule names that fired, by severity.
#[derive(Clone, Debug)]
pub struct LintSummary {
    pub hard_block: Vec<String>,
    pub warn: Vec<String>,
}

/// A DAG node: an in-tree module with its lint-derived status.
#[derive(Clone, Debug)]
pub struct DagNode {
    pub id: String,
    pub file: String,
    /// `clean` | `warn` | `blocked`.
    pub status: &'static str,
    pub lint: LintSummary,
    /// The module's top-level headline declarations, sorted and deduplicated.
    pub headlines: Vec<String>,
}

/// A module that cannot advance, and why.
#[derive(Clone, Debug)]
pub struct Blocked {
    pub node: String,
    pub blocked_by: Vec<String>,
    pub reason: String,
}

/// The full emitted document.
#[derive(Clone, Debug)]
pub struct DagDocument {
    pub version: &'static str,
    pub include_root: String,
    pub entry_modules: Vec<String>,
    pub generated_at: String,
    pub nodes: Vec<DagNode>,
    pub edges: Vec<Edge>,
    pub blocked: Vec<Blocked>,
}

/// The rule names of the findings of severity `sev`, in order.
pub open spec fn rules_of(ds: Seq<DiagView>, sev: Severity) -> Seq<Seq<char>> {
    with_sev(ds, sev).map_values(|d: DiagView| d.rule)
}

/// A lint summary lists, for each severity, the names of the rules that
/// fired with it, ordered, each once.
pub open spec fn summarizes(s: LintSummary, ds: Seq<DiagView>) -> bool {
    &&& sorted(strs(s.hard_block@))
    &&& strs(s.hard_block@).to_set() == rules_of(ds, Severity::HardBlock).to_set()
    &&& sorted(strs(s.warn@))
    &&& strs(s.warn@).to_set() == rules_of(ds, Severity::Warn).to_set()
}

/// The lint-derived status word: `blocked` on any hard block, else `warn`
/// on any warning, else `clean`.
pub open spec fn status_word(s: LintSummary) -> Seq<char> {
    if s.hard_block@.len() > 0 {
        "blocked"@
    } else if s.warn@.len() > 0 {
        "warn"@
    } else {
        "clean"@
    }
}

/// A node is `blocked` exactly when its lint has a hard block, `warn`
/// exactly when it has none but has a warning, and `clean` exactly when it
/// has neither.
pub proof fn lemma_status_word(s: LintSummary)
    ensures
        status_word(s) == "blocked"@ <==> s.hard_block@.len() > 0,
        status_word(s) == "warn"@ <==> s.hard_block@.len() == 0 && s.warn@.len() > 0,
        status_word(s) == "clean"@ <==> s.hard_block@.len() == 0 && s.warn@.len() == 0,
{
    reveal_strlit("blocked");
    reveal_strlit("warn");
    reveal_strlit("clean");
    assert("blocked"@ != "warn"@ && "blocked"@ != "clean"@ && "warn"@ != "clean"@) by {
        assert("blocked"@.len() != "warn"@.len());
        assert("blocked"@.len() != "clean"@.len());
        assert("warn"@.len() != "clean"@.len());
    }
}

fn rule_names(ds: &Vec<crate::diagnostic::Diagnostic>) -> (r: Vec<String>)
    ensures
        strs(r@) == diag_views(ds@).map_values(|d: DiagView| d.rule),
{
    let mut out: Vec<String> = Vec::new();
    let mut i: usize = 0;
    while i < ds.len()
        invariant
            i <= ds@.len(),
            strs(out@) == diag_views(ds@).take(i as int).map_values(|d: DiagView| d.rule),
        decreases ds.len() - i,
    {
        let ghost prev = strs(out@);
        out.push(ds[i].rule.clone());
        proof {
            assert(strs(out@) =~= prev.push(ds@[i as int].rule@));
            assert(diag_views(ds@).take(i + 1).map_values(|d: DiagView| d.rule) =~= diag_views(ds@).take(i as int).map_values(|d: DiagView| d.rule).push(ds@[i as int].rule@));
        }
        i = i + 1;
    }
    assert(diag_views(ds@).take(ds@.len() as int) =~= diag_views(ds@));
    out
}

/// The per-severity rule names of a report.
pub fn summarize(report: &LintReport) -> (s: LintSummary)
    ensures
        summarizes(s, report.diags()),
{
    let hb = report.hard_blocks();
    let wn = report.warns();
    let hn = rule_names(&hb);
    let wnn = rule_names(&wn);
    LintSummary { hard_block: sorted_set_of(&hn), warn: sorted_set_of(&wnn) }
}

fn status_of(s: &LintSummary) -> (r: &'static str)
    ensures
        r@ == status_word(*s),
{
    if s.hard_block.len() > 0 {
        "blocked"
    } else if s.warn.len() > 0 {
        "warn"
    } else {
        "clean"
    }
}

/// The view of a blocked entry: the module, what it waits on, and why.
pub open spec fn blocked_view(b: Blocked) -> (Seq<char>, Seq<Seq<char>>, Seq<char>) {
    (b.node@, strs(b.blocked_by@), b.reason@)
}

/// The reason of a dependent entry.
pub open spec fn dependent_reason() -> Seq<char> {
    "prerequisite not clean"@
}

/// The modules the in-tree module `id` imports that block on their own.
pub open spec fn blocked_prereqs(selfs: Seq<Seq<char>>, edges: Seq<(Seq<char>, Seq<char>)>, id: Seq<char>) -> Set<Seq<char>> {
    Set::new(|t: Seq<char>| edges.contains((id, t)) && selfs.contains(t))
}

/// The rules of the self-blocked module `id`.
pub open spec fn self_rules(selfs: Seq<(Seq<char>, Seq<Seq<char>>)>, id: Seq<char>) -> Seq<Seq<char>> {
    selfs[choose|i: int| 0 <= i < selfs.len() && selfs[i].0 == id].1
}

/// Ordered by (node, reason), not necessarily strictly.
pub open spec fn blocked_sorted(bs: Seq<(Seq<char>, Seq<Seq<char>>, Seq<char>)>) -> bool {
    forall|i: int, j: int| 0 <= i < j < bs.len() ==>
        !(lt(#[trigger] bs[j].0, #[trigger] bs[i].0) || (bs[j].0 == bs[i].0 && lt(bs[j].2, bs[i].2)))
}

/// The blocked entries of a DAG: one per self-blocked module (nothing it
/// waits on, its hard-block rules joined with `, `) and one per module that
/// imports self-blocked modules (those modules, ordered, each once, and
/// `prerequisite not clean`), ordered by (node, reason).
pub open spec fn blocked_ok(
    bs: Seq<(Seq<char>, Seq<Seq<char>>, Seq<char>)>,
    selfs: Seq<(Seq<char>, Seq<Seq<char>>)>,
    edges: Seq<(Seq<char>, Seq<char>)>,
) -> bool {
    let ids = selfs.map_values(|s: (Seq<char>, Seq<Seq<char>>)| s.0);
    &&& blocked_sorted(bs)
    &&& forall|i: int| 0 <= i < bs.len() ==> {
        let b = #[trigger] bs[i];
        if b.1.len() == 0 {
            ids.contains(b.0) && b.2 == join(self_rules(selfs, b.0), ", "@)
        } else {
            &&& sorted(b.1)
            &&& b.1.to_set() == blocked_prereqs(ids, edges, b.0)
            &&& b.2 == dependent_reason()
        }
    }
    &&& forall|i: int, j: int| 0 <= i < j < bs.len() ==>
        !(#[trigger] bs[i].0 == #[trigger] bs[j].0 && (bs[i].1.len() == 0) == (bs[j].1.len() == 0))
    &&& forall|id: Seq<char>| #[trigger] ids.contains(id) ==>
        exists|i: int| 0 <= i < bs.len() && bs[i].0 == id && bs[i].1.len() == 0
    &&& forall|id: Seq<char>, t: Seq<char>| #[trigger] edges.contains((id, t)) && ids.contains(t) ==>
        exists|i: int| 0 <= i < bs.len() && bs[i].0 == id && bs[i].1.len() > 0
}

/// `x` imports one of `ids` along `ep`.
pub open spec fn has_blocked_import(ep: Seq<(Seq<char>, Seq<char>)>, ids: Seq<Seq<char>>, x: Seq<char>) -> bool {
    exists|t: Seq<char>| ep.contains((x, t)) && ids.contains(t)
}

proof fn lemma_blocked_import_push(ep: Seq<(Seq<char>, Seq<char>)>, p: (Seq<char>, Seq<char>), ids: Seq<Seq<char>>, x: Seq<char>)
    ensures
        has_blocked_import(ep.push(p), ids, x) <==> (has_blocked_import(ep, ids, x) || (p.0 == x && ids.contains(p.1))),
{
    if has_blocked_import(ep.push(p), ids, x) {
        let t = choose|t: Seq<char>| ep.push(p).contains((x, t)) && ids.contains(t);
        crate::text::lemma_push_contains(ep, p, (x, t));
    }
    if has_blocked_import(ep, ids, x) {
        let t = choose|t: Seq<char>| ep.contains((x, t)) && ids.contains(t);
        crate::text::lemma_push_contains(ep, p, (x, t));
    }
    if p.0 == x && ids.contains(p.1) {
        crate::text::lemma_push_contains(ep, p, (x, p.1));
    }
}

/// The views of the blocked entries.
pub open spec fn blocked_views(bs: Seq<Blocked>) -> Seq<(Seq<char>, Seq<Seq<char>>, Seq<char>)> {
    bs.map_values(|b: Blocked| blocked_view(b))
}

/// The views of the self-blocked modules and their rules.
pub open spec fn self_views(ss: Seq<(String, Vec<String>)>) -> Seq<(Seq<char>, Seq<Seq<char>>)> {
    ss.map_values(|s: (String, Vec<String>)| (s.0@, strs(s.1@)))
}

/// The modules of the self-blocked entries.
pub open spec fn self_ids(ss: Seq<(Seq<char>, Seq<Seq<char>>)>) -> Seq<Seq<char>> {
    ss.map_values(|s: (Seq<char>, Seq<Seq<char>>)| s.0)
}

fn copy_strings(v: &Vec<String>) -> (r: Vec<String>)
    ensures
        strs(r@) == strs(v@),
{
    let mut out: Vec<String> = Vec::new();
    let mut i: usize = 0;
    while i < v.len()
        invariant
            i <= v@.len(),
            strs(out@) == strs(v@).take(i as int),
        decreases v.len() - i,
    {
        let ghost prev = strs(out@);
        out.push(v[i].clone());
        assert(strs(out@) =~= prev.push(v@[i as int]@));
        assert(strs(v@).take(i + 1) =~= strs(v@).take(i as int).push(v@[i as int]@));
        i = i + 1;
    }
    assert(strs(v@).take(v@.len() as int) =~= strs(v@));
    out
}

fn join_rules(rules: &Vec<String>) -> (r: String)
    ensures
        r@ == join(strs(rules@), ", "@),
{
    let mut cs: Vec<Vec<char>> = Vec::new();
    let mut i: usize = 0;
    while i < rules.len()
        invariant
            i <= rules@.len(),
            views(cs@) == strs(rules@).take(i as int),
        decreases rules.len() - i,
    {
        let ghost prev = views(cs@);
        cs.push(chars_of(rules[i].as_str()));
        assert(views(cs@) =~= prev.push(rules@[i as int]@));
        assert(strs(rules@).take(i + 1) =~= strs(rules@).take(i as int).push(rules@[i as int]@));
        i = i + 1;
    }
    assert(strs(rules@).take(rules@.len() as int) =~= strs(rules@));
    let sep = chars_of(", ");
    string_of(&join_chars(&cs, &sep))
}

/// The entries of one blocked module: its own (if it blocks on its own)
/// and its dependent one (if it imports self-blocked modules), ordered by
/// reason.
#[verifier::spinoff_prover]
fn entries_for(id: &String, selfs: &Vec<(String, Vec<String>)>, ids: &Vec<String>, edges: &Vec<Edge>) -> (r: Vec<Blocked>)
    requires
        sorted(strs(ids@)),
        strs(ids@) == self_ids(self_views(selfs@)),
    ensures
        r@.len() <= 2,
        forall|i: int| 0 <= i < r@.len() ==> (#[trigger] r@[i]).node@ == id@,
        forall|i: int| 0 <= i < r@.len() ==> {
            let b = blocked_view(#[trigger] r@[i]);
            if b.1.len() == 0 {
                strs(ids@).contains(b.0) && b.2 == join(self_rules(self_views(selfs@), b.0), ", "@)
            } else {
                &&& sorted(b.1)
                &&& b.1.to_set() == blocked_prereqs(strs(ids@), edge_pairs(edges@), b.0)
                &&& b.2 == dependent_reason()
            }
        },
        r@.len() == 2 ==> (r@[0].blocked_by@.len() == 0) != (r@[1].blocked_by@.len() == 0)
            && !lt(r@[1].reason@, r@[0].reason@),
        strs(ids@).contains(id@) ==> exists|i: int| 0 <= i < r@.len() && r@[i].blocked_by@.len() == 0,
        (exists|t: Seq<char>| edge_pairs(edges@).contains((id@, t)) && strs(ids@).contains(t))
            ==> exists|i: int| 0 <= i < r@.len() && r@[i].blocked_by@.len() > 0,
{
    let ghost sv = self_views(selfs@);
    // its own entry
    let mut own: Option<Blocked> = None;
    let mut j: usize = 0;
    while j < selfs.len()
        invariant
            j <= selfs@.len(),
            sv == self_views(selfs@),
            sorted(strs(ids@)),
            strs(ids@) == self_ids(sv),
            own is None ==> forall|q: int| 0 <= q < j ==> sv[q].0 != id@,
            own matches Some(b) ==> b.node@ == id@ && b.blocked_by@.len() == 0 && strs(ids@).contains(id@)
                && b.reason@ == join(self_rules(sv, id@), ", "@),
        decreases selfs.len() - j,
    {
        if own.is_none() && str_eq(selfs[j].0.as_str(), id.as_str()) {
            proof {
                assert(sv[j as int].0 == id@);
                assert(strs(ids@)[j as int] == id@);
                let c = choose|c: int| 0 <= c < sv.len() && sv[c].0 == id@;
                if c != j {
                    crate::order::lemma_sorted_unique(strs(ids@), c, j as int);
                }
                assert(self_rules(sv, id@) == strs(selfs@[j as int].1@));
            }
            let reason = join_rules(&selfs[j].1);
            own = Some(Blocked { node: id.clone(), blocked_by: Vec::new(), reason });
        }
        j = j + 1;
    }
    proof {
        if strs(ids@).contains(id@) {
            let q = choose|q: int| 0 <= q < strs(ids@).len() && strs(ids@)[q] == id@;
            assert(sv[q].0 == id@);
            assert(own is Some);
        }
    }
    // its dependent entry
    let mut pre: Vec<String> = Vec::new();
    let mut k: usize = 0;
    let ghost ep = edge_pairs(edges@);
    while k < edges.len()
        invariant
            k <= edges@.len(),
            ep == edge_pairs(edges@),
            sorted(strs(ids@)),
            forall|t: Seq<char>| #[trigger] strs(pre@).contains(t) <==> (ep.take(k as int).contains((id@, t)) && strs(ids@).contains(t)),
        decreases edges.len() - k,
    {
        let ghost prev = strs(pre@);
        let e = &edges[k];
        if str_eq(e.from.as_str(), id.as_str()) && set_contains(ids, e.to.as_str()) {
            pre.push(e.to.clone());
            assert(strs(pre@) =~= prev.push(e.to@));
        }
        proof {
            assert(ep.take(k + 1) =~= ep.take(k as int).push(ep[k as int]));
            assert(ep[k as int] == (e.from@, e.to@));
            assert forall|t: Seq<char>| #[trigger] strs(pre@).contains(t) <==> (ep.take(k + 1).contains((id@, t)) && strs(ids@).contains(t)) by {
                crate::text::lemma_push_contains(ep.take(k as int), ep[k as int], (id@, t));
                crate::text::lemma_push_contains(prev, e.to@, t);
                if strs(ids@).to_set().contains(t) {
                    assert(strs(ids@).contains(t));
                }
                if strs(ids@).contains(t) {
                    assert(strs(ids@).to_set().contains(t));
                }
            }
        }
        k = k + 1;
    }
    assert(ep.take(ep.len() as int) =~= ep);
    let tos = sorted_set_of(&pre);
    proof {
        assert(strs(tos@).to_set() =~= blocked_prereqs(strs(ids@), ep, id@)) by {
            assert forall|t: Seq<char>| strs(tos@).to_set().contains(t) <==> blocked_prereqs(strs(ids@), ep, id@).contains(t) by {
                if strs(pre@).contains(t) {
                    assert(strs(pre@).to_set().contains(t));
                }
                if strs(pre@).to_set().contains(t) {
                    assert(strs(pre@).contains(t));
                }
            }
        }
        if exists|t: Seq<char>| ep.contains((id@, t)) && strs(ids@).contains(t) {
            let t = choose|t: Seq<char>| ep.contains((id@, t)) && strs(ids@).contains(t);
            assert(strs(pre@).contains(t));
            assert(strs(pre@).to_set().contains(t));
            assert(strs(tos@).to_set().contains(t));
            assert(tos@.len() > 0);
        }
    }
    let dep: Option<Blocked> = if tos.len() > 0 {
        Some(Blocked { node: id.clone(), blocked_by: tos, reason: String::from_str("prerequisite not clean") })
    } else {
        None
    };
    let mut out: Vec<Blocked> = Vec::new();
    match (own, dep) {
        (Some(a), Some(b)) => {
            if crate::order::str_lt(b.reason.as_str(), a.reason.as_str()) {
                proof {
                    if lt(a.reason@, b.reason@) {
                        crate::order::lemma_lt_trans(a.reason@, b.reason@, a.reason@);
                        lemma_lt_irrefl(a.reason@);
                    }
                }
                out.push(b);
                out.push(a);
                assert(out@[1].blocked_by@.len() == 0);
            } else {
                out.push(a);
                out.push(b);
                assert(out@[0].blocked_by@.len() == 0);
            }
        },
        (Some(a), None) => {
            out.push(a);
            assert(out@[0].blocked_by@.len() == 0);
        },
        (None, Some(b)) => {
            out.push(b);
        },
        (None, None) => {},
    }
    proof {
        if exists|t: Seq<char>| edge_pairs(edges@).contains((id@, t)) && strs(ids@).contains(t) {
            if out@.len() == 1 {
                assert(out@[0].blocked_by@.len() > 0);
            } else {
                assert(out@[0].blocked_by@.len() > 0 || out@[1].blocked_by@.len() > 0);
            }
        }
    }
    out
}

/// The blocked entries of a DAG from its self-blocked modules (ordered by
/// module, each once, with their hard-block rules) and its edges: each
/// self-blocked module with its rules joined by `, `, and each module that
/// imports self-blocked modules with those modules and `prerequisite not
/// clean`, ordered by (node, reason).
pub fn compute_blocked(selfs: &Vec<(String, Vec<String>)>, edges: &Vec<Edge>) -> (r: Vec<Blocked>)
    requires
        sorted(self_ids(self_views(selfs@))),
    ensures
        blocked_ok(blocked_views(r@), self_views(selfs@), edge_pairs(edges@)),
{
    let ghost sv = self_views(selfs@);
    let mut ids: Vec<String> = Vec::new();
    let mut i: usize = 0;
    while i < selfs.len()
        invariant
            i <= selfs@.len(),
            sv == self_views(selfs@),
            strs(ids@) == self_ids(sv).take(i as int),
        decreases selfs.len() - i,
    {
        let ghost prev = strs(ids@);
        ids.push(selfs[i].0.clone());
        assert(strs(ids@) =~= prev.push(selfs@[i as int].0@));
        assert(self_ids(sv).take(i + 1) =~= self_ids(sv).take(i as int).push(selfs@[i as int].0@));
        i = i + 1;
    }
    assert(self_ids(sv).take(sv.len() as int) =~= self_ids(sv));
    let ghost ep = edge_pairs(edges@);
    let mut cand = copy_strings(&ids);
    assert forall|x: Seq<char>| #[trigger] strs(cand@).contains(x) <==> (strs(ids@).contains(x)
        || has_blocked_import(ep.take(0), strs(ids@), x)) by {
        if has_blocked_import(ep.take(0), strs(ids@), x) {
            let t = choose|t: Seq<char>| ep.take(0).contains((x, t)) && strs(ids@).contains(t);
        }
    }
    let mut k: usize = 0;
    while k < edges.len()
        invariant
            k <= edges@.len(),
            ep == edge_pairs(edges@),
            sorted(strs(ids@)),
            forall|x: Seq<char>| #[trigger] strs(cand@).contains(x) <==> (strs(ids@).contains(x)
                || has_blocked_import(ep.take(k as int), strs(ids@), x)),
        decreases edges.len() - k,
    {
        let ghost prev = strs(cand@);
        let e = &edges[k];
        if set_contains(&ids, e.to.as_str()) {
            cand.push(e.from.clone());
            assert(strs(cand@) =~= prev.push(e.from@));
        }
        proof {
            assert(ep.take(k + 1) =~= ep.take(k as int).push(ep[k as int]));
            assert(ep[k as int] == (e.from@, e.to@));
            assert forall|x: Seq<char>| #[trigger] strs(cand@).contains(x) <==> (strs(ids@).contains(x)
                || has_blocked_import(ep.take(k + 1), strs(ids@), x)) by {
                crate::text::lemma_push_contains(prev, e.from@, x);
                lemma_blocked_import_push(ep.take(k as int), ep[k as int], strs(ids@), x);
                if strs(ids@).to_set().contains(e.to@) {
                    assert(strs(ids@).contains(e.to@));
                }
                if strs(ids@).contains(e.to@) {
                    assert(strs(ids@).to_set().contains(e.to@));
                }
            }
        }
        k = k + 1;
    }
    assert(ep.take(ep.len() as int) =~= ep);
    let bids = sorted_set_of(&cand);
    assert forall|x: Seq<char>| #[trigger] strs(bids@).to_set().contains(x) <==> (strs(ids@).contains(x)
        || has_blocked_import(ep, strs(ids@), x)) by {
        if strs(cand@).contains(x) {
            assert(strs(cand@).to_set().contains(x));
        }
        if strs(cand@).to_set().contains(x) {
            assert(strs(cand@).contains(x));
        }
    }
    let mut out: Vec<Blocked> = Vec::new();
    let mut q: usize = 0;
    while q < bids.len()
        invariant
            q <= bids@.len(),
            sorted(strs(bids@)),
            sorted(strs(ids@)),
            strs(ids@) == self_ids(sv),
            sv == self_views(selfs@),
            ep == edge_pairs(edges@),
            forall|x: Seq<char>| #[trigger] strs(bids@).to_set().contains(x) <==> (strs(ids@).contains(x)
                || has_blocked_import(ep, strs(ids@), x)),
            forall|j: int| 0 <= j < out@.len() ==> strs(bids@).take(q as int).contains((#[trigger] out@[j]).node@),
            forall|j: int| 0 <= j < out@.len() ==> {
                let b = blocked_view(#[trigger] out@[j]);
                if b.1.len() == 0 {
                    strs(ids@).contains(b.0) && b.2 == join(self_rules(sv, b.0), ", "@)
                } else {
                    &&& sorted(b.1)
                    &&& b.1.to_set() == blocked_prereqs(strs(ids@), ep, b.0)
                    &&& b.2 == dependent_reason()
                }
            },
            blocked_sorted(blocked_views(out@)),
            forall|a: int, b: int| 0 <= a < b < out@.len() ==>
                !(#[trigger] out@[a].node@ == #[trigger] out@[b].node@ && (out@[a].blocked_by@.len() == 0) == (out@[b].blocked_by@.len() == 0)),
            forall|z: int| 0 <= z < q ==> (strs(ids@).contains(#[trigger] strs(bids@)[z]) ==> exists|i: int| 0 <= i < out@.len() && out@[i].node@ == strs(bids@)[z] && out@[i].blocked_by@.len() == 0),
            forall|z: int| 0 <= z < q ==> ((exists|t: Seq<char>| ep.contains((#[trigger] strs(bids@)[z], t)) && strs(ids@).contains(t))
                ==> exists|i: int| 0 <= i < out@.len() && out@[i].node@ == strs(bids@)[z] && out@[i].blocked_by@.len() > 0),
        decreases bids.len() - q,
    {
        let mut es = entries_for(&bids[q], selfs, &ids, edges);
        let ghost before = out@;
        let ghost esv = es@;
        let ghost idq = strs(bids@)[q as int];
        assert(bids@[q as int]@ == idq);
        out.append(&mut es);
        proof {
            let bs = strs(bids@);
            assert(out@ == before + esv);
            assert(bs.take(q + 1) =~= bs.take(q as int).push(idq));
            assert forall|j: int| 0 <= j < out@.len() implies bs.take(q + 1).contains((#[trigger] out@[j]).node@) by {
                crate::text::lemma_push_contains(bs.take(q as int), idq, out@[j].node@);
                if j >= before.len() {
                    assert(out@[j] == esv[j - before.len()]);
                } else {
                    assert(out@[j] == before[j]);
                }
            }
            // entries of earlier modules come before `idq`
            assert forall|j: int| 0 <= j < before.len() implies lt(#[trigger] before[j].node@, idq) by {
                assert(bs.take(q as int).contains(before[j].node@));
                let z = choose|z: int| 0 <= z < q && bs.take(q as int)[z] == before[j].node@;
                assert(bs[z] == before[j].node@);
            }
            assert forall|j: int| 0 <= j < out@.len() implies {
                let b = blocked_view(#[trigger] out@[j]);
                if b.1.len() == 0 {
                    strs(ids@).contains(b.0) && b.2 == join(self_rules(sv, b.0), ", "@)
                } else {
                    &&& sorted(b.1)
                    &&& b.1.to_set() == blocked_prereqs(strs(ids@), ep, b.0)
                    &&& b.2 == dependent_reason()
                }
            } by {
                if j >= before.len() {
                    assert(out@[j] == esv[j - before.len()]);
                } else {
                    assert(out@[j] == before[j]);
                }
            }
            let bv = blocked_views(out@);
            assert forall|a: int, b: int| 0 <= a < b < bv.len() implies
                !(lt(#[trigger] bv[b].0, #[trigger] bv[a].0) || (bv[b].0 == bv[a].0 && lt(bv[b].2, bv[a].2))) by {
                if b < before.len() {
                    assert(out@[a] == before[a] && out@[b] == before[b]);
                    assert(blocked_views(before)[a] == bv[a] && blocked_views(before)[b] == bv[b]);
                } else if a < before.len() {
                    assert(out@[a] == before[a]);
                    assert(out@[b] == esv[b - before.len()]);
                    assert(lt(before[a].node@, idq));
                    lemma_lt_irrefl(idq);
                    if lt(idq, before[a].node@) {
                        crate::order::lemma_lt_trans(before[a].node@, idq, before[a].node@);
                        lemma_lt_irrefl(before[a].node@);
                    }
                } else {
                    assert(out@[a] == esv[a - before.len()]);
                    assert(out@[b] == esv[b - before.len()]);
                    lemma_lt_irrefl(idq);
                }
            }
            assert forall|a: int, b: int| 0 <= a < b < out@.len() implies
                !(#[trigger] out@[a].node@ == #[trigger] out@[b].node@ && (out@[a].blocked_by@.len() == 0) == (out@[b].blocked_by@.len() == 0)) by {
                if b < before.len() {
                    assert(out@[a] == before[a] && out@[b] == before[b]);
                } else if a < before.len() {
                    assert(out@[a] == before[a]);
                    assert(out@[b] == esv[b - before.len()]);
                    assert(lt(before[a].node@, idq));
                    lemma_lt_irrefl(idq);
                } else {
                    assert(out@[a] == esv[a - before.len()]);
                    assert(out@[b] == esv[b - before.len()]);
                }
            }
            assert forall|z: int| 0 <= z < q + 1 implies (strs(ids@).contains(#[trigger] bs[z]) ==> exists|i: int| 0 <= i < out@.len() && out@[i].node@ == bs[z] && out@[i].blocked_by@.len() == 0) by {
                if z < q {
                    if strs(ids@).contains(bs[z]) {
                        let i = choose|i: int| 0 <= i < before.len() && before[i].node@ == bs[z] && before[i].blocked_by@.len() == 0;
                        assert(out@[i] == before[i]);
                    }
                } else {
                    if strs(ids@).contains(bs[z]) {
                        let i = choose|i: int| 0 <= i < esv.len() && esv[i].blocked_by@.len() == 0;
                        assert(out@[before.len() + i] == esv[i]);
                    }
                }
            }
            assert forall|z: int| 0 <= z < q + 1 implies ((exists|t: Seq<char>| ep.contains((#[trigger] bs[z], t)) && strs(ids@).contains(t))
                ==> exists|i: int| 0 <= i < out@.len() && out@[i].node@ == bs[z] && out@[i].blocked_by@.len() > 0) by {
                if exists|t: Seq<char>| ep.contains((bs[z], t)) && strs(ids@).contains(t) {
                    if z < q {
                        let i = choose|i: int| 0 <= i < before.len() && before[i].node@ == bs[z] && before[i].blocked_by@.len() > 0;
                        assert(out@[i] == before[i]);
                    } else {
                        let i = choose|i: int| 0 <= i < esv.len() && esv[i].blocked_by@.len() > 0;
                        assert(out@[before.len() + i] == esv[i]);
                    }
                }
            }
        }
        q = q + 1;
    }
    proof {
        let bs = strs(bids@);
        let bv = blocked_views(out@);
        assert forall|i: int| 0 <= i < bv.len() implies {
            let b = #[trigger] bv[i];
            if b.1.len() == 0 {
                self_ids(sv).contains(b.0) && b.2 == join(self_rules(sv, b.0), ", "@)
            } else {
                &&& sorted(b.1)
                &&& b.1.to_set() == blocked_prereqs(self_ids(sv), ep, b.0)
                &&& b.2 == dependent_reason()
            }
        } by {
            assert(bv[i] == blocked_view(out@[i]));
        }
        assert forall|a: int, b: int| 0 <= a < b < bv.len() implies
            !(#[trigger] bv[a].0 == #[trigger] bv[b].0 && (bv[a].1.len() == 0) == (bv[b].1.len() == 0)) by {
            assert(bv[a] == blocked_view(out@[a]) && bv[b] == blocked_view(out@[b]));
        }
        assert forall|id: Seq<char>| #[trigger] self_ids(sv).contains(id) implies
            exists|i: int| 0 <= i < bv.len() && bv[i].0 == id && bv[i].1.len() == 0 by {
            assert(bs.to_set().contains(id));
            let z = choose|z: int| 0 <= z < bs.len() && bs[z] == id;
            assert(strs(ids@).contains(bs[z]));
            let i = choose|i: int| 0 <= i < out@.len() && out@[i].node@ == bs[z] && out@[i].blocked_by@.len() == 0;
            assert(bv[i] == blocked_view(out@[i]));
        }
        assert forall|id: Seq<char>, t: Seq<char>| #[trigger] ep.contains((id, t)) && self_ids(sv).contains(t) implies
            exists|i: int| 0 <= i < bv.len() && bv[i].0 == id && bv[i].1.len() > 0 by {
            assert(has_blocked_import(ep, strs(ids@), id));
            assert(bs.to_set().contains(id));
            let z = choose|z: int| 0 <= z < bs.len() && bs[z] == id;
            assert(ep.contains((bs[z], t)) && strs(ids@).contains(t));
            let i = choose|i: int| 0 <= i < out@.len() && out@[i].node@ == bs[z] && out@[i].blocked_by@.len() > 0;
            assert(bv[i] == blocked_view(out@[i]));
        }
    }
    out
}

/// The file of a node: its relative path below the include root.
pub open spec fn node_path(root: Seq<char>, rel: Seq<char>) -> Seq<char> {
    path_join(root, rel)
}

/// The module `id` of the graph can be linted: its file reads and every
/// rule of the pack runs on it.
pub open spec fn lintable<B: Backend>(b: B, ctx: LintContext, rules: Seq<Rule>, id: Seq<char>) -> bool {
    let cs = graph_cands(b, ctx.include_root@, ctx.tree.files@);
    let p = node_path(ctx.include_root@, last_rel(cs, id));
    text_at(ctx.tree.files@, p) matches Some(Some(t)) && pack_findings(rules, p, t, ctx) is Some
}

/// The lint findings of the module `id`.
pub open spec fn node_findings<B: Backend>(b: B, ctx: LintContext, rules: Seq<Rule>, id: Seq<char>) -> Seq<DiagView> {
    let cs = graph_cands(b, ctx.include_root@, ctx.tree.files@);
    let p = node_path(ctx.include_root@, last_rel(cs, id));
    pack_findings(rules, p, text_at(ctx.tree.files@, p)->0->0, ctx)->0
}

/// The names of the headline declarations of `text`.
pub open spec fn headline_names(text: Seq<char>, pattern: Seq<char>) -> Seq<Seq<char>> {
    headlines(text, pattern).map_values(|d: (Seq<char>, int)| d.0)
}

/// The headline names of the module `id`, as a set.
pub open spec fn node_headlines<B: Backend>(b: B, ctx: LintContext, pattern: Seq<char>, id: Seq<char>) -> Set<Seq<char>> {
    let cs = graph_cands(b, ctx.include_root@, ctx.tree.files@);
    let p = node_path(ctx.include_root@, last_rel(cs, id));
    headline_names(text_at(ctx.tree.files@, p)->0->0, pattern).to_set()
}

/// The self-blocked modules of the nodes, with their hard-block rules.
pub open spec fn self_blocked_of(ns: Seq<DagNode>) -> Seq<(Seq<char>, Seq<Seq<char>>)>
    decreases ns.len(),
{
    if ns.len() == 0 {
        Seq::empty()
    } else if ns.last().lint.hard_block@.len() > 0 {
        self_blocked_of(ns.drop_last()).push((ns.last().id@, strs(ns.last().lint.hard_block@)))
    } else {
        self_blocked_of(ns.drop_last())
    }
}

/// The node ids.
pub open spec fn dag_ids(ns: Seq<DagNode>) -> Seq<Seq<char>> {
    ns.map_values(|n: DagNode| n.id@)
}

fn headline_set(text: &str, pattern: &str) -> (r: Vec<String>)
    requires
        regex_compiles(pattern@),
    ensures
        sorted(strs(r@)),
        strs(r@).to_set() == headline_names(text@, pattern@).to_set(),
{
    let ds = crate::lint::unpinned_headline::headline_decls(text, pattern);
    let ghost dv = ds@.map_values(|d: (String, usize)| (d.0@, d.1 as int));
    let mut names: Vec<String> = Vec::new();
    let mut i: usize = 0;
    while i < ds.len()
        invariant
            i <= ds@.len(),
            dv == ds@.map_values(|d: (String, usize)| (d.0@, d.1 as int)),
            strs(names@) == dv.take(i as int).map_values(|d: (Seq<char>, int)| d.0),
        decreases ds.len() - i,
    {
        let ghost prev = strs(names@);
        names.push(ds[i].0.clone());
        assert(strs(names@) =~= prev.push(ds@[i as int].0@));
        assert(dv.take(i + 1).map_values(|d: (Seq<char>, int)| d.0) =~= dv.take(i as int).map_values(|d: (Seq<char>, int)| d.0).push(ds@[i as int].0@));
        i = i + 1;
    }
    assert(dv.take(dv.len() as int) =~= dv);
    sorted_set_of(&names)
}

/// Builds the DAG document of the source tree of `ctx`: the import graph
/// for `backend`, every node linted with `rules` (its lint summary and the
/// lint-derived status `blocked`/`warn`/`clean`, plus its headline
/// declarations under `headline_pattern`), and the blocked entries. Fails
/// when the graph cannot be built, a node's file cannot be read or linted,
/// or the headline pattern does not compile.
pub fn build<B: Backend>(ctx: &LintContext, rules: &[Rule], headline_pattern: &str, backend: &B) -> (r: Result<DagDocument, String>)
    ensures
        r is Ok <==> (all_readable(*backend, ctx.include_root@, ctx.tree.files@) && regex_compiles(headline_pattern@)
            && forall|id: Seq<char>| #[trigger] cand_ids(graph_cands(*backend, ctx.include_root@, ctx.tree.files@)).contains(id)
                ==> lintable(*backend, *ctx, rules@, id)),
        r matches Ok(d) ==> {
            let cs = graph_cands(*backend, ctx.include_root@, ctx.tree.files@);
            &&& d.version@ == "0.1"@
            &&& d.include_root@ == ctx.include_root@
            &&& strs(d.entry_modules@) == strs(ctx.entry_modules@)
            &&& exists|secs: i64| d.generated_at@ == crate::timestamp::rfc3339_text(secs as int)
            &&& sorted(dag_ids(d.nodes@))
            &&& dag_ids(d.nodes@).to_set() == cand_ids(cs).to_set()
            &&& forall|i: int| 0 <= i < d.nodes@.len() ==> {
                let n = #[trigger] d.nodes@[i];
                &&& n.file@ == last_rel(cs, n.id@)
                &&& summarizes(n.lint, node_findings(*backend, *ctx, rules@, n.id@))
                &&& n.status@ == status_word(n.lint)
                &&& sorted(strs(n.headlines@))
                &&& strs(n.headlines@).to_set() == node_headlines(*backend, *ctx, headline_pattern@, n.id@)
            }
            &&& pairs_sorted(edge_pairs(d.edges@))
            &&& forall|f: Seq<char>, t: Seq<char>| #[trigger] edge_pairs(d.edges@).contains((f, t))
                <==> imports_edge(*backend, ctx.include_root@, ctx.tree.files@, f, t)
            &&& blocked_ok(blocked_views(d.blocked@), self_blocked_of(d.nodes@), edge_pairs(d.edges@))
        },
{
    let graph = match crate::graph_build::build(ctx.include_root.as_str(), &ctx.tree, backend) {
        Ok(g) => g,
        Err(e) => return Err(e),
    };
    let ghost cs = graph_cands(*backend, ctx.include_root@, ctx.tree.files@);
    match crate::lint::unpinned_headline::regex_check(headline_pattern) {
        Ok(()) => {},
        Err(e) => return Err(e),
    }
    let mut nodes: Vec<DagNode> = Vec::new();
    let mut selfs: Vec<(String, Vec<String>)> = Vec::new();
    let mut k: usize = 0;
    assert(self_views(selfs@) =~= self_blocked_of(nodes@));
    while k < graph.nodes.len()
        invariant
            k <= graph.nodes@.len(),
            regex_compiles(headline_pattern@),
            cs == graph_cands(*backend, ctx.include_root@, ctx.tree.files@),
            sorted(node_ids(graph.nodes@)),
            node_ids(graph.nodes@).to_set() == cand_ids(cs).to_set(),
            forall|i: int| 0 <= i < graph.nodes@.len() ==> (#[trigger] graph.nodes@[i]).file@ == last_rel(cs, graph.nodes@[i].id@),
            dag_ids(nodes@) == node_ids(graph.nodes@).take(k as int),
            self_views(selfs@) == self_blocked_of(nodes@),
            sorted(self_ids(self_views(selfs@))),
            forall|j: int| 0 <= j < selfs@.len() ==> node_ids(graph.nodes@).take(k as int).contains(#[trigger] self_ids(self_views(selfs@))[j]),
            forall|j: int| 0 <= j < k ==> lintable(*backend, *ctx, rules@, #[trigger] node_ids(graph.nodes@)[j]),
            forall|i: int| 0 <= i < nodes@.len() ==> {
                let n = #[trigger] nodes@[i];
                &&& n.file@ == last_rel(cs, n.id@)
                &&& summarizes(n.lint, node_findings(*backend, *ctx, rules@, n.id@))
                &&& n.status@ == status_word(n.lint)
                &&& sorted(strs(n.headlines@))
                &&& strs(n.headlines@).to_set() == node_headlines(*backend, *ctx, headline_pattern@, n.id@)
            },
        decreases graph.nodes.len() - k,
    {
        let gn = &graph.nodes[k];
        assert(node_ids(graph.nodes@)[k as int] == gn.id@);
        proof {
            assert(node_ids(graph.nodes@).contains(gn.id@));
            assert(node_ids(graph.nodes@).to_set().contains(gn.id@));
            assert(cand_ids(cs).to_set().contains(gn.id@));
            assert(cand_ids(cs).contains(gn.id@));
        }
        let abs = crate::path::join_path(ctx.include_root.as_str(), gn.file.as_str());
        assert(node_path(ctx.include_root@, last_rel(cs, gn.id@)) == abs@);
        let idx = match ctx.tree.find(abs.as_str()) {
            None => {
                assert(!lintable(*backend, *ctx, rules@, gn.id@));
                return Err(abs);
            },
            Some(i) => i,
        };
        proof {
            crate::graph::lemma_file_pos(ctx.tree.files@, abs@);
        }
        let text = match &ctx.tree.files[idx].text {
            None => {
                assert(!lintable(*backend, *ctx, rules@, gn.id@));
                return Err(abs);
            },
            Some(t) => t,
        };
        let report = match run_lints(abs.as_str(), text.as_str(), ctx, rules) {
            Ok(rep) => rep,
            Err(e) => return Err(e),
        };
        let lint = summarize(&report);
        let status = status_of(&lint);
        let heads = headline_set(text.as_str(), headline_pattern);
        let blocked_self = lint.hard_block.len() > 0;
        let ghost prev_nodes = nodes@;
        let ghost prev_selfs = self_views(selfs@);
        if blocked_self {
            selfs.push((gn.id.clone(), copy_strings(&lint.hard_block)));
        }
        nodes.push(DagNode { id: gn.id.clone(), file: gn.file.clone(), status, lint, headlines: heads });
        proof {
            let ids = node_ids(graph.nodes@);
            assert(ids.take(k + 1) =~= ids.take(k as int).push(gn.id@));
            assert(dag_ids(nodes@) =~= dag_ids(prev_nodes).push(gn.id@));
            assert(nodes@.drop_last() =~= prev_nodes);
            if blocked_self {
                assert(self_views(selfs@) =~= prev_selfs.push((gn.id@, strs(nodes@.last().lint.hard_block@))));
                assert(self_ids(self_views(selfs@)) =~= self_ids(prev_selfs).push(gn.id@));
                assert forall|a: int, b: int| 0 <= a < b < self_ids(self_views(selfs@)).len() implies
                    lt(#[trigger] self_ids(self_views(selfs@))[a], #[trigger] self_ids(self_views(selfs@))[b]) by {
                    if b == self_ids(prev_selfs).len() {
                        assert(ids.take(k as int).contains(self_ids(prev_selfs)[a]));
                        let z = choose|z: int| 0 <= z < k && ids.take(k as int)[z] == self_ids(prev_selfs)[a];
                        assert(lt(ids[z], ids[k as int]));
                    }
                }
            } else {
                assert(self_views(selfs@) =~= prev_selfs);
            }
            assert forall|j: int| 0 <= j < selfs@.len() implies ids.take(k + 1).contains(#[trigger] self_ids(self_views(selfs@))[j]) by {
                crate::text::lemma_push_contains(ids.take(k as int), gn.id@, self_ids(self_views(selfs@))[j]);
                if j < prev_selfs.len() {
                    assert(self_ids(self_views(selfs@))[j] == self_ids(prev_selfs)[j]);
                }
            }
            assert(node_path(ctx.include_root@, last_rel(cs, gn.id@)) == abs@);
            assert(lintable(*backend, *ctx, rules@, gn.id@));
            assert forall|i: int| 0 <= i < nodes@.len() implies {
                let n = #[trigger] nodes@[i];
                &&& n.file@ == last_rel(cs, n.id@)
                &&& summarizes(n.lint, node_findings(*backend, *ctx, rules@, n.id@))
                &&& n.status@ == status_word(n.lint)
                &&& sorted(strs(n.headlines@))
                &&& strs(n.headlines@).to_set() == node_headlines(*backend, *ctx, headline_pattern@, n.id@)
            } by {
                if i < prev_nodes.len() {
                    assert(nodes@[i] == prev_nodes[i]);
                }
            }
        }
        k = k + 1;
    }
    let blocked = compute_blocked(&selfs, &graph.edges);
    let generated_at = crate::timestamp::now_rfc3339();
    proof {
        let ids = node_ids(graph.nodes@);
        assert(ids.take(ids.len() as int) =~= ids);
        assert forall|id: Seq<char>| #[trigger] cand_ids(cs).contains(id) implies lintable(*backend, *ctx, rules@, id) by {
            assert(cand_ids(cs).to_set().contains(id));
            assert(ids.to_set().contains(id));
            let z = choose|z: int| 0 <= z < ids.len() && ids[z] == id;
        }
    }
    Ok(DagDocument {
        version: "0.1",
        include_root: ctx.include_root.clone(),
        entry_modules: copy_strings(&ctx.entry_modules),
        generated_at,
        nodes,
        edges: graph.edges,
        blocked,
    })
}

} // verus!
