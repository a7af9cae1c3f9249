//! The reasoning graph: a demote-only verdict propagation over the import
//! DAG. A node's effective verdict can only be lowered by its dependencies,
//! never manufactured: lint-clean without a prover run is `Unknown`, and an
//! amber dependency caps everything that imports it.

use vstd::prelude::*;
use crate::dag::{DagDocument, DagNode};
use crate::graph::{module_name_of, module_name_spec, Edge};
use crate::prover::Verdict;
use crate::text::{chars_of, seq_eq, str_eq};
use crate::order::{sorted, strs};

verus! {

/// How a node's dependencies combine.
#[derive(Clone, Copy, Debug, PartialEq, Eq, Structural)]
pub enum Junct {
    /// Every dependency is required: the node drops to the worst of them.
    And,
    /// Alternative routes: the node drops only to the best of them.
    Or,
}

/// Greenness rank: higher is better.
pub open spec fn rank_of(v: Verdict) -> nat {
    match v {
        Verdict::Proven => 6,
        Verdict::Admitted => 5,
        Verdict::Postulated => 4,
        Verdict::Unknown => 3,
        Verdict::Unavailable => 2,
        Verdict::Refuted => 1,
        Verdict::Error => 0,
    }
}

/// The worse of two verdicts (the first on a tie).
pub open spec fn lower(a: Verdict, b: Verdict) -> Verdict {
    if rank_of(a) <= rank_of(b) {
        a
    } else {
        b
    }
}

/// The better of two verdicts (the first on a tie).
pub open spec fn higher(a: Verdict, b: Verdict) -> Verdict {
    if rank_of(a) >= rank_of(b) {
        a
    } else {
        b
    }
}

/// The greenness rank of `v`.
pub fn rank(v: Verdict) -> (r: u8)
    ensures
        r == rank_of(v),
{
    match v {
        Verdict::Proven => 6,
        Verdict::Admitted => 5,
        Verdict::Postulated => 4,
        Verdict::Unknown => 3,
        Verdict::Unavailable => 2,
        Verdict::Refuted => 1,
        Verdict::Error => 0,
    }
}

/// Keep the worse of two verdicts: the demote operator.
pub fn demote(a: Verdict, b: Verdict) -> (r: Verdict)
    ensures
        r == lower(a, b),
{
    if rank(a) <= rank(b) {
        a
    } else {
        b
    }
}

/// Keep the better of two verdicts, used for `Or` groups.
pub fn promote(a: Verdict, b: Verdict) -> (r: Verdict)
    ensures
        r == higher(a, b),
{
    if rank(a) >= rank(b) {
        a
    } else {
        b
    }
}

/// Left-to-right fold of a node's dependency legs: the running `And`
/// minimum and the best `Or` alternative seen so far.
pub open spec fn scan_legs(base: Verdict, js: Seq<Junct>, legs: Seq<Verdict>) -> (
    Verdict,
    Option<Verdict>,
)
    decreases js.len(),
{
    if js.len() == 0 || legs.len() == 0 {
        (base, None)
    } else {
        let (e, ob) = scan_legs(base, js.drop_last(), legs.drop_last());
        let l = legs[js.len() - 1];
        match js.last() {
            Junct::And => (lower(e, l), ob),
            Junct::Or => (
                e,
                Some(
                    match ob {
                        Some(b) => higher(b, l),
                        None => l,
                    },
                ),
            ),
        }
    }
}

/// A node's verdict from its own verdict and the verdicts of its
/// dependencies (`js[k]` is the junct of the dependency whose verdict is
/// `legs[k]`): demoted to the worst `And` dependency, and to the best `Or`
/// alternative when there is one.
pub open spec fn combine(base: Verdict, js: Seq<Junct>, legs: Seq<Verdict>) -> Verdict {
    let (e, ob) = scan_legs(base, js, legs);
    match ob {
        Some(b) => lower(e, b),
        None => e,
    }
}

/// The juncts of an adjacency list.
pub open spec fn juncts(deps: Seq<(usize, Junct)>) -> Seq<Junct> {
    deps.map_values(|d: (usize, Junct)| d.1)
}

/// DFS colour for cycle-safe propagation.
#[derive(Clone, Copy, PartialEq, Eq, Structural)]
pub enum Colour {
    White,
    Grey,
    Black,
}

/// The adjacency lists' views.
pub open spec fn adj_view(adj: Seq<Vec<(usize, Junct)>>) -> Seq<Seq<(usize, Junct)>> {
    adj.map_values(|v: Vec<(usize, Junct)>| v@)
}

/// Every dependency index is in range.
pub open spec fn adj_wf(adj: Seq<Seq<(usize, Junct)>>) -> bool {
    forall|u: int, k: int|
        #![trigger adj[u][k]]
        0 <= u < adj.len() && 0 <= k < adj[u].len() ==> adj[u][k].0 < adj.len()
}

/// `l` is an admissible value for the leg to `d`: `d`'s settled verdict,
/// or `Error` for a leg that closed a cycle through `d`.
pub open spec fn leg_ok(
    d: int,
    l: Verdict,
    eff: Seq<Verdict>,
    cyclic: Seq<bool>,
    done: Seq<bool>,
) -> bool {
    (done[d] && l == eff[d]) || (l == Verdict::Error && cyclic[d])
}

/// The legs witness node `u`'s settled verdict.
pub open spec fn legs_witness(
    u: int,
    legs: Seq<Verdict>,
    adj: Seq<Seq<(usize, Junct)>>,
    selfv: Seq<Verdict>,
    eff: Seq<Verdict>,
    cyclic: Seq<bool>,
    done: Seq<bool>,
) -> bool {
    &&& legs.len() == adj[u].len()
    &&& forall|k: int|
        #![trigger legs[k]]
        0 <= k < legs.len() ==> leg_ok(adj[u][k].0 as int, legs[k], eff, cyclic, done)
    &&& eff[u] == combine(selfv[u], juncts(adj[u]), legs)
}

/// Node `u`'s settled verdict is its own verdict combined with admissible
/// legs.
pub open spec fn settled_ok(
    u: int,
    adj: Seq<Seq<(usize, Junct)>>,
    selfv: Seq<Verdict>,
    eff: Seq<Verdict>,
    cyclic: Seq<bool>,
    done: Seq<bool>,
) -> bool {
    exists|legs: Seq<Verdict>| legs_witness(u, legs, adj, selfv, eff, cyclic, done)
}

spec fn colour_done(c: Seq<Colour>) -> Seq<bool> {
    c.map_values(|x: Colour| x == Colour::Black)
}

/// The number of nodes not yet visited.
pub open spec fn white_count(c: Seq<Colour>) -> nat
    decreases c.len(),
{
    if c.len() == 0 {
        0
    } else {
        white_count(c.drop_last()) + if c.last() == Colour::White {
            1nat
        } else {
            0nat
        }
    }
}

/// `c2` is a colouring reachable from `c1`: no node goes back to a lighter
/// colour.
spec fn progressed(c1: Seq<Colour>, c2: Seq<Colour>) -> bool {
    &&& c1.len() == c2.len()
    &&& forall|i: int|
        0 <= i < c1.len() ==> (c1[i] == Colour::Black ==> c2[i] == Colour::Black) && (c1[i]
            == Colour::Grey ==> c2[i] == Colour::Grey)
}

proof fn lemma_white_count_progress(c1: Seq<Colour>, c2: Seq<Colour>)
    requires
        c1.len() == c2.len(),
        forall|i: int| 0 <= i < c1.len() ==> c1[i] != Colour::White ==> c2[i] != Colour::White,
    ensures
        white_count(c2) <= white_count(c1),
    decreases c1.len(),
{
    if c1.len() > 0 {
        lemma_white_count_progress(c1.drop_last(), c2.drop_last());
    }
}

proof fn lemma_white_count_strict(c1: Seq<Colour>, c2: Seq<Colour>, v: int)
    requires
        c1.len() == c2.len(),
        forall|i: int| 0 <= i < c1.len() ==> c1[i] != Colour::White ==> c2[i] != Colour::White,
        0 <= v < c1.len(),
        c1[v] == Colour::White,
        c2[v] != Colour::White,
    ensures
        white_count(c2) < white_count(c1),
    decreases c1.len(),
{
    if v == c1.len() - 1 {
        lemma_white_count_progress(c1.drop_last(), c2.drop_last());
    } else {
        lemma_white_count_strict(c1.drop_last(), c2.drop_last(), v);
    }
}

/// The DFS state invariant: lengths agree and every settled node is ok.
spec fn state_inv(
    adj: Seq<Seq<(usize, Junct)>>,
    selfv: Seq<Verdict>,
    colour: Seq<Colour>,
    eff: Seq<Verdict>,
    cyclic: Seq<bool>,
) -> bool {
    let n = adj.len();
    &&& adj_wf(adj)
    &&& selfv.len() == n
    &&& colour.len() == n
    &&& eff.len() == n
    &&& cyclic.len() == n
    &&& forall|u: int|
        #![trigger colour[u]]
        0 <= u < n && colour[u] == Colour::Black ==> settled_ok(
            u,
            adj,
            selfv,
            eff,
            cyclic,
            colour_done(colour),
        )
}

/// Settled nodes stay settled with their verdicts; cycle marks stay.
spec fn keeps(
    c1: Seq<Colour>,
    e1: Seq<Verdict>,
    y1: Seq<bool>,
    c2: Seq<Colour>,
    e2: Seq<Verdict>,
    y2: Seq<bool>,
) -> bool {
    &&& c1.len() == c2.len()
    &&& forall|i: int| 0 <= i < c1.len() && c1[i] == Colour::Black ==> c2[i] == Colour::Black
    &&& e1.len() == e2.len()
    &&& y1.len() == y2.len()
    &&& forall|i: int| 0 <= i < c1.len() && c1[i] == Colour::Black ==> e2[i] == e1[i]
    &&& forall|i: int| 0 <= i < y1.len() && y1[i] ==> y2[i]
}

/// The state moved forward: colours progressed, settled verdicts kept,
/// cycle marks kept.
spec fn advanced(
    c1: Seq<Colour>,
    e1: Seq<Verdict>,
    y1: Seq<bool>,
    c2: Seq<Colour>,
    e2: Seq<Verdict>,
    y2: Seq<bool>,
) -> bool {
    &&& progressed(c1, c2)
    &&& e1.len() == e2.len()
    &&& y1.len() == y2.len()
    &&& forall|i: int| 0 <= i < c1.len() && c1[i] == Colour::Black ==> e2[i] == e1[i]
    &&& forall|i: int| 0 <= i < y1.len() && y1[i] ==> y2[i]
}

proof fn lemma_settled_stable(
    u: int,
    adj: Seq<Seq<(usize, Junct)>>,
    selfv: Seq<Verdict>,
    c1: Seq<Colour>,
    e1: Seq<Verdict>,
    y1: Seq<bool>,
    c2: Seq<Colour>,
    e2: Seq<Verdict>,
    y2: Seq<bool>,
)
    requires
        state_inv(adj, selfv, c1, e1, y1),
        keeps(c1, e1, y1, c2, e2, y2),
        0 <= u < adj.len(),
        c1[u] == Colour::Black,
    ensures
        settled_ok(u, adj, selfv, e2, y2, colour_done(c2)),
{
    assert(c1[u] == Colour::Black);
    let legs = choose|legs: Seq<Verdict>|
        legs_witness(u, legs, adj, selfv, e1, y1, colour_done(c1));
    assert forall|k: int| #![trigger legs[k]] 0 <= k < legs.len() implies leg_ok(
        adj[u][k].0 as int,
        legs[k],
        e2,
        y2,
        colour_done(c2),
    ) by {
        let d = adj[u][k].0 as int;
        assert(leg_ok(d, legs[k], e1, y1, colour_done(c1)));
        assert(0 <= d < adj.len());
    }
    assert(legs_witness(u, legs, adj, selfv, e2, y2, colour_done(c2)));
}

proof fn lemma_scan_step(base: Verdict, js: Seq<Junct>, legs: Seq<Verdict>, k: int)
    requires
        0 <= k < js.len(),
        legs.len() == k + 1,
    ensures
        scan_legs(base, js.take(k + 1), legs) == ({
            let (e, ob) = scan_legs(base, js.take(k), legs.drop_last());
            let l = legs[k];
            match js[k] {
                Junct::And => (lower(e, l), ob),
                Junct::Or => (
                    e,
                    Some(
                        match ob {
                            Some(b) => higher(b, l),
                            None => l,
                        },
                    ),
                ),
            }
        }),
{
    assert(js.take(k + 1).drop_last() =~= js.take(k));
}

/// Node `u` lies on a cycle: a walk of at least one edge leads from `u`
/// back to `u`.
pub open spec fn on_cycle(adj: Seq<Seq<(usize, Junct)>>, u: int) -> bool {
    exists|p: Seq<int>|
        #![trigger is_walk(adj, p)]
        is_walk(adj, p) && p.len() >= 2 && p[0] == u && p.last() == u
}

/// Every node marked cyclic lies on a cycle.
pub open spec fn marks_real(adj: Seq<Seq<(usize, Junct)>>, cyclic: Seq<bool>) -> bool {
    forall|u: int| 0 <= u < cyclic.len() && #[trigger] cyclic[u] ==> on_cycle(adj, u)
}

/// Every node marked cyclic has been visited.
spec fn marks_seen(colour: Seq<Colour>, cyclic: Seq<bool>) -> bool {
    forall|x: int| 0 <= x < cyclic.len() && #[trigger] cyclic[x] ==> colour[x] != Colour::White
}

/// On a graph of `And` dependencies, every settled node on a cycle is
/// `Error`.
spec fn cycles_err(adj: Seq<Seq<(usize, Junct)>>, colour: Seq<Colour>, eff: Seq<Verdict>) -> bool {
    all_and(adj) ==> forall|w: int| 0 <= w < colour.len() && #[trigger] colour[w] == Colour::Black && on_cycle(adj, w)
        ==> eff[w] == Verdict::Error
}

/// A node on a cycle depends on a node on the same cycle.
proof fn lemma_cycle_successor(adj: Seq<Seq<(usize, Junct)>>, v: int) -> (s: int)
    requires
        on_cycle(adj, v),
    ensures
        has_dep(adj, v, s),
        on_cycle(adj, s),
{
    let p = choose|p: Seq<int>| #![trigger is_walk(adj, p)] is_walk(adj, p) && p.len() >= 2 && p[0] == v && p.last() == v;
    let z: int = 0;
    assert(has_dep(adj, p[z], p[z + 1]));
    let s = p[1];
    let q = p.subrange(1, p.len() as int).push(s);
    assert forall|i: int| 0 <= i < q.len() implies 0 <= #[trigger] q[i] < adj.len() by {
        if i < q.len() - 1 {
            assert(q[i] == p[i + 1]);
        }
    }
    assert forall|i: int| 0 <= i < q.len() - 1 implies has_dep(adj, q[i], #[trigger] q[i + 1]) by {
        if i < q.len() - 2 {
            let j = i + 1;
            assert(has_dep(adj, p[j], p[j + 1]));
            assert(q[i] == p[j] && q[i + 1] == p[j + 1]);
        } else {
            assert(q[i] == p.last() && q[i + 1] == s);
        }
    }
    assert(is_walk(adj, q));
    assert(q[0] == s && q.last() == s);
    s
}

/// The DFS stack: a walk whose nodes are exactly the grey ones, ending at a
/// node that depends on `v` (when it is not empty).
spec fn stack_ok(adj: Seq<Seq<(usize, Junct)>>, colour: Seq<Colour>, stack: Seq<int>, v: int) -> bool {
    &&& forall|i: int| 0 <= i < stack.len() ==> 0 <= #[trigger] stack[i] < adj.len()
    &&& forall|i: int| 0 <= i < stack.len() - 1 ==> has_dep(adj, stack[i], #[trigger] stack[i + 1])
    &&& forall|x: int| 0 <= x < colour.len() ==> (#[trigger] colour[x] == Colour::Grey <==> stack.contains(x))
    &&& stack.len() > 0 ==> has_dep(adj, stack.last(), v)
}

proof fn lemma_stack_cycle(adj: Seq<Seq<(usize, Junct)>>, stack: Seq<int>, v: int)
    requires
        forall|i: int| 0 <= i < stack.len() ==> 0 <= #[trigger] stack[i] < adj.len(),
        forall|i: int| 0 <= i < stack.len() - 1 ==> has_dep(adj, stack[i], #[trigger] stack[i + 1]),
        stack.len() > 0 ==> has_dep(adj, stack.last(), v),
        stack.contains(v),
    ensures
        on_cycle(adj, v),
{
    let i = choose|i: int| 0 <= i < stack.len() && stack[i] == v;
    let p = stack.subrange(i, stack.len() as int).push(v);
    assert forall|j: int| 0 <= j < p.len() implies 0 <= #[trigger] p[j] < adj.len() by {
        if j < p.len() - 1 {
            assert(p[j] == stack[i + j]);
        }
    }
    assert forall|j: int| 0 <= j < p.len() - 1 implies has_dep(adj, p[j], #[trigger] p[j + 1]) by {
        if j < p.len() - 2 {
            assert(p[j] == stack[i + j] && p[j + 1] == stack[i + j + 1]);
        } else {
            assert(p[j] == stack.last() && p[j + 1] == v);
        }
    }
    assert(is_walk(adj, p));
    assert(p[0] == v && p.last() == v);
}

/// The depth-first fold from node `v` over the state `(c, e, y)` (each
/// node's colour, the verdicts settled so far, the nodes marked as closing
/// a cycle), and the verdict of that leg. A settled node gives its
/// verdict; a node still on the stack is marked and gives `Error`; a new
/// node is put on the stack, its dependencies are folded in adjacency
/// order, and it settles on its own verdict demoted by every `And` leg and
/// by the best `Or` leg. (The guards only bound the recursion: they hold
/// on every state the fold reaches.)
pub open spec fn dfs_prop(
    adj: Seq<Seq<(usize, Junct)>>,
    sv: Seq<Verdict>,
    c: Seq<Colour>,
    e: Seq<Verdict>,
    y: Seq<bool>,
    v: int,
) -> (Seq<Colour>, Seq<Verdict>, Seq<bool>, Verdict)
    decreases white_count(c), 0nat,
{
    if c[v] == Colour::Black {
        (c, e, y, e[v])
    } else if c[v] == Colour::Grey {
        (c, e, y.update(v, true), Verdict::Error)
    } else {
        let c1 = c.update(v, Colour::Grey);
        if white_count(c1) < white_count(c) {
            let (c2, e2, y2, legs) = dfs_legs(adj, sv, c1, e, y, adj[v]);
            let (acc, ob) = scan_legs(sv[v], juncts(adj[v]), legs);
            let r = match ob {
                Some(b) => lower(acc, b),
                None => acc,
            };
            (c2.update(v, Colour::Black), e2.update(v, r), y2, r)
        } else {
            (c, e, y, Verdict::Error)
        }
    }
}

/// The depth-first fold over each of `deps` in turn, with the verdict of
/// each leg.
pub open spec fn dfs_legs(
    adj: Seq<Seq<(usize, Junct)>>,
    sv: Seq<Verdict>,
    c: Seq<Colour>,
    e: Seq<Verdict>,
    y: Seq<bool>,
    deps: Seq<(usize, Junct)>,
) -> (Seq<Colour>, Seq<Verdict>, Seq<bool>, Seq<Verdict>)
    decreases white_count(c), deps.len() + 1,
{
    if deps.len() == 0 {
        (c, e, y, Seq::empty())
    } else {
        let (c1, e1, y1, legs) = dfs_legs(adj, sv, c, e, y, deps.drop_last());
        if white_count(c1) <= white_count(c) {
            let (c2, e2, y2, l) = dfs_prop(adj, sv, c1, e1, y1, deps.last().0 as int);
            (c2, e2, y2, legs.push(l))
        } else {
            (c1, e1, y1, legs)
        }
    }
}

/// The depth-first fold started from each node of `order` in turn.
pub open spec fn dfs_from(
    adj: Seq<Seq<(usize, Junct)>>,
    sv: Seq<Verdict>,
    c: Seq<Colour>,
    e: Seq<Verdict>,
    y: Seq<bool>,
    order: Seq<usize>,
) -> (Seq<Colour>, Seq<Verdict>, Seq<bool>)
    decreases order.len(),
{
    if order.len() == 0 {
        (c, e, y)
    } else {
        let (c1, e1, y1) = dfs_from(adj, sv, c, e, y, order.drop_last());
        let (c2, e2, y2, l) = dfs_prop(adj, sv, c1, e1, y1, order.last() as int);
        (c2, e2, y2)
    }
}

/// The verdicts and cycle marks of the depth-first fold over `adj` from
/// each node of `order` in turn, starting with every node unvisited,
/// `Unknown` and unmarked.
pub open spec fn dfs_result(adj: Seq<Seq<(usize, Junct)>>, sv: Seq<Verdict>, order: Seq<usize>) -> (Seq<Verdict>, Seq<bool>) {
    let n = adj.len();
    let (c, e, y) = dfs_from(
        adj,
        sv,
        Seq::new(n, |i: int| Colour::White),
        Seq::new(n, |i: int| Verdict::Unknown),
        Seq::new(n, |i: int| false),
        order,
    );
    (e, y)
}

/// Post-order demote-fold from node `v`, memoised in `eff`, cycle-safe:
/// a leg into a node still on the DFS stack is `Error` and marks that node.
fn propagate(
    v: usize,
    adj: &Vec<Vec<(usize, Junct)>>,
    selfv: &Vec<Verdict>,
    colour: &mut Vec<Colour>,
    eff: &mut Vec<Verdict>,
    cyclic: &mut Vec<bool>,
    Ghost(stack): Ghost<Seq<int>>,
) -> (r: Verdict)
    requires
        v < adj@.len(),
        state_inv(adj_view(adj@), selfv@, old(colour)@, old(eff)@, old(cyclic)@),
        stack_ok(adj_view(adj@), old(colour)@, stack, v as int),
        marks_real(adj_view(adj@), old(cyclic)@),
        marks_seen(old(colour)@, old(cyclic)@),
        cycles_err(adj_view(adj@), old(colour)@, old(eff)@),
    ensures
        marks_real(adj_view(adj@), final(cyclic)@),
        marks_seen(final(colour)@, final(cyclic)@),
        cycles_err(adj_view(adj@), final(colour)@, final(eff)@),
        state_inv(adj_view(adj@), selfv@, final(colour)@, final(eff)@, final(cyclic)@),
        advanced(old(colour)@, old(eff)@, old(cyclic)@, final(colour)@, final(eff)@, final(cyclic)@),
        leg_ok(v as int, r, final(eff)@, final(cyclic)@, colour_done(final(colour)@)),
        old(colour)@[v as int] == Colour::White ==> final(colour)@[v as int] == Colour::Black,
        forall|i: int|
            0 <= i < final(colour)@.len() && final(colour)@[i] == Colour::Grey ==> old(
                colour,
            )@[i] == Colour::Grey,
        (final(colour)@, final(eff)@, final(cyclic)@, r) == dfs_prop(adj_view(adj@), selfv@, old(colour)@, old(eff)@, old(cyclic)@, v as int),
    decreases white_count(colour@),
{
    let c = colour[v];
    if c == Colour::Black {
        return eff[v];
    }
    if c == Colour::Grey {
        proof {
            lemma_stack_cycle(adj_view(adj@), stack, v as int);
        }
        cyclic.set(v, true);
        proof {
            let ghost c1 = colour@;
            assert forall|u: int|
                #![trigger c1[u]]
                0 <= u < adj@.len() && c1[u] == Colour::Black implies settled_ok(
                u,
                adj_view(adj@),
                selfv@,
                eff@,
                cyclic@,
                colour_done(c1),
            ) by {
                lemma_settled_stable(
                    u,
                    adj_view(adj@),
                    selfv@,
                    c1,
                    eff@,
                    old(cyclic)@,
                    c1,
                    eff@,
                    cyclic@,
                );
            }
        }
        return Verdict::Error;
    }
    let ghost c0 = colour@;
    let ghost e0 = eff@;
    let ghost y0 = cyclic@;
    colour.set(v, Colour::Grey);
    let ghost cg = colour@;
    proof {
        assert(cg == c0.update(v as int, Colour::Grey));
        lemma_white_count_strict(c0, cg, v as int);
    }
    proof {
        assert forall|u: int|
            #![trigger colour@[u]]
            0 <= u < adj@.len() && colour@[u] == Colour::Black implies settled_ok(
            u,
            adj_view(adj@),
            selfv@,
            eff@,
            cyclic@,
            colour_done(colour@),
        ) by {
            lemma_settled_stable(u, adj_view(adj@), selfv@, c0, e0, y0, colour@, eff@, cyclic@);
        }
    }
    let base = selfv[v];
    let mut acc = base;
    let mut or_best: Option<Verdict> = None;
    let deps = &adj[v];
    let ghost js = juncts(deps@);
    let ghost mut legs: Seq<Verdict> = Seq::empty();
    assert(deps@.take(0) =~= Seq::<(usize, Junct)>::empty());
    let mut k: usize = 0;
    while k < deps.len()
        invariant
            v < adj@.len(),
            deps@ == adj_view(adj@)[v as int],
            js == juncts(deps@),
            k <= deps@.len(),
            state_inv(adj_view(adj@), selfv@, colour@, eff@, cyclic@),
            advanced(c0, e0, y0, colour@, eff@, cyclic@),
            colour@[v as int] == Colour::Grey,
            c0[v as int] == Colour::White,
            c0 == old(colour)@,
            forall|i: int|
                0 <= i < colour@.len() && colour@[i] == Colour::Grey ==> c0[i] == Colour::Grey
                    || i == v,
            base == selfv@[v as int],
            legs.len() == k,
            forall|j: int|
                #![trigger legs[j]]
                0 <= j < k ==> leg_ok(
                    deps@[j].0 as int,
                    legs[j],
                    eff@,
                    cyclic@,
                    colour_done(colour@),
                ),
            (acc, or_best) == scan_legs(base, js.take(k as int), legs),
            marks_real(adj_view(adj@), cyclic@),
            stack_ok(adj_view(adj@), c0, stack, v as int),
            colour@.len() == c0.len(),
            marks_seen(colour@, cyclic@),
            cycles_err(adj_view(adj@), colour@, eff@),
            cg == c0.update(v as int, Colour::Grey),
            white_count(cg) < white_count(c0),
            (colour@, eff@, cyclic@, legs) == dfs_legs(adj_view(adj@), selfv@, cg, e0, y0, deps@.take(k as int)),
        decreases deps.len() - k,
    {
        let (d, j) = deps[k];
        let ghost c1 = colour@;
        let ghost e1 = eff@;
        let ghost y1 = cyclic@;
        proof {
            assert(adj_wf(adj_view(adj@)));
            assert(adj_view(adj@)[v as int][k as int].0 < adj@.len());
            lemma_white_count_strict(c0, c1, v as int);
        }
        proof {
            let sp = stack.push(v as int);
            assert(has_dep(adj_view(adj@), v as int, d as int)) by {
                assert(adj_view(adj@)[v as int][k as int].0 == d);
            }
            assert forall|x: int| 0 <= x < colour@.len() implies (#[trigger] colour@[x] == Colour::Grey <==> sp.contains(x)) by {
                crate::text::lemma_push_contains(stack, v as int, x);
                if c0[x] == Colour::Grey {
                    assert(colour@[x] == Colour::Grey);
                }
            }
            assert forall|i: int| 0 <= i < sp.len() - 1 implies has_dep(adj_view(adj@), sp[i], #[trigger] sp[i + 1]) by {
                if i < stack.len() - 1 {
                    assert(sp[i] == stack[i] && sp[i + 1] == stack[i + 1]);
                } else {
                    assert(sp[i] == stack.last() && sp[i + 1] == v);
                }
            }
            assert forall|i: int| 0 <= i < sp.len() implies 0 <= #[trigger] sp[i] < adj_view(adj@).len() by {
                if i < stack.len() {
                    assert(sp[i] == stack[i]);
                }
            }
            assert(sp.last() == v);
        }
        proof {
            assert forall|i: int| 0 <= i < cg.len() implies (cg[i] != Colour::White ==> c1[i] != Colour::White) by {
                if i != v {
                    assert(cg[i] == c0[i]);
                }
            }
            lemma_white_count_progress(cg, c1);
        }
        let dv = propagate(d, adj, selfv, colour, eff, cyclic, Ghost(stack.push(v as int)));
        proof {
            let ds = deps@.take(k + 1);
            assert(ds.drop_last() =~= deps@.take(k as int));
            assert(ds.last() == deps@[k as int]);
        }
        proof {
            assert forall|jj: int|
                #![trigger legs[jj]]
                0 <= jj < k implies leg_ok(
                deps@[jj].0 as int,
                legs[jj],
                eff@,
                cyclic@,
                colour_done(colour@),
            ) by {
                let dd = deps@[jj].0 as int;
                assert(adj_view(adj@)[v as int][jj].0 < adj@.len());
                assert(leg_ok(dd, legs[jj], e1, y1, colour_done(c1)));
            }
            lemma_scan_step(base, js, legs.push(dv), k as int);
            assert(legs.push(dv).drop_last() =~= legs);
            assert(js[k as int] == j);
            legs = legs.push(dv);
        }
        match j {
            Junct::And => {
                acc = demote(acc, dv);
            },
            Junct::Or => {
                or_best = Some(
                    match or_best {
                        Some(b) => promote(b, dv),
                        None => dv,
                    },
                );
            },
        }
        k = k + 1;
    }
    if let Some(b) = or_best {
        acc = demote(acc, b);
    }
    proof {
        assert(js.take(deps@.len() as int) =~= js);
        assert(deps@.take(deps@.len() as int) =~= deps@);
    }
    let ghost c2 = colour@;
    let ghost e2 = eff@;
    let ghost y2 = cyclic@;
    proof {
        if all_and(adj_view(adj@)) && on_cycle(adj_view(adj@), v as int) {
            let a = adj_view(adj@);
            let sx = lemma_cycle_successor(a, v as int);
            let kk = choose|kk: int| #![trigger a[v as int][kk]] 0 <= kk < a[v as int].len() && a[v as int][kk].0 == sx;
            assert(deps@[kk] == a[v as int][kk]);
            assert(leg_ok(sx, legs[kk], e2, y2, colour_done(c2)));
            if colour_done(c2)[sx] && legs[kk] == e2[sx] {
                assert(c2[sx] == Colour::Black);
            }
            assert(legs[kk] == Verdict::Error);
            lemma_combine(base, js, legs);
            assert(js[kk] == Junct::And);
            assert(acc == Verdict::Error);
        }
    }
    colour.set(v, Colour::Black);
    eff.set(v, acc);
    proof {
        assert(legs_witness(v as int, legs, adj_view(adj@), selfv@, eff@, cyclic@, colour_done(colour@))) by {
            assert forall|jj: int|
                #![trigger legs[jj]]
                0 <= jj < legs.len() implies leg_ok(
                adj_view(adj@)[v as int][jj].0 as int,
                legs[jj],
                eff@,
                cyclic@,
                colour_done(colour@),
            ) by {
                let dd = adj_view(adj@)[v as int][jj].0 as int;
                assert(leg_ok(dd, legs[jj], e2, y2, colour_done(c2)));
                if colour_done(c2)[dd] && legs[jj] == e2[dd] {
                    assert(dd != v);
                }
            }
        }
        assert forall|u: int|
            #![trigger colour@[u]]
            0 <= u < adj@.len() && colour@[u] == Colour::Black implies settled_ok(
            u,
            adj_view(adj@),
            selfv@,
            eff@,
            cyclic@,
            colour_done(colour@),
        ) by {
            if u != v {
                assert(c2[u] == Colour::Black);
                lemma_settled_stable(u, adj_view(adj@), selfv@, c2, e2, y2, colour@, eff@, cyclic@);
            }
        }
    }
    acc
}


/// The verdicts of `u`'s dependencies, in adjacency order.
pub open spec fn dep_verdicts(deps: Seq<(usize, Junct)>, eff: Seq<Verdict>) -> Seq<Verdict> {
    deps.map_values(|d: (usize, Junct)| eff[d.0 as int])
}

proof fn lemma_scan(base: Verdict, js: Seq<Junct>, legs: Seq<Verdict>)
    requires
        legs.len() == js.len(),
    ensures
        ({
            let (e, ob) = scan_legs(base, js, legs);
            &&& rank_of(e) <= rank_of(base)
            &&& forall|k: int|
                0 <= k < js.len() && js[k] == Junct::And ==> rank_of(e) <= rank_of(legs[k])
            &&& (e == base || exists|k: int|
                0 <= k < js.len() && js[k] == Junct::And && e == legs[k])
            &&& (ob is None <==> forall|k: int| 0 <= k < js.len() ==> js[k] != Junct::Or)
            &&& (ob matches Some(b) ==> (forall|k: int|
                0 <= k < js.len() && js[k] == Junct::Or ==> rank_of(legs[k]) <= rank_of(b))
                && exists|k: int| 0 <= k < js.len() && js[k] == Junct::Or && b == legs[k])
        }),
    decreases js.len(),
{
    if js.len() > 0 {
        let n = js.len() - 1;
        lemma_scan(base, js.drop_last(), legs.drop_last());
        let (e0, ob0) = scan_legs(base, js.drop_last(), legs.drop_last());
        let (e, ob) = scan_legs(base, js, legs);
        assert forall|k: int| 0 <= k < n implies js.drop_last()[k] == js[k] && legs.drop_last()[k]
            == legs[k] by {}
        if js[n] == Junct::And {
            if e == legs[n] {
            } else {
                assert(e == e0);
                if e0 != base {
                    let k = choose|k: int|
                        0 <= k < js.drop_last().len() && js.drop_last()[k] == Junct::And && e0
                            == legs.drop_last()[k];
                    assert(js[k] == Junct::And && e == legs[k]);
                }
            }
        } else {
            match ob0 {
                Some(b0) => {
                    let k = choose|k: int|
                        0 <= k < js.drop_last().len() && js.drop_last()[k] == Junct::Or && b0
                            == legs.drop_last()[k];
                    assert(js[k] == Junct::Or && b0 == legs[k]);
                },
                None => {},
            }
            if e0 != base {
                let k = choose|k: int|
                    0 <= k < js.drop_last().len() && js.drop_last()[k] == Junct::And && e0
                        == legs.drop_last()[k];
                assert(js[k] == Junct::And && e == legs[k]);
            }
        }
    }
}

/// `combine` never rises above the node's own verdict, nor above any
/// `And` dependency, nor above the best `Or` alternative; and it reaches
/// the lowest of these.
pub proof fn lemma_combine(base: Verdict, js: Seq<Junct>, legs: Seq<Verdict>)
    requires
        legs.len() == js.len(),
    ensures
        rank_of(combine(base, js, legs)) <= rank_of(base),
        forall|k: int|
            0 <= k < js.len() && js[k] == Junct::And ==> rank_of(combine(base, js, legs))
                <= rank_of(legs[k]),
        (exists|k: int| 0 <= k < js.len() && js[k] == Junct::Or) ==> exists|k: int|
            0 <= k < js.len() && js[k] == Junct::Or && rank_of(combine(base, js, legs))
                <= rank_of(legs[k]) && forall|j: int|
                0 <= j < js.len() && js[j] == Junct::Or ==> rank_of(legs[j]) <= rank_of(legs[k]),
{
    lemma_scan(base, js, legs);
    let (e, ob) = scan_legs(base, js, legs);
    if let Some(b) = ob {
        let k = choose|k: int| 0 <= k < js.len() && js[k] == Junct::Or && b == legs[k];
        assert(js[k] == Junct::Or && rank_of(combine(base, js, legs)) <= rank_of(legs[k]));
    }
}

/// Settled facts about one node after the fold.
pub open spec fn fold_facts(
    u: int,
    adj: Seq<Seq<(usize, Junct)>>,
    selfv: Seq<Verdict>,
    eff: Seq<Verdict>,
    cyclic: Seq<bool>,
    settled: Seq<bool>,
) -> bool {
    // demote-only: a node never rises above its own verdict
    &&& rank_of(eff[u]) <= rank_of(selfv[u])
    // a required (And) dependency caps the node
    &&& forall|k: int|
        #![trigger adj[u][k]]
        0 <= k < adj[u].len() && adj[u][k].1 == Junct::And && settled[adj[u][k].0 as int]
            ==> rank_of(eff[u]) <= rank_of(eff[adj[u][k].0 as int])
    // every dependency is settled too, or closed an import cycle
    &&& forall|k: int|
        #![trigger adj[u][k]]
        0 <= k < adj[u].len() ==> settled[adj[u][k].0 as int] || cyclic[adj[u][k].0 as int]
    // the verdict is the node's own verdict combined with its
    // dependencies' verdicts, unless a leg closed an import cycle
    &&& (forall|k: int|
        #![trigger adj[u][k]]
        0 <= k < adj[u].len() ==> !cyclic[adj[u][k].0 as int]) ==> eff[u] == combine(
        selfv[u],
        juncts(adj[u]),
        dep_verdicts(adj[u], eff),
    )
}

proof fn lemma_settled_facts(
    u: int,
    adj: Seq<Seq<(usize, Junct)>>,
    selfv: Seq<Verdict>,
    eff: Seq<Verdict>,
    cyclic: Seq<bool>,
    settled: Seq<bool>,
)
    requires
        adj_wf(adj),
        0 <= u < adj.len(),
        selfv.len() == adj.len(),
        eff.len() == adj.len(),
        cyclic.len() == adj.len(),
        settled.len() == adj.len(),
        settled_ok(u, adj, selfv, eff, cyclic, settled),
    ensures
        fold_facts(u, adj, selfv, eff, cyclic, settled),
{
    let legs = choose|legs: Seq<Verdict>| legs_witness(u, legs, adj, selfv, eff, cyclic, settled);
    let js = juncts(adj[u]);
    lemma_combine(selfv[u], js, legs);
    assert forall|k: int|
        #![trigger adj[u][k]]
        0 <= k < adj[u].len() && adj[u][k].1 == Junct::And && settled[adj[u][k].0 as int]
            implies rank_of(eff[u]) <= rank_of(eff[adj[u][k].0 as int]) by {
        assert(js[k] == Junct::And);
        assert(leg_ok(adj[u][k].0 as int, legs[k], eff, cyclic, settled));
    }
    assert forall|k: int|
        #![trigger adj[u][k]]
        0 <= k < adj[u].len() implies settled[adj[u][k].0 as int] || cyclic[adj[u][k].0 as int] by {
        assert(leg_ok(adj[u][k].0 as int, legs[k], eff, cyclic, settled));
    }
    if forall|k: int|
        #![trigger adj[u][k]]
        0 <= k < adj[u].len() ==> !cyclic[adj[u][k].0 as int] {
        assert forall|k: int| 0 <= k < legs.len() implies legs[k] == dep_verdicts(
            adj[u],
            eff,
        )[k] by {
            assert(leg_ok(adj[u][k].0 as int, legs[k], eff, cyclic, settled));
            assert(!cyclic[adj[u][k].0 as int]);
        }
        assert(legs =~= dep_verdicts(adj[u], eff));
    }
}

/// Folds verdicts over the dependency graph `adj`, starting a demote-only,
/// cycle-safe DFS from each node of `order` in turn. Returns the effective
/// verdicts, the nodes whose DFS closed an import cycle, and the settled
/// nodes (every node of `order`, plus everything reached from them).
pub fn fold_verdicts(selfv: &Vec<Verdict>, adj: &Vec<Vec<(usize, Junct)>>, order: &Vec<usize>) -> (r: (
    Vec<Verdict>,
    Vec<bool>,
    Vec<bool>,
))
    requires
        adj_wf(adj_view(adj@)),
        selfv@.len() == adj@.len(),
        forall|i: int| 0 <= i < order@.len() ==> order@[i] < adj@.len(),
    ensures
        r.0@.len() == adj@.len(),
        r.1@.len() == adj@.len(),
        r.2@.len() == adj@.len(),
        forall|i: int| 0 <= i < order@.len() ==> r.2@[order@[i] as int],
        forall|u: int|
            #![trigger r.2@[u]]
            0 <= u < adj@.len() && r.2@[u] ==> fold_facts(u, adj_view(adj@), selfv@, r.0@, r.1@, r.2@),
        marks_real(adj_view(adj@), r.1@),
        forall|u: int| 0 <= u < adj@.len() && #[trigger] r.1@[u] ==> r.2@[u],
        all_and(adj_view(adj@)) ==> forall|u: int|
            0 <= u < adj@.len() && #[trigger] r.2@[u] && on_cycle(adj_view(adj@), u) ==> r.0@[u] == Verdict::Error,
        (r.0@, r.1@) == dfs_result(adj_view(adj@), selfv@, order@),
{
    let n = adj.len();
    let mut colour: Vec<Colour> = Vec::new();
    let mut eff: Vec<Verdict> = Vec::new();
    let mut cyclic: Vec<bool> = Vec::new();
    let mut i: usize = 0;
    while i < n
        invariant
            i <= n,
            n == adj@.len(),
            colour@.len() == i,
            eff@.len() == i,
            cyclic@.len() == i,
            forall|j: int| 0 <= j < i ==> colour@[j] == Colour::White,
            forall|j: int| 0 <= j < i ==> eff@[j] == Verdict::Unknown,
            forall|j: int| 0 <= j < i ==> !cyclic@[j],
        decreases n - i,

    {
        colour.push(Colour::White);
        eff.push(Verdict::Unknown);
        cyclic.push(false);
        i = i + 1;
    }
    let ghost cw = Seq::new(n as nat, |i: int| Colour::White);
    let ghost ew = Seq::new(n as nat, |i: int| Verdict::Unknown);
    let ghost yw = Seq::new(n as nat, |i: int| false);
    assert(colour@ =~= cw);
    assert(eff@ =~= ew);
    assert(cyclic@ =~= yw);
    assert(order@.take(0) =~= Seq::<usize>::empty());
    let mut k: usize = 0;
    while k < order.len()
        invariant
            k <= order@.len(),
            n == adj@.len(),
            cw == Seq::new(n as nat, |i: int| Colour::White),
            ew == Seq::new(n as nat, |i: int| Verdict::Unknown),
            yw == Seq::new(n as nat, |i: int| false),
            (colour@, eff@, cyclic@) == dfs_from(adj_view(adj@), selfv@, cw, ew, yw, order@.take(k as int)),
            forall|i: int| 0 <= i < order@.len() ==> order@[i] < adj@.len(),
            state_inv(adj_view(adj@), selfv@, colour@, eff@, cyclic@),
            forall|j: int| 0 <= j < colour@.len() ==> colour@[j] != Colour::Grey,
            forall|j: int| 0 <= j < k ==> colour@[order@[j] as int] == Colour::Black,
            marks_real(adj_view(adj@), cyclic@),
            marks_seen(colour@, cyclic@),
            cycles_err(adj_view(adj@), colour@, eff@),
        decreases order@.len() - k,
    {
        let ghost c1 = colour@;
        proof {
            assert(stack_ok(adj_view(adj@), colour@, Seq::<int>::empty(), order@[k as int] as int));
        }
        propagate(order[k], adj, selfv, &mut colour, &mut eff, &mut cyclic, Ghost(Seq::empty()));
        proof {
            let os = order@.take(k + 1);
            assert(os.drop_last() =~= order@.take(k as int));
            assert(os.last() == order@[k as int]);
        }
        proof {
            assert forall|j: int| 0 <= j < k + 1 implies colour@[order@[j] as int]
                == Colour::Black by {
                if j < k {
                    assert(c1[order@[j] as int] == Colour::Black);
                }
            }
        }
        k = k + 1;
    }
    let mut settled: Vec<bool> = Vec::new();
    let mut i: usize = 0;
    while i < n
        invariant
            i <= n,
            n == adj@.len(),
            colour@.len() == n,
            settled@ == colour_done(colour@).take(i as int),
        decreases n - i,
    {
        settled.push(colour[i] == Colour::Black);
        i = i + 1;
        assert(settled@ =~= colour_done(colour@).take(i as int));
    }
    proof {
        assert(order@.take(order@.len() as int) =~= order@);
        assert(adj_view(adj@).len() == n);
        assert(settled@ =~= colour_done(colour@));
        assert forall|u: int| 0 <= u < adj@.len() && #[trigger] cyclic@[u] implies settled@[u] by {
            assert(colour@[u] != Colour::White);
            assert(colour@[u] != Colour::Grey);
        }
        assert forall|u: int|
            #![trigger settled@[u]]
            0 <= u < adj@.len() && settled@[u] implies fold_facts(
            u,
            adj_view(adj@),
            selfv@,
            eff@,
            cyclic@,
            settled@,
        ) by {
            assert(colour@[u] == Colour::Black);
            lemma_settled_facts(u, adj_view(adj@), selfv@, eff@, cyclic@, settled@);
        }
    }
    (eff, cyclic, settled)
}


/// `d` is one of `u`'s dependencies.
pub open spec fn has_dep(adj: Seq<Seq<(usize, Junct)>>, u: int, d: int) -> bool {
    exists|k: int| #![trigger adj[u][k]] 0 <= k < adj[u].len() && adj[u][k].0 == d
}

/// `p` is a walk along dependency edges.
pub open spec fn is_walk(adj: Seq<Seq<(usize, Junct)>>, p: Seq<int>) -> bool {
    &&& p.len() >= 1
    &&& forall|i: int| 0 <= i < p.len() ==> 0 <= #[trigger] p[i] < adj.len()
    &&& forall|i: int| 0 <= i < p.len() - 1 ==> has_dep(adj, p[i], #[trigger] p[i + 1])
}

/// `v` can be reached from one of `roots` by following dependency edges.
pub open spec fn reaches(adj: Seq<Seq<(usize, Junct)>>, roots: Seq<usize>, v: int) -> bool {
    exists|p: Seq<int>|
        #![trigger is_walk(adj, p)]
        is_walk(adj, p) && roots.contains(p[0] as usize) && p.last() == v
}

/// A walk leads from `u` to `w`.
pub open spec fn leads_to(adj: Seq<Seq<(usize, Junct)>>, u: int, w: int) -> bool {
    exists|p: Seq<int>| #![trigger is_walk(adj, p)] is_walk(adj, p) && p[0] == u && p.last() == w
}

/// No node that `u` leads to (`u` itself included) lies on a cycle.
pub open spec fn cycle_free_from(adj: Seq<Seq<(usize, Junct)>>, u: int) -> bool {
    forall|w: int| #[trigger] leads_to(adj, u, w) ==> !on_cycle(adj, w)
}

/// Every dependency is an `And` dependency.
pub open spec fn all_and(adj: Seq<Seq<(usize, Junct)>>) -> bool {
    forall|u: int, k: int|
        #![trigger adj[u][k]]
        0 <= u < adj.len() && 0 <= k < adj[u].len() ==> adj[u][k].1 == Junct::And
}

/// The nodes that `u` leads to.
pub open spec fn reach_set(adj: Seq<Seq<(usize, Junct)>>, u: int) -> Set<int> {
    Set::new(|w: int| 0 <= w < adj.len() && leads_to(adj, u, w))
}

proof fn lemma_leads_to_self(adj: Seq<Seq<(usize, Junct)>>, u: int)
    requires
        0 <= u < adj.len(),
    ensures
        leads_to(adj, u, u),
{
    let p = seq![u];
    assert(is_walk(adj, p));
}

proof fn lemma_leads_to_step(adj: Seq<Seq<(usize, Junct)>>, u: int, d: int, w: int)
    requires
        0 <= u < adj.len(),
        has_dep(adj, u, d),
        leads_to(adj, d, w),
    ensures
        leads_to(adj, u, w),
        on_cycle(adj, u) || w != u,
{
    let p = choose|p: Seq<int>| #![trigger is_walk(adj, p)] is_walk(adj, p) && p[0] == d && p.last() == w;
    let q = seq![u] + p;
    assert forall|i: int| 0 <= i < q.len() implies 0 <= #[trigger] q[i] < adj.len() by {
        if i > 0 {
            assert(q[i] == p[i - 1]);
        }
    }
    assert forall|i: int| 0 <= i < q.len() - 1 implies has_dep(adj, q[i], #[trigger] q[i + 1]) by {
        if i > 0 {
            let j = i - 1;
            assert(has_dep(adj, p[j], p[j + 1]));
            assert(q[i] == p[j] && q[i + 1] == p[j + 1]);
        } else {
            assert(q[1] == p[0]);
        }
    }
    assert(is_walk(adj, q));
    assert(q[0] == u && q.last() == w && q.len() >= 2);
}

/// On a graph of `And` dependencies, a settled node that leads to a node on
/// a cycle is `Error`, given that every settled node on a cycle is.
pub proof fn lemma_reaches_cycle_error(
    adj: Seq<Seq<(usize, Junct)>>,
    selfv: Seq<Verdict>,
    eff: Seq<Verdict>,
    cyclic: Seq<bool>,
    settled: Seq<bool>,
    p: Seq<int>,
)
    requires
        adj_wf(adj),
        all_and(adj),
        selfv.len() == adj.len(),
        eff.len() == adj.len(),
        cyclic.len() == adj.len(),
        settled.len() == adj.len(),
        forall|x: int| 0 <= x < adj.len() && #[trigger] settled[x] ==> fold_facts(x, adj, selfv, eff, cyclic, settled),
        forall|x: int| 0 <= x < adj.len() && #[trigger] cyclic[x] ==> settled[x],
        forall|x: int| 0 <= x < adj.len() && #[trigger] settled[x] && on_cycle(adj, x) ==> eff[x] == Verdict::Error,
        is_walk(adj, p),
        settled[p[0]],
        on_cycle(adj, p.last()),
    ensures
        eff[p[0]] == Verdict::Error,
    decreases p.len(),
{
    if p.len() > 1 {
        let u = p[0];
        let z: int = 0;
        assert(has_dep(adj, p[z], p[z + 1]));
        let d = p[1];
        let k = choose|k: int| #![trigger adj[u][k]] 0 <= k < adj[u].len() && adj[u][k].0 == d;
        assert(fold_facts(u, adj, selfv, eff, cyclic, settled));
        assert(settled[d]);
        let q = p.drop_first();
        assert forall|i: int| 0 <= i < q.len() implies 0 <= #[trigger] q[i] < adj.len() by {
            assert(q[i] == p[i + 1]);
        }
        assert forall|i: int| 0 <= i < q.len() - 1 implies has_dep(adj, q[i], #[trigger] q[i + 1]) by {
            let j = i + 1;
            assert(has_dep(adj, p[j], p[j + 1]));
            assert(q[i] == p[j] && q[i + 1] == p[j + 1]);
        }
        assert(q.last() == p.last());
        lemma_reaches_cycle_error(adj, selfv, eff, cyclic, settled, q);
        assert(adj[u][k].1 == Junct::And);
    }
}

/// On a graph of `And` dependencies, the settled verdict of a node from
/// which no cycle can be reached is the lowest own verdict among the node
/// and every node it leads to.
pub proof fn lemma_acyclic_min(
    adj: Seq<Seq<(usize, Junct)>>,
    selfv: Seq<Verdict>,
    eff: Seq<Verdict>,
    cyclic: Seq<bool>,
    settled: Seq<bool>,
    u: int,
)
    requires
        adj_wf(adj),
        all_and(adj),
        0 <= u < adj.len(),
        selfv.len() == adj.len(),
        eff.len() == adj.len(),
        cyclic.len() == adj.len(),
        settled.len() == adj.len(),
        forall|x: int| 0 <= x < adj.len() && #[trigger] settled[x] ==> fold_facts(x, adj, selfv, eff, cyclic, settled),
        marks_real(adj, cyclic),
        settled[u],
        cycle_free_from(adj, u),
    ensures
        forall|w: int| #[trigger] leads_to(adj, u, w) ==> rank_of(eff[u]) <= rank_of(selfv[w]),
        exists|w: int| #[trigger] leads_to(adj, u, w) && eff[u] == selfv[w],
    decreases reach_set(adj, u).len(),
{
    let deps = adj[u];
    assert(fold_facts(u, adj, selfv, eff, cyclic, settled));
    lemma_leads_to_self(adj, u);
    assert(!on_cycle(adj, u));
    assert forall|k: int| 0 <= k < deps.len() implies #[trigger] settled[deps[k].0 as int]
        && !cyclic[deps[k].0 as int] && cycle_free_from(adj, deps[k].0 as int) by {
        let d = deps[k].0 as int;
        assert(adj[u][k] == deps[k]);
        assert(has_dep(adj, u, d));
        lemma_leads_to_self(adj, d);
        lemma_leads_to_step(adj, u, d, d);
        assert(!on_cycle(adj, d));
        assert forall|w: int| #[trigger] leads_to(adj, d, w) implies !on_cycle(adj, w) by {
            lemma_leads_to_step(adj, u, d, w);
        }
    }
    assert forall|k: int| #![trigger adj[u][k]] 0 <= k < adj[u].len() implies !cyclic[adj[u][k].0 as int] by {
        assert(adj[u][k] == deps[k]);
    }
    let js = juncts(deps);
    let legs = dep_verdicts(deps, eff);
    assert(eff[u] == combine(selfv[u], js, legs));
    lemma_scan(selfv[u], js, legs);
    assert forall|k: int| 0 <= k < js.len() implies js[k] != Junct::Or by {
        assert(adj[u][k] == deps[k]);
    }
    let (e, ob) = scan_legs(selfv[u], js, legs);
    assert(ob is None);
    assert(eff[u] == e);
    // each dependency's own minimum
    assert forall|k: int| #![trigger deps[k]] 0 <= k < deps.len() implies {
        let d = deps[k].0 as int;
        &&& forall|w: int| #[trigger] leads_to(adj, d, w) ==> rank_of(eff[d]) <= rank_of(selfv[w])
        &&& exists|w: int| #[trigger] leads_to(adj, d, w) && eff[d] == selfv[w]
    } by {
        let d = deps[k].0 as int;
        assert(adj[u][k] == deps[k]);
        assert(has_dep(adj, u, d));
        assert(settled[deps[k].0 as int] && cycle_free_from(adj, d));
        // the reach of `d` is a strict part of the reach of `u`
        vstd::set_lib::lemma_int_range(0, adj.len() as int);
        assert(reach_set(adj, u).subset_of(vstd::set_lib::set_int_range(0, adj.len() as int)));
        vstd::set_lib::lemma_len_subset(reach_set(adj, u), vstd::set_lib::set_int_range(0, adj.len() as int));
        assert forall|w: int| #[trigger] reach_set(adj, d).contains(w) implies reach_set(adj, u).remove(u).contains(w) by {
            lemma_leads_to_step(adj, u, d, w);
        }
        assert(reach_set(adj, u).contains(u));
        vstd::set_lib::lemma_len_subset(reach_set(adj, d), reach_set(adj, u).remove(u));
        lemma_acyclic_min(adj, selfv, eff, cyclic, settled, d);
    }
    // lower bound over everything `u` leads to
    assert forall|w: int| #[trigger] leads_to(adj, u, w) implies rank_of(eff[u]) <= rank_of(selfv[w]) by {
        let p = choose|p: Seq<int>| #![trigger is_walk(adj, p)] is_walk(adj, p) && p[0] == u && p.last() == w;
        if p.len() >= 2 {
            let q = p.drop_first();
            assert forall|i: int| 0 <= i < q.len() implies 0 <= #[trigger] q[i] < adj.len() by {
                assert(q[i] == p[i + 1]);
            }
            assert forall|i: int| 0 <= i < q.len() - 1 implies has_dep(adj, q[i], #[trigger] q[i + 1]) by {
                assert(q[i] == p[i + 1] && q[i + 1] == p[i + 2]);
            }
            assert(is_walk(adj, q));
            let z: int = 0;
            assert(has_dep(adj, p[z], p[z + 1]));
            assert(p[z + 1] == p[1]);
            let k = choose|k: int| #![trigger adj[u][k]] 0 <= k < adj[u].len() && adj[u][k].0 == p[1];
            assert(adj[u][k] == deps[k]);
            assert(leads_to(adj, p[1], w));
            assert(js[k] == Junct::And);
            assert(legs[k] == eff[p[1]]);
        }
    }
    if e != selfv[u] {
        let k = choose|k: int| 0 <= k < js.len() && js[k] == Junct::And && e == legs[k];
        let d = deps[k].0 as int;
        assert(adj[u][k] == deps[k]);
        assert(has_dep(adj, u, d));
        let w = choose|w: int| #[trigger] leads_to(adj, d, w) && eff[d] == selfv[w];
        lemma_leads_to_step(adj, u, d, w);
    }
}

proof fn lemma_closed_contains_walk(
    adj: Seq<Seq<(usize, Junct)>>,
    marked: Seq<bool>,
    p: Seq<int>,
)
    requires
        marked.len() == adj.len(),
        is_walk(adj, p),
        marked[p[0]],
        forall|u: int, d: int|
            #![trigger has_dep(adj, u, d)]
            0 <= u < adj.len() && marked[u] && has_dep(adj, u, d) ==> marked[d],
    ensures
        marked[p.last()],
    decreases p.len(),
{
    if p.len() > 1 {
        let q = p.drop_last();
        assert forall|i: int| 0 <= i < q.len() - 1 implies has_dep(adj, q[i], #[trigger] q[i + 1]) by {
            assert(has_dep(adj, p[i], p[i + 1]));
        }
        assert forall|i: int| 0 <= i < q.len() implies 0 <= #[trigger] q[i] < adj.len() by {
            assert(0 <= p[i] < adj.len());
        }
        lemma_closed_contains_walk(adj, marked, q);
        let i = p.len() - 2;
        assert(has_dep(adj, p[i], p[i + 1]));
        assert(q.last() == p[i]);
    }
}

/// The nodes reachable from `roots` along dependency edges (every root
/// included).
#[verifier::rlimit(60)]
pub fn reachable_from(adj: &Vec<Vec<(usize, Junct)>>, roots: &Vec<usize>) -> (r: Vec<bool>)
    requires
        adj_wf(adj_view(adj@)),
        forall|i: int| 0 <= i < roots@.len() ==> roots@[i] < adj@.len(),
    ensures
        r@.len() == adj@.len(),
        forall|v: int| 0 <= v < adj@.len() ==> (r@[v] <==> reaches(adj_view(adj@), roots@, v)),
{
    let n = adj.len();
    let mut marked: Vec<bool> = Vec::new();
    let mut i: usize = 0;
    while i < n
        invariant
            i <= n,
            n == adj@.len(),
            marked@.len() == i,
            forall|j: int| 0 <= j < i ==> !marked@[j],
        decreases n - i,
    {
        marked.push(false);
        i = i + 1;
    }
    let mut stack: Vec<usize> = Vec::new();
    let mut count: usize = 0;
    let mut i: usize = 0;
    while i < roots.len()
        invariant
            i <= roots@.len(),
            n == adj@.len(),
            adj_wf(adj_view(adj@)),
            marked@.len() == n,
            forall|j: int| 0 <= j < roots@.len() ==> roots@[j] < adj@.len(),
            forall|j: int| 0 <= j < i ==> marked@[roots@[j] as int],
            forall|v: int| 0 <= v < n && marked@[v] ==> reaches(adj_view(adj@), roots@, v),
            forall|j: int| 0 <= j < stack@.len() ==> stack@[j] < n && marked@[stack@[j] as int],
            forall|u: int, d: int|
                #![trigger has_dep(adj_view(adj@), u, d)]
                0 <= u < n && marked@[u] && has_dep(adj_view(adj@), u, d) && !marked@[d]
                    ==> stack@.contains(u as usize),
        decreases roots@.len() - i,
    {
        let rt = roots[i];
        if !marked[rt] {
            proof {
                let p = seq![rt as int];
                assert(is_walk(adj_view(adj@), p));
                assert(roots@.contains(p[0] as usize)) by {
                    assert(roots@[i as int] == rt);
                }
            }
            let ghost before = stack@;
            let ghost mb = marked@;
            marked.set(rt, true);
            stack.push(rt);
            proof {
                assert forall|w: int, dd: int|
                    #![trigger has_dep(adj_view(adj@), w, dd)]
                    0 <= w < n && marked@[w] && has_dep(adj_view(adj@), w, dd) && !marked@[dd]
                        implies stack@.contains(w as usize) by {
                    if w != rt {
                        let kk = choose|kk: int|
                            #![trigger adj_view(adj@)[w][kk]]
                            0 <= kk < adj_view(adj@)[w].len() && adj_view(adj@)[w][kk].0 == dd;
                        assert(dd < n);
                        assert(mb[w] && !mb[dd]);
                        assert(before.contains(w as usize));
                        if before.contains(w as usize) {
                            let j = choose|j: int| 0 <= j < before.len() && before[j] == w as usize;
                            assert(stack@[j] == w as usize);
                        }
                    } else {
                        assert(stack@[stack@.len() - 1] == rt);
                    }
                }
            }
        }
        i = i + 1;
    }
    while stack.len() > 0
        invariant
            n == adj@.len(),
            adj_wf(adj_view(adj@)),
            marked@.len() == n,
            forall|j: int| 0 <= j < roots@.len() ==> roots@[j] < adj@.len(),
            forall|j: int| 0 <= j < roots@.len() ==> marked@[roots@[j] as int],
            forall|v: int| 0 <= v < n && marked@[v] ==> reaches(adj_view(adj@), roots@, v),
            forall|j: int| 0 <= j < stack@.len() ==> stack@[j] < n && marked@[stack@[j] as int],
            forall|u: int, d: int|
                #![trigger has_dep(adj_view(adj@), u, d)]
                0 <= u < n && marked@[u] && has_dep(adj_view(adj@), u, d) && !marked@[d]
                    ==> stack@.contains(u as usize),
        decreases n - count_marked(marked@), stack@.len(),
    {
        proof {
            lemma_count_marked_le(marked@);
        }
        let ghost old_stack = stack@;
        let u = stack.pop().unwrap();
        proof {
            assert(old_stack =~= stack@.push(u));
            assert(old_stack[old_stack.len() - 1] == u);
        }
        let ghost m0 = count_marked(marked@);
        let ghost s0 = stack@.len();
        let deps = &adj[u];
        let mut k: usize = 0;
        while k < deps.len()
            invariant
                n == adj@.len(),
                adj_wf(adj_view(adj@)),
                u < n,
                deps@ == adj_view(adj@)[u as int],
                k <= deps@.len(),
                marked@.len() == n,
                marked@[u as int],
                forall|j: int| 0 <= j < roots@.len() ==> roots@[j] < adj@.len(),
                forall|j: int| 0 <= j < roots@.len() ==> marked@[roots@[j] as int],
                forall|v: int| 0 <= v < n && marked@[v] ==> reaches(adj_view(adj@), roots@, v),
                forall|j: int| 0 <= j < stack@.len() ==> stack@[j] < n && marked@[stack@[j] as int],
                forall|j: int| 0 <= j < k ==> marked@[deps@[j].0 as int],
                forall|w: int, d: int|
                    #![trigger has_dep(adj_view(adj@), w, d)]
                    0 <= w < n && marked@[w] && has_dep(adj_view(adj@), w, d) && !marked@[d]
                        ==> stack@.contains(w as usize) || w == u,
                count_marked(marked@) >= m0,
                count_marked(marked@) == m0 ==> stack@.len() == s0,
                count_marked(marked@) <= n,
            decreases deps@.len() - k,
        {
            let d = deps[k].0;
            proof {
                assert(adj_view(adj@)[u as int][k as int].0 < adj@.len());
            }
            if !marked[d] {
                proof {
                    let pu = choose|p: Seq<int>|
                        #![trigger is_walk(adj_view(adj@), p)]
                        is_walk(adj_view(adj@), p) && roots@.contains(p[0] as usize) && p.last() == u;
                    let pd = pu.push(d as int);
                    assert(has_dep(adj_view(adj@), u as int, d as int)) by {
                        assert(adj_view(adj@)[u as int][k as int].0 == d);
                    }
                    assert forall|i: int| 0 <= i < pd.len() - 1 implies has_dep(
                        adj_view(adj@),
                        pd[i],
                        #[trigger] pd[i + 1],
                    ) by {
                        if i < pu.len() - 1 {
                            assert(pd[i] == pu[i] && pd[i + 1] == pu[i + 1]);
                        }
                    }
                    assert(is_walk(adj_view(adj@), pd));
                    assert(pd[0] == pu[0]);
                    lemma_count_marked_set(marked@, d as int);
                }
                let ghost before = stack@;
                marked.set(d, true);
                stack.push(d);
                proof {
                    assert forall|w: int, dd: int|
                        #![trigger has_dep(adj_view(adj@), w, dd)]
                        0 <= w < n && marked@[w] && has_dep(adj_view(adj@), w, dd) && !marked@[dd]
                            implies stack@.contains(w as usize) || w == u by {
                        if w != d {
                            if before.contains(w as usize) {
                                let j = choose|j: int| 0 <= j < before.len() && before[j] == w as usize;
                                assert(stack@[j] == w as usize);
                            }
                        } else {
                            assert(stack@[stack@.len() - 1] == d);
                        }
                    }
                    lemma_count_marked_le(marked@);
                }
            }
            k = k + 1;
        }
        proof {
            assert forall|w: int, d: int|
                #![trigger has_dep(adj_view(adj@), w, d)]
                0 <= w < n && marked@[w] && has_dep(adj_view(adj@), w, d) && !marked@[d]
                    implies stack@.contains(w as usize) by {
                if w == u {
                    let kk = choose|kk: int|
                        #![trigger adj_view(adj@)[w][kk]]
                        0 <= kk < adj_view(adj@)[w].len() && adj_view(adj@)[w][kk].0 == d;
                    assert(marked@[deps@[kk].0 as int]);
                }
            }
        }
    }
    proof {
        assert forall|v: int| 0 <= v < adj@.len() && reaches(adj_view(adj@), roots@, v) implies marked@[v] by {
            let p = choose|p: Seq<int>|
                #![trigger is_walk(adj_view(adj@), p)]
                is_walk(adj_view(adj@), p) && roots@.contains(p[0] as usize) && p.last() == v;
            let j = choose|j: int| 0 <= j < roots@.len() && roots@[j] == p[0] as usize;
            assert(0 <= p[0] < adj@.len());
            assert(marked@[p[0]]);
            lemma_closed_contains_walk(adj_view(adj@), marked@, p);
        }
    }
    marked
}

spec fn count_marked(m: Seq<bool>) -> nat
    decreases m.len(),
{
    if m.len() == 0 {
        0
    } else {
        count_marked(m.drop_last()) + if m.last() {
            1nat
        } else {
            0nat
        }
    }
}

proof fn lemma_count_marked_set(m: Seq<bool>, i: int)
    requires
        0 <= i < m.len(),
        !m[i],
    ensures
        count_marked(m.update(i, true)) == count_marked(m) + 1,
        count_marked(m) < m.len(),
    decreases m.len(),
{
    if i == m.len() - 1 {
        assert(m.update(i, true).drop_last() =~= m.drop_last());
        lemma_count_marked_le(m.drop_last());
    } else {
        assert(m.update(i, true).drop_last() =~= m.drop_last().update(i, true));
        lemma_count_marked_set(m.drop_last(), i);
    }
}

proof fn lemma_count_marked_le(m: Seq<bool>)
    ensures
        count_marked(m) <= m.len(),
    decreases m.len(),
{
    if m.len() > 0 {
        lemma_count_marked_le(m.drop_last());
    }
}


/// The coarse soundness bucket of a verdict.
pub open spec fn soundness_word(v: Verdict) -> Seq<char> {
    match v {
        Verdict::Proven => "sound"@,
        Verdict::Admitted | Verdict::Postulated => "amber"@,
        Verdict::Unknown | Verdict::Unavailable => "unproven"@,
        Verdict::Refuted | Verdict::Error => "unsound"@,
    }
}

/// Coarse soundness bucket for display.
pub fn soundness_of(v: Verdict) -> (s: &'static str)
    ensures
        s@ == soundness_word(v),
{
    match v {
        Verdict::Proven => "sound",
        Verdict::Admitted | Verdict::Postulated => "amber",
        Verdict::Unknown | Verdict::Unavailable => "unproven",
        Verdict::Refuted | Verdict::Error => "unsound",
    }
}

/// The lowercase word for a verdict.
pub open spec fn word_of(v: Verdict) -> Seq<char> {
    match v {
        Verdict::Proven => "proven"@,
        Verdict::Refuted => "refuted"@,
        Verdict::Unknown => "unknown"@,
        Verdict::Admitted => "admitted"@,
        Verdict::Postulated => "postulated"@,
        Verdict::Error => "error"@,
        Verdict::Unavailable => "unavailable"@,
    }
}

/// The lowercase word for a verdict.
pub fn verdict_word(v: Verdict) -> (s: &'static str)
    ensures
        s@ == word_of(v),
{
    match v {
        Verdict::Proven => "proven",
        Verdict::Refuted => "refuted",
        Verdict::Unknown => "unknown",
        Verdict::Admitted => "admitted",
        Verdict::Postulated => "postulated",
        Verdict::Error => "error",
        Verdict::Unavailable => "unavailable",
    }
}

/// The ceiling that a lint rule puts on the self-verdict of a node. A
/// postulate lowers it to `Postulated`; a missing safe pragma or an escape
/// hatch to `Admitted`; other rules (the orphan rule among them) leave it.
pub open spec fn cap_of(rule: Seq<char>) -> Option<Verdict> {
    if rule == "unjustified-postulate"@ {
        Some(Verdict::Postulated)
    } else if rule == "missing-safe-pragma"@ {
        Some(Verdict::Admitted)
    } else if rule == "escape-hatch"@ {
        Some(Verdict::Admitted)
    } else {
        None
    }
}

/// The lint caps: an unjustified postulate caps a node at `Postulated`, a
/// missing safe pragma or an escape hatch at `Admitted`, and every other
/// rule leaves the node uncapped.
pub proof fn lemma_lint_caps(rule: Seq<char>)
    ensures
        rule == "unjustified-postulate"@ ==> cap_of(rule) == Some(Verdict::Postulated),
        rule == "missing-safe-pragma"@ ==> cap_of(rule) == Some(Verdict::Admitted),
        rule == "escape-hatch"@ ==> cap_of(rule) == Some(Verdict::Admitted),
        rule != "unjustified-postulate"@ && rule != "missing-safe-pragma"@ && rule != "escape-hatch"@
            ==> cap_of(rule) is None,
{
    reveal_strlit("unjustified-postulate");
    reveal_strlit("missing-safe-pragma");
    reveal_strlit("escape-hatch");
    assert("unjustified-postulate"@.len() != "missing-safe-pragma"@.len());
    assert("unjustified-postulate"@.len() != "escape-hatch"@.len());
    assert("missing-safe-pragma"@.len() != "escape-hatch"@.len());
}

/// A node's own verdict is never above what was supplied for it, never
/// above `Admitted` when its lint lists a missing safe pragma or an escape
/// hatch, and never above `Postulated` when it lists an unjustified
/// postulate.
pub proof fn lemma_capped_self_verdict(
    id: Seq<char>,
    hard_block: Seq<Seq<char>>,
    warn: Seq<Seq<char>>,
    vs: Seq<(String, Verdict)>,
)
    ensures
        ({
            let v = self_verdict_spec(id, hard_block, warn, vs).0;
            let rules = hard_block + warn;
            &&& rank_of(v) <= rank_of(supplied_verdict(vs, id))
            &&& (rules.contains("missing-safe-pragma"@) || rules.contains("escape-hatch"@)) ==> rank_of(v) <= rank_of(Verdict::Admitted)
            &&& rules.contains("unjustified-postulate"@) ==> rank_of(v) <= rank_of(Verdict::Postulated)
        }),
{
    lemma_self_verdict_is_min(id, hard_block, warn, vs);
    let rules = hard_block + warn;
    if rules.contains("missing-safe-pragma"@) {
        let k = choose|k: int| 0 <= k < rules.len() && rules[k] == "missing-safe-pragma"@;
        lemma_lint_caps(rules[k]);
    }
    if rules.contains("escape-hatch"@) {
        let k = choose|k: int| 0 <= k < rules.len() && rules[k] == "escape-hatch"@;
        lemma_lint_caps(rules[k]);
    }
    if rules.contains("unjustified-postulate"@) {
        let k = choose|k: int| 0 <= k < rules.len() && rules[k] == "unjustified-postulate"@;
        lemma_lint_caps(rules[k]);
    }
}

/// With a single lint rule on a node that a prover checked, the node's own
/// verdict is the supplied one lowered to the rule's cap when that cap is
/// lower, and its evidence names the prover's word and, when the cap
/// applied, the rule and the word it lowered the node to.
pub proof fn lemma_single_cap_evidence(id: Seq<char>, rule: Seq<char>, hard: bool, vs: Seq<(String, Verdict)>, s: Verdict)
    requires
        lookup_verdict(vs, id) == Some(s),
    ensures
        ({
            let hb = if hard { seq![rule] } else { Seq::<Seq<char>>::empty() };
            let wn = if hard { Seq::<Seq<char>>::empty() } else { seq![rule] };
            let r = self_verdict_spec(id, hb, wn, vs);
            match cap_of(rule) {
                Some(c) => if rank_of(c) < rank_of(s) {
                    r == (c, "prover: "@ + word_of(s) + "; "@ + rule + " → "@ + word_of(c))
                } else {
                    r == (s, "prover: "@ + word_of(s))
                },
                None => r == (s, "prover: "@ + word_of(s)),
            }
        }),
{
    let hb = if hard { seq![rule] } else { Seq::<Seq<char>>::empty() };
    let wn = if hard { Seq::<Seq<char>>::empty() } else { seq![rule] };
    let rules = hb + wn;
    assert(rules =~= seq![rule]);
    assert(rules.drop_last() =~= Seq::<Seq<char>>::empty());
    let first = "prover: "@ + word_of(s);
    assert(cap_scan(s, rules.drop_last()) == (s, Seq::<Seq<char>>::empty()));
    assert(rules.last() == rule);
    let (v, parts) = cap_scan(s, rules);
    match cap_of(rule) {
        Some(c) => {
            if rank_of(c) < rank_of(s) {
                assert(lower(s, c) == c);
                assert(parts =~= seq![rule + " → "@ + word_of(c)]);
                assert(seq![first] + parts =~= seq![first, parts[0]]);
                assert(seq![first, parts[0]].drop_last() =~= seq![first]);
                assert(join_evidence(seq![first, parts[0]]) == join_evidence(seq![first]) + "; "@ + parts[0]);
                assert(join_evidence(seq![first]) == first);
                assert(first + "; "@ + (rule + " → "@ + word_of(c)) =~= "prover: "@ + word_of(s) + "; "@ + rule + " → "@ + word_of(c));
            } else {
                assert(lower(s, c) == s);
                assert(parts =~= Seq::<Seq<char>>::empty());
                assert(seq![first] + parts =~= seq![first]);
            }
        },
        None => {
            assert(parts =~= Seq::<Seq<char>>::empty());
            assert(seq![first] + parts =~= seq![first]);
        },
    }
}

/// The cap a single lint rule imposes on a node's self-verdict, if any.
pub fn lint_cap(rule: &str) -> (r: Option<Verdict>)
    ensures
        r == cap_of(rule@),
{
    let r = chars_of(rule);
    if seq_eq(&r, &chars_of("unjustified-postulate")) {
        Some(Verdict::Postulated)
    } else if seq_eq(&r, &chars_of("missing-safe-pragma")) {
        Some(Verdict::Admitted)
    } else if seq_eq(&r, &chars_of("escape-hatch")) {
        Some(Verdict::Admitted)
    } else {
        None
    }
}

/// The supplied verdict for `id`: the last entry with that key.
pub open spec fn lookup_verdict(vs: Seq<(String, Verdict)>, id: Seq<char>) -> Option<Verdict>
    decreases vs.len(),
{
    if vs.len() == 0 {
        None
    } else if vs.last().0@ == id {
        Some(vs.last().1)
    } else {
        lookup_verdict(vs.drop_last(), id)
    }
}

/// Demote `start` by each rule's cap in turn, collecting an evidence line
/// for each cap that actually lowered the verdict.
pub open spec fn cap_scan(start: Verdict, rules: Seq<Seq<char>>) -> (Verdict, Seq<Seq<char>>)
    decreases rules.len(),
{
    if rules.len() == 0 {
        (start, Seq::empty())
    } else {
        let (v, parts) = cap_scan(start, rules.drop_last());
        match cap_of(rules.last()) {
            Some(c) => if rank_of(lower(v, c)) < rank_of(v) {
                (lower(v, c), parts.push(rules.last() + " → "@ + word_of(c)))
            } else {
                (v, parts)
            },
            None => (v, parts),
        }
    }
}

/// `parts` joined by `"; "`.
pub open spec fn join_evidence(parts: Seq<Seq<char>>) -> Seq<char>
    decreases parts.len(),
{
    if parts.len() == 0 {
        Seq::empty()
    } else if parts.len() == 1 {
        parts[0]
    } else {
        join_evidence(parts.drop_last()) + "; "@ + parts.last()
    }
}

/// A node's self-verdict and its evidence: the supplied prover verdict (or
/// `Unknown` when none was run), demoted by every lint cap its own
/// diagnostics impose.
pub open spec fn self_verdict_spec(
    id: Seq<char>,
    hard_block: Seq<Seq<char>>,
    warn: Seq<Seq<char>>,
    vs: Seq<(String, Verdict)>,
) -> (Verdict, Seq<char>) {
    let (start, first) = match lookup_verdict(vs, id) {
        Some(s) => (s, "prover: "@ + word_of(s)),
        None => (Verdict::Unknown, "no typecheck run"@),
    };
    let (v, parts) = cap_scan(start, hard_block + warn);
    (v, join_evidence(seq![first] + parts))
}

proof fn lemma_cap_scan_min(start: Verdict, rules: Seq<Seq<char>>)
    ensures
        rank_of(cap_scan(start, rules).0) <= rank_of(start),
        forall|k: int| 0 <= k < rules.len() && (#[trigger] cap_of(rules[k])) is Some
            ==> rank_of(cap_scan(start, rules).0) <= rank_of(cap_of(rules[k])->0),
        cap_scan(start, rules).0 == start || exists|k: int| 0 <= k < rules.len()
            && #[trigger] cap_of(rules[k]) == Some(cap_scan(start, rules).0),
    decreases rules.len(),
{
    if rules.len() > 0 {
        let rs = rules.drop_last();
        lemma_cap_scan_min(start, rs);
        let v = cap_scan(start, rs).0;
        assert forall|k: int| 0 <= k < rules.len() && (#[trigger] cap_of(rules[k])) is Some
            implies rank_of(cap_scan(start, rules).0) <= rank_of(cap_of(rules[k])->0) by {
            if k < rs.len() {
                assert(rs[k] == rules[k]);
                assert(cap_of(rs[k]) is Some);
            }
        }
        if cap_scan(start, rules).0 != start && cap_scan(start, rules).0 == v {
            let k = choose|k: int| 0 <= k < rs.len() && #[trigger] cap_of(rs[k]) == Some(v);
            assert(rs[k] == rules[k]);
        }
        if cap_scan(start, rules).0 != v {
            let k = rules.len() - 1;
            assert(cap_of(rules[k]) == Some(cap_scan(start, rules).0));
        }
    }
}

/// A node's self-verdict is the lowest of the supplied verdict (`Unknown`
/// when none was supplied) and the caps of its own lint rules: never above
/// the supplied verdict, never above any cap, and equal to one of them.
pub proof fn lemma_self_verdict_is_min(
    id: Seq<char>,
    hard_block: Seq<Seq<char>>,
    warn: Seq<Seq<char>>,
    vs: Seq<(String, Verdict)>,
)
    ensures
        ({
            let start = match lookup_verdict(vs, id) {
                Some(s) => s,
                None => Verdict::Unknown,
            };
            let rules = hard_block + warn;
            let v = self_verdict_spec(id, hard_block, warn, vs).0;
            &&& rank_of(v) <= rank_of(start)
            &&& forall|k: int| 0 <= k < rules.len() && (#[trigger] cap_of(rules[k])) is Some
                ==> rank_of(v) <= rank_of(cap_of(rules[k])->0)
            &&& (v == start || exists|k: int| 0 <= k < rules.len() && #[trigger] cap_of(rules[k]) == Some(v))
        }),
{
    let start = match lookup_verdict(vs, id) {
        Some(s) => s,
        None => Verdict::Unknown,
    };
    lemma_cap_scan_min(start, hard_block + warn);
}

proof fn lemma_join_push(first: Seq<char>, parts: Seq<Seq<char>>, p: Seq<char>)
    ensures
        join_evidence(seq![first] + parts.push(p)) == join_evidence(seq![first] + parts) + "; "@
            + p,
{
    let a = seq![first] + parts.push(p);
    assert(a.drop_last() =~= seq![first] + parts);
}

fn find_verdict(vs: &[(String, Verdict)], id: &str) -> (r: Option<Verdict>)
    ensures
        r == lookup_verdict(vs@, id@),
{
    let mut r: Option<Verdict> = None;
    let mut i: usize = 0;
    while i < vs.len()
        invariant
            i <= vs@.len(),
            r == lookup_verdict(vs@.take(i as int), id@),
        decreases vs.len() - i,
    {
        proof {
            assert(vs@.take(i + 1).drop_last() =~= vs@.take(i as int));
        }
        if str_eq(vs[i].0.as_str(), id) {
            r = Some(vs[i].1);
        }
        i = i + 1;
    }
    assert(vs@.take(vs@.len() as int) =~= vs@);
    r
}

/// One step of `cap_scan`: the demoted verdict and, when the cap lowered
/// it, the evidence line.
fn cap_step(v: Verdict, rule: &String) -> (r: (Verdict, Option<String>))
    ensures
        match cap_of(rule@) {
            Some(c) => if rank_of(lower(v, c)) < rank_of(v) {
                r.0 == lower(v, c) && (r.1 matches Some(p) && p@ == rule@ + " → "@ + word_of(c))
            } else {
                r.0 == v && r.1 is None
            },
            None => r.0 == v && r.1 is None,
        },
{
    match lint_cap(rule.as_str()) {
        Some(c) => {
            let nv = demote(v, c);
            if rank(nv) < rank(v) {
                let mut p = rule.clone();
                p.append(" → ");
                p.append(verdict_word(c));
                (nv, Some(p))
            } else {
                (v, None)
            }
        },
        None => (v, None),
    }
}

/// Derive a node's self-verdict and evidence string.
pub fn self_verdict_of(
    id: &str,
    hard_block: &[String],
    warn: &[String],
    verdicts: &[(String, Verdict)],
) -> (r: (Verdict, String))
    ensures
        (r.0, r.1@) == self_verdict_spec(id@, strs(hard_block@), strs(warn@), verdicts@),
{
    let supplied = find_verdict(verdicts, id);
    let mut ev: String;
    let mut v: Verdict;
    match supplied {
        Some(s) => {
            ev = String::from_str("prover: ");
            ev.append(verdict_word(s));
            v = s;
        },
        None => {
            ev = String::from_str("no typecheck run");
            v = Verdict::Unknown;
        },
    }
    let ghost first = ev@;
    let ghost start = v;
    let ghost rules = strs(hard_block@) + strs(warn@);
    assert(join_evidence(seq![first]) == first);
    let ghost mut parts: Seq<Seq<char>> = Seq::empty();
    assert(seq![first] + parts =~= seq![first]);
    let mut i: usize = 0;
    while i < hard_block.len()
        invariant
            i <= hard_block@.len(),
            rules == strs(hard_block@) + strs(warn@),
            (v, parts) == cap_scan(start, rules.take(i as int)),
            ev@ == join_evidence(seq![first] + parts),
        decreases hard_block.len() - i,
    {
        let rule = &hard_block[i];
        proof {
            assert(rules.take(i + 1).drop_last() =~= rules.take(i as int));
            assert(rules.take(i + 1).last() == rule@);
        }
        let (nv, part) = cap_step(v, rule);
        if let Some(p) = part {
            proof {
                lemma_join_push(first, parts, p@);
                parts = parts.push(p@);
            }
            ev.append("; ");
            ev.append(p.as_str());
            assert(ev@ =~= join_evidence(seq![first] + parts));
        }
        v = nv;
        i = i + 1;
    }
    let mut j: usize = 0;
    while j < warn.len()
        invariant
            j <= warn@.len(),
            rules == strs(hard_block@) + strs(warn@),
            (v, parts) == cap_scan(start, rules.take(hard_block@.len() + j)),
            ev@ == join_evidence(seq![first] + parts),
        decreases warn.len() - j,
    {
        let rule = &warn[j];
        let ghost k = hard_block@.len() + j;
        proof {
            assert(rules.take(k + 1).drop_last() =~= rules.take(k));
            assert(rules.take(k + 1).last() == rule@);
        }
        let (nv, part) = cap_step(v, rule);
        if let Some(p) = part {
            proof {
                lemma_join_push(first, parts, p@);
                parts = parts.push(p@);
            }
            ev.append("; ");
            ev.append(p.as_str());
            assert(ev@ =~= join_evidence(seq![first] + parts));
        }
        v = nv;
        j = j + 1;
    }
    assert(rules.take(rules.len() as int) =~= rules);
    (v, ev)
}


/// Add `id` to the name table unless it is already there.
pub open spec fn intern(names: Seq<Seq<char>>, id: Seq<char>) -> Seq<Seq<char>> {
    if names.contains(id) {
        names
    } else {
        names.push(id)
    }
}

/// Intern each of `ids` in turn.
pub open spec fn intern_all(names: Seq<Seq<char>>, ids: Seq<Seq<char>>) -> Seq<Seq<char>>
    decreases ids.len(),
{
    if ids.len() == 0 {
        names
    } else {
        intern(intern_all(names, ids.drop_last()), ids.last())
    }
}

/// No name occurs twice.
pub open spec fn distinct(names: Seq<Seq<char>>) -> bool {
    forall|i: int, j: int| 0 <= i < j < names.len() ==> names[i] != names[j]
}

/// The position of `id` in a table of distinct names.
pub open spec fn idx(names: Seq<Seq<char>>, id: Seq<char>) -> int {
    choose|i: int| 0 <= i < names.len() && names[i] == id
}

proof fn lemma_intern_all(names: Seq<Seq<char>>, ids: Seq<Seq<char>>)
    requires
        distinct(names),
    ensures
        distinct(intern_all(names, ids)),
        forall|i: int| 0 <= i < ids.len() ==> intern_all(names, ids).contains(#[trigger] ids[i]),
        forall|i: int| 0 <= i < names.len() ==> intern_all(names, ids).contains(#[trigger] names[i]),
        names.len() <= intern_all(names, ids).len(),
        forall|i: int| 0 <= i < names.len() ==> intern_all(names, ids)[i] == names[i],
    decreases ids.len(),
{
    if ids.len() > 0 {
        lemma_intern_all(names, ids.drop_last());
        let t = intern_all(names, ids.drop_last());
        assert forall|i: int| 0 <= i < ids.len() implies intern_all(names, ids).contains(
            #[trigger] ids[i],
        ) by {
            if i < ids.len() - 1 {
                assert(ids.drop_last()[i] == ids[i]);
                assert(t.contains(ids[i]));
                let k = choose|k: int| 0 <= k < t.len() && t[k] == ids[i];
                assert(intern_all(names, ids)[k] == ids[i]);
            } else {
                if !t.contains(ids.last()) {
                    assert(intern_all(names, ids)[t.len() as int] == ids[i]);
                }
            }
        }
        assert forall|i: int| 0 <= i < names.len() implies intern_all(names, ids).contains(
            #[trigger] names[i],
        ) by {
            assert(intern_all(names, ids)[i] == names[i]);
        }
    }
}

proof fn lemma_idx(names: Seq<Seq<char>>, i: int)
    requires
        distinct(names),
        0 <= i < names.len(),
    ensures
        idx(names, names[i]) == i,
{
    let k = idx(names, names[i]);
    assert(0 <= k < names.len() && names[k] == names[i]);
    if k < i {
        assert(names[k] != names[i]);
    }
    if i < k {
        assert(names[i] != names[k]);
    }
}

/// Position of `id` in `names`, when present.
fn find_name(names: &Vec<String>, id: &String) -> (r: Option<usize>)
    requires
        distinct(strs(names@)),
    ensures
        r matches Some(i) ==> i < names@.len() && strs(names@)[i as int] == id@ && idx(
            strs(names@),
            id@,
        ) == i,
        r is None ==> !strs(names@).contains(id@),
{
    let mut i: usize = 0;
    while i < names.len()
        invariant
            i <= names@.len(),
            distinct(strs(names@)),
            forall|j: int| 0 <= j < i ==> strs(names@)[j] != id@,
        decreases names.len() - i,
    {
        if names[i] == *id {
            proof {
                lemma_idx(strs(names@), i as int);
            }
            return Some(i);
        }
        i = i + 1;
    }
    None
}

/// Interns `id` into `names`, returning its position.
fn intern_name(names: &mut Vec<String>, id: &String) -> (r: usize)
    requires
        distinct(strs(old(names)@)),
    ensures
        strs(final(names)@) == intern(strs(old(names)@), id@),
        distinct(strs(final(names)@)),
        r < final(names)@.len(),
        strs(final(names)@)[r as int] == id@,
{
    match find_name(names, id) {
        Some(i) => i,
        None => {
            let ghost before = strs(names@);
            names.push(id.clone());
            assert(strs(names@) =~= before.push(id@));
            names.len() - 1
        },
    }
}

/// Each edge's endpoints, in order: `from` then `to`.
pub open spec fn edge_ends(edges: Seq<Edge>) -> Seq<Seq<char>>
    decreases edges.len(),
{
    if edges.len() == 0 {
        Seq::empty()
    } else {
        edge_ends(edges.drop_last()).push(edges.last().from@).push(edges.last().to@)
    }
}

/// The ids of the document's nodes, in order.
pub open spec fn node_ids(nodes: Seq<DagNode>) -> Seq<Seq<char>> {
    nodes.map_values(|n: DagNode| n.id@)
}

/// The name table of the reasoning graph: node ids, then edge endpoints,
/// then CRT roots, each interned once.
pub open spec fn name_table(dag: DagDocument, roots: Seq<Seq<char>>) -> Seq<Seq<char>> {
    intern_all(Seq::empty(), node_ids(dag.nodes@) + edge_ends(dag.edges@) + roots)
}

/// The dependency lists over the name table: each edge adds an `And`
/// dependency of its `from` on its `to`, in edge order.
pub open spec fn adj_of(edges: Seq<Edge>, names: Seq<Seq<char>>) -> Seq<Seq<(usize, Junct)>>
    decreases edges.len(),
{
    if edges.len() == 0 {
        Seq::new(names.len(), |i: int| Seq::<(usize, Junct)>::empty())
    } else {
        let a = adj_of(edges.drop_last(), names);
        let f = idx(names, edges.last().from@);
        a.update(f, a[f].push((idx(names, edges.last().to@) as usize, Junct::And)))
    }
}

/// A node's self-verdict and evidence, a stale `Proven` dropped to
/// `Unknown`.
pub open spec fn node_self_spec(n: DagNode, vs: Seq<(String, Verdict)>, stale: Seq<Seq<char>>) -> (
    Verdict,
    Seq<char>,
) {
    let (v, ev) = self_verdict_spec(n.id@, strs(n.lint.hard_block@), strs(n.lint.warn@), vs);
    if stale.contains(n.id@) && v == Verdict::Proven {
        (Verdict::Unknown, ev + "; stale: closure hash changed"@)
    } else {
        (v, ev)
    }
}

/// None of the node's own lint rules caps its verdict.
pub open spec fn uncapped(n: DagNode) -> bool {
    let rules = strs(n.lint.hard_block@) + strs(n.lint.warn@);
    forall|k: int| 0 <= k < rules.len() ==> (#[trigger] cap_of(rules[k])) is None
}

/// The verdict supplied for `id`, `Unknown` when none is.
pub open spec fn supplied_verdict(vs: Seq<(String, Verdict)>, id: Seq<char>) -> Verdict {
    match lookup_verdict(vs, id) {
        Some(s) => s,
        None => Verdict::Unknown,
    }
}

/// A node's self-verdict never rises above its supplied verdict, and is
/// `Proven` only when `Proven` was supplied for it, it is not stale, and
/// none of its lint rules caps it.
pub proof fn lemma_node_self_honest(n: DagNode, vs: Seq<(String, Verdict)>, stale: Seq<Seq<char>>)
    ensures
        rank_of(node_self_spec(n, vs, stale).0) <= rank_of(supplied_verdict(vs, n.id@)),
        node_self_spec(n, vs, stale).0 == Verdict::Proven ==> lookup_verdict(vs, n.id@) == Some(Verdict::Proven)
            && !stale.contains(n.id@) && uncapped(n),
{
    let hb = strs(n.lint.hard_block@);
    let wn = strs(n.lint.warn@);
    lemma_self_verdict_is_min(n.id@, hb, wn, vs);
    let v = self_verdict_spec(n.id@, hb, wn, vs).0;
    if node_self_spec(n, vs, stale).0 == Verdict::Proven {
        assert(v == Verdict::Proven);
        let rules = hb + wn;
        assert forall|k: int| 0 <= k < rules.len() implies (#[trigger] cap_of(rules[k])) is None by {
            if cap_of(rules[k]) is Some {
                assert(rank_of(v) <= rank_of(cap_of(rules[k])->0));
            }
        }
    }
}

/// The self-verdict recorded for node `i`'s id is honest for that id.
proof fn lemma_node_at_honest(nodes: Seq<DagNode>, names: Seq<Seq<char>>, vs: Seq<(String, Verdict)>, stale: Seq<Seq<char>>, i: int)
    requires
        0 <= i < nodes.len(),
        forall|a: int| 0 <= a < nodes.len() ==> names.contains(#[trigger] nodes[a].id@),
    ensures
        ({
            let v = selfs_of(nodes, names, vs, stale)[idx(names, nodes[i].id@)].0;
            let id = nodes[i].id@;
            &&& rank_of(v) <= rank_of(supplied_verdict(vs, id))
            &&& v == Verdict::Proven ==> (lookup_verdict(vs, id) == Some(Verdict::Proven) && !stale.contains(id)
                && exists|j: int| 0 <= j < nodes.len() && (#[trigger] nodes[j]).id@ == id && uncapped(nodes[j]))
        }),
{
    let u = idx(names, nodes[i].id@);
    assert(names.contains(nodes[i].id@));
    lemma_selfs_of_at(nodes, names, vs, stale, u);
    let j = choose|j: int| 0 <= j < nodes.len() && idx(names, #[trigger] nodes[j].id@) == u
        && selfs_of(nodes, names, vs, stale)[u] == node_self_spec(nodes[j], vs, stale);
    lemma_node_self_honest(nodes[j], vs, stale);
    assert(names.contains(nodes[j].id@));
    assert(nodes[j].id@ == names[u]);
    assert(nodes[i].id@ == names[u]);
}

proof fn lemma_selfs_of_at(nodes: Seq<DagNode>, names: Seq<Seq<char>>, vs: Seq<(String, Verdict)>, stale: Seq<Seq<char>>, u: int)
    requires
        0 <= u < names.len(),
        forall|i: int| 0 <= i < nodes.len() ==> names.contains(#[trigger] nodes[i].id@),
    ensures
        (forall|a: int| 0 <= a < nodes.len() ==> idx(names, #[trigger] nodes[a].id@) != u) || exists|j: int|
            0 <= j < nodes.len() && idx(names, #[trigger] nodes[j].id@) == u
                && selfs_of(nodes, names, vs, stale)[u] == node_self_spec(nodes[j], vs, stale),
    decreases nodes.len(),
{
    if nodes.len() > 0 {
        let ns = nodes.drop_last();
        assert forall|i: int| 0 <= i < ns.len() implies names.contains(#[trigger] ns[i].id@) by {
            assert(ns[i] == nodes[i]);
        }
        lemma_selfs_of_at(ns, names, vs, stale, u);
        lemma_selfs_len(ns, names, vs, stale);
        let last = nodes[nodes.len() - 1];
        assert(names.contains(last.id@));
        if idx(names, last.id@) != u {
            if exists|j: int| 0 <= j < ns.len() && idx(names, #[trigger] ns[j].id@) == u
                && selfs_of(ns, names, vs, stale)[u] == node_self_spec(ns[j], vs, stale) {
                let j = choose|j: int| 0 <= j < ns.len() && idx(names, #[trigger] ns[j].id@) == u
                    && selfs_of(ns, names, vs, stale)[u] == node_self_spec(ns[j], vs, stale);
                assert(nodes[j] == ns[j]);
            } else {
                assert forall|a: int| 0 <= a < nodes.len() implies idx(names, #[trigger] nodes[a].id@) != u by {
                    if a < ns.len() {
                        assert(nodes[a] == ns[a]);
                    }
                }
            }
        } else {
            assert(nodes[nodes.len() - 1] == last);
        }
    }
}

/// Self-verdicts over the name table: names without a node are `Unknown`;
/// for a name shared by several nodes the last node wins.
pub open spec fn selfs_of(
    nodes: Seq<DagNode>,
    names: Seq<Seq<char>>,
    vs: Seq<(String, Verdict)>,
    stale: Seq<Seq<char>>,
) -> Seq<(Verdict, Seq<char>)>
    decreases nodes.len(),
{
    if nodes.len() == 0 {
        Seq::new(names.len(), |i: int| (Verdict::Unknown, Seq::<char>::empty()))
    } else {
        let a = selfs_of(nodes.drop_last(), names, vs, stale);
        a.update(idx(names, nodes.last().id@), node_self_spec(nodes.last(), vs, stale))
    }
}

/// The CRT roots: the module ids of the entry modules that have one.
pub open spec fn crt_of(entries: Seq<String>, root: Seq<char>) -> Seq<Seq<char>>
    decreases entries.len(),
{
    if entries.len() == 0 {
        Seq::empty()
    } else {
        match module_name_spec(entries.last()@, root) {
            Some(m) => crt_of(entries.drop_last(), root).push(m),
            None => crt_of(entries.drop_last(), root),
        }
    }
}


/// A reasoning edge: a dependency of `from` on `to`, with its junct.
#[derive(Clone, Debug)]
pub struct ReasonEdge {
    pub from: String,
    pub to: String,
    pub junct: Junct,
    /// The underlying relation (`imports`).
    pub kind: String,
}

/// The reasoning overlay for one node.
#[derive(Clone, Debug)]
pub struct ReasonNode {
    pub id: String,
    /// The supplied prover verdict (or `Unknown`) demoted by the node's own
    /// lint caps and staleness.
    pub self_verdict: Verdict,
    /// The verdict after the demote-only fold over dependencies.
    pub effective: Verdict,
    /// Why `self_verdict` is what it is.
    pub verdict_evidence: String,
    /// `sound` | `amber` | `unproven` | `unsound`.
    pub soundness: &'static str,
    /// Reachable from a CRT root (part of the verified suite).
    pub wired: bool,
    /// The fold found an import cycle through this node.
    pub on_cycle: bool,
}

/// The DAG plus the reasoning overlay.
#[derive(Clone, Debug)]
pub struct ReasonDocument {
    pub version: &'static str,
    pub dag: DagDocument,
    pub nodes: Vec<ReasonNode>,
    pub edges: Vec<ReasonEdge>,
    /// The CI entry modules' ids.
    pub crt_roots: Vec<String>,
}

/// The positions of the roots in the name table.
pub open spec fn root_idx(names: Seq<Seq<char>>, roots: Seq<Seq<char>>) -> Seq<usize> {
    roots.map_values(|r: Seq<char>| idx(names, r) as usize)
}

/// Every edge endpoint is the id of a node.
pub open spec fn edges_closed(dag: DagDocument) -> bool {
    forall|k: int|
        #![trigger dag.edges@[k]]
        0 <= k < dag.edges@.len() ==> node_ids(dag.nodes@).contains(dag.edges@[k].from@)
            && node_ids(dag.nodes@).contains(dag.edges@[k].to@)
}

proof fn lemma_selfs_len(nodes: Seq<DagNode>, names: Seq<Seq<char>>, vs: Seq<(String, Verdict)>, stale: Seq<Seq<char>>)
    requires
        forall|i: int| 0 <= i < nodes.len() ==> names.contains(#[trigger] nodes[i].id@),
    ensures
        selfs_of(nodes, names, vs, stale).len() == names.len(),
    decreases nodes.len(),
{
    if nodes.len() > 0 {
        assert forall|i: int| 0 <= i < nodes.drop_last().len() implies names.contains(#[trigger] nodes.drop_last()[i].id@) by {
            assert(nodes.drop_last()[i] == nodes[i]);
        }
        lemma_selfs_len(nodes.drop_last(), names, vs, stale);
        assert(names.contains(nodes[nodes.len() - 1].id@));
    }
}

proof fn lemma_adj_of_wf(edges: Seq<Edge>, names: Seq<Seq<char>>)
    requires
        distinct(names),
        forall|k: int|
            #![trigger edges[k]]
            0 <= k < edges.len() ==> names.contains(edges[k].from@) && names.contains(edges[k].to@),
    ensures
        adj_of(edges, names).len() == names.len(),
        forall|u: int, m: int|
            #![trigger adj_of(edges, names)[u][m]]
            0 <= u < names.len() && 0 <= m < adj_of(edges, names)[u].len() ==> adj_of(
                edges,
                names,
            )[u][m].0 < names.len() && adj_of(edges, names)[u][m].1 == Junct::And,
    decreases edges.len(),
{
    if edges.len() > 0 {
        let es = edges.drop_last();
        assert forall|k: int| #![trigger es[k]] 0 <= k < es.len() implies names.contains(es[k].from@)
            && names.contains(es[k].to@) by {
            assert(es[k] == edges[k]);
        }
        lemma_adj_of_wf(es, names);
        let a = adj_of(es, names);
        let e = edges.last();
        assert(names.contains(e.from@) && names.contains(e.to@)) by {
            assert(edges[edges.len() - 1] == e);
        }
        let f = idx(names, e.from@);
        let t = idx(names, e.to@);
        assert(0 <= t < names.len() && names[t] == e.to@);
        let b = adj_of(edges, names);
        assert forall|u: int, m: int|
            #![trigger b[u][m]]
            0 <= u < names.len() && 0 <= m < b[u].len() implies b[u][m].0 < names.len() && b[u][m].1
                == Junct::And by {
            if u == f && m == a[f].len() {
            } else {
                assert(b[u][m] == a[u][m]);
            }
        }
    }
}

proof fn lemma_adj_of_edges(edges: Seq<Edge>, names: Seq<Seq<char>>)
    requires
        forall|k: int|
            #![trigger edges[k]]
            0 <= k < edges.len() ==> names.contains(edges[k].from@),
    ensures
        adj_of(edges, names).len() == names.len(),
        forall|k: int|
            #![trigger edges[k]]
            0 <= k < edges.len() && 0 <= idx(names, edges[k].from@) < names.len() ==> exists|m: int|
                0 <= m < adj_of(edges, names)[idx(names, edges[k].from@)].len() && adj_of(
                    edges,
                    names,
                )[idx(names, edges[k].from@)][m] == (idx(names, edges[k].to@) as usize, Junct::And),
    decreases edges.len(),
{
    if edges.len() > 0 {
        let es = edges.drop_last();
        assert forall|k: int| #![trigger es[k]] 0 <= k < es.len() implies names.contains(es[k].from@) by {
            assert(es[k] == edges[k]);
        }
        lemma_adj_of_edges(es, names);
        let a = adj_of(es, names);
        let b = adj_of(edges, names);
        let e = edges.last();
        let f = idx(names, e.from@);
        let t = idx(names, e.to@);
        assert(names.contains(e.from@)) by {
            assert(edges[edges.len() - 1] == e);
        }
        assert(0 <= f < names.len());
        assert forall|k: int|
            #![trigger edges[k]]
            0 <= k < edges.len() && 0 <= idx(names, edges[k].from@) < names.len() implies exists|m: int|
                0 <= m < b[idx(names, edges[k].from@)].len() && b[idx(names, edges[k].from@)][m] == (
                    idx(names, edges[k].to@) as usize,
                    Junct::And,
                ) by {
            assert(b == a.update(f, a[f].push((t as usize, Junct::And))));
            if k == edges.len() - 1 {
                assert(edges[k] == e);
                assert(b[f] == a[f].push((t as usize, Junct::And)));
                assert(b[f][a[f].len() as int] == (t as usize, Junct::And));
            } else {
                assert(edges[k] == es[k]);
                let fk = idx(names, es[k].from@);
                let m = choose|m: int|
                    0 <= m < a[fk].len() && a[fk][m] == (idx(names, es[k].to@) as usize, Junct::And);
                if fk == f {
                    assert(b[fk] == a[f].push((t as usize, Junct::And)));
                }
                assert(b[fk][m] == a[fk][m]);
                assert(0 <= m < b[fk].len());
            }
        }
    }
}


fn contains_string(v: &[String], x: &String) -> (r: bool)
    ensures
        r == strs(v@).contains(x@),
{
    let mut i: usize = 0;
    while i < v.len()
        invariant
            i <= v@.len(),
            forall|j: int| 0 <= j < i ==> strs(v@)[j] != x@,
        decreases v.len() - i,
    {
        if v[i] == *x {
            assert(strs(v@)[i as int] == x@);
            return true;
        }
        i = i + 1;
    }
    false
}

fn node_self(n: &DagNode, verdicts: &[(String, Verdict)], stale: &[String]) -> (r: (
    Verdict,
    String,
))
    ensures
        (r.0, r.1@) == node_self_spec(*n, verdicts@, strs(stale@)),
{
    let (v, mut ev) = self_verdict_of(
        n.id.as_str(),
        n.lint.hard_block.as_slice(),
        n.lint.warn.as_slice(),
        verdicts,
    );
    if v == Verdict::Proven && contains_string(stale, &n.id) {
        ev.append("; stale: closure hash changed");
        (Verdict::Unknown, ev)
    } else {
        (v, ev)
    }
}

/// The module ids of the entry modules that have one.
fn crt_roots_of(entries: &Vec<String>, include_root: &String) -> (crt: Vec<String>)
    ensures
        strs(crt@) == crt_of(entries@, include_root@),
{
    let mut crt: Vec<String> = Vec::new();
    let mut i: usize = 0;
    while i < entries.len()
        invariant
            i <= entries@.len(),
            strs(crt@) == crt_of(entries@.take(i as int), include_root@),
        decreases entries.len() - i,
    {
        proof {
            assert(entries@.take(i + 1).drop_last() =~= entries@.take(i as int));
        }
        let ghost before = strs(crt@);
        match module_name_of(entries[i].as_str(), include_root.as_str()) {
            Some(m) => {
                crt.push(m);
                assert(strs(crt@) =~= before.push(m@));
            },
            None => {},
        }
        i = i + 1;
    }
    assert(entries@.take(entries@.len() as int) =~= entries@);
    crt
}

fn reason_edges(es: &Vec<Edge>) -> (edges: Vec<ReasonEdge>)
    ensures
        edges@.len() == es@.len(),
        forall|j: int|
            #![trigger edges@[j]]
            0 <= j < edges@.len() ==> edges@[j].from@ == es@[j].from@ && edges@[j].to@
                == es@[j].to@ && edges@[j].kind@ == es@[j].kind@ && edges@[j].junct == Junct::And,
{
    let mut edges: Vec<ReasonEdge> = Vec::new();
    let mut k: usize = 0;
    while k < es.len()
        invariant
            k <= es@.len(),
            edges@.len() == k,
            forall|j: int|
                #![trigger edges@[j]]
                0 <= j < k ==> edges@[j].from@ == es@[j].from@ && edges@[j].to@ == es@[j].to@
                    && edges@[j].kind@ == es@[j].kind@ && edges@[j].junct == Junct::And,
        decreases es.len() - k,
    {
        let e = &es[k];
        edges.push(
            ReasonEdge {
                from: e.from.clone(),
                to: e.to.clone(),
                junct: Junct::And,
                kind: String::from_str(e.kind),
            },
        );
        k = k + 1;
    }
    edges
}

fn name_table_of(dag: &DagDocument, crt: &Vec<String>) -> (names: Vec<String>)
    ensures
        strs(names@) == name_table(*dag, strs(crt@)),
        distinct(strs(names@)),
        forall|i: int|
            #![trigger dag.nodes@[i]]
            0 <= i < dag.nodes@.len() ==> strs(names@).contains(dag.nodes@[i].id@),
        forall|k: int|
            #![trigger dag.edges@[k]]
            0 <= k < dag.edges@.len() ==> strs(names@).contains(dag.edges@[k].from@) && strs(
                names@,
            ).contains(dag.edges@[k].to@),
        forall|j: int| 0 <= j < crt@.len() ==> strs(names@).contains(#[trigger] crt@[j]@),
{
    let ghost ids = node_ids(dag.nodes@) + edge_ends(dag.edges@) + strs(crt@);
    let mut names: Vec<String> = Vec::new();
    let ghost mut prefix: Seq<Seq<char>> = Seq::empty();
    let mut i: usize = 0;
    while i < dag.nodes.len()
        invariant
            i <= dag.nodes@.len(),
            prefix == node_ids(dag.nodes@).take(i as int),
            strs(names@) == intern_all(Seq::empty(), prefix),
            distinct(strs(names@)),
        decreases dag.nodes.len() - i,
    {
        intern_name(&mut names, &dag.nodes[i].id);
        proof {
            assert(node_ids(dag.nodes@).take(i + 1) =~= prefix.push(dag.nodes@[i as int].id@));
            prefix = prefix.push(dag.nodes@[i as int].id@);
            assert(prefix.drop_last() =~= node_ids(dag.nodes@).take(i as int));
        }
        i = i + 1;
    }
    assert(prefix =~= node_ids(dag.nodes@));
    let mut k: usize = 0;
    while k < dag.edges.len()
        invariant
            k <= dag.edges@.len(),
            prefix == node_ids(dag.nodes@) + edge_ends(dag.edges@.take(k as int)),
            strs(names@) == intern_all(Seq::empty(), prefix),
            distinct(strs(names@)),
        decreases dag.edges.len() - k,
    {
        let e = &dag.edges[k];
        let ghost n0 = strs(names@);
        intern_name(&mut names, &e.from);
        let ghost n1 = strs(names@);
        intern_name(&mut names, &e.to);
        proof {
            let p1 = prefix.push(e.from@);
            let p2 = p1.push(e.to@);
            assert(p2.drop_last() =~= p1);
            assert(p1.drop_last() =~= prefix);
            assert(intern_all(Seq::empty(), p1) == intern(intern_all(Seq::empty(), prefix), e.from@));
            assert(intern_all(Seq::empty(), p1) == n1);
            assert(intern_all(Seq::empty(), p2) == intern(intern_all(Seq::empty(), p1), e.to@));
            assert(dag.edges@.take(k + 1).drop_last() =~= dag.edges@.take(k as int));
            assert(dag.edges@.take(k + 1).last() == *e);
            assert(node_ids(dag.nodes@) + edge_ends(dag.edges@.take(k + 1)) =~= p2);
            prefix = p2;
        }
        k = k + 1;
    }
    assert(dag.edges@.take(dag.edges@.len() as int) =~= dag.edges@);
    let mut j: usize = 0;
    while j < crt.len()
        invariant
            j <= crt@.len(),
            prefix == node_ids(dag.nodes@) + edge_ends(dag.edges@) + strs(crt@).take(j as int),
            strs(names@) == intern_all(Seq::empty(), prefix),
            distinct(strs(names@)),
        decreases crt.len() - j,
    {
        intern_name(&mut names, &crt[j]);
        proof {
            let p1 = prefix.push(crt@[j as int]@);
            assert(p1.drop_last() =~= prefix);
            assert(node_ids(dag.nodes@) + edge_ends(dag.edges@) + strs(crt@).take(j + 1) =~= p1);
            prefix = p1;
        }
        j = j + 1;
    }
    assert(strs(crt@).take(crt@.len() as int) =~= strs(crt@));
    assert(prefix =~= ids);
    proof {
        lemma_intern_all(Seq::empty(), ids);
        let nn = node_ids(dag.nodes@).len();
        let ne = edge_ends(dag.edges@).len();
        assert forall|i: int|
            #![trigger dag.nodes@[i]]
            0 <= i < dag.nodes@.len() implies strs(names@).contains(dag.nodes@[i].id@) by {
            assert(ids[i] == dag.nodes@[i].id@);
        }
        assert forall|k: int|
            #![trigger dag.edges@[k]]
            0 <= k < dag.edges@.len() implies strs(names@).contains(dag.edges@[k].from@) && strs(
                names@,
            ).contains(dag.edges@[k].to@) by {
            lemma_edge_ends_contains(dag.edges@, k);
            let a = choose|a: int|
                0 <= a < edge_ends(dag.edges@).len() && edge_ends(dag.edges@)[a]
                    == dag.edges@[k].from@;
            let b = choose|b: int|
                0 <= b < edge_ends(dag.edges@).len() && edge_ends(dag.edges@)[b]
                    == dag.edges@[k].to@;
            assert(ids[nn + a] == dag.edges@[k].from@);
            assert(ids[nn + b] == dag.edges@[k].to@);
        }
        assert forall|j: int| 0 <= j < crt@.len() implies strs(names@).contains(
            #[trigger] crt@[j]@,
        ) by {
            assert(ids[nn + ne + j] == crt@[j]@);
        }
    }
    names
}

fn adjacency(es: &Vec<Edge>, names: &Vec<String>) -> (adj: Vec<Vec<(usize, Junct)>>)
    requires
        distinct(strs(names@)),
        forall|k: int|
            #![trigger es@[k]]
            0 <= k < es@.len() ==> strs(names@).contains(es@[k].from@) && strs(names@).contains(
                es@[k].to@,
            ),
    ensures
        adj_view(adj@) == adj_of(es@, strs(names@)),
        adj_wf(adj_view(adj@)),
        adj@.len() == names@.len(),
{
    let ghost nv = strs(names@);
    let n = names.len();
    let mut adj: Vec<Vec<(usize, Junct)>> = Vec::new();
    let mut i: usize = 0;
    while i < n
        invariant
            i <= n,
            n == nv.len(),
            adj@.len() == i,
            forall|u: int| 0 <= u < i ==> adj@[u]@ == Seq::<(usize, Junct)>::empty(),
        decreases n - i,
    {
        adj.push(Vec::new());
        i = i + 1;
    }
    assert(adj_view(adj@) =~= adj_of(es@.take(0), nv));
    let mut k: usize = 0;
    while k < es.len()
        invariant
            k <= es@.len(),
            nv == strs(names@),
            distinct(nv),
            adj@.len() == n,
            n == nv.len(),
            forall|k: int|
                #![trigger es@[k]]
                0 <= k < es@.len() ==> nv.contains(es@[k].from@) && nv.contains(es@[k].to@),
            adj_view(adj@) == adj_of(es@.take(k as int), nv),
        decreases es.len() - k,
    {
        let e = &es[k];
        assert(nv.contains(e.from@) && nv.contains(e.to@)) by {
            assert(es@[k as int] == *e);
        }
        let f = find_name(names, &e.from).unwrap();
        let t = find_name(names, &e.to).unwrap();
        let ghost before = adj_view(adj@);
        adj[f].push((t, Junct::And));
        proof {
            assert(es@.take(k + 1).drop_last() =~= es@.take(k as int));
            assert(es@.take(k + 1).last() == *e);
            assert(adj_view(adj@) =~= before.update(f as int, before[f as int].push((t, Junct::And))));
        }
        k = k + 1;
    }
    assert(es@.take(es@.len() as int) =~= es@);
    proof {
        lemma_adj_of_wf(es@, nv);
    }
    adj
}

fn self_table(
    nodes: &Vec<DagNode>,
    names: &Vec<String>,
    verdicts: &[(String, Verdict)],
    stale: &[String],
) -> (r: (Vec<Verdict>, Vec<String>))
    requires
        distinct(strs(names@)),
        forall|i: int|
            #![trigger nodes@[i]]
            0 <= i < nodes@.len() ==> strs(names@).contains(nodes@[i].id@),
    ensures
        r.0@.len() == names@.len(),
        r.1@.len() == names@.len(),
        forall|u: int|
            0 <= u < names@.len() ==> (r.0@[u], r.1@[u]@) == #[trigger] selfs_of(
                nodes@,
                strs(names@),
                verdicts@,
                strs(stale@),
            )[u],
{
    let ghost nv = strs(names@);
    let n = names.len();
    let mut sv: Vec<Verdict> = Vec::new();
    let mut evs: Vec<String> = Vec::new();
    let mut i: usize = 0;
    while i < n
        invariant
            i <= n,
            n == nv.len(),
            sv@.len() == i,
            evs@.len() == i,
            forall|u: int| 0 <= u < i ==> sv@[u] == Verdict::Unknown && evs@[u]@ == Seq::<char>::empty(),
        decreases n - i,
    {
        sv.push(Verdict::Unknown);
        evs.push(String::new());
        i = i + 1;
    }
    let mut i: usize = 0;
    while i < nodes.len()
        invariant
            i <= nodes@.len(),
            nv == strs(names@),
            distinct(nv),
            n == nv.len(),
            sv@.len() == n,
            evs@.len() == n,
            forall|i: int|
                #![trigger nodes@[i]]
                0 <= i < nodes@.len() ==> nv.contains(nodes@[i].id@),
            selfs_of(nodes@.take(i as int), nv, verdicts@, strs(stale@)).len() == n,
            forall|u: int|
                0 <= u < n ==> (sv@[u], evs@[u]@) == #[trigger] selfs_of(
                    nodes@.take(i as int),
                    nv,
                    verdicts@,
                    strs(stale@),
                )[u],
        decreases nodes.len() - i,
    {
        let nd = &nodes[i];
        assert(nv.contains(nd.id@)) by {
            assert(nodes@[i as int] == *nd);
        }
        let u = find_name(names, &nd.id).unwrap();
        let (v, e) = node_self(nd, verdicts, stale);
        sv.set(u, v);
        evs.set(u, e);
        proof {
            assert(nodes@.take(i + 1).drop_last() =~= nodes@.take(i as int));
            assert(nodes@.take(i + 1).last() == *nd);
        }
        i = i + 1;
    }
    assert(nodes@.take(nodes@.len() as int) =~= nodes@);
    (sv, evs)
}

fn name_positions(ids: &Vec<String>, names: &Vec<String>) -> (r: Vec<usize>)
    requires
        distinct(strs(names@)),
        forall|j: int| 0 <= j < ids@.len() ==> strs(names@).contains(#[trigger] ids@[j]@),
    ensures
        r@.len() == ids@.len(),
        forall|j: int|
            #![trigger r@[j]]
            0 <= j < ids@.len() ==> r@[j] < names@.len() && r@[j] == idx(strs(names@), ids@[j]@),
{
    let mut r: Vec<usize> = Vec::new();
    let mut j: usize = 0;
    while j < ids.len()
        invariant
            j <= ids@.len(),
            distinct(strs(names@)),
            forall|j: int| 0 <= j < ids@.len() ==> strs(names@).contains(#[trigger] ids@[j]@),
            r@.len() == j,
            forall|jj: int|
                #![trigger r@[jj]]
                0 <= jj < j ==> r@[jj] < names@.len() && r@[jj] == idx(strs(names@), ids@[jj]@),
        decreases ids.len() - j,
    {
        assert(strs(names@).contains(ids@[j as int]@));
        let p = find_name(names, &ids[j]).unwrap();
        r.push(p);
        j = j + 1;
    }
    r
}

fn node_id_list(nodes: &Vec<DagNode>) -> (r: Vec<String>)
    ensures
        strs(r@) == node_ids(nodes@),
{
    let mut r: Vec<String> = Vec::new();
    let mut i: usize = 0;
    while i < nodes.len()
        invariant
            i <= nodes@.len(),
            strs(r@) == node_ids(nodes@).take(i as int),
        decreases nodes.len() - i,
    {
        let x = nodes[i].id.clone();
        let ghost before = strs(r@);
        r.push(x);
        assert(strs(r@) =~= before.push(x@));
        assert(node_ids(nodes@).take(i + 1) =~= node_ids(nodes@).take(i as int).push(x@));
        i = i + 1;
    }
    r
}

/// Some import edge of `edges` goes from module `a` to module `b`.
pub open spec fn is_edge(edges: Seq<Edge>, a: Seq<char>, b: Seq<char>) -> bool {
    exists|k: int| 0 <= k < edges.len() && (#[trigger] edges[k]).from@ == a && edges[k].to@ == b
}

/// `p` is a path of modules along import edges (`from` to `to`).
pub open spec fn edge_path(edges: Seq<Edge>, p: Seq<Seq<char>>) -> bool {
    &&& p.len() >= 1
    &&& forall|i: int| 0 <= i < p.len() - 1 ==> is_edge(edges, p[i], #[trigger] p[i + 1])
}

/// Module `b` is reached from module `a` along import edges, in zero or
/// more steps.
pub open spec fn imports_reach(edges: Seq<Edge>, a: Seq<char>, b: Seq<char>) -> bool {
    exists|p: Seq<Seq<char>>| #![trigger edge_path(edges, p)] edge_path(edges, p) && p[0] == a && p.last() == b
}

/// Module `a` lies on an import cycle: a path of at least one edge leads
/// from it back to it.
pub open spec fn on_import_cycle(edges: Seq<Edge>, a: Seq<char>) -> bool {
    exists|p: Seq<Seq<char>>| #![trigger edge_path(edges, p)] edge_path(edges, p) && p.len() >= 2 && p[0] == a && p.last() == a
}

/// Every end of every edge is in the name table.
pub open spec fn ends_named(edges: Seq<Edge>, names: Seq<Seq<char>>) -> bool {
    forall|k: int| 0 <= k < edges.len() ==> names.contains((#[trigger] edges[k]).from@) && names.contains(edges[k].to@)
}

proof fn lemma_idx_of_named(names: Seq<Seq<char>>, x: Seq<char>)
    requires
        names.contains(x),
    ensures
        0 <= idx(names, x) < names.len(),
        names[idx(names, x)] == x,
{
}

/// Some edge goes from the module at `u` to the module at `t`.
spec fn edge_entry(edges: Seq<Edge>, names: Seq<Seq<char>>, u: int, t: usize) -> bool {
    exists|k: int| 0 <= k < edges.len() && idx(names, (#[trigger] edges[k]).from@) == u && t == idx(names, edges[k].to@) as usize
}

/// Each dependency in `adj_of` comes from an edge.
proof fn lemma_adj_of_entries(edges: Seq<Edge>, names: Seq<Seq<char>>)
    requires
        ends_named(edges, names),
        names.len() <= usize::MAX,
    ensures
        adj_of(edges, names).len() == names.len(),
        forall|u: int, m: int|
            0 <= u < names.len() && 0 <= m < adj_of(edges, names)[u].len() ==> edge_entry(
                edges,
                names,
                u,
                (#[trigger] adj_of(edges, names)[u][m]).0,
            ),
    decreases edges.len(),
{
    if edges.len() > 0 {
        let es = edges.drop_last();
        assert forall|k: int| 0 <= k < es.len() implies names.contains((#[trigger] es[k]).from@) && names.contains(es[k].to@) by {
            assert(es[k] == edges[k]);
        }
        lemma_adj_of_entries(es, names);
        let a = adj_of(es, names);
        let e = edges[edges.len() - 1];
        let f = idx(names, e.from@);
        let t = idx(names, e.to@);
        lemma_idx_of_named(names, e.from@);
        lemma_idx_of_named(names, e.to@);
        assert(adj_of(edges, names) == a.update(f, a[f].push((t as usize, Junct::And))));
        assert forall|u: int, m: int|
            0 <= u < names.len() && 0 <= m < adj_of(edges, names)[u].len() implies edge_entry(
                edges,
                names,
                u,
                (#[trigger] adj_of(edges, names)[u][m]).0,
            ) by {
            if u == f && m == a[f].len() {
                assert(adj_of(edges, names)[u][m] == (t as usize, Junct::And));
                let k = edges.len() - 1;
                assert(edges[k] == e);
            } else {
                assert(adj_of(edges, names)[u][m] == a[u][m]);
                assert(edge_entry(es, names, u, a[u][m].0));
                let k = choose|k: int|
                    0 <= k < es.len() && idx(names, (#[trigger] es[k]).from@) == u
                        && a[u][m].0 == idx(names, es[k].to@) as usize;
                assert(edges[k] == es[k]);
            }
        }
    }
}

/// A dependency of the name-table graph comes from an import edge.
proof fn lemma_dep_to_edge(edges: Seq<Edge>, names: Seq<Seq<char>>, u: int, w: int)
    requires
        ends_named(edges, names),
        names.len() <= usize::MAX,
        0 <= u < names.len(),
        0 <= w < names.len(),
        has_dep(adj_of(edges, names), u, w),
    ensures
        is_edge(edges, names[u], names[w]),
{
    lemma_adj_of_entries(edges, names);
    let adj = adj_of(edges, names);
    let m = choose|m: int| #![trigger adj[u][m]] 0 <= m < adj[u].len() && adj[u][m].0 == w;
    assert(edge_entry(edges, names, u, adj[u][m].0));
    let k = choose|k: int|
        0 <= k < edges.len() && idx(names, (#[trigger] edges[k]).from@) == u
            && adj[u][m].0 == idx(names, edges[k].to@) as usize;
    lemma_idx_of_named(names, edges[k].from@);
    lemma_idx_of_named(names, edges[k].to@);
    assert(idx(names, edges[k].to@) == w);
}

/// An import edge is a dependency of the name-table graph.
proof fn lemma_edge_to_dep(edges: Seq<Edge>, names: Seq<Seq<char>>, u: int, w: int)
    requires
        distinct(names),
        ends_named(edges, names),
        names.len() <= usize::MAX,
        0 <= u < names.len(),
        0 <= w < names.len(),
        is_edge(edges, names[u], names[w]),
    ensures
        has_dep(adj_of(edges, names), u, w),
{
    assert forall|k: int| #![trigger edges[k]] 0 <= k < edges.len() implies names.contains(edges[k].from@) by {}
    lemma_adj_of_edges(edges, names);
    let adj = adj_of(edges, names);
    let k = choose|k: int| 0 <= k < edges.len() && (#[trigger] edges[k]).from@ == names[u] && edges[k].to@ == names[w];
    lemma_idx(names, u);
    lemma_idx(names, w);
    assert(idx(names, edges[k].from@) == u);
    assert(idx(names, edges[k].to@) == w);
    let m = choose|m: int|
        0 <= m < adj[idx(names, edges[k].from@)].len() && adj[idx(names, edges[k].from@)][m] == (
            idx(names, edges[k].to@) as usize,
            Junct::And,
        );
    assert(adj[u][m].0 == w);
}

/// A walk of the name-table graph names an import path.
proof fn lemma_walk_to_path(edges: Seq<Edge>, names: Seq<Seq<char>>, p: Seq<int>)
    requires
        ends_named(edges, names),
        names.len() <= usize::MAX,
        is_walk(adj_of(edges, names), p),
    ensures
        edge_path(edges, p.map_values(|i: int| names[i])),
{
    let adj = adj_of(edges, names);
    lemma_adj_of_entries(edges, names);
    let q = p.map_values(|i: int| names[i]);
    assert forall|i: int| 0 <= i < q.len() - 1 implies is_edge(edges, q[i], #[trigger] q[i + 1]) by {
        assert(has_dep(adj, p[i], p[i + 1]));
        assert(0 <= p[i] < adj.len() && 0 <= p[i + 1] < adj.len());
        lemma_dep_to_edge(edges, names, p[i], p[i + 1]);
    }
}

/// An import path from a named module is a walk of the name-table graph.
proof fn lemma_path_to_walk(edges: Seq<Edge>, names: Seq<Seq<char>>, q: Seq<Seq<char>>)
    requires
        distinct(names),
        ends_named(edges, names),
        names.len() <= usize::MAX,
        edge_path(edges, q),
        names.contains(q[0]),
    ensures
        is_walk(adj_of(edges, names), q.map_values(|x: Seq<char>| idx(names, x))),
        forall|i: int| 0 <= i < q.len() ==> names.contains(#[trigger] q[i]),
{
    let adj = adj_of(edges, names);
    lemma_adj_of_entries(edges, names);
    let p = q.map_values(|x: Seq<char>| idx(names, x));
    assert forall|i: int| 0 <= i < q.len() implies names.contains(#[trigger] q[i]) by {
        if i > 0 {
            let j = i - 1;
            assert(is_edge(edges, q[j], q[j + 1]));
            let k = choose|k: int| 0 <= k < edges.len() && (#[trigger] edges[k]).from@ == q[j] && edges[k].to@ == q[j + 1];
        }
    }
    assert forall|i: int| 0 <= i < p.len() implies 0 <= #[trigger] p[i] < adj.len() by {
        lemma_idx_of_named(names, q[i]);
    }
    assert forall|i: int| 0 <= i < p.len() - 1 implies has_dep(adj, p[i], #[trigger] p[i + 1]) by {
        assert(names.contains(q[i]) && names.contains(q[i + 1]));
        lemma_idx_of_named(names, q[i]);
        lemma_idx_of_named(names, q[i + 1]);
        assert(is_edge(edges, q[i], q[i + 1]));
        lemma_edge_to_dep(edges, names, p[i], p[i + 1]);
    }
}

/// Reachability and cycles of the name-table graph are those of the
/// import edges.
proof fn lemma_walk_path(edges: Seq<Edge>, names: Seq<Seq<char>>, a: Seq<char>, b: Seq<char>)
    requires
        distinct(names),
        ends_named(edges, names),
        names.len() <= usize::MAX,
        names.contains(a),
    ensures
        imports_reach(edges, a, b) ==> names.contains(b),
        leads_to(adj_of(edges, names), idx(names, a), idx(names, b)) && names.contains(b) ==> imports_reach(edges, a, b),
        imports_reach(edges, a, b) ==> leads_to(adj_of(edges, names), idx(names, a), idx(names, b)),
        on_cycle(adj_of(edges, names), idx(names, a)) <==> on_import_cycle(edges, a),
{
    let adj = adj_of(edges, names);
    lemma_adj_of_entries(edges, names);
    lemma_idx_of_named(names, a);
    if imports_reach(edges, a, b) {
        let q = choose|q: Seq<Seq<char>>| #![trigger edge_path(edges, q)] edge_path(edges, q) && q[0] == a && q.last() == b;
        lemma_path_to_walk(edges, names, q);
        assert(names.contains(q[q.len() - 1]));
        let p = q.map_values(|x: Seq<char>| idx(names, x));
        assert(p[0] == idx(names, a) && p.last() == idx(names, b));
    }
    if leads_to(adj, idx(names, a), idx(names, b)) && names.contains(b) {
        let p = choose|p: Seq<int>| #![trigger is_walk(adj, p)] is_walk(adj, p) && p[0] == idx(names, a) && p.last() == idx(names, b);
        lemma_walk_to_path(edges, names, p);
        let q = p.map_values(|i: int| names[i]);
        lemma_idx_of_named(names, b);
        assert(q[0] == a && q.last() == b);
    }
    if on_cycle(adj, idx(names, a)) {
        let p = choose|p: Seq<int>| #![trigger is_walk(adj, p)] is_walk(adj, p) && p.len() >= 2 && p[0] == idx(names, a) && p.last() == idx(names, a);
        lemma_walk_to_path(edges, names, p);
        let q = p.map_values(|i: int| names[i]);
        assert(q[0] == a && q.last() == a);
    }
    if on_import_cycle(edges, a) {
        let q = choose|q: Seq<Seq<char>>| #![trigger edge_path(edges, q)] edge_path(edges, q) && q.len() >= 2 && q[0] == a && q.last() == a;
        lemma_path_to_walk(edges, names, q);
        let p = q.map_values(|x: Seq<char>| idx(names, x));
        assert(p[0] == idx(names, a) && p.last() == idx(names, a));
    }
}

/// The name-table position of each node, in node order.
pub open spec fn node_order(nodes: Seq<DagNode>, names: Seq<Seq<char>>) -> Seq<usize> {
    Seq::new(nodes.len(), |j: int| idx(names, nodes[j].id@) as usize)
}

/// The self-verdicts of a self table.
pub open spec fn self_verdicts(sv: Seq<(Verdict, Seq<char>)>) -> Seq<Verdict> {
    sv.map_values(|x: (Verdict, Seq<char>)| x.0)
}

/// Build the reasoning document from a DAG document. `verdicts` supplies
/// real prover results by module id (absent ids are `Unknown`); a node
/// whose id is in `stale` and whose verdict is `Proven` drops to `Unknown`
/// before the fold, so the staleness propagates to its importers.
#[verifier::rlimit(60)]
#[verifier::spinoff_prover]
pub fn build(dag: DagDocument, verdicts: &[(String, Verdict)], stale: &[String]) -> (r:
    ReasonDocument)
    ensures
        r.version@ == "0.1"@,
        r.dag == dag,
        strs(r.crt_roots@) == crt_of(dag.entry_modules@, dag.include_root@),
        r.edges@.len() == dag.edges@.len(),
        forall|k: int|
            #![trigger r.edges@[k]]
            0 <= k < r.edges@.len() ==> r.edges@[k].from@ == dag.edges@[k].from@ && r.edges@[k].to@
                == dag.edges@[k].to@ && r.edges@[k].kind@ == dag.edges@[k].kind@
                && r.edges@[k].junct == Junct::And,
        r.nodes@.len() == dag.nodes@.len(),
        ({
            let names = name_table(dag, strs(r.crt_roots@));
            let adj = adj_of(dag.edges@, names);
            let sv = selfs_of(dag.nodes@, names, verdicts@, strs(stale@));
            forall|i: int|
                #![trigger r.nodes@[i]]
                0 <= i < r.nodes@.len() ==> {
                    let n = r.nodes@[i];
                    let u = idx(names, dag.nodes@[i].id@);
                    &&& n.id@ == dag.nodes@[i].id@
                    &&& n.self_verdict == sv[u].0
                    &&& n.verdict_evidence@ == if n.on_cycle {
                        sv[u].1 + "; import cycle"@
                    } else {
                        sv[u].1
                    }
                    // demote-only: never above the node's own verdict
                    &&& rank_of(n.effective) <= rank_of(n.self_verdict)
                    &&& n.on_cycle ==> n.effective == Verdict::Error
                    &&& n.soundness@ == soundness_word(n.effective)
                    // wired: reachable from a CRT root along imports
                    &&& n.wired == reaches(adj, root_idx(names, strs(r.crt_roots@)), u)
                    // a node marked on a cycle lies on an import cycle
                    &&& n.on_cycle ==> on_cycle(adj, u)
                    // with no cycle ahead, the node's verdict is the lowest own
                    // verdict among itself and everything it imports, transitively
                    &&& cycle_free_from(adj, u) ==> forall|w: int|
                        #[trigger] leads_to(adj, u, w) ==> rank_of(n.effective) <= rank_of(sv[w].0)
                    &&& cycle_free_from(adj, u) ==> exists|w: int|
                        #[trigger] leads_to(adj, u, w) && n.effective == sv[w].0
                    // a node that leads to an import cycle is `Error`
                    &&& !cycle_free_from(adj, u) ==> n.effective == Verdict::Error
                    // the same in terms of the import edges: a marked node lies
                    // on an import cycle; a node that reaches an import cycle
                    // is `Error`; with no import cycle ahead, the node is no
                    // better than any node it reaches, and equals the own
                    // verdict of a module it reaches; wired exactly when a CRT
                    // root reaches it
                    &&& n.on_cycle ==> on_import_cycle(dag.edges@, n.id@)
                    &&& (exists|c: Seq<char>| imports_reach(dag.edges@, n.id@, c) && on_import_cycle(dag.edges@, c))
                        ==> n.effective == Verdict::Error
                    &&& (forall|c: Seq<char>| imports_reach(dag.edges@, n.id@, c) ==> !on_import_cycle(dag.edges@, c))
                        ==> (forall|j: int| 0 <= j < r.nodes@.len() && imports_reach(dag.edges@, n.id@, (#[trigger] r.nodes@[j]).id@)
                            ==> rank_of(n.effective) <= rank_of(r.nodes@[j].self_verdict))
                        && (exists|c: Seq<char>| imports_reach(dag.edges@, n.id@, c) && n.effective == sv[idx(names, c)].0)
                    &&& n.wired <==> exists|k: int|
                        0 <= k < r.crt_roots@.len() && imports_reach(dag.edges@, (#[trigger] r.crt_roots@[k])@, n.id@)
                    // exactly the marks and verdicts of the depth-first fold
                    // started from each node in turn
                    &&& n.on_cycle == dfs_result(adj, self_verdicts(sv), node_order(dag.nodes@, names)).1[u]
                    &&& n.effective == if n.on_cycle {
                        Verdict::Error
                    } else {
                        dfs_result(adj, self_verdicts(sv), node_order(dag.nodes@, names)).0[u]
                    }
                    // honesty: never above the supplied verdict; `Proven` only on
                    // a supplied `Proven`, not stale, with no capping lint rule on
                    // a node of that id
                    &&& rank_of(n.self_verdict) <= rank_of(supplied_verdict(verdicts@, n.id@))
                    &&& (n.self_verdict == Verdict::Proven || n.effective == Verdict::Proven) ==> (
                        lookup_verdict(verdicts@, n.id@) == Some(Verdict::Proven)
                        && !strs(stale@).contains(n.id@)
                        && exists|j: int| 0 <= j < dag.nodes@.len() && (#[trigger] dag.nodes@[j]).id@ == n.id@
                            && uncapped(dag.nodes@[j]))
                }
        }),
        // an importer never rises above a (cycle-free) import
        forall|k: int, i: int, j: int|
            #![trigger dag.edges@[k], r.nodes@[i], r.nodes@[j]]
            0 <= k < dag.edges@.len() && 0 <= i < r.nodes@.len() && 0 <= j < r.nodes@.len()
                && r.nodes@[i].id@ == dag.edges@[k].from@ && r.nodes@[j].id@ == dag.edges@[k].to@
                && !r.nodes@[j].on_cycle ==> rank_of(r.nodes@[i].effective) <= rank_of(
                r.nodes@[j].effective,
            ),
{
    let crt = crt_roots_of(&dag.entry_modules, &dag.include_root);
    let edges = reason_edges(&dag.edges);
    let names = name_table_of(&dag, &crt);
    let ghost nv = strs(names@);
    let adj = adjacency(&dag.edges, &names);
    let (sv, evs) = self_table(&dag.nodes, &names, verdicts, stale);
    let ids = node_id_list(&dag.nodes);
    proof {
        assert forall|j: int| 0 <= j < ids@.len() implies nv.contains(#[trigger] ids@[j]@) by {
            assert(strs(ids@)[j] == node_ids(dag.nodes@)[j]);
            assert(ids@[j]@ == dag.nodes@[j].id@);
        }
    }
    let order = name_positions(&ids, &names);
    let roots = name_positions(&crt, &names);
    assert(roots@ =~= root_idx(nv, strs(crt@)));
    let (eff, cyc, settled) = fold_verdicts(&sv, &adj, &order);
    let wired = reachable_from(&adj, &roots);
    proof {
        lemma_adj_of_edges(dag.edges@, nv);
    }
    let mut nodes: Vec<ReasonNode> = Vec::new();
    let mut i: usize = 0;
    while i < dag.nodes.len()
        invariant
            i <= dag.nodes@.len(),
            nodes@.len() == i,
            order@.len() == dag.nodes@.len(),
            ids@.len() == dag.nodes@.len(),
            strs(ids@) == node_ids(dag.nodes@),
            forall|j: int|
                #![trigger order@[j]]
                0 <= j < ids@.len() ==> order@[j] < names@.len() && order@[j] == idx(nv, ids@[j]@),
            eff@.len() == names@.len(),
            cyc@.len() == names@.len(),
            settled@.len() == names@.len(),
            sv@.len() == names@.len(),
            evs@.len() == names@.len(),
            wired@.len() == names@.len(),
            forall|j: int|
                #![trigger nodes@[j]]
                0 <= j < i ==> {
                    let n = nodes@[j];
                    let u = order@[j] as int;
                    &&& n.id@ == dag.nodes@[j].id@
                    &&& n.self_verdict == sv@[u]
                    &&& n.on_cycle == cyc@[u]
                    &&& n.verdict_evidence@ == if n.on_cycle {
                        evs@[u]@ + "; import cycle"@
                    } else {
                        evs@[u]@
                    }
                    &&& n.effective == if n.on_cycle {
                        Verdict::Error
                    } else {
                        eff@[u]
                    }
                    &&& n.soundness@ == soundness_word(n.effective)
                    &&& n.wired == wired@[u]
                },
        decreases dag.nodes.len() - i,
    {
        let u = order[i];
        let mut e = eff[u];
        let mut ev = evs[u].clone();
        if cyc[u] {
            e = demote(e, Verdict::Error);
            ev.append("; import cycle");
        }
        assert(strs(ids@)[i as int] == node_ids(dag.nodes@)[i as int]);
        assert(ids@[i as int]@ == dag.nodes@[i as int].id@);
        nodes.push(
            ReasonNode {
                id: dag.nodes[i].id.clone(),
                self_verdict: sv[u],
                effective: e,
                verdict_evidence: ev,
                soundness: soundness_of(e),
                wired: wired[u],
                on_cycle: cyc[u],
            },
        );
        i = i + 1;
    }
    proof {
        let names_s = name_table(dag, strs(crt@));
        let adj_s = adj_of(dag.edges@, names_s);
        let sv_s = selfs_of(dag.nodes@, names_s, verdicts@, strs(stale@));
        assert(names_s == nv);
        assert forall|i: int|
            #![trigger nodes@[i]]
            0 <= i < nodes@.len() implies {
                let n = nodes@[i];
                let u = idx(names_s, dag.nodes@[i].id@);
                &&& n.id@ == dag.nodes@[i].id@
                &&& n.self_verdict == sv_s[u].0
                &&& n.verdict_evidence@ == if n.on_cycle {
                    sv_s[u].1 + "; import cycle"@
                } else {
                    sv_s[u].1
                }
                &&& n.wired == reaches(adj_s, root_idx(names_s, strs(crt@)), u)
            } by {
            let u = order@[i] as int;
            assert(strs(ids@)[i] == node_ids(dag.nodes@)[i]);
            assert(u == idx(nv, dag.nodes@[i].id@));
            assert((sv@[u], evs@[u]@) == sv_s[u]);
        }
        assert(all_and(adj_s)) by {
            lemma_adj_of_wf(dag.edges@, nv);
        }
        assert forall|i: int| 0 <= i < dag.nodes@.len() implies nv.contains(#[trigger] dag.nodes@[i].id@) by {
            assert(strs(ids@)[i] == node_ids(dag.nodes@)[i]);
        }
        lemma_selfs_len(dag.nodes@, nv, verdicts@, strs(stale@));
        assert forall|i: int|
            #![trigger nodes@[i]]
            0 <= i < nodes@.len() implies {
                let n = nodes@[i];
                let u = idx(names_s, dag.nodes@[i].id@);
                &&& n.on_cycle ==> on_cycle(adj_s, u)
                &&& cycle_free_from(adj_s, u) ==> forall|w: int|
                    #[trigger] leads_to(adj_s, u, w) ==> rank_of(n.effective) <= rank_of(sv_s[w].0)
                &&& cycle_free_from(adj_s, u) ==> exists|w: int|
                    #[trigger] leads_to(adj_s, u, w) && n.effective == sv_s[w].0
                &&& !cycle_free_from(adj_s, u) ==> n.effective == Verdict::Error
            } by {
            let u = order@[i] as int;
            assert(strs(ids@)[i] == node_ids(dag.nodes@)[i]);
            assert(u == idx(nv, dag.nodes@[i].id@));
            assert(settled@[u]);
            if cycle_free_from(adj_s, u) {
                lemma_leads_to_self(adj_s, u);
                assert(!on_cycle(adj_s, u));
                assert(!cyc@[u]);
                assert(sv@ =~= sv_s.map_values(|x: (Verdict, Seq<char>)| x.0)) by {
                    assert forall|w: int| 0 <= w < sv@.len() implies sv@[w] == sv_s[w].0 by {
                        assert((sv@[w], evs@[w]@) == sv_s[w]);
                    }
                }
                lemma_acyclic_min(adj_s, sv@, eff@, cyc@, settled@, u);
                assert forall|w: int| #[trigger] leads_to(adj_s, u, w) implies rank_of(nodes@[i].effective) <= rank_of(sv_s[w].0) by {
                    assert(0 <= w < adj_s.len()) by {
                        let p = choose|p: Seq<int>| #![trigger is_walk(adj_s, p)] is_walk(adj_s, p) && p[0] == u && p.last() == w;
                        assert(p[p.len() - 1] == w);
                    }
                    assert((sv@[w], evs@[w]@) == sv_s[w]);
                }
                let w = choose|w: int| #[trigger] leads_to(adj_s, u, w) && eff@[u] == sv@[w];
                assert(0 <= w < adj_s.len()) by {
                    let p = choose|p: Seq<int>| #![trigger is_walk(adj_s, p)] is_walk(adj_s, p) && p[0] == u && p.last() == w;
                    assert(p[p.len() - 1] == w);
                }
                assert((sv@[w], evs@[w]@) == sv_s[w]);
            } else {
                let w = choose|w: int| #[trigger] leads_to(adj_s, u, w) && on_cycle(adj_s, w);
                let p = choose|p: Seq<int>| #![trigger is_walk(adj_s, p)] is_walk(adj_s, p) && p[0] == u && p.last() == w;
                lemma_reaches_cycle_error(adj_s, sv@, eff@, cyc@, settled@, p);
            }
        }
        assert forall|i: int|
            #![trigger nodes@[i]]
            0 <= i < nodes@.len() implies rank_of(nodes@[i].effective) <= rank_of(
            nodes@[i].self_verdict,
        ) by {
            let u = order@[i] as int;
            assert(settled@[u]);
            assert(fold_facts(u, adj_view(adj@), sv@, eff@, cyc@, settled@));
        }
        assert forall|i: int|
            #![trigger nodes@[i]]
            0 <= i < nodes@.len() implies {
                let n = nodes@[i];
                &&& rank_of(n.self_verdict) <= rank_of(supplied_verdict(verdicts@, n.id@))
                &&& (n.self_verdict == Verdict::Proven || n.effective == Verdict::Proven) ==> (
                    lookup_verdict(verdicts@, n.id@) == Some(Verdict::Proven)
                    && !strs(stale@).contains(n.id@)
                    && exists|j: int| 0 <= j < dag.nodes@.len() && (#[trigger] dag.nodes@[j]).id@ == n.id@
                        && uncapped(dag.nodes@[j]))
            } by {
            lemma_node_at_honest(dag.nodes@, nv, verdicts@, strs(stale@), i);
        }
        assert forall|k: int, i: int, j: int|
            #![trigger dag.edges@[k], nodes@[i], nodes@[j]]
            0 <= k < dag.edges@.len() && 0 <= i < nodes@.len() && 0 <= j < nodes@.len()
                && nodes@[i].id@ == dag.edges@[k].from@ && nodes@[j].id@ == dag.edges@[k].to@
                && !nodes@[j].on_cycle implies rank_of(nodes@[i].effective) <= rank_of(
            nodes@[j].effective,
        ) by {
            let u = order@[i] as int;
            let t = order@[j] as int;
            assert(strs(ids@)[i] == node_ids(dag.nodes@)[i]);
            assert(strs(ids@)[j] == node_ids(dag.nodes@)[j]);
            assert(u == idx(nv, dag.edges@[k].from@));
            assert(t == idx(nv, dag.edges@[k].to@));
            assert(settled@[u] && settled@[t]);
            let m = choose|m: int|
                0 <= m < adj_s[idx(nv, dag.edges@[k].from@)].len() && adj_s[idx(
                    nv,
                    dag.edges@[k].from@,
                )][m] == (idx(nv, dag.edges@[k].to@) as usize, Junct::And);
            assert(fold_facts(u, adj_view(adj@), sv@, eff@, cyc@, settled@));
            assert(adj_view(adj@)[u][m] == (t as usize, Junct::And));
        }
    }
    proof {
        let names_s = name_table(dag, strs(crt@));
        let adj_s = adj_of(dag.edges@, names_s);
        let sv_s = selfs_of(dag.nodes@, names_s, verdicts@, strs(stale@));
        assert(names_s == nv);
        assert(order@ =~= node_order(dag.nodes@, nv)) by {
            assert forall|j: int| 0 <= j < order@.len() implies order@[j] == node_order(dag.nodes@, nv)[j] by {
                assert(strs(ids@)[j] == node_ids(dag.nodes@)[j]);
                assert(ids@[j]@ == dag.nodes@[j].id@);
            }
        }
        assert(sv@ =~= self_verdicts(sv_s)) by {
            assert forall|w: int| 0 <= w < sv@.len() implies sv@[w] == self_verdicts(sv_s)[w] by {
                assert((sv@[w], evs@[w]@) == sv_s[w]);
            }
        }
        assert forall|i: int|
            #![trigger nodes@[i]]
            0 <= i < nodes@.len() implies {
                let n = nodes@[i];
                let u = idx(names_s, dag.nodes@[i].id@);
                &&& n.on_cycle == dfs_result(adj_s, self_verdicts(sv_s), node_order(dag.nodes@, names_s)).1[u]
                &&& n.effective == if n.on_cycle {
                    Verdict::Error
                } else {
                    dfs_result(adj_s, self_verdicts(sv_s), node_order(dag.nodes@, names_s)).0[u]
                }
            } by {
            assert(strs(ids@)[i] == node_ids(dag.nodes@)[i]);
            assert(order@[i] == idx(nv, dag.nodes@[i].id@));
        }
        assert(ends_named(dag.edges@, nv)) by {
            assert forall|k: int| 0 <= k < dag.edges@.len() implies nv.contains((#[trigger] dag.edges@[k]).from@)
                && nv.contains(dag.edges@[k].to@) by {}
        }
        assert(nv.len() <= usize::MAX);
        assert forall|i: int|
            #![trigger nodes@[i]]
            0 <= i < nodes@.len() implies {
                let n = nodes@[i];
                &&& n.on_cycle ==> on_import_cycle(dag.edges@, n.id@)
                &&& (exists|c: Seq<char>| imports_reach(dag.edges@, n.id@, c) && on_import_cycle(dag.edges@, c))
                    ==> n.effective == Verdict::Error
            } by {
            let n = nodes@[i];
            assert(n.id@ == dag.nodes@[i].id@);
            assert(nv.contains(n.id@));
            let u = idx(nv, n.id@);
            lemma_walk_path(dag.edges@, nv, n.id@, n.id@);
            if exists|c: Seq<char>| imports_reach(dag.edges@, n.id@, c) && on_import_cycle(dag.edges@, c) {
                let c = choose|c: Seq<char>| imports_reach(dag.edges@, n.id@, c) && on_import_cycle(dag.edges@, c);
                lemma_walk_path(dag.edges@, nv, n.id@, c);
                lemma_walk_path(dag.edges@, nv, c, c);
                assert(leads_to(adj_s, u, idx(nv, c)));
                assert(on_cycle(adj_s, idx(nv, c)));
                assert(!cycle_free_from(adj_s, u));
            }
        }
        let rs = root_idx(nv, strs(crt@));
        assert forall|i: int|
            #![trigger nodes@[i]]
            0 <= i < nodes@.len() implies (nodes@[i].wired <==> exists|k: int|
                0 <= k < crt@.len() && imports_reach(dag.edges@, (#[trigger] crt@[k])@, nodes@[i].id@)) by {
            let n = nodes@[i];
            assert(n.id@ == dag.nodes@[i].id@);
            assert(nv.contains(n.id@));
            let u = idx(nv, n.id@);
            assert(n.wired == reaches(adj_s, rs, u));
            if n.wired {
                let p = choose|p: Seq<int>| #![trigger is_walk(adj_s, p)] is_walk(adj_s, p) && rs.contains(p[0] as usize) && p.last() == u;
                let j = choose|j: int| 0 <= j < rs.len() && rs[j] == p[0] as usize;
                assert(strs(crt@)[j] == crt@[j]@);
                assert(nv.contains(crt@[j]@));
                lemma_idx_of_named(nv, crt@[j]@);
                assert(0 <= p[0] < adj_s.len());
                assert(p[0] == idx(nv, crt@[j]@));
                assert(leads_to(adj_s, idx(nv, crt@[j]@), u));
                lemma_walk_path(dag.edges@, nv, crt@[j]@, n.id@);
                assert(imports_reach(dag.edges@, crt@[j]@, n.id@));
            }
            if exists|k: int| 0 <= k < crt@.len() && imports_reach(dag.edges@, (#[trigger] crt@[k])@, n.id@) {
                let k = choose|k: int| 0 <= k < crt@.len() && imports_reach(dag.edges@, (#[trigger] crt@[k])@, n.id@);
                assert(nv.contains(crt@[k]@));
                lemma_walk_path(dag.edges@, nv, crt@[k]@, n.id@);
                let p = choose|p: Seq<int>| #![trigger is_walk(adj_s, p)] is_walk(adj_s, p) && p[0] == idx(nv, crt@[k]@) && p.last() == u;
                lemma_idx_of_named(nv, crt@[k]@);
                assert(strs(crt@)[k] == crt@[k]@);
                assert(rs[k] == p[0] as usize);
                assert(rs.contains(p[0] as usize));
            }
        }
        assert forall|i: int|
            #![trigger nodes@[i]]
            0 <= i < nodes@.len() implies {
                let n = nodes@[i];
                (forall|c: Seq<char>| imports_reach(dag.edges@, n.id@, c) ==> !on_import_cycle(dag.edges@, c))
                    ==> (forall|j: int| 0 <= j < nodes@.len() && imports_reach(dag.edges@, n.id@, (#[trigger] nodes@[j]).id@)
                        ==> rank_of(n.effective) <= rank_of(nodes@[j].self_verdict))
                    && (exists|c: Seq<char>| imports_reach(dag.edges@, n.id@, c) && n.effective == sv_s[idx(nv, c)].0)
            } by {
            let n = nodes@[i];
            assert(n.id@ == dag.nodes@[i].id@);
            assert(nv.contains(n.id@));
            let u = idx(nv, n.id@);
            if forall|c: Seq<char>| imports_reach(dag.edges@, n.id@, c) ==> !on_import_cycle(dag.edges@, c) {
                assert forall|w: int| #[trigger] leads_to(adj_s, u, w) implies !on_cycle(adj_s, w) by {
                    let p = choose|p: Seq<int>| #![trigger is_walk(adj_s, p)] is_walk(adj_s, p) && p[0] == u && p.last() == w;
                    assert(0 <= p[p.len() - 1] < adj_s.len());
                    let c = nv[w];
                    lemma_idx(nv, w);
                    lemma_walk_path(dag.edges@, nv, n.id@, c);
                    lemma_walk_path(dag.edges@, nv, c, c);
                }
                assert(cycle_free_from(adj_s, u));
                assert forall|j: int| 0 <= j < nodes@.len() && imports_reach(dag.edges@, n.id@, (#[trigger] nodes@[j]).id@)
                    implies rank_of(n.effective) <= rank_of(nodes@[j].self_verdict) by {
                    lemma_walk_path(dag.edges@, nv, n.id@, nodes@[j].id@);
                    assert(leads_to(adj_s, u, idx(nv, nodes@[j].id@)));
                    assert(nodes@[j].id@ == dag.nodes@[j].id@);
                }
                let w = choose|w: int| #[trigger] leads_to(adj_s, u, w) && n.effective == sv_s[w].0;
                let p = choose|p: Seq<int>| #![trigger is_walk(adj_s, p)] is_walk(adj_s, p) && p[0] == u && p.last() == w;
                assert(0 <= p[p.len() - 1] < adj_s.len());
                let c = nv[w];
                lemma_idx(nv, w);
                lemma_walk_path(dag.edges@, nv, n.id@, c);
                assert(imports_reach(dag.edges@, n.id@, c));
            }
        }
    }
    ReasonDocument { version: "0.1", dag, nodes, edges, crt_roots: crt }
}

proof fn lemma_edge_ends_contains(edges: Seq<Edge>, k: int)
    requires
        0 <= k < edges.len(),
    ensures
        edge_ends(edges).contains(edges[k].from@),
        edge_ends(edges).contains(edges[k].to@),
    decreases edges.len(),
{
    let t = edge_ends(edges);
    if k == edges.len() - 1 {
        assert(t[t.len() - 1] == edges[k].to@);
        assert(t[t.len() - 2] == edges[k].from@);
    } else {
        lemma_edge_ends_contains(edges.drop_last(), k);
        let s = edge_ends(edges.drop_last());
        let a = choose|a: int| 0 <= a < s.len() && s[a] == edges.drop_last()[k].from@;
        let b = choose|b: int| 0 <= b < s.len() && s[b] == edges.drop_last()[k].to@;
        assert(t[a] == s[a]);
        assert(t[b] == s[b]);
    }
}

/// `names` without the entries equal to `id`, in order.
pub open spec fn drop_name(names: Seq<Seq<char>>, id: Seq<char>) -> Seq<Seq<char>>
    decreases names.len(),
{
    if names.len() == 0 {
        Seq::empty()
    } else if names.last() == id {
        drop_name(names.drop_last(), id)
    } else {
        drop_name(names.drop_last(), id).push(names.last())
    }
}

/// Records a fresh check of module `id` with verdict `v`: the verdict
/// overrides whatever `verdicts` held for `id` (later entries win), and
/// `id` leaves `stale`, since a real verdict is not stale.
pub fn record_check(verdicts: &mut Vec<(String, Verdict)>, stale: &mut Vec<String>, id: &str, v: Verdict)
    ensures
        forall|x: Seq<char>| #[trigger] lookup_verdict(final(verdicts)@, x)
            == if x == id@ { Some(v) } else { lookup_verdict(old(verdicts)@, x) },
        strs(final(stale)@) == drop_name(strs(old(stale)@), id@),
{
    let ghost v0 = verdicts@;
    verdicts.push((String::from_str(id), v));
    assert(verdicts@.drop_last() =~= v0);
    let mut kept: Vec<String> = Vec::new();
    let mut i: usize = 0;
    while i < stale.len()
        invariant
            i <= stale@.len(),
            strs(kept@) == drop_name(strs(stale@).take(i as int), id@),
        decreases stale.len() - i,
    {
        let ghost before = strs(kept@);
        assert(strs(stale@).take(i + 1).drop_last() =~= strs(stale@).take(i as int));
        if !crate::text::str_eq(stale[i].as_str(), id) {
            kept.push(stale[i].clone());
            assert(strs(kept@) =~= before.push(stale@[i as int]@));
        }
        i = i + 1;
    }
    assert(strs(stale@).take(stale@.len() as int) =~= strs(stale@));
    *stale = kept;
}

/// The file name of a node's path, empty when it has none.
pub open spec fn base_name(file: Seq<char>) -> Seq<char> {
    match crate::path::file_name_of(file) {
        Some(n) => n,
        None => Seq::empty(),
    }
}

/// The nodes whose file name is in `proven`.
pub open spec fn proven_nodes(ns: Seq<crate::dag::DagNode>, proven: Seq<Seq<char>>) -> Set<Seq<char>> {
    Set::new(|id: Seq<char>| exists|i: int| 0 <= i < ns.len() && (#[trigger] ns[i]).id@ == id && proven.contains(base_name(ns[i].file@)))
}

/// The nodes whose file name is in both `proven` and `stale`.
pub open spec fn stale_nodes(ns: Seq<crate::dag::DagNode>, proven: Seq<Seq<char>>, stale: Seq<Seq<char>>) -> Set<Seq<char>> {
    Set::new(|id: Seq<char>| exists|i: int| 0 <= i < ns.len() && (#[trigger] ns[i]).id@ == id
        && proven.contains(base_name(ns[i].file@)) && stale.contains(base_name(ns[i].file@)))
}

/// The reasoning inputs a workspace's `proven/` state gives, without
/// re-checking: every node whose file name is among the proven file names
/// gets a `Proven` self-verdict, and is stale when its file name is also
/// among the stale ones. Nodes are matched by file name (the workspace keeps
/// files flat by name, so modules sharing a file name collide). Both results
/// are ordered by module, each module once.
pub fn workspace_verdicts(dag: &crate::dag::DagDocument, proven: &Vec<String>, stale: &Vec<String>) -> (r: (Vec<(String, Verdict)>, Vec<String>))
    ensures
        sorted(r.0@.map_values(|p: (String, Verdict)| p.0@)),
        r.0@.map_values(|p: (String, Verdict)| p.0@).to_set() == proven_nodes(dag.nodes@, strs(proven@)),
        forall|i: int| 0 <= i < r.0@.len() ==> (#[trigger] r.0@[i]).1 == Verdict::Proven,
        sorted(strs(r.1@)),
        strs(r.1@).to_set() == stale_nodes(dag.nodes@, strs(proven@), strs(stale@)),
{
    let mut ids: Vec<String> = Vec::new();
    let mut st: Vec<String> = Vec::new();
    let mut i: usize = 0;
    let ghost ns = dag.nodes@;
    assert(strs(ids@).to_set() =~= Set::<Seq<char>>::empty());
    assert(strs(st@).to_set() =~= Set::<Seq<char>>::empty());
    while i < dag.nodes.len()
        invariant
            i <= ns.len(),
            ns == dag.nodes@,
            sorted(strs(ids@)),
            sorted(strs(st@)),
            strs(ids@).to_set() == proven_nodes(ns.take(i as int), strs(proven@)),
            strs(st@).to_set() == stale_nodes(ns.take(i as int), strs(proven@), strs(stale@)),
        decreases ns.len() - i,
    {
        let n = &dag.nodes[i];
        let base = match crate::path::file_name(n.file.as_str()) {
            Some(b) => b,
            None => String::new(),
        };
        assert(base@ == base_name(n.file@));
        let in_proven = crate::order::holds(proven, base.as_str());
        let in_stale = crate::order::holds(stale, base.as_str());
        let ghost pi = strs(ids@).to_set();
        let ghost si = strs(st@).to_set();
        if in_proven {
            crate::order::set_insert(&mut ids, n.id.clone());
            if in_stale {
                crate::order::set_insert(&mut st, n.id.clone());
            }
        }
        proof {
            let t1 = ns.take(i + 1);
            let t0 = ns.take(i as int);
            assert forall|id: Seq<char>| proven_nodes(t1, strs(proven@)).contains(id) <==> (proven_nodes(t0, strs(proven@)).contains(id) || (in_proven && id == n.id@)) by {
                if proven_nodes(t1, strs(proven@)).contains(id) {
                    let k = choose|k: int| 0 <= k < t1.len() && (#[trigger] t1[k]).id@ == id && strs(proven@).contains(base_name(t1[k].file@));
                    if k < i {
                        assert(t0[k] == t1[k]);
                    }
                }
                if proven_nodes(t0, strs(proven@)).contains(id) {
                    let k = choose|k: int| 0 <= k < t0.len() && (#[trigger] t0[k]).id@ == id && strs(proven@).contains(base_name(t0[k].file@));
                    assert(t1[k] == t0[k]);
                }
                if in_proven && id == n.id@ {
                    assert(t1[i as int] == *n);
                }
            }
            assert(proven_nodes(t1, strs(proven@)) =~= (if in_proven { pi.insert(n.id@) } else { pi }));
            assert forall|id: Seq<char>| stale_nodes(t1, strs(proven@), strs(stale@)).contains(id) <==> (stale_nodes(t0, strs(proven@), strs(stale@)).contains(id) || (in_proven && in_stale && id == n.id@)) by {
                if stale_nodes(t1, strs(proven@), strs(stale@)).contains(id) {
                    let k = choose|k: int| 0 <= k < t1.len() && (#[trigger] t1[k]).id@ == id && strs(proven@).contains(base_name(t1[k].file@)) && strs(stale@).contains(base_name(t1[k].file@));
                    if k < i {
                        assert(t0[k] == t1[k]);
                    }
                }
                if stale_nodes(t0, strs(proven@), strs(stale@)).contains(id) {
                    let k = choose|k: int| 0 <= k < t0.len() && (#[trigger] t0[k]).id@ == id && strs(proven@).contains(base_name(t0[k].file@)) && strs(stale@).contains(base_name(t0[k].file@));
                    assert(t1[k] == t0[k]);
                }
                if in_proven && in_stale && id == n.id@ {
                    assert(t1[i as int] == *n);
                }
            }
            assert(stale_nodes(t1, strs(proven@), strs(stale@)) =~= (if in_proven && in_stale { si.insert(n.id@) } else { si }));
        }
        i = i + 1;
    }
    assert(ns.take(ns.len() as int) =~= ns);
    let mut vs: Vec<(String, Verdict)> = Vec::new();
    let mut k: usize = 0;
    while k < ids.len()
        invariant
            k <= ids@.len(),
            vs@.map_values(|p: (String, Verdict)| p.0@) == strs(ids@).take(k as int),
            forall|j: int| 0 <= j < vs@.len() ==> (#[trigger] vs@[j]).1 == Verdict::Proven,
        decreases ids.len() - k,
    {
        let ghost prev = vs@.map_values(|p: (String, Verdict)| p.0@);
        vs.push((ids[k].clone(), Verdict::Proven));
        assert(vs@.map_values(|p: (String, Verdict)| p.0@) =~= prev.push(ids@[k as int]@));
        assert(strs(ids@).take(k + 1) =~= strs(ids@).take(k as int).push(ids@[k as int]@));
        k = k + 1;
    }
    assert(strs(ids@).take(ids@.len() as int) =~= strs(ids@));
    (vs, st)
}

} // verus!
