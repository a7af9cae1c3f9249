//! The order on strings (by code point, which is the order `str`'s `Ord`
//! gives, UTF-8 preserving code point order) and the sorted, duplicate-free
//! vectors that stand for ordered sets and ordered maps keyed by strings.

use vstd::prelude::*;
use crate::text::chars_of;
use crate::graph::{Comp, PathComp, comp_views, components, path_components};

verus! {

/// `a` comes strictly before `b` in lexicographic code point order.
pub open spec fn lt(a: Seq<char>, b: Seq<char>) -> bool
    decreases a.len(),
{
    if a.len() == 0 {
        b.len() > 0
    } else if b.len() == 0 {
        false
    } else if a[0] != b[0] {
        (a[0] as int) < (b[0] as int)
    } else {
        lt(a.drop_first(), b.drop_first())
    }
}

/// `lt` is irreflexive.
pub proof fn lemma_lt_irrefl(a: Seq<char>)
    ensures
        !lt(a, a),
    decreases a.len(),
{
    if a.len() > 0 {
        lemma_lt_irrefl(a.drop_first());
    }
}

/// Two different sequences are ordered one way or the other.
pub proof fn lemma_lt_total(a: Seq<char>, b: Seq<char>)
    ensures
        a != b ==> lt(a, b) || lt(b, a),
        !(lt(a, b) && lt(b, a)),
    decreases a.len(),
{
    if a.len() > 0 && b.len() > 0 {
        if a[0] == b[0] {
            lemma_lt_total(a.drop_first(), b.drop_first());
            if a != b {
                if a.drop_first() == b.drop_first() {
                    assert(a =~= seq![a[0]] + a.drop_first());
                    assert(b =~= seq![b[0]] + b.drop_first());
                }
            }
        } else {
            assert((a[0] as int) != (b[0] as int));
        }
    } else if a.len() == 0 && b.len() == 0 {
        assert(a =~= b);
    }
}

/// `lt` is transitive.
pub proof fn lemma_lt_trans(a: Seq<char>, b: Seq<char>, c: Seq<char>)
    requires
        lt(a, b),
        lt(b, c),
    ensures
        lt(a, c),
    decreases a.len(),
{
    if a.len() > 0 && b.len() > 0 && c.len() > 0 {
        if a[0] == b[0] && b[0] == c[0] {
            lemma_lt_trans(a.drop_first(), b.drop_first(), c.drop_first());
        }
    }
}

/// Whether `a` sorts strictly before `b`.
pub fn str_lt(a: &str, b: &str) -> (r: bool)
    ensures
        r == lt(a@, b@),
{
    let x = chars_of(a);
    let y = chars_of(b);
    chars_lt(&x, &y)
}

/// Whether the characters `x` sort strictly before `y`.
pub fn chars_lt(x: &[char], y: &[char]) -> (r: bool)
    ensures
        r == lt(x@, y@),
{
    let ghost a = x@;
    let ghost b = y@;
    let mut i: usize = 0;
    assert(x@.skip(0) =~= x@ && y@.skip(0) =~= y@);
    while i < x.len() && i < y.len()
        invariant
            x@ == a,
            y@ == b,
            i <= x@.len(),
            i <= y@.len(),
            x@.take(i as int) == y@.take(i as int),
            lt(x@, y@) == lt(x@.skip(i as int), y@.skip(i as int)),
        decreases x.len() - i,
    {
        if x[i] != y[i] {
            proof {
                assert(x@.skip(i as int)[0] == x@[i as int]);
                assert(y@.skip(i as int)[0] == y@[i as int]);
                assert(x@.skip(i as int).len() > 0 && y@.skip(i as int).len() > 0);
                assert(lt(x@.skip(i as int), y@.skip(i as int)) == ((x@[i as int] as int) < (
                    y@[i as int] as int)));
            }
            let r = x[i] < y[i];
            assert(r == ((x@[i as int] as int) < (y@[i as int] as int)));
            return r;
        }
        proof {
            assert(x@.skip(i as int).drop_first() =~= x@.skip(i + 1));
            assert(y@.skip(i as int).drop_first() =~= y@.skip(i + 1));
            assert(x@.take(i + 1) =~= x@.take(i as int).push(x@[i as int]));
            assert(y@.take(i + 1) =~= y@.take(i as int).push(y@[i as int]));
        }
        i = i + 1;
    }
    i < y.len()
}

/// The characters of each string.
pub open spec fn strs(v: Seq<String>) -> Seq<Seq<char>> {
    v.map_values(|s: String| s@)
}

/// Strictly increasing: sorted with no repeats.
pub open spec fn sorted(s: Seq<Seq<char>>) -> bool {
    forall|i: int, j: int| 0 <= i < j < s.len() ==> lt(#[trigger] s[i], #[trigger] s[j])
}

/// A strictly increasing sequence holds each value once.
pub proof fn lemma_sorted_unique(s: Seq<Seq<char>>, i: int, j: int)
    requires
        sorted(s),
        0 <= i < s.len(),
        0 <= j < s.len(),
        s[i] == s[j],
    ensures
        i == j,
{
    if i < j {
        assert(lt(s[i], s[j]));
        lemma_lt_irrefl(s[i]);
    } else if j < i {
        assert(lt(s[j], s[i]));
        lemma_lt_irrefl(s[i]);
    }
}

/// Two strictly increasing sequences with the same elements are equal.
pub proof fn lemma_sorted_same_set(a: Seq<Seq<char>>, b: Seq<Seq<char>>)
    requires
        sorted(a),
        sorted(b),
        a.to_set() == b.to_set(),
    ensures
        a == b,
    decreases a.len(),
{
    if a.len() == 0 {
        if b.len() > 0 {
            assert(b.to_set().contains(b[0]));
        }
        assert(a =~= b);
    } else if b.len() == 0 {
        assert(a.to_set().contains(a[0]));
    } else {
        // the smallest elements agree
        assert(a.to_set().contains(a[0]));
        assert(b.to_set().contains(b[0]));
        let i = choose|i: int| 0 <= i < b.len() && b[i] == a[0];
        let j = choose|j: int| 0 <= j < a.len() && a[j] == b[0];
        if i > 0 {
            assert(lt(b[0], b[i]));
            if j > 0 {
                assert(lt(a[0], a[j]));
                lemma_lt_total(a[0], b[0]);
            } else {
                lemma_lt_irrefl(b[0]);
            }
        }
        assert(a[0] == b[0]) by {
            if i > 0 {
                assert(lt(b[0], b[i]));
                if j > 0 {
                    assert(lt(a[0], a[j]));
                    lemma_lt_total(a[0], b[0]);
                }
            }
        }
        let a1 = a.drop_first();
        let b1 = b.drop_first();
        assert forall|x: Seq<char>| a1.to_set().contains(x) implies b1.to_set().contains(x) by {
            let k = choose|k: int| 0 <= k < a1.len() && a1[k] == x;
            assert(a.to_set().contains(a[k + 1]));
            let m = choose|m: int| 0 <= m < b.len() && b[m] == x;
            if m == 0 {
                assert(lt(a[0], a[k + 1]));
                lemma_lt_irrefl(a[0]);
            }
            assert(b1[m - 1] == x);
        }
        assert forall|x: Seq<char>| b1.to_set().contains(x) implies a1.to_set().contains(x) by {
            let k = choose|k: int| 0 <= k < b1.len() && b1[k] == x;
            assert(b.to_set().contains(b[k + 1]));
            let m = choose|m: int| 0 <= m < a.len() && a[m] == x;
            if m == 0 {
                assert(lt(b[0], b[k + 1]));
                lemma_lt_irrefl(b[0]);
            }
            assert(a1[m - 1] == x);
        }
        assert(a1.to_set() =~= b1.to_set());
        lemma_sorted_same_set(a1, b1);
        assert(a =~= seq![a[0]] + a1);
        assert(b =~= seq![b[0]] + b1);
    }
}

/// The position at which `x` sits, or would be inserted, in the sorted `v`,
/// and whether it is already there.
pub fn sorted_position(v: &Vec<String>, x: &str) -> (r: (usize, bool))
    requires
        sorted(strs(v@)),
    ensures
        r.0 <= v@.len(),
        forall|k: int| 0 <= k < r.0 ==> lt(#[trigger] strs(v@)[k], x@),
        r.1 ==> r.0 < v@.len() && v@[r.0 as int]@ == x@,
        !r.1 ==> forall|k: int| r.0 <= k < v@.len() ==> lt(x@, #[trigger] strs(v@)[k]),
{
    let mut i: usize = 0;
    while i < v.len()
        invariant
            i <= v@.len(),
            sorted(strs(v@)),
            forall|k: int| 0 <= k < i ==> lt(#[trigger] strs(v@)[k], x@),
        decreases v.len() - i,
    {
        assert(strs(v@)[i as int] == v@[i as int]@);
        if str_lt(v[i].as_str(), x) {
            i = i + 1;
        } else {
            let same = !str_lt(x, v[i].as_str());
            proof {
                lemma_lt_total(v@[i as int]@, x@);
                if !same {
                    assert forall|k: int| i <= k < v@.len() implies lt(x@, #[trigger] strs(v@)[k]) by {
                        if k > i {
                            assert(lt(strs(v@)[i as int], strs(v@)[k]));
                            lemma_lt_trans(x@, strs(v@)[i as int], strs(v@)[k]);
                        }
                    }
                }
            }
            return (i, same);
        }
    }
    (i, false)
}

/// Inserts `x` into the sorted set `v` (no effect when already present).
pub fn set_insert(v: &mut Vec<String>, x: String)
    requires
        sorted(strs(old(v)@)),
    ensures
        sorted(strs(final(v)@)),
        strs(final(v)@).to_set() == strs(old(v)@).to_set().insert(x@),
{
    let (i, present) = sorted_position(v, x.as_str());
    let ghost old_s = strs(v@);
    if !present {
        v.insert(i, x);
        let ghost new_s = strs(v@);
        assert(new_s =~= old_s.take(i as int).push(x@) + old_s.skip(i as int));
        assert forall|p: int, q: int| 0 <= p < q < new_s.len() implies lt(
            #[trigger] new_s[p],
            #[trigger] new_s[q],
        ) by {
            if q < i {
                assert(new_s[p] == old_s[p] && new_s[q] == old_s[q]);
            } else if q == i {
                assert(new_s[p] == old_s[p]);
            } else if p < i {
                assert(new_s[p] == old_s[p] && new_s[q] == old_s[q - 1]);
                assert(lt(old_s[p], x@));
                assert(lt(x@, old_s[q - 1]));
                lemma_lt_trans(old_s[p], x@, old_s[q - 1]);
            } else if p == i {
                assert(new_s[q] == old_s[q - 1]);
            } else {
                assert(new_s[p] == old_s[p - 1] && new_s[q] == old_s[q - 1]);
            }
        }
        assert forall|y: Seq<char>| new_s.to_set().contains(y) <==> old_s.to_set().insert(
            x@,
        ).contains(y) by {
            if new_s.to_set().contains(y) {
                let k = choose|k: int| 0 <= k < new_s.len() && new_s[k] == y;
                if k < i {
                    assert(old_s[k] == y);
                } else if k > i {
                    assert(old_s[k - 1] == y);
                }
            }
            if old_s.to_set().contains(y) {
                let k = choose|k: int| 0 <= k < old_s.len() && old_s[k] == y;
                if k < i {
                    assert(new_s[k] == y);
                } else {
                    assert(new_s[k + 1] == y);
                }
            }
            if y == x@ {
                assert(new_s[i as int] == y);
            }
        }
        assert(new_s.to_set() =~= old_s.to_set().insert(x@));
    } else {
        assert(old_s[i as int] == x@);
        assert(old_s.to_set().insert(x@) =~= old_s.to_set());
    }
}

/// Whether the sorted set `v` holds `x`.
pub fn set_contains(v: &Vec<String>, x: &str) -> (r: bool)
    requires
        sorted(strs(v@)),
    ensures
        r == strs(v@).to_set().contains(x@),
{
    let (i, present) = sorted_position(v, x);
    proof {
        if !present && strs(v@).to_set().contains(x@) {
            let k = choose|k: int| 0 <= k < v@.len() && strs(v@)[k] == x@;
            lemma_lt_irrefl(x@);
            if k < i {
                assert(lt(strs(v@)[k], x@));
            } else {
                assert(lt(x@, strs(v@)[k]));
            }
        }
        if present {
            assert(strs(v@)[i as int] == x@);
        }
    }
    present
}

/// The sorted, duplicate-free form of `items`.
pub fn sorted_set_of(items: &Vec<String>) -> (r: Vec<String>)
    ensures
        sorted(strs(r@)),
        strs(r@).to_set() == strs(items@).to_set(),
{
    let mut r: Vec<String> = Vec::new();
    let mut i: usize = 0;
    while i < items.len()
        invariant
            i <= items@.len(),
            sorted(strs(r@)),
            strs(r@).to_set() == strs(items@.take(i as int)).to_set(),
        decreases items.len() - i,
    {
        set_insert(&mut r, items[i].clone());
        proof {
            assert(strs(items@.take(i + 1)) =~= strs(items@.take(i as int)).push(items@[i as int]@));
            strs(items@.take(i as int)).lemma_push_to_set_commute(items@[i as int]@);
        }
        i = i + 1;
    }
    assert(items@.take(items@.len() as int) =~= items@);
    r
}

/// The order of `std::path::Component`'s variants.
pub open spec fn comp_rank(c: Comp) -> int {
    match c {
        Comp::Root => 1,
        Comp::Cur => 2,
        Comp::Parent => 3,
        Comp::Normal(_) => 4,
    }
}

/// One path component before another: by variant, then by name.
pub open spec fn comp_lt(x: Comp, y: Comp) -> bool {
    comp_rank(x) < comp_rank(y) || match (x, y) {
        (Comp::Normal(a), Comp::Normal(b)) => lt(a, b),
        _ => false,
    }
}

/// Lexicographic order on component sequences (`Path`'s `Ord`).
pub open spec fn comps_lt(a: Seq<Comp>, b: Seq<Comp>) -> bool
    decreases a.len(),
{
    if a.len() == 0 {
        b.len() > 0
    } else if b.len() == 0 {
        false
    } else if a[0] != b[0] {
        comp_lt(a[0], b[0])
    } else {
        comps_lt(a.drop_first(), b.drop_first())
    }
}

/// Path `a` sorts before path `b`, component by component.
pub open spec fn path_lt(a: Seq<char>, b: Seq<char>) -> bool {
    comps_lt(components(a), components(b))
}

proof fn lemma_comp_lt(x: Comp, y: Comp, z: Comp)
    ensures
        !comp_lt(x, x),
        x != y ==> comp_lt(x, y) || comp_lt(y, x),
        !(comp_lt(x, y) && comp_lt(y, x)),
        comp_lt(x, y) && comp_lt(y, z) ==> comp_lt(x, z),
{
    match (x, y) {
        (Comp::Normal(a), Comp::Normal(b)) => {
            lemma_lt_total(a, b);
        },
        _ => {},
    }
    match x {
        Comp::Normal(a) => lemma_lt_irrefl(a),
        _ => {},
    }
    match (x, y, z) {
        (Comp::Normal(a), Comp::Normal(b), Comp::Normal(c)) => {
            if lt(a, b) && lt(b, c) {
                lemma_lt_trans(a, b, c);
            }
        },
        _ => {},
    }
}

/// `comps_lt` is a strict total order.
pub proof fn lemma_comps_lt(a: Seq<Comp>, b: Seq<Comp>, c: Seq<Comp>)
    ensures
        !comps_lt(a, a),
        a != b ==> comps_lt(a, b) || comps_lt(b, a),
        !(comps_lt(a, b) && comps_lt(b, a)),
        comps_lt(a, b) && comps_lt(b, c) ==> comps_lt(a, c),
    decreases a.len(),
{
    if a.len() > 0 {
        lemma_comp_lt(a[0], a[0], a[0]);
        lemma_comps_lt(a.drop_first(), a.drop_first(), a.drop_first());
        if b.len() > 0 {
            lemma_comp_lt(a[0], b[0], a[0]);
            if c.len() > 0 {
                lemma_comp_lt(a[0], b[0], c[0]);
                lemma_comp_lt(b[0], c[0], a[0]);
                lemma_comp_lt(c[0], a[0], b[0]);
            }
            lemma_comps_lt(a.drop_first(), b.drop_first(), if c.len() > 0 { c.drop_first() } else { c });
            if a != b && a[0] == b[0] && a.drop_first() == b.drop_first() {
                assert(a =~= seq![a[0]] + a.drop_first());
                assert(b =~= seq![b[0]] + b.drop_first());
            }
        }
    } else if b.len() == 0 {
        assert(a =~= b);
    }
}

fn comp_before(x: &PathComp, y: &PathComp) -> (r: bool)
    ensures
        r == comp_lt(x@, y@),
{
    match (x, y) {
        (PathComp::Normal(a), PathComp::Normal(b)) => chars_lt(a, b),
        _ => {
            let rx: u8 = match x {
                PathComp::Root => 1,
                PathComp::Cur => 2,
                PathComp::Parent => 3,
                PathComp::Normal(_) => 4,
            };
            let ry: u8 = match y {
                PathComp::Root => 1,
                PathComp::Cur => 2,
                PathComp::Parent => 3,
                PathComp::Normal(_) => 4,
            };
            rx < ry
        },
    }
}

fn comp_same(x: &PathComp, y: &PathComp) -> (r: bool)
    ensures
        r == (x@ == y@),
{
    match (x, y) {
        (PathComp::Root, PathComp::Root) => true,
        (PathComp::Cur, PathComp::Cur) => true,
        (PathComp::Parent, PathComp::Parent) => true,
        (PathComp::Normal(a), PathComp::Normal(b)) => crate::text::seq_eq(a, b),
        _ => false,
    }
}

/// Whether path `a` sorts before path `b` (`Path`'s order).
pub fn path_before(a: &str, b: &str) -> (r: bool)
    ensures
        r == path_lt(a@, b@),
{
    let ac = chars_of(a);
    let bc = chars_of(b);
    let x = path_components(&ac);
    let y = path_components(&bc);
    let ghost xv = comp_views(x@);
    let ghost yv = comp_views(y@);
    let mut i: usize = 0;
    assert(xv.skip(0) =~= xv && yv.skip(0) =~= yv);
    while i < x.len() && i < y.len()
        invariant
            xv == comp_views(x@),
            yv == comp_views(y@),
            xv == components(a@),
            yv == components(b@),
            i <= x@.len(),
            i <= y@.len(),
            comps_lt(xv, yv) == comps_lt(xv.skip(i as int), yv.skip(i as int)),
        decreases x.len() - i,
    {
        assert(xv.skip(i as int)[0] == x@[i as int]@);
        assert(yv.skip(i as int)[0] == y@[i as int]@);
        if !comp_same(&x[i], &y[i]) {
            return comp_before(&x[i], &y[i]);
        }
        assert(xv.skip(i as int).drop_first() =~= xv.skip(i + 1));
        assert(yv.skip(i as int).drop_first() =~= yv.skip(i + 1));
        i = i + 1;
    }
    i < y.len()
}

/// Ordered by path (non-decreasing; equal paths may repeat).
pub open spec fn path_sorted(s: Seq<Seq<char>>) -> bool {
    forall|i: int, j: int| 0 <= i < j < s.len() ==> !path_lt(#[trigger] s[j], #[trigger] s[i])
}

/// Inserts `x` after every path not after it, keeping `v` ordered.
pub fn path_insert(v: &mut Vec<String>, x: String)
    requires
        path_sorted(strs(old(v)@)),
    ensures
        path_sorted(strs(final(v)@)),
        strs(final(v)@).to_multiset() == strs(old(v)@).to_multiset().insert(x@),
{
    let mut i: usize = 0;
    loop
        invariant
            i <= v@.len(),
            path_sorted(strs(v@)),
            forall|k: int| 0 <= k < i ==> !path_lt(x@, #[trigger] strs(v@)[k]),
        ensures
            i <= v@.len(),
            forall|k: int| 0 <= k < i ==> !path_lt(x@, #[trigger] strs(v@)[k]),
            i < v@.len() ==> path_lt(x@, strs(v@)[i as int]),
        decreases v.len() - i,
    {
        if i >= v.len() {
            break;
        }
        assert(strs(v@)[i as int] == v@[i as int]@);
        if path_before(x.as_str(), v[i].as_str()) {
            break;
        }
        i = i + 1;
    }
    let ghost old_s = strs(v@);
    let ghost xv = x@;
    proof {
        if i < old_s.len() {
            assert(old_s[i as int] == v@[i as int]@);
        }
    }
    let ghost gt = i < old_s.len() && path_lt(xv, old_s[i as int]);
    assert(i < old_s.len() ==> gt);
    v.insert(i, x);
    let ghost new_s = strs(v@);
    assert(new_s =~= old_s.insert(i as int, xv));
    proof {
        vstd::seq_lib::to_multiset_insert(old_s, i as int, xv);
        assert forall|p: int, q: int| 0 <= p < q < new_s.len() implies !path_lt(#[trigger] new_s[q], #[trigger] new_s[p]) by {
            let cx = components(xv);
            if q < i {
            } else if q == i {
                assert(new_s[p] == old_s[p]);
            } else if p < i {
                assert(new_s[p] == old_s[p] && new_s[q] == old_s[q - 1]);
                if path_lt(old_s[q - 1], old_s[p]) {
                    // x is after p's entry, and q's entry is not before i's
                    assert(!path_lt(xv, old_s[p]));
                    assert(path_lt(xv, old_s[i as int]));
                    lemma_comps_lt(components(old_s[q - 1]), components(old_s[p]), cx);
                    lemma_comps_lt(cx, components(old_s[i as int]), components(old_s[q - 1]));
                    lemma_comps_lt(components(old_s[q - 1]), cx, components(old_s[i as int]));
                    if q - 1 > i {
                        assert(!path_lt(old_s[q - 1], old_s[i as int]));
                    }
                    lemma_comps_lt(cx, components(old_s[p]), components(old_s[q - 1]));
                }
            } else if p == i {
                assert(new_s[q] == old_s[q - 1]);
                assert(path_lt(xv, old_s[i as int]));
                if path_lt(old_s[q - 1], xv) {
                    lemma_comps_lt(components(old_s[q - 1]), cx, components(old_s[i as int]));
                    if q - 1 > i {
                        assert(!path_lt(old_s[q - 1], old_s[i as int]));
                    } else {
                        lemma_comps_lt(components(old_s[i as int]), components(old_s[i as int]), components(old_s[i as int]));
                    }
                }
            } else {
                assert(new_s[p] == old_s[p - 1] && new_s[q] == old_s[q - 1]);
            }
        }
    }
}

/// What the first `q + 1` elements hold: those of the first `q`, and the
/// `q`-th.
pub proof fn lemma_take_push_contains<A>(s: Seq<A>, q: int, m: A)
    requires
        0 <= q < s.len(),
    ensures
        s.take(q + 1).contains(m) <==> s.take(q).contains(m) || s[q] == m,
{
    assert(s.take(q + 1) =~= s.take(q).push(s[q]));
    if s.take(q + 1).contains(m) && !s.take(q).contains(m) {
        let t = choose|t: int| #![trigger s.take(q + 1)[t]] 0 <= t < q + 1 && s.take(q + 1)[t] == m;
        if t < q {
            assert(s.take(q)[t] == m);
        }
    }
    if s.take(q).contains(m) {
        let t = choose|t: int| #![trigger s.take(q)[t]] 0 <= t < q && s.take(q)[t] == m;
        assert(s.take(q + 1)[t] == m);
    }
    if s[q] == m {
        assert(s.take(q + 1)[q] == m);
    }
}

/// Membership after inserting into a sorted set.
pub proof fn lemma_set_insert_contains(before: Seq<Seq<char>>, after: Seq<Seq<char>>, x: Seq<char>, m: Seq<char>)
    requires
        after.to_set() == before.to_set().insert(x),
    ensures
        after.contains(m) <==> before.contains(m) || m == x,
{
    assert(after.contains(m) <==> after.to_set().contains(m));
    assert(before.contains(m) <==> before.to_set().contains(m));
}

/// No element occurs twice.
pub open spec fn distinct(s: Seq<Seq<char>>) -> bool {
    forall|i: int, j: int| 0 <= i < j < s.len() ==> #[trigger] s[i] != #[trigger] s[j]
}

/// Whether `v` holds `x`.
pub fn holds(v: &Vec<String>, x: &str) -> (r: bool)
    ensures
        r == strs(v@).contains(x@),
{
    let mut i: usize = 0;
    while i < v.len()
        invariant
            i <= v@.len(),
            forall|j: int| 0 <= j < i ==> strs(v@)[j] != x@,
        decreases v.len() - i,
    {
        assert(strs(v@)[i as int] == v@[i as int]@);
        if crate::text::str_eq(v[i].as_str(), x) {
            return true;
        }
        i = i + 1;
    }
    false
}

/// Inserts `x` into the path-ordered list `v` unless it is already there.
pub fn path_set_insert(v: &mut Vec<String>, x: String)
    requires
        path_sorted(strs(old(v)@)),
        distinct(strs(old(v)@)),
    ensures
        path_sorted(strs(final(v)@)),
        distinct(strs(final(v)@)),
        strs(final(v)@).to_set() == strs(old(v)@).to_set().insert(x@),
{
    broadcast use vstd::seq_lib::group_to_multiset_ensures;
    let ghost before = strs(v@);
    if holds(v, x.as_str()) {
        assert(before.to_set().insert(x@) =~= before.to_set());
        return;
    }
    let ghost xv = x@;
    path_insert(v, x);
    let ghost after = strs(v@);
    proof {
        assert forall|y: Seq<char>| after.contains(y) <==> before.contains(y) || y == xv by {
            assert(after.to_multiset().count(y) == before.to_multiset().insert(xv).count(y));
        }
        assert(after.to_set() =~= before.to_set().insert(xv));
        assert forall|i: int, j: int| 0 <= i < j < after.len() implies #[trigger] after[i] != #[trigger] after[j] by {
            if after[i] == after[j] {
                let y = after[i];
                lemma_dup_count(after, i, j);
                lemma_distinct_count(before, y);
                if y == xv {
                    assert(before.to_multiset().count(y) == 0);
                }
            }
        }
    }
}

/// An element that occurs at two positions is counted at least twice.
pub proof fn lemma_dup_count(s: Seq<Seq<char>>, i: int, j: int)
    requires
        0 <= i < j < s.len(),
        s[i] == s[j],
    ensures
        s.to_multiset().count(s[i]) >= 2,
{
    broadcast use vstd::seq_lib::group_to_multiset_ensures, vstd::multiset::group_multiset_axioms;
    let k = s.remove(j);
    assert(k[i] == s[i]);
    assert(k.contains(s[i]));
    assert(s.contains(s[i]));
    assert(k.to_multiset() =~= s.to_multiset().remove(s[j]));
    assert(k.to_multiset().count(s[i]) > 0);
    assert(s.to_multiset().count(s[i]) > 0);
}

/// In a sequence without repeats every element is counted at most once.
pub proof fn lemma_distinct_count(s: Seq<Seq<char>>, y: Seq<char>)
    requires
        distinct(s),
    ensures
        s.to_multiset().count(y) <= 1,
        !s.contains(y) ==> s.to_multiset().count(y) == 0,
    decreases s.len(),
{
    broadcast use vstd::seq_lib::group_to_multiset_ensures;
    if s.len() == 0 {
        assert(!s.contains(y));
    } else {
        let t = s.drop_last();
        assert(distinct(t)) by {
            assert forall|i: int, j: int| 0 <= i < j < t.len() implies #[trigger] t[i] != #[trigger] t[j] by {
                assert(t[i] == s[i] && t[j] == s[j]);
            }
        }
        lemma_distinct_count(t, y);
        assert(t.push(s.last()) =~= s);
        if y == s.last() {
            if t.contains(y) {
                let p = choose|p: int| 0 <= p < t.len() && t[p] == y;
                assert(s[p] == s[s.len() - 1]);
            }
        }
        if !s.contains(y) {
            if t.contains(y) {
                let p = choose|p: int| 0 <= p < t.len() && t[p] == y;
                assert(s[p] == y);
            }
            assert(y != s.last()) by {
                if y == s.last() {
                    assert(s[s.len() - 1] == y);
                }
            }
        }
    }
}

} // verus!
