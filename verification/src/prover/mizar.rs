//! The Mizar backend. Mizar has no `sorry`/`admit` escape hatch and a
//! normal article cannot introduce axioms, so the verdict is binary and the
//! lint pack is empty: an empty `.err` file after a clean `verifier` run is
//! proven, anything else is an error. Without the MML data directory
//! (`MIZFILES`) no honest check is possible and the tool counts as
//! unavailable. Imports come from the `environ` block's directives,
//! lower-cased to the on-disk article stems.

use vstd::prelude::*;
use super::{str_views, tail_spec, Backend, BackendKind, Outcome, Verdict, TAIL_LINES};
use crate::graph::{join, join_chars, module_name_spec, text_at, SourceFile, SourceTree};
use crate::path::{module_file_spec, path_join};
use crate::lint::{Rule, RuleConfig};
use crate::order::strs;
use crate::text::{alnum, before, before_vec, chars_of, first_pos, is_alphanumeric, lemma_first_pos, lines, position_of, seq_eq, split_lines, split_words, string_of, trim, trim_vec, views, words};

verus! {

/// The Mizar proof checker.
#[derive(Clone, Copy, Debug)]
pub struct Mizar;

/// The `environ` directives that reference other articles.
pub open spec fn environ_directives() -> Seq<Seq<char>> {
    seq!["vocabularies"@, "notations"@, "constructors"@, "registrations"@, "definitions"@, "expansions"@, "equalities"@, "theorems"@, "schemes"@, "requirements"@]
}

/// Each line cut at its `::` comment.
pub open spec fn decomment(ls: Seq<Seq<char>>) -> Seq<Seq<char>> {
    ls.map_values(|l: Seq<char>| before(l, "::"@))
}

/// The tokens of a Mizar text with `::` line comments removed.
pub open spec fn mizar_tokens(contents: Seq<char>) -> Seq<Seq<char>> {
    words(join(decomment(lines(contents)), seq!['\n']))
}

/// ASCII upper-case letters lowered, everything else kept.
pub open spec fn lower(c: char) -> char {
    if 'A' <= c && c <= 'Z' { (((c as u8) + 32) as u8) as char } else { c }
}

/// The letters, digits and underscores of `t`, lower-cased.
pub open spec fn article_name(t: Seq<char>) -> Seq<char>
    decreases t.len(),
{
    if t.len() == 0 {
        Seq::empty()
    } else {
        let r = article_name(t.drop_last());
        if alnum(t.last()) || t.last() == '_' { r.push(lower(t.last())) } else { r }
    }
}

/// The article names among tokens `lo..k`: directive keywords skipped,
/// empty names skipped, each name once.
pub open spec fn env_names(ts: Seq<Seq<char>>, lo: int, k: int) -> Seq<Seq<char>>
    decreases k - lo,
{
    if k <= lo {
        Seq::empty()
    } else {
        let r = env_names(ts, lo, k - 1);
        let t = ts[k - 1];
        if environ_directives().contains(t) {
            r
        } else {
            let n = article_name(t);
            if n.len() > 0 && !r.contains(n) { r.push(n) } else { r }
        }
    }
}

/// Where the `environ` block that starts at token `env` ends: at the first
/// `begin` after it, or at the end of the text.
pub open spec fn environ_end(ts: Seq<Seq<char>>, env: int) -> int {
    let b = first_pos(ts.skip(env + 1), "begin"@);
    if b < 0 { ts.len() as int } else { env + 1 + b }
}

/// The articles a Mizar text's `environ` block references.
pub open spec fn environ_imports(contents: Seq<char>) -> Seq<Seq<char>> {
    let ts = mizar_tokens(contents);
    let e = first_pos(ts, "environ"@);
    if e < 0 { Seq::empty() } else { env_names(ts, e + 1, environ_end(ts, e)) }
}

fn lower_char(c: char) -> (r: char)
    ensures
        r == lower(c),
{
    if 'A' <= c && c <= 'Z' {
        ((c as u8) + 32) as char
    } else {
        c
    }
}

fn article_name_chars(t: &[char]) -> (r: Vec<char>)
    ensures
        r@ == article_name(t@),
{
    let mut out: Vec<char> = Vec::new();
    let mut i: usize = 0;
    while i < t.len()
        invariant
            i <= t@.len(),
            out@ == article_name(t@.take(i as int)),
        decreases t.len() - i,
    {
        proof {
            assert(t@.take(i + 1).drop_last() =~= t@.take(i as int));
            assert(t@.take(i + 1).last() == t@[i as int]);
        }
        let c = t[i];
        if is_alphanumeric(c) || c == '_' {
            out.push(lower_char(c));
        }
        i = i + 1;
    }
    assert(t@.take(t@.len() as int) =~= t@);
    out
}

fn holds_chars(v: &Vec<Vec<char>>, x: &[char]) -> (r: bool)
    ensures
        r == views(v@).contains(x@),
{
    let mut i: usize = 0;
    while i < v.len()
        invariant
            i <= v@.len(),
            forall|j: int| 0 <= j < i ==> views(v@)[j] != x@,
        decreases v.len() - i,
    {
        assert(views(v@)[i as int] == v@[i as int]@);
        if seq_eq(&v[i], x) {
            return true;
        }
        i = i + 1;
    }
    false
}

fn decommented_tokens(contents: &str) -> (r: Vec<Vec<char>>)
    ensures
        views(r@) == mizar_tokens(contents@),
{
    let cs = chars_of(contents);
    let ls = split_lines(&cs);
    let marker = chars_of("::");
    let mut kept: Vec<Vec<char>> = Vec::new();
    let mut i: usize = 0;
    while i < ls.len()
        invariant
            i <= ls@.len(),
            views(ls@) == lines(contents@),
            marker@ == "::"@,
            views(kept@) == decomment(views(ls@).take(i as int)),
        decreases ls.len() - i,
    {
        let b = before_vec(&ls[i], &marker);
        let ghost prev = views(kept@);
        kept.push(b);
        proof {
            assert(views(ls@)[i as int] == ls@[i as int]@);
            assert(views(ls@).take(i + 1) =~= views(ls@).take(i as int).push(ls@[i as int]@));
            assert(views(kept@) =~= prev.push(b@));
            assert(decomment(views(ls@).take(i + 1)) =~= decomment(views(ls@).take(i as int)).push(before(ls@[i as int]@, "::"@)));
        }
        i = i + 1;
    }
    assert(views(ls@).take(ls@.len() as int) =~= views(ls@));
    let nl = vec!['\n'];
    assert(nl@ =~= seq!['\n']);
    let joined = join_chars(&kept, &nl);
    split_words(&joined)
}

/// Extracts the articles referenced by a Mizar `environ` block's
/// directives, lower-cased to match on-disk stems, each once; `::` line
/// comments are stripped and only the region between `environ` and the
/// body's `begin` is scanned.
pub fn parse_environ_imports(contents: &str) -> (r: Vec<String>)
    ensures
        strs(r@) == environ_imports(contents@),
{
    let ts = decommented_tokens(contents);
    let ghost tv = views(ts@);
    proof {
        lemma_first_pos(tv, "environ"@);
    }
    let env = match position_of(&ts, &chars_of("environ")) {
        None => {
            let r: Vec<String> = Vec::new();
            assert(strs(r@) =~= Seq::<Seq<char>>::empty());
            return r;
        },
        Some(e) => e,
    };
    let n = ts.len();
    assert(env < n);
    let end = find_begin(&ts, env);
    collect_env_names(&ts, env + 1, end)
}

fn find_begin(ts: &Vec<Vec<char>>, env: usize) -> (end: usize)
    requires
        env < ts@.len(),
    ensures
        end as int == environ_end(views(ts@), env as int),
        env + 1 <= end <= ts@.len(),
{
    let ghost tv = views(ts@);
    let begin = chars_of("begin");
    let n = ts.len();
    assert(env < n);
    let mut end = env + 1;
    loop
        invariant
            env + 1 <= end <= ts@.len(),
            tv == views(ts@),
            begin@ == "begin"@,
            forall|k: int| env + 1 <= k < end ==> tv[k] != "begin"@,
        ensures
            env + 1 <= end <= ts@.len(),
            forall|k: int| env + 1 <= k < end ==> tv[k] != "begin"@,
            end < ts@.len() ==> tv[end as int] == "begin"@,
        decreases ts.len() - end,
    {
        if end >= ts.len() {
            break;
        }
        assert(tv[end as int] == ts@[end as int]@);
        if seq_eq(&ts[end], &begin) {
            break;
        }
        end = end + 1;
    }
    proof {
        let sk = tv.skip(env + 1);
        lemma_first_pos(sk, "begin"@);
        let b = first_pos(sk, "begin"@);
        if end < tv.len() {
            assert(sk[end - env - 1] == "begin"@);
            if b >= 0 && b < end - env - 1 {
                assert(sk[b] == tv[env + 1 + b]);
            }
            if b > end - env - 1 {
                assert(sk[end - env - 1] != "begin"@);
            }
            assert(b == end - env - 1);
        } else {
            if b >= 0 {
                assert(sk[b] == tv[env + 1 + b]);
            }
        }
    }
    end
}

fn collect_env_names(ts: &Vec<Vec<char>>, lo: usize, end: usize) -> (r: Vec<String>)
    requires
        lo <= end <= ts@.len(),
    ensures
        strs(r@) == env_names(views(ts@), lo as int, end as int),
{
    let ghost tv = views(ts@);
    let dirs = vec![chars_of("vocabularies"), chars_of("notations"), chars_of("constructors"), chars_of("registrations"), chars_of("definitions"), chars_of("expansions"), chars_of("equalities"), chars_of("theorems"), chars_of("schemes"), chars_of("requirements")];
    assert(views(dirs@) =~= environ_directives());
    let mut names: Vec<Vec<char>> = Vec::new();
    let mut k = lo;
    assert(views(names@) =~= env_names(tv, lo as int, k as int));
    while k < end
        invariant
            lo <= k <= end <= ts@.len(),
            tv == views(ts@),
            views(dirs@) == environ_directives(),
            views(names@) == env_names(tv, lo as int, k as int),
        decreases end - k,
    {
        assert(tv[k as int] == ts@[k as int]@);
        let t = &ts[k];
        if !holds_chars(&dirs, t) {
            let nm = article_name_chars(t);
            if nm.len() > 0 && !holds_chars(&names, &nm) {
                let ghost prev = views(names@);
                names.push(nm);
                assert(views(names@) =~= prev.push(nm@));
            }
        }
        k = k + 1;
    }
    let mut out: Vec<String> = Vec::new();
    let mut i: usize = 0;
    while i < names.len()
        invariant
            i <= names@.len(),
            strs(out@) == views(names@).take(i as int),
        decreases names.len() - i,
    {
        let ghost prev = strs(out@);
        out.push(string_of(&names[i]));
        assert(strs(out@) =~= prev.push(names@[i as int]@));
        assert(views(names@).take(i + 1) =~= views(names@).take(i as int).push(names@[i as int]@));
        i = i + 1;
    }
    assert(views(names@).take(names@.len() as int) =~= views(names@));
    out
}

/// The file of article `m` in `root`.
pub open spec fn article_file(root: Seq<char>, m: Seq<char>) -> Seq<char> {
    path_join(root, m + ".miz"@)
}

/// Article `m` has a readable file in `files` below `root`.
pub open spec fn readable_article(files: Seq<SourceFile>, root: Seq<char>, m: Seq<char>) -> bool {
    text_at(files, article_file(root, m)) matches Some(Some(_))
}

/// The articles that article `m`'s own `environ` block references (none
/// when it has no readable file).
pub open spec fn article_deps(files: Seq<SourceFile>, root: Seq<char>, m: Seq<char>) -> Seq<Seq<char>> {
    match text_at(files, article_file(root, m)) {
        Some(Some(t)) => environ_imports(t),
        _ => Seq::empty(),
    }
}

/// Every article that an article of `order` references is in `seen`.
pub open spec fn deps_seen(files: Seq<SourceFile>, root: Seq<char>, order: Seq<Seq<char>>, seen: Seq<Seq<char>>) -> bool {
    forall|k: int, d: Seq<char>| 0 <= k < order.len() && #[trigger] article_deps(files, root, order[k]).contains(d)
        ==> seen.contains(d)
}

/// Each article of `p` references the next one.
pub open spec fn dep_chain(files: Seq<SourceFile>, root: Seq<char>, p: Seq<Seq<char>>) -> bool {
    forall|i: int| 0 <= i < p.len() - 1 ==> #[trigger] article_deps(files, root, p[i]).contains(p[i + 1])
}

/// Article `b` is reached from article `a` by a chain of references (every
/// article reaches itself).
pub open spec fn refers_to(files: Seq<SourceFile>, root: Seq<char>, a: Seq<char>, b: Seq<char>) -> bool {
    exists|p: Seq<Seq<char>>|
        #![trigger dep_chain(files, root, p)]
        p.len() >= 1 && p[0] == a && p[p.len() - 1] == b && dep_chain(files, root, p)
}

/// Article `x` is reached from one of `starts` by a chain of references.
pub open spec fn reached_from(files: Seq<SourceFile>, root: Seq<char>, starts: Seq<Seq<char>>, x: Seq<char>) -> bool {
    exists|k: int| 0 <= k < starts.len() && #[trigger] refers_to(files, root, starts[k], x)
}

/// Each in-tree article that an article of `order` references comes before
/// it in `order`, unless it leads back to that article (an import cycle).
pub open spec fn deps_first(files: Seq<SourceFile>, root: Seq<char>, order: Seq<Seq<char>>) -> bool {
    forall|k: int, d: Seq<char>|
        0 <= k < order.len() && #[trigger] article_deps(files, root, order[k]).contains(d) && readable_article(files, root, d)
            ==> (exists|j: int| 0 <= j < k && order[j] == d) || refers_to(files, root, d, order[k])
}

proof fn lemma_chain_push(files: Seq<SourceFile>, root: Seq<char>, p: Seq<Seq<char>>, y: Seq<char>)
    requires
        dep_chain(files, root, p),
        p.len() >= 1,
        article_deps(files, root, p[p.len() - 1]).contains(y),
    ensures
        dep_chain(files, root, p.push(y)),
{
    let q = p.push(y);
    assert forall|i: int| 0 <= i < q.len() - 1 implies #[trigger] article_deps(files, root, q[i]).contains(q[i + 1]) by {
        if i < p.len() - 1 {
            assert(q[i] == p[i] && q[i + 1] == p[i + 1]);
            assert(article_deps(files, root, p[i]).contains(p[i + 1]));
        } else {
            assert(q[i] == p[p.len() - 1] && q[i + 1] == y);
        }
    }
}

proof fn lemma_chain_suffix(files: Seq<SourceFile>, root: Seq<char>, p: Seq<Seq<char>>, i: int)
    requires
        dep_chain(files, root, p),
        0 <= i < p.len(),
    ensures
        refers_to(files, root, p[i], p[p.len() - 1]),
{
    let q = p.subrange(i, p.len() as int);
    assert forall|k: int| 0 <= k < q.len() - 1 implies #[trigger] article_deps(files, root, q[k]).contains(q[k + 1]) by {
        assert(q[k] == p[i + k] && q[k + 1] == p[i + k + 1]);
        assert(article_deps(files, root, p[i + k]).contains(p[i + k + 1]));
    }
    assert(dep_chain(files, root, q));
    assert(q[0] == p[i] && q[q.len() - 1] == p[p.len() - 1]);
}

/// Appending `m`, whose in-tree references are all listed already or on the
/// chain `stack` that leads to `m`, keeps dependencies first.
proof fn lemma_deps_first_push(files: Seq<SourceFile>, root: Seq<char>, o: Seq<Seq<char>>, m: Seq<char>, stack: Seq<Seq<char>>)
    requires
        deps_first(files, root, o),
        dep_chain(files, root, stack.push(m)),
        forall|d: Seq<char>| #[trigger] article_deps(files, root, m).contains(d) && readable_article(files, root, d)
            ==> o.contains(d) || stack.push(m).contains(d),
    ensures
        deps_first(files, root, o.push(m)),
{
    let q = o.push(m);
    let c = stack.push(m);
    assert forall|k: int, d: Seq<char>|
        0 <= k < q.len() && #[trigger] article_deps(files, root, q[k]).contains(d) && readable_article(files, root, d)
            implies (exists|j: int| 0 <= j < k && q[j] == d) || refers_to(files, root, d, q[k]) by {
        if k < o.len() {
            assert(q[k] == o[k]);
            if exists|j: int| 0 <= j < k && o[j] == d {
                let j = choose|j: int| 0 <= j < k && o[j] == d;
                assert(q[j] == d);
            }
        } else {
            assert(q[k] == m);
            if o.contains(d) {
                let j = choose|j: int| 0 <= j < o.len() && o[j] == d;
                assert(q[j] == d);
            } else {
                assert(c.contains(d));
                let i = choose|i: int| 0 <= i < c.len() && c[i] == d;
                lemma_chain_suffix(files, root, c, i);
                assert(c[c.len() - 1] == m);
            }
        }
    }
}

/// Every name that a readable file of `files` references, plus `direct`.
pub open spec fn article_universe(direct: Seq<Seq<char>>, files: Seq<SourceFile>) -> Set<Seq<char>>
    decreases files.len(),
{
    if files.len() == 0 {
        direct.to_set()
    } else {
        let rest = article_universe(direct, files.drop_last());
        match files.last().text {
            Some(t) => rest + environ_imports(t@).to_set(),
            None => rest,
        }
    }
}

proof fn lemma_universe(direct: Seq<Seq<char>>, files: Seq<SourceFile>)
    ensures
        article_universe(direct, files).finite(),
        direct.to_set().subset_of(article_universe(direct, files)),
        forall|i: int| 0 <= i < files.len() && (#[trigger] files[i]).text is Some ==>
            environ_imports(files[i].text->0@).to_set().subset_of(article_universe(direct, files)),
    decreases files.len(),
{
    vstd::seq_lib::seq_to_set_is_finite(direct);
    if files.len() > 0 {
        lemma_universe(direct, files.drop_last());
        match files.last().text {
            Some(t) => {
                vstd::seq_lib::seq_to_set_is_finite(environ_imports(t@));
            },
            None => {},
        }
        assert forall|i: int| 0 <= i < files.len() && (#[trigger] files[i]).text is Some implies
            environ_imports(files[i].text->0@).to_set().subset_of(article_universe(direct, files)) by {
            if i < files.len() - 1 {
                assert(files[i] == files.drop_last()[i]);
            }
        }
    }
}

fn append_suffix(m: &str, suffix: &str) -> (r: String)
    ensures
        r@ == m@ + suffix@,
{
    let mut out = chars_of(m);
    let sx = chars_of(suffix);
    let ghost start = out@;
    let mut i: usize = 0;
    while i < sx.len()
        invariant
            i <= sx@.len(),
            out@ == start + sx@.take(i as int),
        decreases sx.len() - i,
    {
        out.push(sx[i]);
        i = i + 1;
        assert(out@ =~= start + sx@.take(i as int));
    }
    assert(sx@.take(sx@.len() as int) =~= sx@);
    string_of(&out)
}

/// Depth-first visit of article `m` from the state `(visited, order)`,
/// within the article universe `u`: an article already visited is
/// skipped; otherwise it is marked visited and, when it has a readable
/// file, the articles it references are visited in order and it is listed
/// after them. (The length guards only bound the recursion: they hold for
/// every visit that starts inside `u`.)
pub open spec fn dfs_visit(
    files: Seq<SourceFile>,
    root: Seq<char>,
    u: Set<Seq<char>>,
    visited: Seq<Seq<char>>,
    order: Seq<Seq<char>>,
    m: Seq<char>,
) -> (Seq<Seq<char>>, Seq<Seq<char>>)
    decreases u.len() - visited.len(), 0nat,
{
    if visited.contains(m) || visited.len() >= u.len() {
        (visited, order)
    } else if !readable_article(files, root, m) {
        (visited.push(m), order)
    } else {
        let (v, o) = dfs_list(files, root, u, visited.push(m), order, article_deps(files, root, m));
        (v, o.push(m))
    }
}

/// Depth-first visits of each of `ms` in turn from `(visited, order)`.
pub open spec fn dfs_list(
    files: Seq<SourceFile>,
    root: Seq<char>,
    u: Set<Seq<char>>,
    visited: Seq<Seq<char>>,
    order: Seq<Seq<char>>,
    ms: Seq<Seq<char>>,
) -> (Seq<Seq<char>>, Seq<Seq<char>>)
    decreases u.len() - visited.len(), ms.len() + 1,
{
    if ms.len() == 0 {
        (visited, order)
    } else {
        let (v, o) = dfs_list(files, root, u, visited, order, ms.drop_last());
        if visited.len() <= v.len() <= u.len() {
            dfs_visit(files, root, u, v, o, ms.last())
        } else {
            (v, o)
        }
    }
}

/// The in-tree articles reached from `direct`, in the order a depth-first
/// walk from each of them in turn lists them.
pub open spec fn mizar_dfs_order(files: Seq<SourceFile>, root: Seq<char>, direct: Seq<Seq<char>>) -> Seq<Seq<char>> {
    dfs_list(files, root, article_universe(direct, files), Seq::empty(), Seq::empty(), direct).1
}

#[verifier::rlimit(60)]
#[verifier::spinoff_prover]
fn visit_dep(
    m: &str,
    root: &str,
    tree: &SourceTree,
    visited: &mut Vec<String>,
    order: &mut Vec<String>,
    Ghost(u): Ghost<Set<Seq<char>>>,
    Ghost(stack): Ghost<Seq<Seq<char>>>,
)
    requires
        u.finite(),
        u.contains(m@),
        forall|i: int| 0 <= i < tree.files@.len() && (#[trigger] tree.files@[i]).text is Some ==>
            environ_imports(tree.files@[i].text->0@).to_set().subset_of(u),
        strs(old(visited)@).no_duplicates(),
        strs(old(visited)@).to_set().subset_of(u),
        strs(old(order)@).no_duplicates(),
        strs(old(order)@).to_set().subset_of(strs(old(visited)@).to_set()),
        forall|k: int| 0 <= k < old(order)@.len() ==> text_at(tree.files@, article_file(root@, #[trigger] strs(old(order)@)[k])) matches Some(Some(_)),
        deps_seen(tree.files@, root@, strs(old(order)@), strs(old(visited)@)),
        dep_chain(tree.files@, root@, stack.push(m@)),
        forall|x: Seq<char>| #[trigger] stack.contains(x) ==> readable_article(tree.files@, root@, x)
            && strs(old(visited)@).contains(x) && !strs(old(order)@).contains(x),
        forall|x: Seq<char>| readable_article(tree.files@, root@, x) && #[trigger] strs(old(visited)@).contains(x)
            && !strs(old(order)@).contains(x) ==> stack.contains(x),
        deps_first(tree.files@, root@, strs(old(order)@)),
    ensures
        deps_seen(tree.files@, root@, strs(final(order)@), strs(final(visited)@)),
        forall|x: Seq<char>| #[trigger] stack.contains(x) ==> readable_article(tree.files@, root@, x)
            && strs(final(visited)@).contains(x) && !strs(final(order)@).contains(x),
        forall|x: Seq<char>| readable_article(tree.files@, root@, x) && #[trigger] strs(final(visited)@).contains(x)
            && !strs(final(order)@).contains(x) ==> stack.contains(x),
        deps_first(tree.files@, root@, strs(final(order)@)),
        forall|j: int| old(order)@.len() <= j < final(order)@.len()
            ==> refers_to(tree.files@, root@, stack.push(m@)[0], #[trigger] strs(final(order)@)[j]),
        strs(final(visited)@).no_duplicates(),
        strs(final(visited)@).to_set().subset_of(u),
        final(visited)@.len() >= old(visited)@.len(),
        strs(old(visited)@).to_set().subset_of(strs(final(visited)@).to_set()),
        strs(final(visited)@).to_set().contains(m@),
        strs(final(order)@).no_duplicates(),
        strs(final(order)@).to_set().subset_of(strs(final(visited)@).to_set()),
        forall|k: int| 0 <= k < final(order)@.len() ==> text_at(tree.files@, article_file(root@, #[trigger] strs(final(order)@)[k])) matches Some(Some(_)),
        forall|x: Seq<char>| #[trigger] strs(final(order)@).contains(x) ==> strs(old(order)@).contains(x) || !strs(old(visited)@).contains(x),
        final(order)@.len() >= old(order)@.len(),
        forall|k: int| 0 <= k < old(order)@.len() ==> strs(final(order)@)[k] == strs(old(order)@)[k],
        forall|x: Seq<char>| #[trigger] strs(final(visited)@).contains(x) && !strs(old(visited)@).contains(x)
            && readable_article(tree.files@, root@, x) ==> strs(final(order)@).contains(x),
        (strs(final(visited)@), strs(final(order)@)) == dfs_visit(tree.files@, root@, u, strs(old(visited)@), strs(old(order)@), m@),
    decreases u.len() - old(visited)@.len(),
{
    let ghost o0 = strs(order@);
    proof {
        strs(visited@).unique_seq_to_set();
        vstd::set_lib::lemma_len_subset(strs(visited@).to_set(), u);
    }
    if crate::order::holds(visited, m) {
        return;
    }
    let ghost v0 = strs(visited@);
    assert(!v0.contains(m@));
    assert(v0.len() < u.len()) by {
        v0.unique_seq_to_set();
        assert(v0.to_set().insert(m@).subset_of(u));
        vstd::set_lib::lemma_len_subset(v0.to_set().insert(m@), u);
        assert(!v0.to_set().contains(m@));
    }
    visited.push(String::from_str(m));
    proof {
        assert(strs(visited@) =~= v0.push(m@));
        v0.lemma_push_to_set_commute(m@);
        assert(strs(visited@).no_duplicates()) by {
            assert forall|i: int, j: int| 0 <= i < strs(visited@).len() && 0 <= j < strs(visited@).len() && i != j
                implies strs(visited@)[i] != strs(visited@)[j] by {
                if i < v0.len() && j < v0.len() {
                } else if i == v0.len() {
                    assert(v0[j] != m@) by {
                        assert(v0.contains(v0[j]));
                    }
                } else {
                    assert(v0[i] != m@) by {
                        assert(v0.contains(v0[i]));
                    }
                }
            }
        }
        assert(strs(order@).to_set().subset_of(strs(visited@).to_set()));
        assert(strs(visited@)[v0.len() as int] == m@);
        assert forall|x: Seq<char>| #[trigger] strs(visited@).contains(x) && !v0.contains(x) implies x == m@ by {
            crate::text::lemma_push_contains(v0, m@, x);
        }
        assert forall|k: int, d: Seq<char>| 0 <= k < strs(order@).len()
            && #[trigger] article_deps(tree.files@, root@, strs(order@)[k]).contains(d) implies strs(visited@).contains(d) by {
            assert(v0.contains(d));
            crate::text::lemma_push_contains(v0, m@, d);
        }
        assert(!stack.contains(m@));
        assert forall|x: Seq<char>| #[trigger] stack.contains(x) implies readable_article(tree.files@, root@, x)
            && strs(visited@).contains(x) && !strs(order@).contains(x) by {
            crate::text::lemma_push_contains(v0, m@, x);
        }
        assert forall|x: Seq<char>| readable_article(tree.files@, root@, x) && #[trigger] strs(visited@).contains(x)
            && !strs(order@).contains(x) && x != m@ implies stack.contains(x) by {
            crate::text::lemma_push_contains(v0, m@, x);
        }
    }
    let file_name = append_suffix(m, ".miz");
    let path = crate::path::join_path(root, file_name.as_str());
    assert(path@ == article_file(root@, m@));
    let idx = match tree.find(path.as_str()) {
        None => {
            assert(!readable_article(tree.files@, root@, m@));
            return;
        },
        Some(i) => i,
    };
    proof {
        crate::graph::lemma_file_pos(tree.files@, path@);
    }
    let text = match &tree.files[idx].text {
        None => {
            assert(!readable_article(tree.files@, root@, m@));
            return;
        },
        Some(t) => t,
    };
    let imports = parse_environ_imports(text.as_str());
    assert(environ_imports(text@).to_set().subset_of(u));
    let ghost grown = strs(visited@).to_set();
    assert(!strs(order@).contains(m@)) by {
        if o0.contains(m@) {
            assert(o0.to_set().contains(m@));
            assert(v0.to_set().contains(m@));
        }
    }
    let ghost chain = stack.push(m@);
    proof {
        assert(text_at(tree.files@, path@) == Some(Some(text@)));
        assert(readable_article(tree.files@, root@, m@));
        assert(article_deps(tree.files@, root@, m@) == environ_imports(text@));
        assert forall|x: Seq<char>| #[trigger] chain.contains(x) implies readable_article(tree.files@, root@, x)
            && strs(visited@).contains(x) && !strs(order@).contains(x) by {
            crate::text::lemma_push_contains(stack, m@, x);
        }
        assert forall|x: Seq<char>| readable_article(tree.files@, root@, x) && #[trigger] strs(visited@).contains(x)
            && !strs(order@).contains(x) implies chain.contains(x) by {
            crate::text::lemma_push_contains(stack, m@, x);
        }
    }
    assert(strs(imports@).take(0) =~= Seq::<Seq<char>>::empty());
    assert(strs(visited@) =~= v0.push(m@));
    let mut k: usize = 0;
    while k < imports.len()
        invariant
            k <= imports@.len(),
            u.finite(),
            strs(imports@) == environ_imports(text@),
            environ_imports(text@).to_set().subset_of(u),
            forall|i: int| 0 <= i < tree.files@.len() && (#[trigger] tree.files@[i]).text is Some ==>
                environ_imports(tree.files@[i].text->0@).to_set().subset_of(u),
            strs(visited@).no_duplicates(),
            strs(visited@).to_set().subset_of(u),
            grown.subset_of(strs(visited@).to_set()),
            grown.contains(m@),
            v0.to_set().subset_of(grown),
            !strs(order@).contains(m@),
            !v0.contains(m@),
            forall|x: Seq<char>| #[trigger] strs(order@).contains(x) ==> o0.contains(x) || !v0.contains(x),
            order@.len() >= o0.len(),
            forall|j: int| 0 <= j < o0.len() ==> strs(order@)[j] == o0[j],
            forall|x: Seq<char>| #[trigger] strs(visited@).contains(x) && !v0.contains(x) && x != m@
                && readable_article(tree.files@, root@, x) ==> strs(order@).contains(x),
            strs(visited@).contains(m@),
            visited@.len() > v0.len(),
            v0.len() == old(visited)@.len(),
            strs(order@).no_duplicates(),
            strs(order@).to_set().subset_of(strs(visited@).to_set()),
            forall|j: int| 0 <= j < order@.len() ==> text_at(tree.files@, article_file(root@, #[trigger] strs(order@)[j])) matches Some(Some(_)),
            deps_seen(tree.files@, root@, strs(order@), strs(visited@)),
            forall|j: int| 0 <= j < k ==> strs(visited@).contains(#[trigger] strs(imports@)[j]),
            chain == stack.push(m@),
            !stack.contains(m@),
            dep_chain(tree.files@, root@, chain),
            article_deps(tree.files@, root@, m@) == environ_imports(text@),
            forall|x: Seq<char>| #[trigger] chain.contains(x) ==> readable_article(tree.files@, root@, x)
                && strs(visited@).contains(x) && !strs(order@).contains(x),
            forall|x: Seq<char>| readable_article(tree.files@, root@, x) && #[trigger] strs(visited@).contains(x)
                && !strs(order@).contains(x) ==> chain.contains(x),
            deps_first(tree.files@, root@, strs(order@)),
            forall|j: int| o0.len() <= j < order@.len() ==> refers_to(tree.files@, root@, chain[0], #[trigger] strs(order@)[j]),
            (strs(visited@), strs(order@)) == dfs_list(tree.files@, root@, u, v0.push(m@), o0, strs(imports@).take(k as int)),
        decreases imports.len() - k,
    {
        assert(strs(imports@)[k as int] == imports@[k as int]@);
        assert(environ_imports(text@).to_set().contains(imports@[k as int]@)) by {
            assert(environ_imports(text@).contains(imports@[k as int]@));
        }
        let ghost before_order = strs(order@);
        let ghost before_order_v = order@;
        let ghost before_visited = strs(visited@);
        proof {
            before_visited.unique_seq_to_set();
            vstd::set_lib::lemma_len_subset(before_visited.to_set(), u);
        }
        assert(before_visited.contains(m@)) by {
            assert(grown.contains(m@));
            assert(before_visited.to_set().contains(m@));
        }
        proof {
            assert(chain[chain.len() - 1] == m@);
            assert(article_deps(tree.files@, root@, m@).contains(imports@[k as int]@)) by {
                assert(strs(imports@)[k as int] == imports@[k as int]@);
            }
            lemma_chain_push(tree.files@, root@, chain, imports@[k as int]@);
        }
        visit_dep(imports[k].as_str(), root, tree, visited, order, Ghost(u), Ghost(chain));
        proof {
            let ms = strs(imports@).take(k + 1);
            assert(ms.drop_last() =~= strs(imports@).take(k as int));
            assert(ms.last() == imports@[k as int]@);
            assert(v0.push(m@).len() <= before_visited.len());
            assert(before_visited.len() <= u.len());
            assert(chain.push(imports@[k as int]@)[0] == chain[0]);
            assert forall|j: int| o0.len() <= j < order@.len() implies refers_to(tree.files@, root@, chain[0], #[trigger] strs(order@)[j]) by {
                if j < before_order.len() {
                    assert(strs(order@)[j] == before_order[j]);
                }
            }
        }
        proof {
            assert forall|j: int| 0 <= j < o0.len() implies strs(order@)[j] == o0[j] by {
                assert(strs(order@)[j] == before_order[j]);
            }
            assert forall|x: Seq<char>| #[trigger] strs(visited@).contains(x) && !v0.contains(x) && x != m@
                && readable_article(tree.files@, root@, x) implies strs(order@).contains(x) by {
                if before_visited.contains(x) {
                    assert(before_order.contains(x));
                    let p = choose|p: int| 0 <= p < before_order.len() && before_order[p] == x;
                    assert(strs(order@)[p] == before_order[p]);
                }
            }
            assert forall|j: int| 0 <= j < k + 1 implies strs(visited@).contains(#[trigger] strs(imports@)[j]) by {
                let y = strs(imports@)[j];
                if j < k {
                    assert(before_visited.contains(y));
                    assert(before_visited.to_set().contains(y));
                }
                assert(strs(visited@).to_set().contains(y));
            }
            assert(strs(visited@).contains(m@)) by {
                assert(before_visited.to_set().subset_of(strs(visited@).to_set()));
                assert(before_visited.to_set().contains(m@));
                assert(strs(visited@).to_set().contains(m@));
            }
            assert forall|x: Seq<char>| #[trigger] strs(order@).contains(x) implies o0.contains(x) || !v0.contains(x) by {
                if !before_order.contains(x) {
                    assert(!before_visited.contains(x));
                    if v0.contains(x) {
                        assert(v0.to_set().contains(x));
                        assert(before_visited.to_set().contains(x));
                    }
                }
            }
        }
        k = k + 1;
    }
    proof {
        assert(text_at(tree.files@, path@) == Some(Some(text@)));
        assert(strs(imports@).take(imports@.len() as int) =~= strs(imports@));
    }
    let ghost before = strs(order@);
    proof {
        assert forall|d: Seq<char>| #[trigger] article_deps(tree.files@, root@, m@).contains(d)
            && readable_article(tree.files@, root@, d) implies before.contains(d) || stack.push(m@).contains(d) by {
            let q = choose|q: int| 0 <= q < strs(imports@).len() && strs(imports@)[q] == d;
            assert(strs(visited@).contains(strs(imports@)[q]));
        }
        lemma_deps_first_push(tree.files@, root@, before, m@, stack);
        lemma_chain_suffix(tree.files@, root@, stack.push(m@), 0);
    }
    order.push(String::from_str(m));
    proof {
        assert(strs(order@) =~= before.push(m@));
        assert forall|j: int| o0.len() <= j < order@.len() implies refers_to(tree.files@, root@, stack.push(m@)[0], #[trigger] strs(order@)[j]) by {
            if j < before.len() {
                assert(strs(order@)[j] == before[j]);
            } else {
                assert(strs(order@)[j] == m@);
            }
        }
        assert forall|x: Seq<char>| #[trigger] stack.contains(x) implies readable_article(tree.files@, root@, x)
            && strs(visited@).contains(x) && !strs(order@).contains(x) by {
            crate::text::lemma_push_contains(stack, m@, x);
            crate::text::lemma_push_contains(before, m@, x);
        }
        assert forall|x: Seq<char>| readable_article(tree.files@, root@, x) && #[trigger] strs(visited@).contains(x)
            && !strs(order@).contains(x) implies stack.contains(x) by {
            crate::text::lemma_push_contains(stack, m@, x);
            crate::text::lemma_push_contains(before, m@, x);
        }
        assert(article_deps(tree.files@, root@, m@) == strs(imports@));
        assert forall|j: int, d: Seq<char>| 0 <= j < strs(order@).len()
            && #[trigger] article_deps(tree.files@, root@, strs(order@)[j]).contains(d) implies strs(visited@).contains(d) by {
            if j < before.len() {
                assert(strs(order@)[j] == before[j]);
            } else {
                let q = choose|q: int| 0 <= q < strs(imports@).len() && strs(imports@)[q] == d;
                assert(strs(visited@).contains(strs(imports@)[q]));
            }
        }
        assert forall|x: Seq<char>| #[trigger] strs(visited@).contains(x) && !v0.contains(x)
            && readable_article(tree.files@, root@, x) implies strs(order@).contains(x) by {
            crate::text::lemma_push_contains(before, m@, x);
        }
        assert(strs(order@) =~= before.push(m@));
        before.lemma_push_to_set_commute(m@);
        assert forall|x: Seq<char>| #[trigger] strs(order@).contains(x) implies o0.contains(x) || !v0.contains(x) by {
            crate::text::lemma_push_contains(before, m@, x);
        }
        assert(strs(order@).no_duplicates()) by {
            assert forall|i: int, j: int| 0 <= i < strs(order@).len() && 0 <= j < strs(order@).len() && i != j
                implies strs(order@)[i] != strs(order@)[j] by {
                if i < before.len() && j < before.len() {
                } else if i == before.len() {
                    assert(before.contains(before[j]));
                } else {
                    assert(before.contains(before[i]));
                }
            }
        }
    }
}

/// The in-tree articles a Mizar file depends on, given the articles its
/// `environ` block references: each reachable article whose `<root>/<m>.miz`
/// is in the tree, visited depth first and listed after its own in-tree
/// dependencies (but for a dependency that leads back to it through an
/// import cycle), each once; articles without an in-tree file (the MML) are
/// left out. Every in-tree article that a listed one references is listed.
/// The order is exactly that of the depth-first walk, `mizar_dfs_order`.
pub fn mizar_transitive_deps(direct: &Vec<String>, include_root: &str, tree: &SourceTree) -> (r: Vec<String>)
    ensures
        strs(r@).no_duplicates(),
        forall|k: int| 0 <= k < r@.len() ==> readable_article(tree.files@, include_root@, #[trigger] strs(r@)[k]),
        forall|k: int| 0 <= k < direct@.len() && readable_article(tree.files@, include_root@, #[trigger] strs(direct@)[k])
            ==> strs(r@).contains(strs(direct@)[k]),
        forall|k: int, d: Seq<char>| 0 <= k < r@.len() && #[trigger] article_deps(tree.files@, include_root@, strs(r@)[k]).contains(d)
            && readable_article(tree.files@, include_root@, d) ==> strs(r@).contains(d),
        deps_first(tree.files@, include_root@, strs(r@)),
        forall|j: int| 0 <= j < r@.len() ==> reached_from(tree.files@, include_root@, strs(direct@), #[trigger] strs(r@)[j]),
        strs(r@) == mizar_dfs_order(tree.files@, include_root@, strs(direct@)),
{
    let ghost u = article_universe(strs(direct@), tree.files@);
    proof {
        lemma_universe(strs(direct@), tree.files@);
    }
    let mut visited: Vec<String> = Vec::new();
    let mut order: Vec<String> = Vec::new();
    assert(strs(visited@) =~= Seq::<Seq<char>>::empty());
    assert(strs(order@) =~= Seq::<Seq<char>>::empty());
    assert(strs(direct@).take(0) =~= Seq::<Seq<char>>::empty());
    let mut i: usize = 0;
    while i < direct.len()
        invariant
            i <= direct@.len(),
            u == article_universe(strs(direct@), tree.files@),
            u.finite(),
            strs(direct@).to_set().subset_of(u),
            forall|j: int| 0 <= j < tree.files@.len() && (#[trigger] tree.files@[j]).text is Some ==>
                environ_imports(tree.files@[j].text->0@).to_set().subset_of(u),
            strs(visited@).no_duplicates(),
            strs(visited@).to_set().subset_of(u),
            strs(order@).no_duplicates(),
            strs(order@).to_set().subset_of(strs(visited@).to_set()),
            forall|k: int| 0 <= k < order@.len() ==> readable_article(tree.files@, include_root@, #[trigger] strs(order@)[k]),
            forall|x: Seq<char>| #[trigger] strs(visited@).contains(x) && readable_article(tree.files@, include_root@, x)
                ==> strs(order@).contains(x),
            forall|k: int| 0 <= k < i ==> strs(visited@).contains(#[trigger] strs(direct@)[k]),
            deps_seen(tree.files@, include_root@, strs(order@), strs(visited@)),
            deps_first(tree.files@, include_root@, strs(order@)),
            forall|j: int| 0 <= j < order@.len() ==> reached_from(tree.files@, include_root@, strs(direct@).take(i as int), #[trigger] strs(order@)[j]),
            (strs(visited@), strs(order@)) == dfs_list(tree.files@, include_root@, u, Seq::empty(), Seq::empty(), strs(direct@).take(i as int)),
        decreases direct.len() - i,
    {
        assert(strs(direct@).to_set().contains(strs(direct@)[i as int])) by {
            assert(strs(direct@).contains(strs(direct@)[i as int]));
        }
        assert(strs(direct@)[i as int] == direct@[i as int]@);
        let ghost vb = strs(visited@);
        let ghost ob = strs(order@);
        proof {
            let one = Seq::<Seq<char>>::empty().push(direct@[i as int]@);
            assert(dep_chain(tree.files@, include_root@, one));
            assert forall|x: Seq<char>| readable_article(tree.files@, include_root@, x) && #[trigger] strs(visited@).contains(x)
                && !strs(order@).contains(x) implies Seq::<Seq<char>>::empty().contains(x) by {
            }
        }
        let ghost ob_len = order@.len();
        let ghost ob2 = strs(order@);
        assert(forall|j: int| 0 <= j < ob_len ==> reached_from(tree.files@, include_root@, strs(direct@).take(i as int), #[trigger] ob2[j]));
        proof {
            vb.unique_seq_to_set();
            vstd::set_lib::lemma_len_subset(vb.to_set(), u);
        }
        visit_dep(direct[i].as_str(), include_root, tree, &mut visited, &mut order, Ghost(u), Ghost(Seq::empty()));
        proof {
            let ms = strs(direct@).take(i + 1);
            assert(ms.drop_last() =~= strs(direct@).take(i as int));
            assert(ms.last() == direct@[i as int]@);
            assert(Seq::<Seq<char>>::empty().len() <= vb.len() <= u.len());
        }
        proof {
            assert(Seq::<Seq<char>>::empty().push(direct@[i as int]@)[0] == strs(direct@)[i as int]);
        }
        proof {
            assert forall|x: Seq<char>| #[trigger] strs(visited@).contains(x) && readable_article(tree.files@, include_root@, x)
                implies strs(order@).contains(x) by {
                if vb.contains(x) {
                    assert(ob.contains(x));
                    let p = choose|p: int| 0 <= p < ob.len() && ob[p] == x;
                    assert(strs(order@)[p] == ob[p]);
                }
            }
            assert forall|k: int| 0 <= k < i + 1 implies strs(visited@).contains(#[trigger] strs(direct@)[k]) by {
                let y = strs(direct@)[k];
                if k < i {
                    assert(vb.contains(y));
                    assert(vb.to_set().contains(y));
                } else {
                    assert(strs(visited@).to_set().contains(y));
                }
                assert(strs(visited@).to_set().contains(y));
            }
        }
        let ghost di = i as int;
        i = i + 1;
        proof {
            let st = strs(direct@).take(i as int);
            let so = strs(direct@).take(di);
            assert forall|j: int| 0 <= j < order@.len() implies reached_from(tree.files@, include_root@, st, #[trigger] strs(order@)[j]) by {
                if j < ob_len {
                    assert(strs(order@)[j] == ob2[j]);
                    assert(reached_from(tree.files@, include_root@, so, ob2[j]));
                    let k = choose|k: int| 0 <= k < so.len() && #[trigger] refers_to(tree.files@, include_root@, so[k], ob2[j]);
                    assert(st[k] == so[k]);
                    assert(refers_to(tree.files@, include_root@, st[k], strs(order@)[j]));
                } else {
                    assert(st[di] == strs(direct@)[di]);
                    assert(refers_to(tree.files@, include_root@, st[di], strs(order@)[j]));
                }
            }
        }
    }
    assert forall|k: int, d: Seq<char>| 0 <= k < order@.len()
        && #[trigger] article_deps(tree.files@, include_root@, strs(order@)[k]).contains(d)
        && readable_article(tree.files@, include_root@, d) implies strs(order@).contains(d) by {
        assert(strs(visited@).contains(d));
    }
    assert(strs(direct@).take(direct@.len() as int) =~= strs(direct@));
    order
}

/// The outcome when `MIZFILES` is not set: the MML data directory is the
/// verifier's precondition, so no honest check is possible.
pub fn mizfiles_unset_outcome() -> (o: Outcome)
    ensures
        !o.available,
        o.exit_code is None,
        !o.ok,
        o.output_tail@ == "MIZFILES not set \u{2014} Mizar needs its MML data dir"@,
        o.kind == BackendKind::Assistant,
        o.verdict == Verdict::Unavailable,
{
    Outcome {
        available: false,
        exit_code: None,
        ok: false,
        output_tail: String::from_str("MIZFILES not set \u{2014} Mizar needs its MML data dir"),
        kind: BackendKind::Assistant,
        verdict: Verdict::Unavailable,
    }
}

/// The verdict of a `verifier` run: proven exactly when it exited cleanly
/// and left an empty `.err` file (a missing `.err` counts as non-empty).
pub fn mizar_verdict(exit_ok: bool, err_len: Option<u64>) -> (v: Verdict)
    ensures
        v == (if exit_ok && err_len == Some(0u64) { Verdict::Proven } else { Verdict::Error }),
{
    match err_len {
        Some(n) => if exit_ok && n == 0 { Verdict::Proven } else { Verdict::Error },
        None => Verdict::Error,
    }
}

/// The first line of `s` (empty when there is none).
pub open spec fn first_line(s: Seq<char>) -> Seq<char> {
    if lines(s).len() > 0 { lines(s)[0] } else { Seq::empty() }
}

/// The output a Mizar run reports: on an error with a non-blank `.err`,
/// the combined output gains `\n.err: ` and the `.err` file's first line,
/// trimmed.
pub open spec fn mizar_report(combined: Seq<char>, verdict: Verdict, errs: Option<Seq<char>>) -> Seq<char> {
    match errs {
        Some(e) => if verdict == Verdict::Error && trim(e).len() > 0 {
            combined + "\n.err: "@ + trim(first_line(e))
        } else {
            combined
        },
        None => combined,
    }
}

/// Adds the first `.err` line to a failing run's output, as the run's
/// report shows it.
pub fn mizar_output(combined: &str, verdict: Verdict, errs: Option<&str>) -> (r: String)
    ensures
        r@ == mizar_report(combined@, verdict, match errs { Some(e) => Some(e@), None => None }),
{
    match errs {
        Some(e) => {
            let ec = chars_of(e);
            let t = trim_vec(&ec);
            if verdict == Verdict::Error && t.len() > 0 {
                let ls = split_lines(&ec);
                let first: Vec<char> = if ls.len() > 0 {
                    assert(views(ls@)[0] == ls@[0]@);
                    crate::text::slice_vec(&ls[0], 0, ls[0].len())
                } else {
                    Vec::new()
                };
                proof {
                    if ls@.len() > 0 {
                        assert(ls@[0]@.subrange(0, ls@[0]@.len() as int) =~= ls@[0]@);
                    }
                }
                assert(first@ == first_line(e@));
                let line = trim_vec(&first);
                let mut out = chars_of(combined);
                let mark = chars_of("\n.err: ");
                let ghost base = out@;
                let mut k: usize = 0;
                while k < mark.len()
                    invariant
                        k <= mark@.len(),
                        out@ == base + mark@.take(k as int),
                    decreases mark.len() - k,
                {
                    out.push(mark[k]);
                    k = k + 1;
                    assert(out@ =~= base + mark@.take(k as int));
                }
                assert(mark@.take(mark@.len() as int) =~= mark@);
                let ghost mid = out@;
                let mut k: usize = 0;
                while k < line.len()
                    invariant
                        k <= line@.len(),
                        out@ == mid + line@.take(k as int),
                    decreases line.len() - k,
                {
                    out.push(line[k]);
                    k = k + 1;
                    assert(out@ =~= mid + line@.take(k as int));
                }
                assert(line@.take(line@.len() as int) =~= line@);
                string_of(&out)
            } else {
                String::from_str(combined)
            }
        },
        None => String::from_str(combined),
    }
}

impl Backend for Mizar {
    open spec fn exts_spec(&self) -> Seq<Seq<char>> {
        seq!["miz"@]
    }

    open spec fn module_id_spec(&self, file: Seq<char>, root: Seq<char>) -> Option<Seq<char>> {
        module_name_spec(file, root)
    }

    open spec fn module_path_spec(&self, module: Seq<char>, root: Seq<char>) -> Seq<char> {
        module_file_spec(root, module, "miz"@)
    }

    open spec fn imports_spec(&self, text: Seq<char>) -> Seq<Seq<char>> {
        environ_imports(text)
    }

    fn name(&self) -> (r: &'static str)
        ensures
            r@ == "mizar"@,
    {
        "mizar"
    }

    fn kind(&self) -> (r: BackendKind)
        ensures
            r == BackendKind::Assistant,
    {
        BackendKind::Assistant
    }

    fn extensions(&self) -> (r: Vec<&'static str>) {
        let r = vec!["miz"];
        assert(str_views(r@) =~= seq!["miz"@]);
        r
    }

    /// No admit/sorry construct; soundness is the verifier's.
    fn safe_mode(&self) -> (r: Option<&'static str>)
        ensures
            r is None,
    {
        None
    }

    fn command(&self) -> (r: &'static str)
        ensures
            r@ == "verifier"@,
    {
        "verifier"
    }

    fn module_name_of(&self, file: &str, include_root: &str) -> (r: Option<String>) {
        crate::graph::module_name_of(file, include_root)
    }

    fn module_to_path(&self, module: &str, include_root: &str) -> (r: String) {
        crate::path::module_file(module, include_root, "miz")
    }

    fn direct_imports(&self, text: &str) -> (r: Vec<String>) {
        parse_environ_imports(text)
    }

    /// No entry-article convention: an empty root set is honest.
    fn discover_roots(&self, include_root: &str, tree: &SourceTree) -> (r: Vec<String>)
        ensures
            r@.len() == 0,
    {
        Vec::new()
    }

    /// No sorry/admit escape hatch: nothing to warn on.
    fn lint_rules(&self, cfg: &RuleConfig) -> (r: Result<Vec<Rule>, String>)
        ensures
            r matches Ok(v) && v@.len() == 0,
    {
        Ok(Vec::new())
    }
}

/// The tools that build one in-tree article into the local library, in
/// the order they run.
pub open spec fn export_tools() -> Seq<Seq<char>> {
    seq!["accom"@, "verifier"@, "exporter"@, "transfer"@]
}

/// The runs that build the in-tree dependencies `deps` into a local library
/// before the target is checked: for each dependency in turn, each of the
/// export tools on it, as (tool, article).
pub fn export_steps(deps: &Vec<String>) -> (r: Vec<(&'static str, String)>)
    ensures
        r@.len() == 4 * deps@.len(),
        forall|i: int, j: int| 0 <= i < deps@.len() && 0 <= j < 4 ==>
            (#[trigger] r@[4 * i + j]).0@ == export_tools()[j] && r@[4 * i + j].1@ == deps@[i]@,
{
    let tools: [&'static str; 4] = ["accom", "verifier", "exporter", "transfer"];
    assert(tools@.map_values(|t: &'static str| t@) =~= export_tools());
    let mut out: Vec<(&'static str, String)> = Vec::new();
    let mut i: usize = 0;
    while i < deps.len()
        invariant
            i <= deps@.len(),
            tools@.map_values(|t: &'static str| t@) == export_tools(),
            out@.len() == 4 * i,
            forall|a: int, j: int| 0 <= a < i && 0 <= j < 4 ==>
                (#[trigger] out@[4 * a + j]).0@ == export_tools()[j] && out@[4 * a + j].1@ == deps@[a]@,
        decreases deps.len() - i,
    {
        let mut j: usize = 0;
        while j < 4
            invariant
                i < deps@.len(),
                j <= 4,
                tools@.map_values(|t: &'static str| t@) == export_tools(),
                out@.len() == 4 * i + j,
                forall|a: int, k: int| 0 <= a < i && 0 <= k < 4 ==>
                    (#[trigger] out@[4 * a + k]).0@ == export_tools()[k] && out@[4 * a + k].1@ == deps@[a]@,
                forall|k: int| 0 <= k < j ==>
                    (#[trigger] out@[4 * i + k]).0@ == export_tools()[k] && out@[4 * i + k].1@ == deps@[i as int]@,
            decreases 4 - j,
        {
            assert(tools@.map_values(|t: &'static str| t@)[j as int] == tools@[j as int]@);
            out.push((tools[j], deps[i].clone()));
            j = j + 1;
        }
        i = i + 1;
    }
    out
}

} // verus!
