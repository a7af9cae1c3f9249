//! The import graph: module naming, reachability over imports, and the
//! internal dependency DAG of a source tree.
//!
//! Paths are `/`-separated strings. A path is read as a sequence of
//! components the way `std::path::Path::components` reads it: a leading `/`
//! is the root, a leading `.` is the current directory, `..` is the parent,
//! and empty or (non-leading) `.` pieces are dropped.

use vstd::prelude::*;
use crate::text::{slice_vec, split_char, split_on, views, rfind, seq_eq, string_of, occurs_at, chars_of, alnum, is_alphanumeric, trim_start, starts_with, words, first_pos, somes, lines, trim_start_vec, has_prefix, split_words, position_of, lemma_first_pos, split_lines, str_eq};
use crate::order::{strs, sorted, set_insert, sorted_position, lt};
use crate::reason::{Junct, adj_view, adj_wf, has_dep, is_walk, reaches, reachable_from};
use crate::path::module_file_spec;
pub use crate::graph_build::build;

verus! {

broadcast use vstd::string::group_string_axioms;

/// One path component.
pub enum Comp {
    Root,
    Cur,
    Parent,
    Normal(Seq<char>),
}

/// The components contributed by one `/`-separated piece (not the first).
pub open spec fn piece_comps(piece: Seq<char>) -> Seq<Comp> {
    if piece.len() == 0 || piece == seq!['.'] {
        Seq::empty()
    } else if piece == seq!['.', '.'] {
        seq![Comp::Parent]
    } else {
        seq![Comp::Normal(piece)]
    }
}

/// The components of the pieces, in order.
pub open spec fn pieces_comps(pieces: Seq<Seq<char>>) -> Seq<Comp>
    decreases pieces.len(),
{
    if pieces.len() == 0 {
        Seq::empty()
    } else {
        pieces_comps(pieces.drop_last()) + piece_comps(pieces.last())
    }
}

/// The components of path `p`.
pub open spec fn components(p: Seq<char>) -> Seq<Comp> {
    let pieces = split_on(p, '/');
    if p.len() > 0 && p[0] == '/' {
        seq![Comp::Root] + pieces_comps(pieces)
    } else if pieces[0] == seq!['.'] {
        seq![Comp::Cur] + pieces_comps(pieces)
    } else {
        pieces_comps(pieces)
    }
}

/// A file name without its extension: everything before the last `.`,
/// unless that `.` is the name's first character.
pub open spec fn stem_of(name: Seq<char>) -> Seq<char> {
    if exists|i: int| 0 < i < name.len() && name[i] == '.' {
        name.take(
            choose|i: int|
                0 < i < name.len() && name[i] == '.' && forall|j: int|
                    i < j < name.len() ==> name[j] != '.',
        )
    } else {
        name
    }
}

/// The names of a component sequence, if every component is a normal one.
pub open spec fn normal_names(cs: Seq<Comp>) -> Option<Seq<Seq<char>>>
    decreases cs.len(),
{
    if cs.len() == 0 {
        Some(Seq::empty())
    } else {
        match (normal_names(cs.drop_last()), cs.last()) {
            (Some(ns), Comp::Normal(n)) => Some(ns.push(n)),
            _ => None,
        }
    }
}

/// `xs` joined with `sep` between consecutive elements.
pub open spec fn join(xs: Seq<Seq<char>>, sep: Seq<char>) -> Seq<char>
    decreases xs.len(),
{
    if xs.len() == 0 {
        Seq::empty()
    } else if xs.len() == 1 {
        xs[0]
    } else {
        join(xs.drop_last(), sep) + sep + xs.last()
    }
}

/// The dotted module name of `file` relative to `root`: the path of `file`
/// below `root`, its extension dropped, components joined by `.`. `None`
/// when `file` is not below `root`, when nothing is left below it, or when
/// a remaining component is not a normal name.
pub open spec fn module_name_spec(file: Seq<char>, root: Seq<char>) -> Option<Seq<char>> {
    let fc = components(file);
    let rc = components(root);
    if rc.len() <= fc.len() && fc.take(rc.len() as int) == rc {
        let rel = fc.skip(rc.len() as int);
        if rel.len() == 0 {
            None
        } else {
            let last = match rel.last() {
                Comp::Normal(n) => Comp::Normal(stem_of(n)),
                c => c,
            };
            match normal_names(rel.drop_last().push(last)) {
                Some(ns) => Some(join(ns, seq!['.'])),
                None => None,
            }
        }
    } else {
        None
    }
}


/// An executable path component.
pub enum PathComp {
    Root,
    Cur,
    Parent,
    Normal(Vec<char>),
}

impl View for PathComp {
    type V = Comp;

    open spec fn view(&self) -> Comp {
        match self {
            PathComp::Root => Comp::Root,
            PathComp::Cur => Comp::Cur,
            PathComp::Parent => Comp::Parent,
            PathComp::Normal(n) => Comp::Normal(n@),
        }
    }
}

/// The views of a sequence of components.
pub open spec fn comp_views(cs: Seq<PathComp>) -> Seq<Comp> {
    cs.map_values(|c: PathComp| c@)
}

fn piece_comp(piece: &[char]) -> (r: Option<PathComp>)
    ensures
        r matches Some(c) ==> piece_comps(piece@) == seq![c@],
        r is None ==> piece_comps(piece@) == Seq::<Comp>::empty(),
{
    if piece.len() == 0 {
        return None;
    }
    if piece.len() == 1 && piece[0] == '.' {
        assert(piece@ =~= seq!['.']);
        return None;
    }
    if piece.len() == 2 && piece[0] == '.' && piece[1] == '.' {
        assert(piece@ =~= seq!['.', '.']);
        return Some(PathComp::Parent);
    }
    assert(piece@ != seq!['.']) by {
        if piece@ == seq!['.'] {
            assert(piece@.len() == 1);
        }
    }
    assert(piece@ != seq!['.', '.']) by {
        if piece@ == seq!['.', '.'] {
            assert(piece@.len() == 2);
        }
    }
    let v = slice_vec(piece, 0, piece.len());
    assert(v@ =~= piece@);
    Some(PathComp::Normal(v))
}

proof fn lemma_normal_names_none(cs: Seq<Comp>, k: int)
    requires
        0 <= k <= cs.len(),
        normal_names(cs.take(k)) is None,
    ensures
        normal_names(cs) is None,
    decreases cs.len() - k,
{
    if k < cs.len() {
        assert(cs.take(k + 1).drop_last() =~= cs.take(k));
        lemma_normal_names_none(cs, k + 1);
    } else {
        assert(cs.take(k) =~= cs);
    }
}

/// The components of path `p`.
pub fn path_components(p: &[char]) -> (r: Vec<PathComp>)
    ensures
        comp_views(r@) == components(p@),
{
    let pieces = split_char(p, '/');
    proof {
        assert(views(pieces@).len() == split_on(p@, '/').len());
    }
    let mut out: Vec<PathComp> = Vec::new();
    let rooted = p.len() > 0 && p[0] == '/';
    let ghost prefix: Seq<Comp>;
    if rooted {
        out.push(PathComp::Root);
        proof { prefix = seq![Comp::Root]; }
    } else if pieces[0].len() == 1 && pieces[0][0] == '.' {
        out.push(PathComp::Cur);
        proof {
            prefix = seq![Comp::Cur];
            assert(pieces@[0]@ =~= seq!['.']);
        }
    } else {
        proof {
            prefix = Seq::empty();
            if pieces@[0]@ == seq!['.'] {
                assert(pieces@[0]@.len() == 1);
            }
        }
    }
    assert(comp_views(out@) =~= prefix);
    let mut i: usize = 0;
    while i < pieces.len()
        invariant
            i <= pieces@.len(),
            comp_views(out@) == prefix + pieces_comps(views(pieces@).take(i as int)),
        decreases pieces.len() - i,
    {
        let c = piece_comp(&pieces[i]);
        proof {
            assert(views(pieces@).take(i + 1).drop_last() =~= views(pieces@).take(i as int));
            assert(views(pieces@).take(i + 1).last() == pieces@[i as int]@);
        }
        let ghost before = out@;
        match c {
            Some(c) => {
                out.push(c);
                assert(comp_views(out@) =~= comp_views(before) + seq![c@]);
            },
            None => {},
        }
        assert(comp_views(out@) =~= prefix + pieces_comps(views(pieces@).take(i + 1)));
        i = i + 1;
    }
    assert(views(pieces@).take(pieces@.len() as int) =~= split_on(p@, '/'));
    out
}

fn comp_eq(a: &PathComp, b: &PathComp) -> (r: bool)
    ensures
        r == (a@ == b@),
{
    match (a, b) {
        (PathComp::Root, PathComp::Root) => true,
        (PathComp::Cur, PathComp::Cur) => true,
        (PathComp::Parent, PathComp::Parent) => true,
        (PathComp::Normal(x), PathComp::Normal(y)) => seq_eq(x, y),
        _ => false,
    }
}

pub fn stem(name: &[char]) -> (r: Vec<char>)
    ensures
        r@ == stem_of(name@),
{
    let dot: [char; 1] = ['.'];
    match rfind(name, &dot) {
        Some(i) => {
            if i > 0 {
                proof {
                    assert(dot@ =~= seq!['.']);
                    assert(name@[i as int] == '.') by {
                        assert(name@.subrange(i as int, i + 1)[0] == name@[i as int]);
                    }
                    assert forall|j: int| i < j < name@.len() implies name@[j] != '.' by {
                        if name@[j] == '.' {
                            assert(name@.subrange(j, j + 1) =~= dot@);
                            assert(occurs_at(name@, dot@, j));
                        }
                    }
                    let k = choose|k: int|
                        0 < k < name@.len() && name@[k] == '.' && forall|j: int|
                            k < j < name@.len() ==> name@[j] != '.';
                    if k < i {
                        assert(name@[i as int] != '.');
                    }
                    if i < k {
                        assert(name@[k] != '.');
                    }
                }
                slice_vec(name, 0, i)
            } else {
                proof {
                    assert forall|j: int| 0 < j < name@.len() implies name@[j] != '.' by {
                        if name@[j] == '.' {
                            assert(name@.subrange(j, j + 1) =~= dot@);
                            assert(occurs_at(name@, dot@, j));
                        }
                    }
                }
                let r = slice_vec(name, 0, name.len());
                assert(r@ =~= name@);
                r
            }
        },
        None => {
            proof {
                assert forall|j: int| 0 < j < name@.len() implies name@[j] != '.' by {
                    if name@[j] == '.' {
                        assert(name@.subrange(j, j + 1) =~= dot@);
                        assert(occurs_at(name@, dot@, j));
                    }
                }
            }
            let r = slice_vec(name, 0, name.len());
            assert(r@ =~= name@);
            r
        },
    }
}

/// `xs` joined with `sep`.
pub fn join_chars(xs: &Vec<Vec<char>>, sep: &[char]) -> (r: Vec<char>)
    ensures
        r@ == join(views(xs@), sep@),
{
    let mut r: Vec<char> = Vec::new();
    let mut i: usize = 0;
    while i < xs.len()
        invariant
            i <= xs@.len(),
            r@ == join(views(xs@).take(i as int), sep@),
        decreases xs.len() - i,
    {
        let ghost before = r@;
        if i > 0 {
            let mut k: usize = 0;
            while k < sep.len()
                invariant
                    k <= sep@.len(),
                    r@ == before + sep@.take(k as int),
                decreases sep.len() - k,
            {
                r.push(sep[k]);
                k = k + 1;
                assert(r@ =~= before + sep@.take(k as int));
            }
        }
        let ghost mid = r@;
        let x = &xs[i];
        let mut k: usize = 0;
        while k < x.len()
            invariant
                k <= x@.len(),
                r@ == mid + x@.take(k as int),
            decreases x.len() - k,
        {
            r.push(x[k]);
            k = k + 1;
            assert(r@ =~= mid + x@.take(k as int));
        }
        proof {
            let t = views(xs@).take(i + 1);
            assert(t.drop_last() =~= views(xs@).take(i as int));
            assert(t.last() == x@);
            assert(x@.take(x@.len() as int) =~= x@);
            assert(sep@.take(sep@.len() as int) =~= sep@);
            if i == 0 {
                assert(t =~= seq![x@]);
                assert(r@ =~= x@);
            } else {
                assert(r@ =~= before + sep@ + x@);
            }
        }
        i = i + 1;
    }
    assert(views(xs@).take(xs@.len() as int) =~= views(xs@));
    r
}

/// Dotted module name for `file` under `include_root`
/// (`Ordinal/Closure.agda` under the root gives `Ordinal.Closure`).
pub fn module_name_of(file: &str, include_root: &str) -> (r: Option<String>)
    ensures
        r matches Some(m) ==> module_name_spec(file@, include_root@) == Some(m@),
        r is None ==> module_name_spec(file@, include_root@) is None,
{
    let fchars = chars_of(file);
    let rchars = chars_of(include_root);
    let fc = path_components(&fchars);
    let rc = path_components(&rchars);
    if rc.len() > fc.len() {
        return None;
    }
    let mut i: usize = 0;
    while i < rc.len()
        invariant
            i <= rc@.len() <= fc@.len(),
            comp_views(fc@) == components(file@),
            comp_views(rc@) == components(include_root@),
            forall|j: int| 0 <= j < i ==> fc@[j]@ == rc@[j]@,
        decreases rc.len() - i,
    {
        if !comp_eq(&fc[i], &rc[i]) {
            proof {
                assert(comp_views(fc@).take(rc@.len() as int)[i as int] != comp_views(rc@)[i as int]);
                assert(comp_views(fc@).take(rc@.len() as int) != comp_views(rc@));
            }
            return None;
        }
        i = i + 1;
    }
    let ghost fcv = comp_views(fc@);
    let ghost rcv = comp_views(rc@);
    assert(fcv.take(rcv.len() as int) =~= rcv);
    if rc.len() == fc.len() {
        assert(fcv.skip(rcv.len() as int).len() == 0);
        return None;
    }
    let ghost rel = fcv.skip(rcv.len() as int);
    let mut names: Vec<Vec<char>> = Vec::new();
    let mut j: usize = rc.len();
    let ghost lastc = match rel.last() {
        Comp::Normal(n) => Comp::Normal(stem_of(n)),
        c => c,
    };
    let ghost rel2 = rel.drop_last().push(lastc);
    while j < fc.len()
        invariant
            rc@.len() <= j <= fc@.len(),
            rc@.len() < fc@.len(),
            fcv == comp_views(fc@),
            rcv == comp_views(rc@),
            fcv == components(file@),
            rcv == components(include_root@),
            fcv.take(rcv.len() as int) == rcv,
            rel == fcv.skip(rcv.len() as int),
            rel2 == rel.drop_last().push(lastc),
            lastc == (match rel.last() {
                Comp::Normal(n) => Comp::Normal(stem_of(n)),
                c => c,
            }),
            normal_names(rel2.take(j - rc@.len())) == Some(views(names@)),
        decreases fc.len() - j,
    {
        let k = j - rc.len();
        proof {
            assert(rel2.take(k + 1).drop_last() =~= rel2.take(k as int));
            if j + 1 < fc.len() {
                assert(rel2[k as int] == fcv[j as int]);
            } else {
                assert(rel2[k as int] == lastc);
                assert(rel.last() == fcv[j as int]);
            }
        }
        match &fc[j] {
            PathComp::Normal(n) => {
                let nm = if j + 1 == fc.len() {
                    stem(n)
                } else {
                    slice_vec(n, 0, n.len())
                };
                assert(n@.take(n@.len() as int) =~= n@);
                let ghost before = names@;
                names.push(nm);
                assert(views(names@) =~= views(before).push(nm@));
            },
            _ => {
                proof {
                    assert(normal_names(rel2.take(k + 1)) is None);
                    lemma_normal_names_none(rel2, k + 1);
                }
                return None;
            },
        }
        j = j + 1;
    }
    assert(rel2.take(fc@.len() - rc@.len()) =~= rel2);
    let dot: [char; 1] = ['.'];
    assert(dot@ =~= seq!['.']);
    let joined = join_chars(&names, &dot);
    Some(string_of(&joined))
}


/// The `.agda` file of `module` below `include_root`
/// (`Ordinal.Closure` gives `<root>/Ordinal/Closure.agda`).
pub fn module_to_path(module: &str, include_root: &str) -> (r: String)
    ensures
        r@ == crate::path::module_file_spec(include_root@, module@, "agda"@),
{
    crate::path::module_file(module, include_root, "agda")
}

/// The conventional CI entry modules among the files of `tree`: every
/// `All.agda` and `Smoke.agda`, ordered by path.
pub fn discover_roots(tree: &SourceTree) -> (r: Vec<String>)
    ensures
        crate::order::path_sorted(strs(r@)),
        strs(r@).to_multiset() == crate::prover::named_paths(tree.files@, seq!["All.agda"@, "Smoke.agda"@]).to_multiset(),
{
    let names = vec!["All.agda", "Smoke.agda"];
    let r = crate::prover::files_named(tree, &names);
    assert(crate::prover::str_views(names@) =~= seq!["All.agda"@, "Smoke.agda"@]);
    r
}

/// A node in the import graph: a source file and its module name.
#[derive(Clone, Debug)]
pub struct GraphNode {
    pub id: String,
    /// Path relative to the include root.
    pub file: String,
}

/// An `imports` edge from one in-tree module to another.
#[derive(Clone, Debug)]
pub struct Edge {
    pub from: String,
    pub to: String,
    pub kind: &'static str,
}

/// The internal import DAG of a source tree.
#[derive(Clone, Debug)]
pub struct ImportGraph {
    pub nodes: Vec<GraphNode>,
    pub edges: Vec<Edge>,
}


/// A character that may end a module-name token: alphanumeric, `.` or `_`.
pub open spec fn module_char(c: char) -> bool {
    alnum(c) || c == '.' || c == '_'
}

/// `s` with trailing non-module characters removed.
pub open spec fn trim_module_end(s: Seq<char>) -> Seq<char>
    decreases s.len(),
{
    if s.len() > 0 && !module_char(s.last()) {
        trim_module_end(s.drop_last())
    } else {
        s
    }
}

/// `trim_end_matches` of the characters that cannot end a module name.
pub fn trim_module_tail(s: &[char]) -> (r: Vec<char>)
    ensures
        r@ == trim_module_end(s@),
{
    let mut n = s.len();
    assert(s@.take(n as int) =~= s@);
    loop
        invariant
            n <= s@.len(),
            trim_module_end(s@) == trim_module_end(s@.take(n as int)),
        ensures
            n <= s@.len(),
            trim_module_end(s@) == s@.take(n as int),
        decreases n,
    {
        if n == 0 {
            assert(trim_module_end(s@.take(0)) == s@.take(0));
            break;
        }
        let c = s[n - 1];
        let keep = is_alphanumeric(c) || c == '.' || c == '_';
        if keep {
            assert(s@.take(n as int).last() == c);
            break;
        }
        assert(s@.take(n as int).drop_last() =~= s@.take(n - 1));
        n = n - 1;
    }
    slice_vec(s, 0, n)
}

/// The module an Agda line imports: the first token after a top-level
/// `import` or an `open import`, trimmed of trailing punctuation. Comment
/// lines import nothing.
pub open spec fn agda_line_import(line: Seq<char>) -> Option<Seq<char>> {
    let t = trim_start(line);
    if starts_with(t, "--"@) {
        None
    } else {
        let toks = words(t);
        let i = first_pos(toks, "import"@);
        if i < 0 || (i > 0 && toks[i - 1] != "open"@) || i + 1 >= toks.len() {
            None
        } else {
            let c = trim_module_end(toks[i + 1]);
            if c.len() == 0 {
                None
            } else {
                Some(c)
            }
        }
    }
}

/// The import found on each line.
pub open spec fn agda_line_imports(ls: Seq<Seq<char>>) -> Seq<Option<Seq<char>>> {
    ls.map_values(|l: Seq<char>| agda_line_import(l))
}

/// The modules an Agda source imports, in order.
pub open spec fn agda_imports(text: Seq<char>) -> Seq<Seq<char>> {
    somes(agda_line_imports(lines(text)))
}

fn agda_import_of_line(line: &[char]) -> (r: Option<Vec<char>>)
    ensures
        r matches Some(v) ==> agda_line_import(line@) == Some(v@),
        r is None ==> agda_line_import(line@) is None,
{
    let t = trim_start_vec(line);
    let dashes = chars_of("--");
    if has_prefix(&t, &dashes) {
        return None;
    }
    let toks = split_words(&t);
    let imp = chars_of("import");
    let open = chars_of("open");
    proof {
        lemma_first_pos(views(toks@), "import"@);
    }
    match position_of(&toks, &imp) {
        None => None,
        Some(i) => {
            if i > 0 && !seq_eq(&toks[i - 1], &open) {
                assert(views(toks@)[i - 1] == toks@[i - 1]@);
                return None;
            }
            if i >= toks.len() - 1 {
                return None;
            }
            assert(views(toks@)[i + 1] == toks@[i + 1]@);
            if i > 0 {
                assert(views(toks@)[i - 1] == toks@[i - 1]@);
            }
            let c = trim_module_tail(&toks[i + 1]);
            if c.len() == 0 {
                None
            } else {
                Some(c)
            }
        },
    }
}


/// The modules imported (`import …` / `open import …`) by an Agda source
/// text, in order of appearance.
pub fn direct_imports(text: &str) -> (r: Vec<String>)
    ensures
        strs(r@) == agda_imports(text@),
{
    let cs = chars_of(text);
    let ls = split_lines(&cs);
    let mut out: Vec<String> = Vec::new();
    let mut i: usize = 0;
    while i < ls.len()
        invariant
            i <= ls@.len(),
            views(ls@) == lines(text@),
            strs(out@) == somes(agda_line_imports(views(ls@).take(i as int))),
        decreases ls.len() - i,
    {
        let m = agda_import_of_line(&ls[i]);
        proof {
            let xs = agda_line_imports(views(ls@).take(i + 1));
            assert(xs.drop_last() =~= agda_line_imports(views(ls@).take(i as int)));
            assert(views(ls@)[i as int] == ls@[i as int]@);
            assert(xs.last() == agda_line_import(ls@[i as int]@));
        }
        let ghost before = out@;
        match m {
            Some(v) => {
                out.push(string_of(&v));
                assert(strs(out@) =~= strs(before).push(v@));
            },
            None => {},
        }
        i = i + 1;
    }
    assert(views(ls@).take(ls@.len() as int) =~= views(ls@));
    out
}

/// One file of a source tree as it was read: its path (the include root
/// joined with the path below it) and its text, `None` when it could not
/// be read as text.
#[derive(Clone, Debug)]
pub struct SourceFile {
    pub path: String,
    pub text: Option<String>,
}

/// The files found below an include root, plus any entry files named from
/// outside it.
#[derive(Clone, Debug)]
pub struct SourceTree {
    pub files: Vec<SourceFile>,
}

/// The position of the first file at path `p`, or -1.
pub open spec fn file_pos(files: Seq<SourceFile>, p: Seq<char>) -> int
    decreases files.len(),
{
    if files.len() == 0 {
        -1
    } else if file_pos(files.drop_last(), p) >= 0 {
        file_pos(files.drop_last(), p)
    } else if files.last().path@ == p {
        files.len() - 1
    } else {
        -1
    }
}

pub proof fn lemma_file_pos(files: Seq<SourceFile>, p: Seq<char>)
    ensures
        -1 <= file_pos(files, p) < files.len(),
        file_pos(files, p) >= 0 ==> files[file_pos(files, p)].path@ == p,
        file_pos(files, p) == -1 ==> forall|j: int| 0 <= j < files.len() ==> files[j].path@ != p,
    decreases files.len(),
{
    if files.len() > 0 {
        lemma_file_pos(files.drop_last(), p);
        if file_pos(files, p) == -1 {
            assert forall|j: int| 0 <= j < files.len() implies files[j].path@ != p by {
                if j < files.len() - 1 {
                    assert(files[j] == files.drop_last()[j]);
                }
            }
        }
    }
}

/// The text at path `p`: `None` when there is no such file, `Some(None)`
/// when it could not be read.
pub open spec fn text_at(files: Seq<SourceFile>, p: Seq<char>) -> Option<Option<Seq<char>>> {
    let i = file_pos(files, p);
    if i < 0 {
        None
    } else {
        match files[i].text {
            Some(t) => Some(Some(t@)),
            None => Some(None),
        }
    }
}

impl SourceTree {
    /// The first file at path `p`.
    pub fn find(&self, p: &str) -> (r: Option<usize>)
        ensures
            r matches Some(i) ==> i == file_pos(self.files@, p@) && i < self.files@.len(),
            r is None ==> file_pos(self.files@, p@) == -1,
    {
        let mut i: usize = 0;
        while i < self.files.len()
            invariant
                i <= self.files@.len(),
                file_pos(self.files@.take(i as int), p@) == -1,
            decreases self.files.len() - i,
        {
            proof {
                assert(self.files@.take(i + 1).drop_last() =~= self.files@.take(i as int));
            }
            if str_eq(self.files[i].path.as_str(), p) {
                proof {
                    lemma_file_pos_prefix(self.files@, p@, i + 1);
                }
                return Some(i);
            }
            i = i + 1;
        }
        assert(self.files@.take(self.files@.len() as int) =~= self.files@);
        None
    }
}

proof fn lemma_file_pos_prefix(files: Seq<SourceFile>, p: Seq<char>, n: int)
    requires
        0 <= n <= files.len(),
        file_pos(files.take(n), p) >= 0,
    ensures
        file_pos(files, p) == file_pos(files.take(n), p),
    decreases files.len() - n,
{
    if n < files.len() {
        assert(files.take(n + 1).drop_last() =~= files.take(n));
        lemma_file_pos_prefix(files, p, n + 1);
    } else {
        assert(files.take(n) =~= files);
    }
}

/// The file path of an Agda module below `root`.
pub open spec fn agda_file(root: Seq<char>, m: Seq<char>) -> Seq<char> {
    module_file_spec(root, m, "agda"@)
}

/// The modules that module `m` imports, when its file is in the tree and
/// readable; nothing otherwise.
pub open spec fn mod_imports(files: Seq<SourceFile>, root: Seq<char>, m: Seq<char>) -> Seq<Seq<char>> {
    match text_at(files, agda_file(root, m)) {
        Some(Some(t)) => agda_imports(t),
        _ => Seq::empty(),
    }
}

/// Module `m`'s file is in the tree but could not be read.
pub open spec fn mod_unreadable(files: Seq<SourceFile>, root: Seq<char>, m: Seq<char>) -> bool {
    text_at(files, agda_file(root, m)) == Some(None::<Seq<char>>)
}

/// `p` is a chain of imports.
pub open spec fn import_chain(files: Seq<SourceFile>, root: Seq<char>, p: Seq<Seq<char>>) -> bool {
    &&& p.len() >= 1
    &&& forall|i: int| #![trigger p[i]] 0 <= i < p.len() - 1 ==> mod_imports(files, root, p[i]).contains(p[i + 1])
}

/// Module `m` is reached from one of `seeds` along imports.
pub open spec fn mod_reaches(files: Seq<SourceFile>, root: Seq<char>, seeds: Seq<Seq<char>>, m: Seq<char>) -> bool {
    exists|p: Seq<Seq<char>>|
        #![trigger import_chain(files, root, p)]
        import_chain(files, root, p) && seeds.contains(p[0]) && p.last() == m
}

/// The sorted names of `seeds` and of every import of every readable file:
/// the universe an import walk stays in.
fn module_universe(tree: &SourceTree, seeds: &Vec<String>) -> (names: Vec<String>)
    ensures
        sorted(strs(names@)),
        forall|i: int| 0 <= i < seeds@.len() ==> strs(names@).contains(#[trigger] seeds@[i]@),
        forall|j: int, k: int|
            0 <= j < tree.files@.len() && tree.files@[j].text is Some && 0 <= k < agda_imports(
                tree.files@[j].text->0@,
            ).len() ==> strs(names@).contains(#[trigger] agda_imports(tree.files@[j].text->0@)[k]),
{
    let mut names: Vec<String> = Vec::new();
    let mut i: usize = 0;
    while i < seeds.len()
        invariant
            i <= seeds@.len(),
            sorted(strs(names@)),
            forall|a: int| 0 <= a < i ==> strs(names@).contains(#[trigger] seeds@[a]@),
        decreases seeds.len() - i,
    {
        let ghost before = strs(names@);
        set_insert(&mut names, seeds[i].clone());
        proof {
            assert forall|a: int| 0 <= a < i + 1 implies strs(names@).contains(#[trigger] seeds@[a]@) by {
                if a < i {
                    assert(before.contains(seeds@[a]@));
                    assert(before.to_set().contains(seeds@[a]@));
                    assert(strs(names@).to_set().contains(seeds@[a]@));
                } else {
                    assert(strs(names@).to_set().contains(seeds@[a]@));
                }
            }
        }
        i = i + 1;
    }
    let mut j: usize = 0;
    while j < tree.files.len()
        invariant
            j <= tree.files@.len(),
            sorted(strs(names@)),
            forall|a: int| 0 <= a < seeds@.len() ==> strs(names@).contains(#[trigger] seeds@[a]@),
            forall|b: int, k: int|
                0 <= b < j && tree.files@[b].text is Some && 0 <= k < agda_imports(tree.files@[b].text->0@).len()
                    ==> strs(names@).contains(#[trigger] agda_imports(tree.files@[b].text->0@)[k]),
        decreases tree.files.len() - j,
    {
        match &tree.files[j].text {
            None => {},
            Some(t) => {
                let imps = direct_imports(t.as_str());
                let mut k: usize = 0;
                while k < imps.len()
                    invariant
                        k <= imps@.len(),
                        strs(imps@) == agda_imports(t@),
                        tree.files@[j as int].text == Some(*t),
                        sorted(strs(names@)),
                        forall|a: int| 0 <= a < seeds@.len() ==> strs(names@).contains(#[trigger] seeds@[a]@),
                        forall|b: int, q: int|
                            0 <= b < j && tree.files@[b].text is Some && 0 <= q < agda_imports(tree.files@[b].text->0@).len()
                                ==> strs(names@).contains(#[trigger] agda_imports(tree.files@[b].text->0@)[q]),
                        forall|q: int| 0 <= q < k ==> strs(names@).contains(#[trigger] agda_imports(t@)[q]),
                    decreases imps.len() - k,
                {
                    let ghost before = strs(names@);
                    set_insert(&mut names, imps[k].clone());
                    proof {
                        assert forall|x: Seq<char>| before.contains(x) implies strs(names@).contains(x) by {
                            assert(before.to_set().contains(x));
                            assert(strs(names@).to_set().contains(x));
                        }
                        assert(strs(imps@)[k as int] == imps@[k as int]@);
                        assert(strs(names@).to_set().contains(imps@[k as int]@));
                    }
                    k = k + 1;
                }
            },
        }
        j = j + 1;
    }
    names
}

/// The index of `x` in the sorted table `names`, which holds it.
fn index_in(names: &Vec<String>, x: &str) -> (i: usize)
    requires
        sorted(strs(names@)),
        strs(names@).contains(x@),
    ensures
        i < names@.len(),
        names@[i as int]@ == x@,
{
    let (i, found) = sorted_position(names, x);
    proof {
        if !found {
            let k = choose|k: int| 0 <= k < strs(names@).len() && strs(names@)[k] == x@;
            crate::order::lemma_lt_irrefl(x@);
            if k < i {
                assert(lt(strs(names@)[k], x@));
            } else {
                assert(lt(x@, strs(names@)[k]));
            }
        }
    }
    i
}

/// The import edges among the universe `names`, by index, and which
/// modules have a file that could not be read.
fn import_adjacency(tree: &SourceTree, include_root: &str, names: &Vec<String>) -> (r: (Vec<Vec<(usize, Junct)>>, Vec<bool>))
    requires
        sorted(strs(names@)),
        forall|j: int, k: int|
            0 <= j < tree.files@.len() && tree.files@[j].text is Some && 0 <= k < agda_imports(
                tree.files@[j].text->0@,
            ).len() ==> strs(names@).contains(#[trigger] agda_imports(tree.files@[j].text->0@)[k]),
    ensures
        r.0@.len() == names@.len(),
        r.1@.len() == names@.len(),
        adj_wf(adj_view(r.0@)),
        forall|a: int, b: int|
            0 <= a < names@.len() && 0 <= b < names@.len() ==> (has_dep(adj_view(r.0@), a, b) <==> mod_imports(
                tree.files@,
                include_root@,
                names@[a]@,
            ).contains(names@[b]@)),
        forall|a: int| 0 <= a < names@.len() ==> (r.1@[a] <==> mod_unreadable(tree.files@, include_root@, names@[a]@)),
        forall|a: int, x: Seq<char>|
            0 <= a < names@.len() && mod_imports(tree.files@, include_root@, names@[a]@).contains(x) ==> strs(names@).contains(x),
{
    let mut adj: Vec<Vec<(usize, Junct)>> = Vec::new();
    let mut bad: Vec<bool> = Vec::new();
    let mut a: usize = 0;
    while a < names.len()
        invariant
            a <= names@.len(),
            adj@.len() == a,
            bad@.len() == a,
            sorted(strs(names@)),
            forall|j: int, k: int|
                0 <= j < tree.files@.len() && tree.files@[j].text is Some && 0 <= k < agda_imports(
                    tree.files@[j].text->0@,
                ).len() ==> strs(names@).contains(#[trigger] agda_imports(tree.files@[j].text->0@)[k]),
            adj_wf_upto(adj_view(adj@), names@.len()),
            forall|u: int, b: int|
                0 <= u < a && 0 <= b < names@.len() ==> (has_dep(adj_view(adj@), u, b) <==> mod_imports(
                    tree.files@,
                    include_root@,
                    names@[u]@,
                ).contains(names@[b]@)),
            forall|u: int| 0 <= u < a ==> (bad@[u] <==> mod_unreadable(tree.files@, include_root@, names@[u]@)),
            forall|u: int, x: Seq<char>|
                0 <= u < a && mod_imports(tree.files@, include_root@, names@[u]@).contains(x) ==> strs(names@).contains(x),
        decreases names.len() - a,
    {
        let path = crate::path::module_file(names[a].as_str(), include_root, "agda");
        let ghost m = names@[a as int]@;
        let mut row: Vec<(usize, Junct)> = Vec::new();
        let mut unreadable = false;
        let ghost mut imps_spec: Seq<Seq<char>> = Seq::empty();
        proof {
            lemma_file_pos(tree.files@, path@);
        }
        match tree.find(path.as_str()) {
            None => {},
            Some(fi) => {
                match &tree.files[fi].text {
                    None => {
                        unreadable = true;
                    },
                    Some(t) => {
                        let imps = direct_imports(t.as_str());
                        proof {
                            imps_spec = agda_imports(t@);
                        }
                        let mut k: usize = 0;
                        while k < imps.len()
                            invariant
                                k <= imps@.len(),
                                strs(imps@) == imps_spec,
                                imps_spec == agda_imports(t@),
                                tree.files@[fi as int].text == Some(*t),
                                fi < tree.files@.len(),
                                sorted(strs(names@)),
                                forall|j: int, q: int|
                                    0 <= j < tree.files@.len() && tree.files@[j].text is Some && 0 <= q < agda_imports(
                                        tree.files@[j].text->0@,
                                    ).len() ==> strs(names@).contains(#[trigger] agda_imports(tree.files@[j].text->0@)[q]),
                                row@.len() == k,
                                forall|q: int| #![trigger row@[q]] 0 <= q < k ==> row@[q].0 < names@.len() && names@[row@[q].0 as int]@ == imps_spec[q],
                            decreases imps.len() - k,
                        {
                            assert(strs(imps@)[k as int] == imps@[k as int]@);
                            assert(strs(names@).contains(agda_imports(tree.files@[fi as int].text->0@)[k as int]));
                            let ix = index_in(names, imps[k].as_str());
                            let ghost before_row = row@;
                            row.push((ix, Junct::And));
                            assert(row@[k as int].0 == ix);
                            assert(imps_spec[k as int] == imps@[k as int]@);
                            assert(names@[ix as int]@ == imps@[k as int]@);
                            assert(names@[row@[k as int].0 as int]@ == imps_spec[k as int]);
                            assert forall|q: int| #![trigger row@[q]] 0 <= q < k + 1 implies row@[q].0 < names@.len() && names@[row@[q].0 as int]@ == imps_spec[q] by {
                                if q < k {
                                    assert(row@[q] == before_row[q]);
                                } else {
                                    assert(q == k);
                                    assert(names@[row@[k as int].0 as int]@ == imps_spec[k as int]);
                                }
                            }
                            k = k + 1;
                        }
                    },
                }
            },
        }
        proof {
            assert(agda_file(include_root@, m) == path@);
            if unreadable {
                assert(mod_unreadable(tree.files@, include_root@, m));
            } else {
                assert(!mod_unreadable(tree.files@, include_root@, m));
            }
            assert(mod_imports(tree.files@, include_root@, m) == imps_spec);
            assert forall|q: int| #![trigger row@[q]] 0 <= q < row@.len() implies row@[q].0 < names@.len() && names@[row@[q].0 as int]@ == imps_spec[q] by {}
            assert(row@.len() == imps_spec.len());
        }
        let ghost before = adj@;
        adj.push(row);
        bad.push(unreadable);
        proof {
            let av = adj_view(adj@);
            assert(av =~= adj_view(before).push(row@));
            assert forall|u: int, b: int|
                0 <= u < a + 1 && 0 <= b < names@.len() implies (has_dep(av, u, b) <==> mod_imports(
                    tree.files@,
                    include_root@,
                    names@[u]@,
                ).contains(names@[b]@)) by {
                if u < a {
                    assert(av[u] == adj_view(before)[u]);
                    if has_dep(av, u, b) {
                        let k = choose|k: int| #![trigger av[u][k]] 0 <= k < av[u].len() && av[u][k].0 == b;
                        assert(adj_view(before)[u][k].0 == b);
                        assert(has_dep(adj_view(before), u, b));
                    }
                    if has_dep(adj_view(before), u, b) {
                        let k = choose|k: int| #![trigger adj_view(before)[u][k]] 0 <= k < adj_view(before)[u].len() && adj_view(before)[u][k].0 == b;
                        assert(av[u][k].0 == b);
                        assert(has_dep(av, u, b));
                    }
                } else {
                    assert(u == a);
                    assert(av[u] == row@);
                    assert(mod_imports(tree.files@, include_root@, names@[u]@) == imps_spec);
                    if has_dep(av, u, b) {
                        let k = choose|k: int| #![trigger av[u][k]] 0 <= k < av[u].len() && av[u][k].0 == b;
                        assert(row@[k].0 == b);
                        assert(imps_spec[k] == names@[b]@);
                        assert(imps_spec.contains(names@[b]@));
                    }
                    if imps_spec.contains(names@[b]@) {
                        let k = choose|k: int| 0 <= k < imps_spec.len() && imps_spec[k] == names@[b]@;
                        assert(row@[k] == row@[k]);
                        assert(names@[row@[k].0 as int]@ == imps_spec[k]);
                        assert(strs(names@)[row@[k].0 as int] == names@[row@[k].0 as int]@);
                        assert(strs(names@)[b] == names@[b]@);
                        crate::order::lemma_sorted_unique(strs(names@), row@[k].0 as int, b);
                        assert(av[u][k].0 == b);
                        assert(has_dep(av, u, b));
                    }
                }
            }
            assert forall|u: int, x: Seq<char>|
                0 <= u < a + 1 && mod_imports(tree.files@, include_root@, names@[u]@).contains(x) implies strs(names@).contains(x) by {
                if u == a {
                    let k = choose|k: int| 0 <= k < imps_spec.len() && imps_spec[k] == x;
                    assert(names@[row@[k].0 as int]@ == x);
                    assert(strs(names@)[row@[k].0 as int] == x);
                }
            }
            assert(adj_wf_upto(av, names@.len())) by {
                assert forall|u: int, k: int| #![trigger av[u][k]] 0 <= u < av.len() && 0 <= k < av[u].len() implies av[u][k].0 < names@.len() by {
                    if u < a {
                        assert(av[u] == adj_view(before)[u]);
                    } else {
                        assert(av[u][k] == row@[k]);
                    }
                }
            }
        }
        a = a + 1;
    }
    (adj, bad)
}

/// Every dependency index is below `n`.
pub open spec fn adj_wf_upto(adj: Seq<Seq<(usize, Junct)>>, n: nat) -> bool {
    forall|u: int, k: int| #![trigger adj[u][k]] 0 <= u < adj.len() && 0 <= k < adj[u].len() ==> adj[u][k].0 < n
}

/// The names whose mark is set, in order.
pub open spec fn marked_names(names: Seq<Seq<char>>, marks: Seq<bool>) -> Seq<Seq<char>>
    decreases names.len(),
{
    if names.len() == 0 || marks.len() == 0 {
        Seq::empty()
    } else if marks.last() {
        marked_names(names.drop_last(), marks.drop_last()).push(names.last())
    } else {
        marked_names(names.drop_last(), marks.drop_last())
    }
}

proof fn lemma_marked_names(names: Seq<Seq<char>>, marks: Seq<bool>)
    requires
        names.len() == marks.len(),
    ensures
        forall|m: Seq<char>| marked_names(names, marks).contains(m) <==> exists|v: int| 0 <= v < names.len() && marks[v] && names[v] == m,
        sorted(names) ==> sorted(marked_names(names, marks)),
        forall|i: int| 0 <= i < marked_names(names, marks).len() ==> exists|v: int| 0 <= v < names.len() && names[v] == #[trigger] marked_names(names, marks)[i],
    decreases names.len(),
{
    if names.len() > 0 {
        let n0 = names.drop_last();
        let m0 = marks.drop_last();
        lemma_marked_names(n0, m0);
        let r0 = marked_names(n0, m0);
        assert forall|m: Seq<char>| marked_names(names, marks).contains(m) <==> exists|v: int| 0 <= v < names.len() && marks[v] && names[v] == m by {
            if marked_names(names, marks).contains(m) {
                let i = choose|i: int| 0 <= i < marked_names(names, marks).len() && marked_names(names, marks)[i] == m;
                if i < r0.len() {
                    assert(r0[i] == m);
                    assert(r0.contains(m));
                    let v = choose|v: int| 0 <= v < n0.len() && m0[v] && n0[v] == m;
                    assert(names[v] == m && marks[v]);
                } else {
                    assert(names[names.len() - 1] == m);
                }
            }
            if exists|v: int| 0 <= v < names.len() && marks[v] && names[v] == m {
                let v = choose|v: int| 0 <= v < names.len() && marks[v] && names[v] == m;
                if v < names.len() - 1 {
                    assert(n0[v] == m && m0[v]);
                    assert(r0.contains(m));
                    let i = choose|i: int| 0 <= i < r0.len() && r0[i] == m;
                    assert(marked_names(names, marks)[i] == m);
                } else {
                    assert(marked_names(names, marks).last() == m);
                }
            }
        }
        assert forall|i: int| 0 <= i < marked_names(names, marks).len() implies exists|v: int| 0 <= v < names.len() && names[v] == #[trigger] marked_names(names, marks)[i] by {
            if i < r0.len() {
                let v = choose|v: int| 0 <= v < n0.len() && n0[v] == #[trigger] r0[i];
                assert(names[v] == r0[i]);
            } else {
                assert(names[names.len() - 1] == marked_names(names, marks)[i]);
            }
        }
        if sorted(names) {
            assert(sorted(n0)) by {
                assert forall|i: int, j: int| 0 <= i < j < n0.len() implies lt(#[trigger] n0[i], #[trigger] n0[j]) by {
                    assert(lt(names[i], names[j]));
                }
            }
            let r = marked_names(names, marks);
            assert forall|i: int, j: int| 0 <= i < j < r.len() implies lt(#[trigger] r[i], #[trigger] r[j]) by {
                if j < r0.len() {
                    assert(r[i] == r0[i] && r[j] == r0[j]);
                } else {
                    assert(r[i] == r0[i]);
                    let v = choose|v: int| 0 <= v < n0.len() && n0[v] == #[trigger] r0[i];
                    assert(lt(names[v], names[names.len() - 1]));
                }
            }
        }
    }
}

/// The modules a walk from `entry` starts at: the entry's own module when
/// it lies below `root`, otherwise what the entry file imports; `None` when
/// neither can be had (the entry is outside `root` and cannot be read).
pub open spec fn walk_seeds(files: Seq<SourceFile>, root: Seq<char>, entry: Seq<char>) -> Option<Seq<Seq<char>>> {
    match module_name_spec(entry, root) {
        Some(m) => Some(seq![m]),
        None => match text_at(files, entry) {
            Some(Some(t)) => Some(agda_imports(t)),
            _ => None,
        },
    }
}

proof fn lemma_walk_correspondence(
    files: Seq<SourceFile>,
    root: Seq<char>,
    seeds: Seq<Seq<char>>,
    names: Seq<Seq<char>>,
    adj: Seq<Seq<(usize, Junct)>>,
    roots: Seq<usize>,
    v: int,
)
    requires
        sorted(names),
        adj.len() == names.len(),
        names.len() <= usize::MAX,
        adj_wf(adj),
        0 <= v < names.len(),
        forall|a: int, b: int|
            0 <= a < names.len() && 0 <= b < names.len() ==> (has_dep(adj, a, b) <==> mod_imports(files, root, names[a]).contains(names[b])),
        forall|a: int, x: Seq<char>| 0 <= a < names.len() && mod_imports(files, root, names[a]).contains(x) ==> names.contains(x),
        roots.len() == seeds.len(),
        forall|i: int| #![trigger roots[i]] 0 <= i < roots.len() ==> roots[i] < names.len() && names[roots[i] as int] == seeds[i],
    ensures
        reaches(adj, roots, v) <==> mod_reaches(files, root, seeds, names[v]),
{
    if reaches(adj, roots, v) {
        let p = choose|p: Seq<int>| #![trigger is_walk(adj, p)] is_walk(adj, p) && roots.contains(p[0] as usize) && p.last() == v;
        let q = Seq::new(p.len(), |i: int| names[p[i]]);
        assert forall|i: int| #![trigger q[i]] 0 <= i < q.len() - 1 implies mod_imports(files, root, q[i]).contains(q[i + 1]) by {
            assert(has_dep(adj, p[i], p[i + 1]));
            assert(0 <= p[i] < adj.len());
            assert(0 <= p[i + 1] < adj.len());
        }
        assert(import_chain(files, root, q));
        let j = choose|j: int| 0 <= j < roots.len() && roots[j] == p[0] as usize;
        assert(names[roots[j] as int] == seeds[j]);
        assert(seeds.contains(names[roots[j] as int]));
        assert(0 <= p[0] < adj.len());
        assert(roots[j] as int == p[0]);
        assert(q[0] == names[roots[j] as int]);
        assert(q.last() == names[v]);
        assert(import_chain(files, root, q) && seeds.contains(q[0]) && q.last() == names[v]);
    }
    if mod_reaches(files, root, seeds, names[v]) {
        let q = choose|q: Seq<Seq<char>>| #![trigger import_chain(files, root, q)] import_chain(files, root, q) && seeds.contains(q[0]) && q.last() == names[v];
        assert forall|i: int| 0 <= i < seeds.len() implies names.contains(#[trigger] seeds[i]) by {
            assert(names[roots[i] as int] == seeds[i]);
        }
        lemma_chain_in_names(files, root, seeds, names, q, q.len() as int);
        let p = Seq::new(q.len(), |i: int| crate::reason::idx(names, q[i]));
        assert forall|i: int| 0 <= i < p.len() implies 0 <= #[trigger] p[i] < adj.len() && names[p[i]] == q[i] by {
            assert(names.contains(q[i]));
        }
        assert forall|i: int| 0 <= i < p.len() - 1 implies has_dep(adj, p[i], #[trigger] p[i + 1]) by {
            assert(0 <= p[i] < adj.len() && names[p[i]] == q[i]);
            assert(0 <= p[i + 1] < adj.len() && names[p[i + 1]] == q[i + 1]);
            assert(mod_imports(files, root, q[i]).contains(q[i + 1]));
        }
        assert(is_walk(adj, p));
        let si = choose|si: int| 0 <= si < seeds.len() && seeds[si] == q[0];
        let j = si;
        assert(names[roots[j] as int] == seeds[si]);
        assert(names[p[0]] == q[0]);
        crate::order::lemma_sorted_unique(names, p[0], roots[j] as int);
        assert(roots[j] as int == p[0]);
        assert(roots.contains(p[0] as usize));
        assert(names[p.last()] == q.last());
        crate::order::lemma_sorted_unique(names, p.last(), v);
    }
}

proof fn lemma_chain_in_names(
    files: Seq<SourceFile>,
    root: Seq<char>,
    seeds: Seq<Seq<char>>,
    names: Seq<Seq<char>>,
    q: Seq<Seq<char>>,
    n: int,
)
    requires
        import_chain(files, root, q),
        seeds.contains(q[0]),
        0 <= n <= q.len(),
        forall|a: int, x: Seq<char>| 0 <= a < names.len() && mod_imports(files, root, names[a]).contains(x) ==> names.contains(x),
        forall|i: int| 0 <= i < seeds.len() ==> names.contains(#[trigger] seeds[i]),
    ensures
        forall|i: int| 0 <= i < n ==> names.contains(#[trigger] q[i]),
    decreases n,
{
    if n > 0 {
        lemma_chain_in_names(files, root, seeds, names, q, n - 1);
        if n - 1 == 0 {
            let si = choose|si: int| 0 <= si < seeds.len() && seeds[si] == q[0];
            assert(names.contains(seeds[si]));
        } else {
            assert(names.contains(q[n - 2]));
            let a = choose|a: int| 0 <= a < names.len() && names[a] == q[n - 2];
            assert(mod_imports(files, root, q[n - 2]).contains(q[n - 2 + 1]));
        }
    }
}

fn seed_modules(entry: &str, include_root: &str, tree: &SourceTree) -> (r: Option<Vec<String>>)
    ensures
        r matches Some(v) ==> walk_seeds(tree.files@, include_root@, entry@) == Some(strs(v@)),
        r is None ==> walk_seeds(tree.files@, include_root@, entry@) is None,
{
    match module_name_of(entry, include_root) {
        Some(m) => {
            let mut v: Vec<String> = Vec::new();
            let ghost mv = m@;
            v.push(m);
            assert(strs(v@) =~= seq![mv]);
            Some(v)
        },
        None => {
            proof {
                lemma_file_pos(tree.files@, entry@);
            }
            match tree.find(entry) {
                None => None,
                Some(i) => match &tree.files[i].text {
                    None => None,
                    Some(t) => Some(direct_imports(t.as_str())),
                },
            }
        },
    }
}

proof fn lemma_walk_result(
    files: Seq<SourceFile>,
    root: Seq<char>,
    sv: Seq<Seq<char>>,
    names: Seq<String>,
    nv: Seq<Seq<char>>,
    marks: Seq<bool>,
    bad: Seq<bool>,
    out: Seq<String>,
)
    requires
        nv == strs(names),
        sorted(nv),
        marks.len() == names.len(),
        bad.len() == names.len(),
        forall|a: int| 0 <= a < names.len() ==> (bad[a] <==> mod_unreadable(files, root, names[a]@)),
        forall|v: int| 0 <= v < names.len() ==> (marks[v] <==> mod_reaches(files, root, sv, nv[v])),
        forall|a: int| 0 <= a < names.len() ==> !(marks[a] && bad[a]),
        strs(out) == marked_names(nv, marks),
        forall|i: int| 0 <= i < sv.len() ==> nv.contains(#[trigger] sv[i]),
        forall|a: int, x: Seq<char>| 0 <= a < nv.len() && mod_imports(files, root, nv[a]).contains(x) ==> nv.contains(x),
    ensures
        sorted(strs(out)),
        forall|m: Seq<char>| strs(out).contains(m) <==> mod_reaches(files, root, sv, m),
        !exists|m: Seq<char>| #![trigger mod_unreadable(files, root, m)] mod_reaches(files, root, sv, m) && mod_unreadable(files, root, m),
{
        lemma_marked_names(nv, marks);
        assert forall|m: Seq<char>| mod_reaches(files, root, sv, m) implies nv.contains(m) by {
            let q = choose|q: Seq<Seq<char>>| #![trigger import_chain(files, root, q)] import_chain(files, root, q) && sv.contains(q[0]) && q.last() == m;
            lemma_chain_in_names(files, root, sv, nv, q, q.len() as int);
            assert(nv.contains(q[q.len() - 1]));
        }
        assert forall|m: Seq<char>| strs(out).contains(m) <==> mod_reaches(files, root, sv, m) by {
            if mod_reaches(files, root, sv, m) {
                assert(nv.contains(m));
                let v = choose|v: int| 0 <= v < nv.len() && nv[v] == m;
                assert(marks[v]);
            }
        }
        assert forall|m: Seq<char>| #![trigger mod_unreadable(files, root, m)]
            !(mod_reaches(files, root, sv, m) && mod_unreadable(files, root, m)) by {
            if mod_reaches(files, root, sv, m) {
                assert(nv.contains(m));
                let v = choose|v: int| 0 <= v < nv.len() && nv[v] == m;
                assert(marks[v]);
                assert(!bad[v]);
                assert(names[v]@ == nv[v]);
            }
        }
    }

/// The modules reachable from `entry` by following imports, as a sorted
/// set. The walk starts at the entry's own module when the entry lies below
/// `include_root`, otherwise at what the entry imports; it follows each
/// module to its `.agda` file in `tree`, and stops at modules with no file
/// there (library and external modules), which are still counted. A cycle
/// is harmless. It fails when the entry must be read and cannot be, or when
/// a reached module's file cannot be read.
pub fn transitive_imports(entry: &str, include_root: &str, tree: &SourceTree) -> (r: Result<Vec<String>, String>)
    ensures
        walk_seeds(tree.files@, include_root@, entry@) is None ==> r is Err,
        walk_seeds(tree.files@, include_root@, entry@) matches Some(seeds) ==> (r is Ok <==> !exists|m: Seq<char>|
            #![trigger mod_unreadable(tree.files@, include_root@, m)]
            mod_reaches(tree.files@, include_root@, seeds, m) && mod_unreadable(tree.files@, include_root@, m)),
        r matches Ok(v) ==> sorted(strs(v@)),
        r matches Ok(v) ==> (walk_seeds(tree.files@, include_root@, entry@) matches Some(seeds)
            && forall|m: Seq<char>| strs(v@).contains(m) <==> mod_reaches(tree.files@, include_root@, seeds, m)),
        r matches Err(e) ==> walk_fails_with(tree.files@, include_root@, entry@, e@),
{
    let seeds = match seed_modules(entry, include_root, tree) {
        Some(s) => s,
        None => {
            let mut msg = String::from_str("reading ");
            msg.append(entry);
            proof {
                reveal_strlit("reading ");
            }
            return Err(msg);
        },
    };
    let ghost sv = strs(seeds@);
    let names = module_universe(tree, &seeds);
    let ghost nv = strs(names@);
    let (adj, bad) = import_adjacency(tree, include_root, &names);
    let mut roots: Vec<usize> = Vec::new();
    let mut i: usize = 0;
    while i < seeds.len()
        invariant
            i <= seeds@.len(),
            sv == strs(seeds@),
            nv == strs(names@),
            sorted(nv),
            forall|k: int| 0 <= k < seeds@.len() ==> nv.contains(#[trigger] seeds@[k]@),
            roots@.len() == i,
            forall|k: int| #![trigger roots@[k]] 0 <= k < i ==> roots@[k] < names@.len() && nv[roots@[k] as int] == sv[k],
        decreases seeds.len() - i,
    {
        assert(sv[i as int] == seeds@[i as int]@);
        let ix = index_in(&names, seeds[i].as_str());
        let ghost before = roots@;
        roots.push(ix);
        proof {
            assert(nv[ix as int] == names@[ix as int]@);
            assert(roots@[i as int] == ix);
            assert(names@[ix as int]@ == seeds@[i as int]@);
            assert forall|k: int| #![trigger roots@[k]] 0 <= k < i + 1 implies roots@[k] < names@.len() && nv[roots@[k] as int] == sv[k] by {
                if k < i {
                    assert(roots@[k] == before[k]);
                    assert(nv[before[k] as int] == sv[k]);
                } else {
                    assert(k == i);
                    assert(nv[roots@[k] as int] == nv[ix as int]);
                }
            }
        }
        i = i + 1;
    }
    proof {
        assert(roots@.len() == sv.len());
        assert(adj_wf(adj_view(adj@)));
        assert forall|a: int, b: int|
            0 <= a < nv.len() && 0 <= b < nv.len() implies (has_dep(adj_view(adj@), a, b) <==> mod_imports(tree.files@, include_root@, nv[a]).contains(nv[b])) by {
            assert(nv[a] == names@[a]@ && nv[b] == names@[b]@);
        }
        assert forall|a: int, x: Seq<char>| 0 <= a < nv.len() && mod_imports(tree.files@, include_root@, nv[a]).contains(x) implies nv.contains(x) by {
            assert(nv[a] == names@[a]@);
        }
    }
    let nlen = names.len();
    let marks = reachable_from(&adj, &roots);
    proof {
        assert(nv.len() == names@.len());
        assert(names@.len() == nlen);
        let rv = roots@;
        assert forall|v: int| 0 <= v < names@.len() implies (marks@[v] <==> mod_reaches(tree.files@, include_root@, sv, nv[v])) by {
            lemma_walk_correspondence(tree.files@, include_root@, sv, nv, adj_view(adj@), rv, v);
        }
    }
    let mut out: Vec<String> = Vec::new();
    let mut k: usize = 0;
    while k < names.len()
        invariant
            k <= names@.len(),
            nv == strs(names@),
            sorted(nv),
            marks@.len() == names@.len(),
            bad@.len() == names@.len(),
            forall|a: int| 0 <= a < names@.len() ==> (bad@[a] <==> mod_unreadable(tree.files@, include_root@, names@[a]@)),
            forall|v: int| 0 <= v < names@.len() ==> (marks@[v] <==> mod_reaches(tree.files@, include_root@, sv, nv[v])),
            forall|a: int| 0 <= a < k ==> !(marks@[a] && bad@[a]),
            strs(out@) == marked_names(nv.take(k as int), marks@.take(k as int)),
            walk_seeds(tree.files@, include_root@, entry@) == Some(sv),
        decreases names.len() - k,
    {
        proof {
            assert(marks@.take(k + 1).drop_last() =~= marks@.take(k as int));
            assert(nv.take(k + 1).drop_last() =~= nv.take(k as int));
        }
        if marks[k] && bad[k] {
            proof {
                assert(nv[k as int] == names@[k as int]@);
                assert(mod_reaches(tree.files@, include_root@, sv, nv[k as int]));
                assert(mod_unreadable(tree.files@, include_root@, nv[k as int]));
            }
            let p = crate::path::module_file(names[k].as_str(), include_root, "agda");
            let mut msg = String::from_str("reading ");
            msg.append(p.as_str());
            proof {
                reveal_strlit("reading ");
                reveal_strlit("agda");
                assert(mod_unreadable(tree.files@, include_root@, names@[k as int]@));
            }
            return Err(msg);
        }
        if marks[k] {
            let ghost before = out@;
            out.push(names[k].clone());
            assert(strs(out@) =~= strs(before).push(nv[k as int]));
        }
        k = k + 1;
    }
    proof {
        assert(nv.take(nv.len() as int) =~= nv);
        assert(marks@.take(marks@.len() as int) =~= marks@);
        lemma_walk_result(tree.files@, include_root@, sv, names@, nv, marks@, bad@, out@);
    }
    Ok(out)
}

/// The walk from `entry` can be made: its start is known and no module it
/// reaches has a file that cannot be read.
pub open spec fn walk_ok(files: Seq<SourceFile>, root: Seq<char>, entry: Seq<char>) -> bool {
    match walk_seeds(files, root, entry) {
        Some(seeds) => !exists|m: Seq<char>|
            #![trigger mod_unreadable(files, root, m)]
            mod_reaches(files, root, seeds, m) && mod_unreadable(files, root, m),
        None => false,
    }
}

/// Module `m` is reached by the walk from `entry`.
pub open spec fn walk_reaches(files: Seq<SourceFile>, root: Seq<char>, entry: Seq<char>, m: Seq<char>) -> bool {
    match walk_seeds(files, root, entry) {
        Some(seeds) => mod_reaches(files, root, seeds, m),
        None => false,
    }
}

/// `e` is the error of the import walk from `entry`: `reading <entry>`
/// when its start cannot be known, else `reading <file>` for the file of a
/// reached module that cannot be read.
pub open spec fn walk_fails_with(files: Seq<SourceFile>, root: Seq<char>, entry: Seq<char>, e: Seq<char>) -> bool {
    match walk_seeds(files, root, entry) {
        None => e == "reading "@ + entry,
        Some(seeds) => exists|m: Seq<char>|
            #![trigger mod_unreadable(files, root, m)]
            mod_reaches(files, root, seeds, m) && mod_unreadable(files, root, m)
                && e == "reading "@ + crate::path::module_file_spec(root, m, "agda"@),
    }
}

/// `e` is the error of the first of `roots` whose walk fails.
pub open spec fn roots_fail_with(files: Seq<SourceFile>, root: Seq<char>, roots: Seq<String>, e: Seq<char>) -> bool {
    exists|k: int|
        0 <= k < roots.len() && (forall|j: int| 0 <= j < k ==> walk_ok(files, root, #[trigger] roots[j]@))
            && #[trigger] walk_fails_with(files, root, roots[k]@, e)
}

/// The union of the modules reachable from each of `roots`: a module
/// verified from any entry point counts. Fails when any single walk does.
pub fn reachable_from_roots(roots: &[String], include_root: &str, tree: &SourceTree) -> (r: Result<Vec<String>, String>)
    ensures
        r is Ok <==> forall|k: int| 0 <= k < roots@.len() ==> walk_ok(tree.files@, include_root@, #[trigger] roots@[k]@),
        r matches Ok(v) ==> sorted(strs(v@)),
        r matches Ok(v) ==> forall|m: Seq<char>| strs(v@).contains(m) <==> exists|k: int|
            0 <= k < roots@.len() && walk_reaches(tree.files@, include_root@, #[trigger] roots@[k]@, m),
        r matches Err(e) ==> roots_fail_with(tree.files@, include_root@, roots@, e@),
{
    let mut all: Vec<String> = Vec::new();
    let mut k: usize = 0;
    while k < roots.len()
        invariant
            k <= roots@.len(),
            sorted(strs(all@)),
            forall|j: int| 0 <= j < k ==> walk_ok(tree.files@, include_root@, #[trigger] roots@[j]@),
            forall|m: Seq<char>| strs(all@).contains(m) <==> exists|j: int|
                0 <= j < k && walk_reaches(tree.files@, include_root@, #[trigger] roots@[j]@, m),
        decreases roots.len() - k,
    {
        match transitive_imports(roots[k].as_str(), include_root, tree) {
            Err(e) => {
                assert(!walk_ok(tree.files@, include_root@, roots@[k as int]@));
                assert(walk_fails_with(tree.files@, include_root@, roots@[k as int]@, e@));
                return Err(e);
            },
            Ok(ms) => {
                let ghost before = strs(all@);
                let mut q: usize = 0;
                while q < ms.len()
                    invariant
                        q <= ms@.len(),
                        sorted(strs(all@)),
                        forall|m: Seq<char>| #![trigger strs(all@).contains(m)] strs(all@).contains(m) <==> before.contains(m) || strs(ms@).take(q as int).contains(m),
                    decreases ms.len() - q,
                {
                    let ghost b2 = strs(all@);
                    let x = ms[q].clone();
                    let ghost xv = x@;
                    assert(xv == ms@[q as int]@);
                    set_insert(&mut all, x);
                    proof {
                        assert(strs(ms@)[q as int] == ms@[q as int]@);
                        assert forall|m: Seq<char>| #![trigger strs(all@).contains(m)] strs(all@).contains(m) <==> before.contains(m) || strs(ms@).take(q + 1).contains(m) by {
                            crate::order::lemma_set_insert_contains(b2, strs(all@), xv, m);
                            crate::order::lemma_take_push_contains(strs(ms@), q as int, m);
                        }
                    }
                    q = q + 1;
                }
                proof {
                    assert(strs(ms@).take(ms@.len() as int) =~= strs(ms@));
                    assert forall|m: Seq<char>| strs(all@).contains(m) <==> exists|j: int|
                        0 <= j < k + 1 && walk_reaches(tree.files@, include_root@, #[trigger] roots@[j]@, m) by {
                        if strs(ms@).contains(m) {
                            assert(walk_reaches(tree.files@, include_root@, roots@[k as int]@, m));
                        }
                        if walk_reaches(tree.files@, include_root@, roots@[k as int]@, m) {
                            assert(strs(ms@).contains(m));
                        }
                        if exists|j: int| 0 <= j < k + 1 && walk_reaches(tree.files@, include_root@, #[trigger] roots@[j]@, m) {
                            let j = choose|j: int| 0 <= j < k + 1 && walk_reaches(tree.files@, include_root@, #[trigger] roots@[j]@, m);
                            if j < k {
                                assert(before.contains(m));
                            }
                        }
                    }
                    assert(walk_ok(tree.files@, include_root@, roots@[k as int]@));
                }
            },
        }
        k = k + 1;
    }
    Ok(all)
}

} // verus!
