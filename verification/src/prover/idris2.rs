//! The Idris2 backend: `idris2 --check --source-dir <root> <file>`; the
//! exit code is the verdict. Modules are dotted like Agda's (`Data.Vect`
//! is `Data/Vect.idr`); imports are top-level `import [public] M [as A]`
//! lines; entry modules are the `main` of an `.ipkg` package and any
//! `Main.idr`.

use vstd::prelude::*;
use super::{str_views, Backend, BackendKind};
use super::isabelle::{drop_lead_quotes, drop_trail_quotes, parent_dir};
use crate::graph::{module_name_spec, text_at, trim_module_end, trim_module_tail, SourceFile, SourceTree};
use crate::path::{extension_of, file_name_of, module_file_spec, path_join};
use crate::lint::{Rule, RuleConfig};
use crate::lint::idris2::Idris2EscapeHatch;
use crate::order::{distinct, path_set_insert, path_sorted, strs};
use crate::text::{before, before_vec, chars_of, contains, contains_seq, find_first, first_occ, has_prefix, lines, occurs_at, seq_eq, slice_vec, somes, split_lines, split_words, starts_with, string_of, trim, trim_start, trim_start_vec, trim_vec, views, words};

verus! {

/// The Idris2 proof assistant / dependently-typed language.
#[derive(Clone, Copy, Debug)]
pub struct Idris2;

/// The module an Idris2 line imports: the token after a leading `import`
/// (and an optional `public`), trimmed of trailing punctuation; comment
/// lines import nothing.
pub open spec fn idris_line_import(line: Seq<char>) -> Option<Seq<char>> {
    let t = trim_start(line);
    if starts_with(t, "--"@) {
        None
    } else {
        let ts = words(before(t, " --"@));
        let idx: int = if ts.len() > 1 && ts[1] == "public"@ { 2 } else { 1 };
        if ts.len() >= 1 && ts[0] == "import"@ && idx < ts.len() && trim_module_end(ts[idx]).len() > 0 {
            Some(trim_module_end(ts[idx]))
        } else {
            None
        }
    }
}

/// The import found on each line.
pub open spec fn idris_line_imports(ls: Seq<Seq<char>>) -> Seq<Option<Seq<char>>> {
    ls.map_values(|l: Seq<char>| idris_line_import(l))
}

/// The modules an Idris2 source imports, in order.
pub open spec fn idris_imports(text: Seq<char>) -> Seq<Seq<char>> {
    somes(idris_line_imports(lines(text)))
}

fn idris_import_of_line(line: &[char]) -> (r: Option<Vec<char>>)
    ensures
        r matches Some(v) ==> idris_line_import(line@) == Some(v@),
        r is None ==> idris_line_import(line@) is None,
{
    let t = trim_start_vec(line);
    if has_prefix(&t, &chars_of("--")) {
        return None;
    }
    let code = before_vec(&t, &chars_of(" --"));
    let ts = split_words(&code);
    if ts.len() < 1 {
        return None;
    }
    assert(views(ts@)[0] == ts@[0]@);
    if !seq_eq(&ts[0], &chars_of("import")) {
        return None;
    }
    let mut idx: usize = 1;
    if ts.len() > 1 {
        assert(views(ts@)[1] == ts@[1]@);
        if seq_eq(&ts[1], &chars_of("public")) {
            idx = 2;
        }
    }
    if idx >= ts.len() {
        return None;
    }
    assert(views(ts@)[idx as int] == ts@[idx as int]@);
    let c = trim_module_tail(&ts[idx]);
    if c.len() == 0 {
        None
    } else {
        Some(c)
    }
}

/// One `key = value` field of an `.ipkg` line (its `--` comment cut off).
pub open spec fn ipkg_field(line: Seq<char>) -> Option<(Seq<char>, Seq<char>)> {
    let code = before(line, "--"@);
    if contains(code, "="@) {
        Some((trim(before(code, "="@)), code.skip(first_occ(code, "="@) + 1)))
    } else {
        None
    }
}

/// The `main` modules and the source directory an `.ipkg` declares.
pub open spec fn ipkg_scan(ls: Seq<Seq<char>>) -> (Seq<Seq<char>>, Option<Seq<char>>)
    decreases ls.len(),
{
    if ls.len() == 0 {
        (Seq::empty(), None)
    } else {
        let (mains, sd) = ipkg_scan(ls.drop_last());
        match ipkg_field(ls.last()) {
            Some((k, v)) => if k == "main"@ {
                (mains.push(trim(v)), sd)
            } else if k == "sourcedir"@ || k == "source-dir"@ {
                (mains, Some(trim(drop_trail_quotes(drop_lead_quotes(trim(v))))))
            } else {
                (mains, sd)
            },
            None => (mains, sd),
        }
    }
}

/// The directories a `main` module is looked up under, in order.
pub open spec fn ipkg_bases(ipkg_dir: Seq<char>, root: Seq<char>, sd: Option<Seq<char>>) -> Seq<Seq<char>> {
    match sd {
        Some(d) => seq![path_join(ipkg_dir, d), path_join(root, d), ipkg_dir, root],
        None => seq![ipkg_dir, root],
    }
}

/// The first base under which module `m` has a file in `files`.
pub open spec fn first_existing(files: Seq<SourceFile>, bases: Seq<Seq<char>>, m: Seq<char>) -> Option<Seq<char>>
    decreases bases.len(),
{
    if bases.len() == 0 {
        None
    } else {
        let p = module_file_spec(bases[0], m, "idr"@);
        if text_at(files, p) is Some { Some(p) } else { first_existing(files, bases.drop_first(), m) }
    }
}

/// The files the `main` declarations of an `.ipkg` at `ipkg` resolve to.
pub open spec fn ipkg_roots_spec(files: Seq<SourceFile>, ipkg: Seq<char>, contents: Seq<char>, root: Seq<char>) -> Seq<Seq<char>> {
    let (mains, sd) = ipkg_scan(lines(contents));
    let bases = ipkg_bases(parent_dir(ipkg), root, sd);
    somes(mains.map_values(|m: Seq<char>| first_existing(files, bases, m)))
}

fn ipkg_field_of(line: &[char]) -> (r: Option<(Vec<char>, Vec<char>)>)
    ensures
        r matches Some((k, v)) ==> ipkg_field(line@) == Some((k@, v@)),
        r is None ==> ipkg_field(line@) is None,
{
    let code = before_vec(line, &chars_of("--"));
    let eq = chars_of("=");
    match find_first(&code, &eq) {
        None => None,
        Some(k) => {
            proof {
                reveal_strlit("=");
            }
            assert(occurs_at(code@, eq@, k as int));
            let total = code.len();
            assert(k + 1 <= total);
            let key = trim_vec(&slice_vec(&code, 0, k));
            let value = slice_vec(&code, k + 1, total);
            assert(code@.take(k as int) == code@.take(first_occ(code@, "="@)));
            assert(before(code@, "="@) =~= code@.take(k as int));
            assert(value@ =~= code@.skip(first_occ(code@, "="@) + 1));
            Some((key, value))
        },
    }
}

fn unquote(s: &[char]) -> (r: Vec<char>)
    ensures
        r@ == drop_trail_quotes(drop_lead_quotes(s@)),
{
    let mut i: usize = 0;
    assert(s@.skip(0) =~= s@);
    loop
        invariant
            i <= s@.len(),
            drop_lead_quotes(s@) == drop_lead_quotes(s@.skip(i as int)),
        ensures
            i <= s@.len(),
            drop_lead_quotes(s@) == s@.skip(i as int),
        decreases s.len() - i,
    {
        if i >= s.len() {
            assert(s@.skip(i as int).len() == 0);
            break;
        }
        assert(s@.skip(i as int)[0] == s@[i as int]);
        if s[i] != '"' {
            break;
        }
        assert(s@.skip(i as int).drop_first() =~= s@.skip(i + 1));
        i = i + 1;
    }
    let a = slice_vec(s, i, s.len());
    assert(a@ =~= s@.skip(i as int));
    let mut n: usize = a.len();
    assert(a@.take(n as int) =~= a@);
    loop
        invariant
            n <= a@.len(),
            drop_trail_quotes(a@) == drop_trail_quotes(a@.take(n as int)),
        ensures
            n <= a@.len(),
            drop_trail_quotes(a@) == a@.take(n as int),
        decreases n,
    {
        if n == 0 {
            assert(a@.take(0).len() == 0);
            break;
        }
        assert(a@.take(n as int).last() == a@[n - 1]);
        if a[n - 1] != '"' {
            break;
        }
        assert(a@.take(n as int).drop_last() =~= a@.take(n - 1));
        n = n - 1;
    }
    let r = slice_vec(&a, 0, n);
    assert(r@ =~= a@.take(n as int));
    r
}

fn parent_of(p: &str) -> (r: String)
    ensures
        r@ == parent_dir(p@),
{
    super::isabelle::parent_dir_of(p)
}

fn resolve_main(tree: &SourceTree, bases: &Vec<String>, m: &str) -> (r: Option<String>)
    ensures
        r matches Some(p) ==> first_existing(tree.files@, strs(bases@), m@) == Some(p@),
        r is None ==> first_existing(tree.files@, strs(bases@), m@) is None,
{
    let mut i: usize = 0;
    assert(strs(bases@).skip(0) =~= strs(bases@));
    while i < bases.len()
        invariant
            i <= bases@.len(),
            first_existing(tree.files@, strs(bases@), m@) == first_existing(tree.files@, strs(bases@).skip(i as int), m@),
        decreases bases.len() - i,
    {
        let p = crate::path::module_file(m, bases[i].as_str(), "idr");
        assert(strs(bases@).skip(i as int)[0] == bases@[i as int]@);
        if tree.find(p.as_str()).is_some() {
            return Some(p);
        }
        assert(strs(bases@).skip(i as int).drop_first() =~= strs(bases@).skip(i + 1));
        i = i + 1;
    }
    assert(strs(bases@).skip(i as int).len() == 0);
    None
}

#[verifier::spinoff_prover]
#[verifier::rlimit(40)]
fn ipkg_declarations(contents: &str) -> (r: (Vec<String>, Option<String>))
    ensures
        ipkg_scan(lines(contents@)) == (strs(r.0@), match r.1 { Some(d) => Some(d@), None => None }),
{
    let cs = chars_of(contents);
    let ls = split_lines(&cs);
    let ghost lv = views(ls@);
    let mut mains: Vec<String> = Vec::new();
    let mut sourcedir: Option<String> = None;
    let mut i: usize = 0;
    assert(strs(mains@) =~= Seq::<Seq<char>>::empty());
    while i < ls.len()
        invariant
            i <= ls@.len(),
            lv == views(ls@),
            lv == lines(contents@),
            ipkg_scan(lv.take(i as int)) == (strs(mains@), match sourcedir { Some(d) => Some(d@), None => None }),
        decreases ls.len() - i,
    {
        proof {
            assert(lv.take(i + 1).drop_last() =~= lv.take(i as int));
            assert(lv.take(i + 1).last() == ls@[i as int]@);
        }
        match ipkg_field_of(&ls[i]) {
            Some((k, v)) => {
                if seq_eq(&k, &chars_of("main")) {
                    let ghost prev = strs(mains@);
                    mains.push(string_of(&trim_vec(&v)));
                    assert(strs(mains@) =~= prev.push(trim(v@)));
                } else if seq_eq(&k, &chars_of("sourcedir")) || seq_eq(&k, &chars_of("source-dir")) {
                    let t = trim_vec(&v);
                    let u = unquote(&t);
                    sourcedir = Some(string_of(&trim_vec(&u)));
                }
            },
            None => {},
        }
        i = i + 1;
    }
    assert(lv.take(lv.len() as int) =~= lv);
    (mains, sourcedir)
}

/// Resolves the `main = <Module>` declarations of the `.ipkg` at `ipkg`
/// (text `contents`) to the module's `.idr` file in `tree`, honouring an
/// optional `sourcedir`: for each `main`, the first candidate base (the
/// source directory below the package's directory, then below the include
/// root, then the package's directory, then the include root) under which
/// the file exists. Other fields are ignored; `--` comments are cut off.
pub fn ipkg_main_roots(ipkg: &str, contents: &str, include_root: &str, tree: &SourceTree) -> (r: Vec<String>)
    ensures
        strs(r@) == ipkg_roots_spec(tree.files@, ipkg@, contents@, include_root@),
{
    let (mains, sourcedir) = ipkg_declarations(contents);
    let dir = parent_of(ipkg);
    let mut bases: Vec<String> = Vec::new();
    match &sourcedir {
        Some(sd) => {
            bases.push(crate::path::join_path(dir.as_str(), sd.as_str()));
            bases.push(crate::path::join_path(include_root, sd.as_str()));
        },
        None => {},
    }
    bases.push(dir.clone());
    bases.push(String::from_str(include_root));
    assert(strs(bases@) =~= ipkg_bases(parent_dir(ipkg@), include_root@, match sourcedir { Some(d) => Some(d@), None => None }));
    let ghost ms = strs(mains@);
    let ghost f = |m: Seq<char>| first_existing(tree.files@, strs(bases@), m);
    let mut out: Vec<String> = Vec::new();
    let mut k: usize = 0;
    assert(strs(out@) =~= somes(ms.take(0).map_values(f)));
    while k < mains.len()
        invariant
            k <= mains@.len(),
            ms == strs(mains@),
            f == (|m: Seq<char>| first_existing(tree.files@, strs(bases@), m)),
            strs(out@) == somes(ms.take(k as int).map_values(f)),
        decreases mains.len() - k,
    {
        let found = resolve_main(tree, &bases, mains[k].as_str());
        proof {
            let xs = ms.take(k + 1).map_values(f);
            assert(xs.drop_last() =~= ms.take(k as int).map_values(f));
            assert(xs.last() == f(mains@[k as int]@));
        }
        let ghost prev = strs(out@);
        match found {
            Some(p) => {
                out.push(p);
                assert(strs(out@) =~= prev.push(p@));
            },
            None => {},
        }
        k = k + 1;
    }
    assert(ms.take(ms.len() as int) =~= ms);
    out
}

/// The entry files among `files`: the resolved `main` of every readable
/// `.ipkg`, and every `Main.idr`.
pub open spec fn idris_roots(all: Seq<SourceFile>, files: Seq<SourceFile>, root: Seq<char>) -> Seq<Seq<char>>
    decreases files.len(),
{
    if files.len() == 0 {
        Seq::empty()
    } else {
        let rest = idris_roots(all, files.drop_last(), root);
        let f = files.last();
        if extension_of(f.path@) == Some("ipkg"@) {
            match f.text {
                Some(t) => rest + ipkg_roots_spec(all, f.path@, t@, root),
                None => rest,
            }
        } else if extension_of(f.path@) == Some("idr"@) && file_name_of(f.path@) == Some("Main.idr"@) {
            rest.push(f.path@)
        } else {
            rest
        }
    }
}

impl Backend for Idris2 {
    open spec fn exts_spec(&self) -> Seq<Seq<char>> {
        seq!["idr"@]
    }

    open spec fn module_id_spec(&self, file: Seq<char>, root: Seq<char>) -> Option<Seq<char>> {
        module_name_spec(file, root)
    }

    open spec fn module_path_spec(&self, module: Seq<char>, root: Seq<char>) -> Seq<char> {
        module_file_spec(root, module, "idr"@)
    }

    open spec fn imports_spec(&self, text: Seq<char>) -> Seq<Seq<char>> {
        idris_imports(text)
    }

    fn name(&self) -> (r: &'static str)
        ensures
            r@ == "idris2"@,
    {
        "idris2"
    }

    fn kind(&self) -> (r: BackendKind)
        ensures
            r == BackendKind::Assistant,
    {
        BackendKind::Assistant
    }

    fn extensions(&self) -> (r: Vec<&'static str>) {
        let r = vec!["idr"];
        assert(str_views(r@) =~= seq!["idr"@]);
        r
    }

    /// No global `--safe`; totality is opted into file-wide.
    fn safe_mode(&self) -> (r: Option<&'static str>)
        ensures
            r matches Some(m) && m@ == "%default total"@,
    {
        Some("%default total")
    }

    fn command(&self) -> (r: &'static str)
        ensures
            r@ == "idris2"@,
    {
        "idris2"
    }

    fn module_name_of(&self, file: &str, include_root: &str) -> (r: Option<String>) {
        crate::graph::module_name_of(file, include_root)
    }

    fn module_to_path(&self, module: &str, include_root: &str) -> (r: String) {
        crate::path::module_file(module, include_root, "idr")
    }

    fn direct_imports(&self, text: &str) -> (r: Vec<String>) {
        let cs = chars_of(text);
        let ls = split_lines(&cs);
        let ghost lv = views(ls@);
        let mut out: Vec<String> = Vec::new();
        let mut i: usize = 0;
        while i < ls.len()
            invariant
                i <= ls@.len(),
                lv == views(ls@),
                lv == lines(text@),
                strs(out@) == somes(idris_line_imports(lv.take(i as int))),
            decreases ls.len() - i,
        {
            let m = idris_import_of_line(&ls[i]);
            proof {
                let xs = idris_line_imports(lv.take(i + 1));
                assert(xs.drop_last() =~= idris_line_imports(lv.take(i as int)));
                assert(lv[i as int] == ls@[i as int]@);
                assert(xs.last() == idris_line_import(ls@[i as int]@));
            }
            let ghost before = out@;
            match m {
                Some(v) => {
                    out.push(string_of(&v));
                    assert(strs(out@) =~= strs(before).push(v@));
                },
                None => {},
            }
            i = i + 1;
        }
        assert(lv.take(lv.len() as int) =~= lv);
        out
    }

    /// The `.ipkg` mains and every `Main.idr`, ordered by path, each once.
    #[verifier::spinoff_prover]
    #[verifier::rlimit(40)]
    fn discover_roots(&self, include_root: &str, tree: &SourceTree) -> (r: Vec<String>)
        ensures
            distinct(strs(r@)),
            strs(r@).to_set() == idris_roots(tree.files@, tree.files@, include_root@).to_set(),
    {
        let mut out: Vec<String> = Vec::new();
        let mut i: usize = 0;
        assert(strs(out@).to_set() =~= idris_roots(tree.files@, tree.files@.take(0), include_root@).to_set());
        while i < tree.files.len()
            invariant
                i <= tree.files@.len(),
                path_sorted(strs(out@)),
                distinct(strs(out@)),
                strs(out@).to_set() == idris_roots(tree.files@, tree.files@.take(i as int), include_root@).to_set(),
            decreases tree.files.len() - i,
        {
            let f = &tree.files[i];
            let ghost prev = idris_roots(tree.files@, tree.files@.take(i as int), include_root@);
            proof {
                assert(tree.files@.take(i + 1).drop_last() =~= tree.files@.take(i as int));
                assert(tree.files@.take(i + 1).last() == tree.files@[i as int]);
            }
            let ext = crate::path::extension(f.path.as_str());
            let is_ipkg = match &ext {
                Some(e) => crate::text::str_eq(e.as_str(), "ipkg"),
                None => false,
            };
            let is_idr = match &ext {
                Some(e) => crate::text::str_eq(e.as_str(), "idr"),
                None => false,
            };
            let is_main = match crate::path::file_name(f.path.as_str()) {
                Some(n) => crate::text::str_eq(n.as_str(), "Main.idr"),
                None => false,
            };
            if is_ipkg {
                match &f.text {
                    Some(t) => {
                        let found = ipkg_main_roots(f.path.as_str(), t.as_str(), include_root, tree);
                        let ghost add = strs(found@);
                        let ghost start = strs(out@).to_set();
                        let mut k: usize = 0;
                        while k < found.len()
                            invariant
                                k <= found@.len(),
                                add == strs(found@),
                                path_sorted(strs(out@)),
                                distinct(strs(out@)),
                                strs(out@).to_set() == start + add.take(k as int).to_set(),
                            decreases found.len() - k,
                        {
                            path_set_insert(&mut out, found[k].clone());
                            proof {
                                assert(add.take(k + 1) =~= add.take(k as int).push(add[k as int]));
                                add.take(k as int).lemma_push_to_set_commute(add[k as int]);
                            }
                            k = k + 1;
                        }
                        proof {
                            assert(add.take(add.len() as int) =~= add);
                            assert(idris_roots(tree.files@, tree.files@.take(i + 1), include_root@) == prev + add);
                            vstd::seq_lib::seq_to_set_distributes_over_add(prev, add);
                        }
                    },
                    None => {
                        assert(idris_roots(tree.files@, tree.files@.take(i + 1), include_root@) == prev);
                    },
                }
            } else if is_idr && is_main {
                let ghost s0 = strs(out@);
                path_set_insert(&mut out, f.path.clone());
                proof {
                    assert(idris_roots(tree.files@, tree.files@.take(i + 1), include_root@) == prev.push(f.path@));
                    prev.lemma_push_to_set_commute(f.path@);
                }
            } else {
                assert(idris_roots(tree.files@, tree.files@.take(i + 1), include_root@) == prev);
            }
            i = i + 1;
        }
        assert(tree.files@.take(tree.files@.len() as int) =~= tree.files@);
        out
    }

    fn lint_rules(&self, cfg: &RuleConfig) -> (r: Result<Vec<Rule>, String>)
        ensures
            r matches Ok(v) && v@ == seq![Rule::Idris2EscapeHatch(Idris2EscapeHatch)],
    {
        let v = vec![Rule::Idris2EscapeHatch(Idris2EscapeHatch)];
        Ok(v)
    }
}

} // verus!
