//! The Isabelle/HOL backend. A theory is checked by building a throwaway
//! session that lists it (with `quick_and_dirty`, so `sorry` compiles and
//! can be classified): a failing build is an error; a clean one is admitted
//! when the source holds `sorry`/`oops`, postulated when it holds
//! `axiomatization`, and proven otherwise. Imports come from the theory
//! header's `imports` clause; entry theories are those a `ROOT` file lists
//! under `theories`.

use vstd::prelude::*;
use super::{str_views, Backend, BackendKind, Verdict};
use super::rocq::{after_last, last_occ};
use crate::graph::{module_name_spec, text_at, SourceFile, SourceTree};
use crate::path::{file_name_of, module_file_spec, path_join};
use crate::lint::{Rule, RuleConfig};
use crate::lint::isabelle::IsabelleEscapeHatch;
use crate::order::{distinct, path_set_insert, path_sorted, strs};
use crate::text::{alnum, chars_of, contains, ends_with, first_pos, has_prefix, has_suffix, has_token, is_alphanumeric, lemma_first_pos, occurs_at, position_of, rfind, seq_eq, slice_vec, split_words, starts_with, string_of, token_in, views, words};

verus! {

/// The Isabelle/HOL proof assistant.
#[derive(Clone, Copy, Debug)]
pub struct Isabelle;

/// The token separators besides white space.
pub open spec fn isa_seps() -> Seq<char> {
    seq!['(', ')', '{', '}', '[', ']', ';', ',', '.', '"']
}

/// The verdict of an Isabelle build: a failing build is an error; a clean
/// one is admitted on `sorry`/`oops` (this dominates a postulate),
/// postulated on `axiomatization`, else proven.
pub open spec fn isabelle_verdict_spec(src: Seq<char>, exit_ok: bool) -> Verdict {
    if !exit_ok {
        Verdict::Error
    } else if token_in(src, "sorry"@, isa_seps()) || token_in(src, "oops"@, isa_seps()) {
        Verdict::Admitted
    } else if token_in(src, "axiomatization"@, isa_seps()) {
        Verdict::Postulated
    } else {
        Verdict::Proven
    }
}

/// Maps Isabelle source and build status to a verdict.
pub fn isabelle_verdict(src: &str, exit_ok: bool) -> (v: Verdict)
    ensures
        v == isabelle_verdict_spec(src@, exit_ok),
{
    if !exit_ok {
        return Verdict::Error;
    }
    let cs = chars_of(src);
    let seps = vec!['(', ')', '{', '}', '[', ']', ';', ',', '.', '"'];
    assert(seps@ =~= isa_seps());
    if has_token(&cs, &chars_of("sorry"), &seps) || has_token(&cs, &chars_of("oops"), &seps) {
        return Verdict::Admitted;
    }
    if has_token(&cs, &chars_of("axiomatization"), &seps) {
        return Verdict::Postulated;
    }
    Verdict::Proven
}

/// A character a theory name may not start or end with.
pub open spec fn non_name(c: char) -> bool {
    !(alnum(c) || c == '_')
}

/// `s` without leading quotes.
pub open spec fn drop_lead_quotes(s: Seq<char>) -> Seq<char>
    decreases s.len(),
{
    if s.len() > 0 && s[0] == '"' { drop_lead_quotes(s.drop_first()) } else { s }
}

/// `s` without trailing quotes.
pub open spec fn drop_trail_quotes(s: Seq<char>) -> Seq<char>
    decreases s.len(),
{
    if s.len() > 0 && s.last() == '"' { drop_trail_quotes(s.drop_last()) } else { s }
}

/// `s` without leading characters that cannot be part of a name.
pub open spec fn drop_lead_non_name(s: Seq<char>) -> Seq<char>
    decreases s.len(),
{
    if s.len() > 0 && non_name(s[0]) { drop_lead_non_name(s.drop_first()) } else { s }
}

/// `s` without trailing characters that cannot be part of a name.
pub open spec fn drop_trail_non_name(s: Seq<char>) -> Seq<char>
    decreases s.len(),
{
    if s.len() > 0 && non_name(s.last()) { drop_trail_non_name(s.drop_last()) } else { s }
}

/// A theory token as a bare theory name: quotes stripped, the final path
/// segment taken (`"../Other/Baz"` gives `Baz`), non-name characters
/// trimmed from both ends.
pub open spec fn theory_token_spec(tok: Seq<char>) -> Seq<char> {
    let t = drop_trail_quotes(drop_lead_quotes(tok));
    drop_trail_non_name(drop_lead_non_name(after_last(t, "/"@)))
}

fn trim_lead(s: &[char], quotes: bool) -> (r: Vec<char>)
    ensures
        quotes ==> r@ == drop_lead_quotes(s@),
        !quotes ==> r@ == drop_lead_non_name(s@),
{
    let mut i: usize = 0;
    assert(s@.skip(0) =~= s@);
    loop
        invariant
            i <= s@.len(),
            quotes ==> drop_lead_quotes(s@) == drop_lead_quotes(s@.skip(i as int)),
            !quotes ==> drop_lead_non_name(s@) == drop_lead_non_name(s@.skip(i as int)),
        ensures
            i <= s@.len(),
            quotes ==> drop_lead_quotes(s@) == s@.skip(i as int),
            !quotes ==> drop_lead_non_name(s@) == s@.skip(i as int),
        decreases s.len() - i,
    {
        if i >= s.len() {
            assert(s@.skip(i as int).len() == 0);
            break;
        }
        let c = s[i];
        let drop = if quotes { c == '"' } else { !(is_alphanumeric(c) || c == '_') };
        assert(s@.skip(i as int)[0] == c);
        if !drop {
            break;
        }
        assert(s@.skip(i as int).drop_first() =~= s@.skip(i + 1));
        i = i + 1;
    }
    let r = slice_vec(s, i, s.len());
    assert(r@ =~= s@.skip(i as int));
    r
}

fn trim_trail(s: &[char], quotes: bool) -> (r: Vec<char>)
    ensures
        quotes ==> r@ == drop_trail_quotes(s@),
        !quotes ==> r@ == drop_trail_non_name(s@),
{
    let mut n: usize = s.len();
    assert(s@.take(n as int) =~= s@);
    loop
        invariant
            n <= s@.len(),
            quotes ==> drop_trail_quotes(s@) == drop_trail_quotes(s@.take(n as int)),
            !quotes ==> drop_trail_non_name(s@) == drop_trail_non_name(s@.take(n as int)),
        ensures
            n <= s@.len(),
            quotes ==> drop_trail_quotes(s@) == s@.take(n as int),
            !quotes ==> drop_trail_non_name(s@) == s@.take(n as int),
        decreases n,
    {
        if n == 0 {
            assert(s@.take(0).len() == 0);
            break;
        }
        let c = s[n - 1];
        let drop = if quotes { c == '"' } else { !(is_alphanumeric(c) || c == '_') };
        assert(s@.take(n as int).last() == c);
        if !drop {
            break;
        }
        assert(s@.take(n as int).drop_last() =~= s@.take(n - 1));
        n = n - 1;
    }
    let r = slice_vec(s, 0, n);
    assert(r@ =~= s@.take(n as int));
    r
}

fn after_last_slash(s: &[char]) -> (r: Vec<char>)
    ensures
        r@ == after_last(s@, "/"@),
{
    let slash = chars_of("/");
    match rfind(s, &slash) {
        None => slice_vec(s, 0, s.len()),
        Some(i) => {
            proof {
                let k = last_occ(s@, slash@);
                assert(contains(s@, slash@));
                assert(occurs_at(s@, slash@, k) && forall|j: int| k < j ==> !occurs_at(s@, slash@, j));
                if k < i {
                    assert(!occurs_at(s@, slash@, i as int));
                }
                if i < k {
                    assert(!occurs_at(s@, slash@, k));
                }
            }
            let n = slash.len();
            let total = s.len();
            assert(i + n <= total);
            let r = slice_vec(s, i + n, total);
            assert(r@ =~= s@.skip(i + slash@.len()));
            r
        },
    }
}

fn theory_token_chars(tok: &[char]) -> (r: Vec<char>)
    ensures
        r@ == theory_token_spec(tok@),
{
    let a = trim_lead(tok, true);
    let b = trim_trail(&a, true);
    let c = after_last_slash(&b);
    let d = trim_lead(&c, false);
    trim_trail(&d, false)
}

/// Normalises an `imports`/`ROOT` theory token to a bare theory name.
pub fn theory_token(tok: &str) -> (r: String)
    ensures
        r@ == theory_token_spec(tok@),
{
    let cs = chars_of(tok);
    string_of(&theory_token_chars(&cs))
}

/// A token that ends the `imports` clause.
pub open spec fn imports_end(t: Seq<char>) -> bool {
    t == "begin"@ || t == "keywords"@ || t == "abbrevs"@
}

/// The theory names from token `i` on, up to the end of the clause.
pub open spec fn imports_from(ts: Seq<Seq<char>>, i: int) -> Seq<Seq<char>>
    decreases ts.len() - i,
{
    if i < 0 || i >= ts.len() || imports_end(ts[i]) {
        Seq::empty()
    } else {
        let n = theory_token_spec(ts[i]);
        let rest = imports_from(ts, i + 1);
        if n.len() > 0 { seq![n] + rest } else { rest }
    }
}

/// The theories a theory header's `imports` clause names.
pub open spec fn isa_imports(text: Seq<char>) -> Seq<Seq<char>> {
    let ts = words(text);
    let s = first_pos(ts, "imports"@);
    if s < 0 { Seq::empty() } else { imports_from(ts, s + 1) }
}

/// Extracts the theories named in a theory header's `imports` clause
/// (`theory Foo imports Bar Baz "…/Qux" begin`), over several lines if
/// need be; the clause ends at `begin`, `keywords` or `abbrevs`.
pub fn parse_imports(contents: &str) -> (r: Vec<String>)
    ensures
        strs(r@) == isa_imports(contents@),
{
    let cs = chars_of(contents);
    let ts = split_words(&cs);
    let ghost tv = views(ts@);
    assert(tv == words(contents@));
    proof {
        lemma_first_pos(tv, "imports"@);
    }
    let mut out: Vec<String> = Vec::new();
    let start = match position_of(&ts, &chars_of("imports")) {
        None => {
            assert(strs(out@) =~= Seq::<Seq<char>>::empty());
            return out;
        },
        Some(p) => p,
    };
    let nts = ts.len();
    assert(start < nts);
    assert(start as int == first_pos(tv, "imports"@));
    let mut i = start + 1;
    let ghost j0 = i as int;
    assert(strs(out@) + imports_from(tv, i as int) =~= imports_from(tv, j0));
    while i < ts.len()
        invariant
            tv == views(ts@),
            tv == words(contents@),
            j0 == first_pos(tv, "imports"@) + 1,
            j0 >= 1,
            j0 <= i <= ts@.len(),
            strs(out@) + imports_from(tv, i as int) == imports_from(tv, j0),
        decreases ts.len() - i,
    {
        assert(tv[i as int] == ts@[i as int]@);
        let t = &ts[i];
        if seq_eq(t, &chars_of("begin")) || seq_eq(t, &chars_of("keywords")) || seq_eq(t, &chars_of("abbrevs")) {
            assert(imports_end(tv[i as int]));
            assert(imports_from(tv, i as int) =~= Seq::<Seq<char>>::empty());
            assert(strs(out@) + Seq::<Seq<char>>::empty() =~= strs(out@));
            return out;
        }
        let n = theory_token_chars(t);
        let ghost before = strs(out@);
        if n.len() > 0 {
            out.push(string_of(&n));
            assert(strs(out@) =~= before.push(n@));
            assert(before + imports_from(tv, i as int) =~= strs(out@) + imports_from(tv, i + 1));
        }
        i = i + 1;
    }
    assert(strs(out@) + Seq::<Seq<char>>::empty() =~= strs(out@));
    out
}

/// The `ROOT` section keywords that end a `theories` block.
pub open spec fn root_sections() -> Seq<Seq<char>> {
    seq!["session"@, "options"@, "sessions"@, "directories"@, "theories"@, "document_theories"@, "document_files"@, "export_files"@, "export_classpath"@]
}

/// The scan state over a `ROOT` file's tokens: inside a `theories`
/// section, inside an option group, and the theory names so far.
pub struct RootScan {
    pub collecting: bool,
    pub skip_group: bool,
    pub names: Seq<Seq<char>>,
}

/// One token of the `ROOT` scan.
pub open spec fn root_step(st: RootScan, tok: Seq<char>) -> RootScan {
    if st.skip_group {
        RootScan { skip_group: !ends_with(tok, ")"@), ..st }
    } else if tok == "theories"@ {
        RootScan { collecting: true, ..st }
    } else if root_sections().contains(tok) {
        RootScan { collecting: false, ..st }
    } else if !st.collecting {
        st
    } else if starts_with(tok, "("@) {
        RootScan { skip_group: !ends_with(tok, ")"@), ..st }
    } else if tok == "+"@ || tok == "="@ || theory_token_spec(tok).len() == 0 {
        st
    } else {
        RootScan { names: st.names.push(theory_token_spec(tok)), ..st }
    }
}

/// The scan over tokens.
pub open spec fn root_scan(ts: Seq<Seq<char>>) -> RootScan
    decreases ts.len(),
{
    if ts.len() == 0 {
        RootScan { collecting: false, skip_group: false, names: Seq::empty() }
    } else {
        root_step(root_scan(ts.drop_last()), ts.last())
    }
}

/// The theory names a `ROOT` file lists under `theories` sections.
pub open spec fn root_theory_names(contents: Seq<char>) -> Seq<Seq<char>> {
    root_scan(words(contents)).names
}

/// The directory of a file path: the text before its last `/` (`/` itself
/// for a file at the file-system root), empty for a bare file name.
pub open spec fn parent_dir(p: Seq<char>) -> Seq<char> {
    if !contains(p, "/"@) {
        Seq::empty()
    } else if last_occ(p, "/"@) == 0 {
        seq!['/']
    } else {
        p.take(last_occ(p, "/"@))
    }
}

/// The `.thy` file of theory `n` next to a `ROOT` file in `dir`.
pub open spec fn theory_file(dir: Seq<char>, n: Seq<char>) -> Seq<char> {
    path_join(dir, n + ".thy"@)
}

/// The files among `names` that exist in `files`.
pub open spec fn existing_theories(files: Seq<SourceFile>, dir: Seq<char>, names: Seq<Seq<char>>) -> Seq<Seq<char>>
    decreases names.len(),
{
    if names.len() == 0 {
        Seq::empty()
    } else {
        let rest = existing_theories(files, dir, names.drop_last());
        let f = theory_file(dir, names.last());
        if text_at(files, f) is Some { rest.push(f) } else { rest }
    }
}

/// The theory files a `ROOT` file at `root_file` with `contents` lists.
pub open spec fn root_theory_files_spec(files: Seq<SourceFile>, root_file: Seq<char>, contents: Seq<char>) -> Seq<Seq<char>> {
    existing_theories(files, parent_dir(root_file), root_theory_names(contents))
}

fn root_names(contents: &str) -> (r: Vec<String>)
    ensures
        strs(r@) == root_theory_names(contents@),
{
    let cs = chars_of(contents);
    let ts = split_words(&cs);
    let ghost tv = views(ts@);
    let sections = vec![chars_of("session"), chars_of("options"), chars_of("sessions"), chars_of("directories"), chars_of("theories"), chars_of("document_theories"), chars_of("document_files"), chars_of("export_files"), chars_of("export_classpath")];
    assert(views(sections@) =~= root_sections());
    let mut collecting = false;
    let mut skip_group = false;
    let mut out: Vec<String> = Vec::new();
    let mut i: usize = 0;
    assert(tv.take(0).len() == 0);
    assert(strs(out@) =~= Seq::<Seq<char>>::empty());
    while i < ts.len()
        invariant
            i <= ts@.len(),
            tv == views(ts@),
            tv == words(contents@),
            views(sections@) == root_sections(),
            root_scan(tv.take(i as int)) == (RootScan { collecting, skip_group, names: strs(out@) }),
        decreases ts.len() - i,
    {
        proof {
            assert(tv.take(i + 1).drop_last() =~= tv.take(i as int));
            assert(tv.take(i + 1).last() == ts@[i as int]@);
        }
        let tok = &ts[i];
        let close = chars_of(")");
        if skip_group {
            skip_group = !has_suffix(tok, &close);
        } else if seq_eq(tok, &chars_of("theories")) {
            collecting = true;
        } else if in_list(tok, &sections) {
            collecting = false;
        } else if !collecting {
        } else if has_prefix(tok, &chars_of("(")) {
            skip_group = !has_suffix(tok, &close);
        } else {
            let n = theory_token_chars(tok);
            if !(seq_eq(tok, &chars_of("+")) || seq_eq(tok, &chars_of("=")) || n.len() == 0) {
                let ghost before = strs(out@);
                out.push(string_of(&n));
                assert(strs(out@) =~= before.push(n@));
            }
        }
        i = i + 1;
    }
    assert(tv.take(tv.len() as int) =~= tv);
    out
}

fn in_list(t: &[char], list: &Vec<Vec<char>>) -> (r: bool)
    ensures
        r == views(list@).contains(t@),
{
    let mut i: usize = 0;
    while i < list.len()
        invariant
            i <= list@.len(),
            forall|j: int| 0 <= j < i ==> views(list@)[j] != t@,
        decreases list.len() - i,
    {
        assert(views(list@)[i as int] == list@[i as int]@);
        if seq_eq(&list[i], t) {
            return true;
        }
        i = i + 1;
    }
    false
}

pub(crate) fn parent_dir_of(p: &str) -> (r: String)
    ensures
        r@ == parent_dir(p@),
{
    let cs = chars_of(p);
    let slash = chars_of("/");
    match rfind(&cs, &slash) {
        None => String::new(),
        Some(i) => {
            proof {
                let k = last_occ(cs@, slash@);
                assert(contains(cs@, slash@));
                assert(occurs_at(cs@, slash@, k) && forall|j: int| k < j ==> !occurs_at(cs@, slash@, j));
                if k < i {
                    assert(!occurs_at(cs@, slash@, i as int));
                }
                if i < k {
                    assert(!occurs_at(cs@, slash@, k));
                }
            }
            if i == 0 {
                let r = String::from_str("/");
                proof {
                    reveal_strlit("/");
                }
                assert(r@ =~= seq!['/']);
                r
            } else {
                string_of(&slice_vec(&cs, 0, i))
            }
        },
    }
}

/// The theory files a `ROOT` file (at path `root_file`, with text
/// `contents`) lists under `theories` sections, each resolved to a `.thy`
/// next to the `ROOT` that exists in `tree`; option groups `(…)` and the
/// other sections are skipped.
pub fn root_theory_files(root_file: &str, contents: &str, tree: &SourceTree) -> (r: Vec<String>)
    ensures
        strs(r@) == root_theory_files_spec(tree.files@, root_file@, contents@),
{
    let names = root_names(contents);
    let dir = parent_dir_of(root_file);
    let mut out: Vec<String> = Vec::new();
    let mut i: usize = 0;
    while i < names.len()
        invariant
            i <= names@.len(),
            dir@ == parent_dir(root_file@),
            strs(out@) == existing_theories(tree.files@, dir@, strs(names@).take(i as int)),
        decreases names.len() - i,
    {
        proof {
            assert(strs(names@).take(i + 1).drop_last() =~= strs(names@).take(i as int));
            assert(strs(names@).take(i + 1).last() == names@[i as int]@);
        }
        let mut file = chars_of(names[i].as_str());
        let ext = chars_of(".thy");
        let mut k: usize = 0;
        let ghost base = file@;
        while k < ext.len()
            invariant
                k <= ext@.len(),
                file@ == base + ext@.take(k as int),
            decreases ext.len() - k,
        {
            file.push(ext[k]);
            k = k + 1;
            assert(file@ =~= base + ext@.take(k as int));
        }
        assert(ext@.take(ext@.len() as int) =~= ext@);
        let fname = string_of(&file);
        let cand = crate::path::join_path(dir.as_str(), fname.as_str());
        let ghost before = strs(out@);
        if tree.find(cand.as_str()).is_some() {
            out.push(cand);
            assert(strs(out@) =~= before.push(theory_file(dir@, names@[i as int]@)));
        }
        i = i + 1;
    }
    assert(strs(names@).take(names@.len() as int) =~= strs(names@));
    out
}

/// The theory files the readable `ROOT` files among `files` list, each
/// resolved against the whole tree `all`.
pub open spec fn isa_roots(all: Seq<SourceFile>, files: Seq<SourceFile>) -> Seq<Seq<char>>
    decreases files.len(),
{
    if files.len() == 0 {
        Seq::empty()
    } else {
        let rest = isa_roots(all, files.drop_last());
        let f = files.last();
        if file_name_of(f.path@) == Some("ROOT"@) && f.text is Some {
            rest + root_theory_files_spec(all, f.path@, f.text->0@)
        } else {
            rest
        }
    }
}

impl Backend for Isabelle {
    open spec fn exts_spec(&self) -> Seq<Seq<char>> {
        seq!["thy"@]
    }

    open spec fn module_id_spec(&self, file: Seq<char>, root: Seq<char>) -> Option<Seq<char>> {
        module_name_spec(file, root)
    }

    open spec fn module_path_spec(&self, module: Seq<char>, root: Seq<char>) -> Seq<char> {
        module_file_spec(root, module, "thy"@)
    }

    open spec fn imports_spec(&self, text: Seq<char>) -> Seq<Seq<char>> {
        isa_imports(text)
    }

    fn name(&self) -> (r: &'static str)
        ensures
            r@ == "isabelle"@,
    {
        "isabelle"
    }

    fn kind(&self) -> (r: BackendKind)
        ensures
            r == BackendKind::Assistant,
    {
        BackendKind::Assistant
    }

    fn extensions(&self) -> (r: Vec<&'static str>) {
        let r = vec!["thy"];
        assert(str_views(r@) =~= seq!["thy"@]);
        r
    }

    /// No global safe flag; soundness is the absence of `sorry`/`oops` and
    /// of `axiomatization`.
    fn safe_mode(&self) -> (r: Option<&'static str>)
        ensures
            r is None,
    {
        None
    }

    fn command(&self) -> (r: &'static str)
        ensures
            r@ == "isabelle"@,
    {
        "isabelle"
    }

    fn module_name_of(&self, file: &str, include_root: &str) -> (r: Option<String>) {
        crate::graph::module_name_of(file, include_root)
    }

    fn module_to_path(&self, module: &str, include_root: &str) -> (r: String) {
        crate::path::module_file(module, include_root, "thy")
    }

    fn direct_imports(&self, text: &str) -> (r: Vec<String>) {
        parse_imports(text)
    }

    /// The theories every readable `ROOT` file lists, ordered by path,
    /// each once.
    #[verifier::spinoff_prover]
    #[verifier::rlimit(40)]
    fn discover_roots(&self, include_root: &str, tree: &SourceTree) -> (r: Vec<String>)
        ensures
            distinct(strs(r@)),
            strs(r@).to_set() == isa_roots(tree.files@, tree.files@).to_set(),
    {
        let mut out: Vec<String> = Vec::new();
        let mut i: usize = 0;
        assert(strs(out@).to_set() =~= isa_roots(tree.files@, tree.files@.take(0)).to_set());
        while i < tree.files.len()
            invariant
                i <= tree.files@.len(),
                path_sorted(strs(out@)),
                distinct(strs(out@)),
                strs(out@).to_set() == isa_roots(tree.files@, tree.files@.take(i as int)).to_set(),
            decreases tree.files.len() - i,
        {
            let f = &tree.files[i];
            let ghost prev = isa_roots(tree.files@, tree.files@.take(i as int));
            proof {
                assert(tree.files@.take(i + 1).drop_last() =~= tree.files@.take(i as int));
                assert(tree.files@.take(i + 1).last() == tree.files@[i as int]);
            }
            let is_root = match crate::path::file_name(f.path.as_str()) {
                Some(n) => crate::text::str_eq(n.as_str(), "ROOT"),
                None => false,
            };
            match &f.text {
                Some(t) => {
                    if is_root {
                        let found = root_theory_files(f.path.as_str(), t.as_str(), tree);
                        let ghost add = strs(found@);
                        let ghost start = strs(out@).to_set();
                        let mut k: usize = 0;
                        while k < found.len()
                            invariant
                                k <= found@.len(),
                                add == strs(found@),
                                path_sorted(strs(out@)),
                                distinct(strs(out@)),
                                strs(out@).to_set() == start + add.take(k as int).to_set(),
                            decreases found.len() - k,
                        {
                            path_set_insert(&mut out, found[k].clone());
                            proof {
                                assert(add.take(k + 1) =~= add.take(k as int).push(add[k as int]));
                                add.take(k as int).lemma_push_to_set_commute(add[k as int]);
                            }
                            k = k + 1;
                        }
                        proof {
                            assert(add.take(add.len() as int) =~= add);
                            assert(f.path@ == tree.files@[i as int].path@);
                            assert(isa_roots(tree.files@, tree.files@.take(i + 1)) == prev + add);
                            vstd::seq_lib::seq_to_set_distributes_over_add(prev, add);
                        }
                    } else {
                        assert(isa_roots(tree.files@, tree.files@.take(i + 1)) == prev);
                    }
                },
                None => {
                    assert(isa_roots(tree.files@, tree.files@.take(i + 1)) == prev);
                },
            }
            i = i + 1;
        }
        assert(tree.files@.take(tree.files@.len() as int) =~= tree.files@);
        out
    }

    fn lint_rules(&self, cfg: &RuleConfig) -> (r: Result<Vec<Rule>, String>)
        ensures
            r matches Ok(v) && v@ == seq![Rule::IsabelleEscapeHatch(IsabelleEscapeHatch)],
    {
        let v = vec![Rule::IsabelleEscapeHatch(IsabelleEscapeHatch)];
        Ok(v)
    }
}

/// `sorry`/`oops` dominate `axiomatization`, and a failing build is an
/// error whatever the source holds.
pub proof fn lemma_isabelle_verdict_order(src: Seq<char>, exit_ok: bool)
    ensures
        !exit_ok ==> isabelle_verdict_spec(src, exit_ok) == Verdict::Error,
        exit_ok && token_in(src, "sorry"@, isa_seps()) ==> isabelle_verdict_spec(src, exit_ok) == Verdict::Admitted,
        isabelle_verdict_spec(src, exit_ok) == Verdict::Proven <==> (exit_ok && !token_in(src, "sorry"@, isa_seps())
            && !token_in(src, "oops"@, isa_seps()) && !token_in(src, "axiomatization"@, isa_seps())),
{
}

/// The `ROOT` of the one-theory session that a check of theory `stem`
/// builds on top of HOL.
pub open spec fn session_root_text(stem: Seq<char>) -> Seq<char> {
    "session \"ArghdaCheck\" = \"HOL\" +\n  theories\n    "@ + stem + "\n"@
}

/// The session `ROOT` for checking theory `stem` on its own.
pub fn session_root(stem: &str) -> (r: String)
    ensures
        r@ == session_root_text(stem@),
{
    let head = chars_of("session \"ArghdaCheck\" = \"HOL\" +\n  theories\n    ");
    let mid = super::rocq::concat(&head, &chars_of(stem));
    let nl = chars_of("\n");
    string_of(&super::rocq::concat(&mid, &nl))
}

} // verus!
