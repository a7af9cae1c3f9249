//! The Lean4 backend. `lean <file>` exits 0 even when a proof uses `sorry`,
//! so a green exit alone is never "proven": `sorry` in the output makes it
//! admitted, and a clean run is only promoted by a `#print axioms` audit —
//! proven when every declaration rests on the standard axioms alone,
//! postulated when another axiom appears, admitted on `sorryAx`. Without an
//! audit the verdict stays unknown.

use vstd::prelude::*;
use super::{str_views, Backend, BackendKind, Verdict, named_paths, files_named};
use crate::graph::{module_name_spec, trim_module_end, trim_module_tail, SourceTree};
use crate::path::module_file_spec;
use crate::lint::{Rule, RuleConfig};
use crate::lint::lean::LeanEscapeHatch;
use crate::order::strs;
use crate::text::{alnum, before, first_occ, occurs_at, before_vec, chars_of, contains, contains_seq, find_first, has_prefix, is_alphanumeric, lines, seq_eq, slice_vec, somes, split_char, split_lines, split_on, split_words, starts_with, string_of, trim, trim_start, trim_start_vec, trim_vec, views, words};

verus! {

/// The Lean4 theorem prover.
#[derive(Clone, Copy, Debug)]
pub struct Lean;

/// The verdict of a plain elaboration: a failing exit is an error, `sorry`
/// in the output admits a hole, and a clean run is unknown until audited.
pub open spec fn lean_verdict_spec(output: Seq<char>, exit_ok: bool) -> Verdict {
    if !exit_ok {
        Verdict::Error
    } else if contains(output, "sorry"@) {
        Verdict::Admitted
    } else {
        Verdict::Unknown
    }
}

/// Maps Lean output and exit status to a verdict; never `Proven` without
/// an axioms audit.
pub fn lean_verdict(output: &str, exit_ok: bool) -> (v: Verdict)
    ensures
        v == lean_verdict_spec(output@, exit_ok),
{
    if !exit_ok {
        return Verdict::Error;
    }
    let cs = chars_of(output);
    let sorry = chars_of("sorry");
    if contains_seq(&cs, &sorry) {
        Verdict::Admitted
    } else {
        Verdict::Unknown
    }
}

/// The axioms Lean itself trusts.
pub open spec fn standard_axioms() -> Seq<Seq<char>> {
    seq!["propext"@, "Classical.choice"@, "Quot.sound"@]
}

/// The marker before an axiom list in `#print axioms` output.
pub open spec fn axioms_mark() -> Seq<char> {
    "depends on axioms: ["@
}

/// Each of `ps`, trimmed.
pub open spec fn trimmed(ps: Seq<Seq<char>>) -> Seq<Seq<char>> {
    ps.map_values(|a: Seq<char>| trim(a))
}

/// The axioms one output line lists (trimmed), none when it lists none.
pub open spec fn line_axioms(line: Seq<char>) -> Seq<Seq<char>> {
    if contains(line, axioms_mark()) {
        let rest = line.skip(first_occ(line, axioms_mark()) + axioms_mark().len());
        trimmed(split_on(before(rest, "]"@), ','))
    } else {
        Seq::empty()
    }
}

/// The line lists `sorryAx`.
#[verifier::opaque]
pub open spec fn line_has_sorry(line: Seq<char>) -> bool {
    line_axioms(line).contains("sorryAx"@)
}

/// The line lists an axiom beyond the standard ones.
#[verifier::opaque]
pub open spec fn line_nonstandard(line: Seq<char>) -> bool {
    exists|j: int|
        0 <= j < line_axioms(line).len() && line_axioms(line)[j].len() > 0
            && !standard_axioms().contains(#[trigger] line_axioms(line)[j])
}

/// The verdict of a batch of `#print axioms` outputs: any `sorryAx`
/// admits, else any non-standard axiom postulates, else proven.
pub open spec fn axioms_verdict(output: Seq<char>) -> Verdict {
    let ls = lines(output);
    if exists|i: int| 0 <= i < ls.len() && line_has_sorry(#[trigger] ls[i]) {
        Verdict::Admitted
    } else if exists|i: int| 0 <= i < ls.len() && line_nonstandard(#[trigger] ls[i]) {
        Verdict::Postulated
    } else {
        Verdict::Proven
    }
}

fn is_standard(a: &[char]) -> (r: bool)
    ensures
        r == standard_axioms().contains(a@),
{
    let p = chars_of("propext");
    let c = chars_of("Classical.choice");
    let q = chars_of("Quot.sound");
    let r = seq_eq(a, &p) || seq_eq(a, &c) || seq_eq(a, &q);
    proof {
        let s = standard_axioms();
        if s.contains(a@) {
            let k = choose|k: int| 0 <= k < s.len() && s[k] == a@;
        }
        if r {
            if a@ == p@ {
                assert(s[0] == a@);
            } else if a@ == c@ {
                assert(s[1] == a@);
            } else {
                assert(s[2] == a@);
            }
        }
    }
    r
}

/// Whether trimmed pieces hold `sorryAx`, and whether they hold a
/// non-empty non-standard axiom.
fn scan_axioms(pieces: &Vec<Vec<char>>) -> (r: (bool, bool))
    ensures
        r.0 == trimmed(views(pieces@)).contains("sorryAx"@),
        r.1 == (exists|j: int|
            0 <= j < pieces@.len() && trimmed(views(pieces@))[j].len() > 0
                && !standard_axioms().contains(#[trigger] trimmed(views(pieces@))[j])),
{
    let ghost axs = trimmed(views(pieces@));
    let sorry = chars_of("sorryAx");
    let mut has_sorry = false;
    let mut nonstd = false;
    let mut i: usize = 0;
    while i < pieces.len()
        invariant
            i <= pieces@.len(),
            axs == trimmed(views(pieces@)),
            sorry@ == "sorryAx"@,
            has_sorry <==> exists|j: int| 0 <= j < i && axs[j] == "sorryAx"@,
            nonstd <==> exists|j: int|
                0 <= j < i && axs[j].len() > 0 && !standard_axioms().contains(#[trigger] axs[j]),
        decreases pieces.len() - i,
    {
        let a = trim_vec(&pieces[i]);
        assert(axs[i as int] == a@);
        if seq_eq(&a, &sorry) {
            has_sorry = true;
        }
        if a.len() > 0 && !is_standard(&a) {
            nonstd = true;
        }
        i = i + 1;
    }
    proof {
        if axs.contains("sorryAx"@) {
            let j = choose|j: int| 0 <= j < axs.len() && axs[j] == "sorryAx"@;
            assert(has_sorry);
        }
        if has_sorry {
            let j = choose|j: int| 0 <= j < i && axs[j] == "sorryAx"@;
            assert(axs.contains("sorryAx"@));
        }
    }
    (has_sorry, nonstd)
}

/// The untrimmed pieces of the axiom list on one output line.
#[verifier::spinoff_prover]
#[verifier::rlimit(50)]
fn axiom_pieces(line: &[char]) -> (r: Vec<Vec<char>>)
    ensures
        trimmed(views(r@)) == line_axioms(line@),
{
    let mark = chars_of("depends on axioms: [");
    match find_first(line, &mark) {
        None => {
            let r: Vec<Vec<char>> = Vec::new();
            assert(trimmed(views(r@)) =~= Seq::<Seq<char>>::empty());
            r
        },
        Some(k) => {
            assert(occurs_at(line@, mark@, k as int));
            let n = mark.len();
            let total = line.len();
            assert(k + n <= total);
            let rest = slice_vec(line, k + n, total);
            assert(rest@ =~= line@.skip(first_occ(line@, axioms_mark()) + axioms_mark().len()));
            let close = chars_of("]");
            let list = before_vec(&rest, &close);
            let r = split_char(&list, ',');
            assert(views(r@) == split_on(before(line@.skip(first_occ(line@, axioms_mark()) + axioms_mark().len()), "]"@), ','));
            r
        },
    }
}

/// Whether one output line lists `sorryAx`, and whether it lists a
/// non-standard axiom.
fn scan_axiom_line(line: &[char]) -> (r: (bool, bool))
    ensures
        r.0 == line_has_sorry(line@),
        r.1 == line_nonstandard(line@),
{
    let pieces = axiom_pieces(line);
    let r = scan_axioms(&pieces);
    proof {
        reveal(line_has_sorry);
        reveal(line_nonstandard);
    }
    r
}

/// Classifies the combined output of a batch of `#print axioms` commands:
/// any `sorryAx` is admitted, else any non-standard axiom is postulated,
/// else (clean, or standard axioms only) proven.
pub fn classify_axioms(output: &str) -> (v: Verdict)
    ensures
        v == axioms_verdict(output@),
{
    let cs = chars_of(output);
    let ls = split_lines(&cs);
    let ghost lv = views(ls@);
    let mut nonstd = false;
    let mut i: usize = 0;
    while i < ls.len()
        invariant
            i <= ls@.len(),
            lv == views(ls@),
            lv == lines(output@),
            forall|j: int| 0 <= j < i ==> !line_has_sorry(#[trigger] lv[j]),
            nonstd <==> exists|j: int| 0 <= j < i && line_nonstandard(#[trigger] lv[j]),
        decreases ls.len() - i,
    {
        let (s, n) = scan_axiom_line(&ls[i]);
        assert(lv[i as int] == ls@[i as int]@);
        if s {
            return Verdict::Admitted;
        }
        if n {
            nonstd = true;
        }
        i = i + 1;
    }
    if nonstd {
        Verdict::Postulated
    } else {
        Verdict::Proven
    }
}

/// A character a declaration name is made of.
pub open spec fn name_char(c: char) -> bool {
    alnum(c) || c == '_' || c == '.' || c == '\''
}

/// How many leading characters of `t` are name characters.
pub open spec fn name_run(t: Seq<char>) -> nat
    decreases t.len(),
{
    if t.len() > 0 && name_char(t[0]) {
        1 + name_run(t.drop_first())
    } else {
        0
    }
}

/// The declaration keywords whose declarations can depend on axioms.
pub open spec fn decl_keywords() -> Seq<Seq<char>> {
    seq!["theorem"@, "lemma"@, "def"@, "abbrev"@, "instance"@]
}

/// The modifiers that may stand before a declaration keyword.
pub open spec fn decl_modifiers() -> Seq<Seq<char>> {
    seq!["private"@, "protected"@, "noncomputable"@, "partial"@, "unsafe"@, "scoped"@, "local"@, "mutual"@]
}

/// The index of the first token from `i` on that is neither an `@[..]`
/// attribute nor a modifier.
pub open spec fn skip_modifiers(ts: Seq<Seq<char>>, i: int) -> int
    decreases ts.len() - i,
{
    if 0 <= i < ts.len() && (starts_with(ts[i], "@["@) || decl_modifiers().contains(ts[i])) {
        skip_modifiers(ts, i + 1)
    } else {
        i
    }
}

/// The name a line declares: the name-character prefix of the token after
/// a declaration keyword (attributes and modifiers skipped), if non-empty.
pub open spec fn line_decl_name(line: Seq<char>) -> Option<Seq<char>> {
    let ts = words(line);
    let i = skip_modifiers(ts, 0);
    if i + 1 < ts.len() && decl_keywords().contains(ts[i]) && name_run(ts[i + 1]) > 0 {
        Some(ts[i + 1].take(name_run(ts[i + 1]) as int))
    } else {
        None
    }
}

/// `s` with each run of equal neighbours reduced to one (`Vec::dedup`).
pub open spec fn dedup_adj(s: Seq<Seq<char>>) -> Seq<Seq<char>>
    decreases s.len(),
{
    if s.len() == 0 {
        Seq::empty()
    } else {
        let r = dedup_adj(s.drop_last());
        if r.len() > 0 && r.last() == s.last() {
            r
        } else {
            r.push(s.last())
        }
    }
}

/// The declaration name found on each line.
pub open spec fn line_decl_names(ls: Seq<Seq<char>>) -> Seq<Option<Seq<char>>> {
    ls.map_values(|l: Seq<char>| line_decl_name(l))
}

/// The declaration names of a Lean source, in order, neighbours deduplicated.
pub open spec fn lean_decl_names(src: Seq<char>) -> Seq<Seq<char>> {
    dedup_adj(somes(line_decl_names(lines(src))))
}

fn in_list(t: &[char], list: &Vec<Vec<char>>) -> (r: bool)
    ensures
        r == views(list@).contains(t@),
{
    let mut i: usize = 0;
    while i < list.len()
        invariant
            i <= list@.len(),
            forall|j: int| 0 <= j < i ==> views(list@)[j] != t@,
        decreases list.len() - i,
    {
        assert(views(list@)[i as int] == list@[i as int]@);
        if seq_eq(&list[i], t) {
            return true;
        }
        i = i + 1;
    }
    false
}

fn decl_name_of_line(line: &[char]) -> (r: Option<Vec<char>>)
    ensures
        r matches Some(v) ==> line_decl_name(line@) == Some(v@),
        r is None ==> line_decl_name(line@) is None,
{
    let ts = split_words(line);
    let ghost tv = views(ts@);
    let mods = vec![chars_of("private"), chars_of("protected"), chars_of("noncomputable"), chars_of("partial"), chars_of("unsafe"), chars_of("scoped"), chars_of("local"), chars_of("mutual")];
    assert(views(mods@) =~= decl_modifiers());
    let kws = vec![chars_of("theorem"), chars_of("lemma"), chars_of("def"), chars_of("abbrev"), chars_of("instance")];
    assert(views(kws@) =~= decl_keywords());
    let attr = chars_of("@[");
    let mut i: usize = 0;
    loop
        invariant
            i <= ts@.len(),
            tv == views(ts@),
            tv == words(line@),
            views(mods@) == decl_modifiers(),
            attr@ == "@["@,
            skip_modifiers(tv, i as int) == skip_modifiers(tv, 0),
        ensures
            i <= ts@.len(),
            skip_modifiers(tv, i as int) == skip_modifiers(tv, 0),
            skip_modifiers(tv, i as int) == i,
        decreases ts.len() - i,
    {
        if i >= ts.len() {
            break;
        }
        assert(tv[i as int] == ts@[i as int]@);
        if has_prefix(&ts[i], &attr) || in_list(&ts[i], &mods) {
            i = i + 1;
        } else {
            break;
        }
    }
    if i >= ts.len() || ts.len() - i < 2 {
        return None;
    }
    assert(tv[i as int] == ts@[i as int]@);
    assert(tv[i + 1] == ts@[i + 1]@);
    if !in_list(&ts[i], &kws) {
        return None;
    }
    let tok = &ts[i + 1];
    let mut k: usize = 0;
    assert(tok@.skip(0) =~= tok@);
    while k < tok.len() && (is_alphanumeric(tok[k]) || tok[k] == '_' || tok[k] == '.' || tok[k] == '\'')
        invariant
            k <= tok@.len(),
            name_run(tok@) == k + name_run(tok@.skip(k as int)),
        decreases tok.len() - k,
    {
        assert(tok@.skip(k as int).drop_first() =~= tok@.skip(k + 1));
        k = k + 1;
    }
    proof {
        if k < tok@.len() {
            assert(tok@.skip(k as int)[0] == tok@[k as int]);
        }
    }
    if k == 0 {
        return None;
    }
    Some(slice_vec(tok, 0, k))
}

/// The names of the declarations in a Lean source that can depend on axioms
/// (`theorem`/`lemma`/`def`/`abbrev`/`instance`), leading attributes and
/// modifiers skipped, anonymous declarations left out, repeated neighbours
/// kept once.
pub fn decl_names(src: &str) -> (r: Vec<String>)
    ensures
        strs(r@) == lean_decl_names(src@),
{
    let cs = chars_of(src);
    let ls = split_lines(&cs);
    let ghost lv = views(ls@);
    let mut out: Vec<String> = Vec::new();
    let mut i: usize = 0;
    while i < ls.len()
        invariant
            i <= ls@.len(),
            lv == views(ls@),
            lv == lines(src@),
            strs(out@) == dedup_adj(somes(line_decl_names(lv.take(i as int)))),
        decreases ls.len() - i,
    {
        let m = decl_name_of_line(&ls[i]);
        let ghost xs = line_decl_names(lv.take(i + 1));
        let ghost prev = somes(line_decl_names(lv.take(i as int)));
        proof {
            assert(xs.drop_last() =~= line_decl_names(lv.take(i as int)));
            assert(lv[i as int] == ls@[i as int]@);
            assert(xs.last() == line_decl_name(ls@[i as int]@));
        }
        let ghost before = out@;
        match m {
            Some(v) => {
                assert(somes(xs) == prev.push(v@));
                let n = out.len();
                let same = n > 0 && seq_eq(&chars_of(out[n - 1].as_str()), &v);
                if !same {
                    out.push(string_of(&v));
                    assert(strs(out@) =~= strs(before).push(v@));
                } else {
                    assert(strs(before).last() == before[n - 1]@);
                }
                assert(prev.push(v@).drop_last() =~= prev);
            },
            None => {
                assert(somes(xs) == prev);
            },
        }
        i = i + 1;
    }
    assert(lv.take(lv.len() as int) =~= lv);
    out
}

/// The module a Lean line imports: the token after a leading `import`,
/// trimmed of trailing punctuation; comment lines and `open` import nothing.
pub open spec fn lean_line_import(line: Seq<char>) -> Option<Seq<char>> {
    let t = trim_start(line);
    if starts_with(t, "--"@) {
        None
    } else {
        let ts = words(before(t, " --"@));
        if ts.len() >= 2 && ts[0] == "import"@ && trim_module_end(ts[1]).len() > 0 {
            Some(trim_module_end(ts[1]))
        } else {
            None
        }
    }
}

/// The import found on each line.
pub open spec fn lean_line_imports(ls: Seq<Seq<char>>) -> Seq<Option<Seq<char>>> {
    ls.map_values(|l: Seq<char>| lean_line_import(l))
}

/// The modules a Lean source imports, in order.
pub open spec fn lean_imports(text: Seq<char>) -> Seq<Seq<char>> {
    somes(lean_line_imports(lines(text)))
}

fn lean_import_of_line(line: &[char]) -> (r: Option<Vec<char>>)
    ensures
        r matches Some(v) ==> lean_line_import(line@) == Some(v@),
        r is None ==> lean_line_import(line@) is None,
{
    let t = trim_start_vec(line);
    let dashes = chars_of("--");
    if has_prefix(&t, &dashes) {
        return None;
    }
    let cmt = chars_of(" --");
    let code = before_vec(&t, &cmt);
    let ts = split_words(&code);
    let imp = chars_of("import");
    if ts.len() < 2 {
        return None;
    }
    assert(views(ts@)[0] == ts@[0]@);
    assert(views(ts@)[1] == ts@[1]@);
    if !seq_eq(&ts[0], &imp) {
        return None;
    }
    let c = trim_module_tail(&ts[1]);
    if c.len() == 0 {
        None
    } else {
        Some(c)
    }
}

/// The verdict once the `#print axioms` audit had its say: an unknown
/// elaboration takes the audit's verdict when the audit ran, any other
/// verdict stands.
pub fn settle_verdict(elaborated: Verdict, audit: Option<Verdict>) -> (v: Verdict)
    ensures
        v == (match (elaborated, audit) {
            (Verdict::Unknown, Some(a)) => a,
            _ => elaborated,
        }),
{
    match (elaborated, audit) {
        (Verdict::Unknown, Some(a)) => a,
        _ => elaborated,
    }
}

/// What the axioms audit concludes, when the audit run elaborated
/// cleanly; nothing otherwise.
pub fn audit_verdict(run_ok: bool, output: &str) -> (v: Option<Verdict>)
    ensures
        v == (if run_ok { Some(axioms_verdict(output@)) } else { None }),
{
    if run_ok {
        Some(classify_axioms(output))
    } else {
        None
    }
}

/// The source of the audit run: `src`, a newline, then one
/// `#print axioms <name>` line per declaration name.
pub open spec fn audit_text(src: Seq<char>, names: Seq<Seq<char>>) -> Seq<char>
    decreases names.len(),
{
    if names.len() == 0 {
        src.push('\n')
    } else {
        audit_text(src, names.drop_last()) + "#print axioms "@ + names.last() + seq!['\n']
    }
}

fn push_all(out: &mut Vec<char>, s: &[char])
    ensures
        final(out)@ == old(out)@ + s@,
{
    let ghost start = out@;
    let mut i: usize = 0;
    while i < s.len()
        invariant
            i <= s@.len(),
            out@ == start + s@.take(i as int),
        decreases s.len() - i,
    {
        out.push(s[i]);
        i = i + 1;
        assert(out@ =~= start + s@.take(i as int));
    }
    assert(s@.take(s@.len() as int) =~= s@);
}

/// Builds the audit source for `src` and its declaration `names`.
pub fn audit_source(src: &str, names: &Vec<String>) -> (r: String)
    ensures
        r@ == audit_text(src@, strs(names@)),
{
    let mut out = chars_of(src);
    out.push('\n');
    let cmd = chars_of("#print axioms ");
    let mut i: usize = 0;
    while i < names.len()
        invariant
            i <= names@.len(),
            cmd@ == "#print axioms "@,
            out@ == audit_text(src@, strs(names@).take(i as int)),
        decreases names.len() - i,
    {
        let ghost before = out@;
        push_all(&mut out, &cmd);
        let n = chars_of(names[i].as_str());
        push_all(&mut out, &n);
        out.push('\n');
        proof {
            let t = strs(names@).take(i + 1);
            assert(t.drop_last() =~= strs(names@).take(i as int));
            assert(t.last() == names@[i as int]@);
            assert(out@ =~= before + "#print axioms "@ + names@[i as int]@ + seq!['\n']);
        }
        i = i + 1;
    }
    assert(strs(names@).take(names@.len() as int) =~= strs(names@));
    string_of(&out)
}

impl Backend for Lean {
    open spec fn exts_spec(&self) -> Seq<Seq<char>> {
        seq!["lean"@]
    }

    open spec fn module_id_spec(&self, file: Seq<char>, root: Seq<char>) -> Option<Seq<char>> {
        module_name_spec(file, root)
    }

    open spec fn module_path_spec(&self, module: Seq<char>, root: Seq<char>) -> Seq<char> {
        module_file_spec(root, module, "lean"@)
    }

    open spec fn imports_spec(&self, text: Seq<char>) -> Seq<Seq<char>> {
        lean_imports(text)
    }

    fn name(&self) -> (r: &'static str)
        ensures
            r@ == "lean4"@,
    {
        "lean4"
    }

    fn kind(&self) -> (r: BackendKind)
        ensures
            r == BackendKind::Assistant,
    {
        BackendKind::Assistant
    }

    fn extensions(&self) -> (r: Vec<&'static str>) {
        let r = vec!["lean"];
        assert(str_views(r@) =~= seq!["lean"@]);
        r
    }

    /// Soundness is established per declaration by the axioms audit.
    fn safe_mode(&self) -> (r: Option<&'static str>)
        ensures
            r matches Some(m) && m@ == "#print axioms"@,
    {
        Some("#print axioms")
    }

    fn command(&self) -> (r: &'static str)
        ensures
            r@ == "lean"@,
    {
        "lean"
    }

    fn module_name_of(&self, file: &str, include_root: &str) -> (r: Option<String>) {
        crate::graph::module_name_of(file, include_root)
    }

    fn module_to_path(&self, module: &str, include_root: &str) -> (r: String) {
        crate::path::module_file(module, include_root, "lean")
    }

    /// Top-level `import M` lines; `open` is a namespace directive, not an
    /// edge.
    fn direct_imports(&self, text: &str) -> (r: Vec<String>) {
        let cs = chars_of(text);
        let ls = split_lines(&cs);
        let ghost lv = views(ls@);
        let mut out: Vec<String> = Vec::new();
        let mut i: usize = 0;
        while i < ls.len()
            invariant
                i <= ls@.len(),
                lv == views(ls@),
                lv == lines(text@),
                strs(out@) == somes(lean_line_imports(lv.take(i as int))),
            decreases ls.len() - i,
        {
            let m = lean_import_of_line(&ls[i]);
            proof {
                let xs = lean_line_imports(lv.take(i + 1));
                assert(xs.drop_last() =~= lean_line_imports(lv.take(i as int)));
                assert(lv[i as int] == ls@[i as int]@);
                assert(xs.last() == lean_line_import(ls@[i as int]@));
            }
            let ghost before = out@;
            match m {
                Some(v) => {
                    out.push(string_of(&v));
                    assert(strs(out@) =~= strs(before).push(v@));
                },
                None => {},
            }
            i = i + 1;
        }
        assert(lv.take(lv.len() as int) =~= lv);
        out
    }

    /// Every `Main.lean`, ordered by path.
    fn discover_roots(&self, include_root: &str, tree: &SourceTree) -> (r: Vec<String>)
        ensures
            strs(r@).to_multiset() == named_paths(tree.files@, seq!["Main.lean"@]).to_multiset(),
    {
        let names = vec!["Main.lean"];
        assert(str_views(names@) =~= seq!["Main.lean"@]);
        files_named(tree, &names)
    }

    fn lint_rules(&self, cfg: &RuleConfig) -> (r: Result<Vec<Rule>, String>)
        ensures
            r matches Ok(v) && v@ == seq![Rule::LeanEscapeHatch(LeanEscapeHatch)],
    {
        let v = vec![Rule::LeanEscapeHatch(LeanEscapeHatch)];
        Ok(v)
    }
}

/// A plain elaboration never proves: without the axioms audit a clean
/// run is at best unknown, whatever Lean printed.
pub proof fn lemma_elaboration_never_proves(output: Seq<char>, exit_ok: bool)
    ensures
        lean_verdict_spec(output, exit_ok) != Verdict::Proven,
{
}

/// The audit settles only an unknown elaboration: an error or an admitted
/// hole stands whatever the audit says.
pub proof fn lemma_audit_only_settles_unknown(elaborated: Verdict, audit: Option<Verdict>)
    requires
        elaborated != Verdict::Unknown,
    ensures
        (match (elaborated, audit) {
            (Verdict::Unknown, Some(a)) => a,
            _ => elaborated,
        }) == elaborated,
{
}

} // verus!
