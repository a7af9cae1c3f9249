//! `unpinned-headline` (warn): a module declares a top-level name matching
//! the headline pattern that no `Smoke.agda` among the entry modules pins
//! in a `using ( … )` clause. Headlines are column-0 type signatures
//! `name : T` (or `a b c : T`, one per name); pins are the `;`-separated
//! entries of every `using ( … )` list. Without a `Smoke.agda` in scope the
//! rule stays silent, and a file named `Smoke.agda` is never checked.

use vstd::prelude::*;
use crate::diagnostic::{DiagView, LintReport, Severity};
use crate::graph::{SourceTree, text_at, lemma_file_pos};
use crate::lint::{LintContext, LintRule, warn};
use crate::path::{file_name, file_name_of};
use crate::text::{before, before_vec, chars_of, contains, contains_seq, find_from, first_pos, has_prefix, is_alphanumeric, alnum, is_whitespace, is_ws, lines, occurs_at, position_of, seq_eq, slice_vec, split_char, split_lines, split_on, split_words, starts_with, str_eq, string_of, trim, trim_start, trim_start_vec, trim_vec, views, words, lemma_first_pos};
use crate::graph::join;
use crate::order::strs;

verus! {

broadcast use vstd::string::group_string_axioms;

/// The default headline pattern: a lowercase-initial ASCII identifier,
/// hyphens allowed, fully anchored.
pub const DEFAULT_HEADLINE_PATTERN: &'static str = "^[a-z][A-Za-z0-9-]*$";

/// `regex::Regex::new(pattern)` succeeds.
pub uninterp spec fn regex_compiles(pattern: Seq<char>) -> bool;

/// The message of the error `regex::Regex::new(pattern)` gives when the
/// pattern does not compile.
pub uninterp spec fn regex_error(pattern: Seq<char>) -> Seq<char>;

/// `regex::Regex::new(pattern)?.is_match(text)`.
pub uninterp spec fn regex_finds(pattern: Seq<char>, text: Seq<char>) -> bool;

/// Compiles `pattern` with `regex::Regex::new`: `Ok` exactly when it
/// compiles, and otherwise the error's message, which depends on the
/// pattern alone.
#[verifier::external_body]
pub(crate) fn regex_check(pattern: &str) -> (r: Result<(), String>)
    ensures
        r is Ok <==> regex_compiles(pattern@),
        r matches Err(e) ==> e@ == regex_error(pattern@),
{
    match regex::Regex::new(pattern) {
        Ok(_) => Ok(()),
        Err(e) => Err(e.to_string()),
    }
}

/// Whether the compiled `pattern` matches somewhere in `text`
/// (`Regex::is_match`); the pattern is known to compile.
#[verifier::external_body]
fn regex_is_match(pattern: &str, text: &str) -> (r: bool)
    requires
        regex_compiles(pattern@),
    ensures
        r == regex_finds(pattern@, text@),
{
    regex::Regex::new(pattern).is_ok_and(|re| re.is_match(text))
}

/// Flags headlines that no Smoke file pins.
#[derive(Clone, Debug)]
pub struct UnpinnedHeadline {
    pattern: String,
}

impl UnpinnedHeadline {
    /// The headline pattern.
    pub closed spec fn pattern(&self) -> Seq<char> {
        self.pattern@
    }

    /// The rule with an operator-supplied pattern; an error when the
    /// pattern is not a valid regular expression.
    pub fn new(pattern: &str) -> (r: Result<UnpinnedHeadline, String>)
        ensures
            r is Ok <==> regex_compiles(pattern@),
            r matches Ok(u) ==> u.pattern() == pattern@,
            r matches Err(e) ==> e@ == "compiling headline pattern `"@ + pattern@ + "`: "@ + regex_error(pattern@),
    {
        match regex_check(pattern) {
            Ok(()) => Ok(UnpinnedHeadline { pattern: String::from_str(pattern) }),
            Err(e) => {
                let mut m = String::from_str("compiling headline pattern `");
                m.append(pattern);
                m.append("`: ");
                m.append(e.as_str());
                Err(m)
            },
        }
    }

    /// The rule with the default pattern, which compiles.
    pub fn default() -> (r: UnpinnedHeadline)
        ensures
            r.pattern() == DEFAULT_HEADLINE_PATTERN@,
    {
        UnpinnedHeadline { pattern: String::from_str(DEFAULT_HEADLINE_PATTERN) }
    }
}

/// A path whose file name is `Smoke.agda`.
pub open spec fn is_smoke(p: Seq<char>) -> bool {
    file_name_of(p) == Some("Smoke.agda"@)
}

fn smoke_file(p: &str) -> (r: bool)
    ensures
        r == is_smoke(p@),
{
    match file_name(p) {
        Some(n) => {
            let r = str_eq(n.as_str(), "Smoke.agda");
            r
        },
        None => false,
    }
}

/// A line without its Agda line comment: a whole-line `--` comment becomes
/// empty, an inline ` --` comment is cut.
pub open spec fn strip_comment(l: Seq<char>) -> Seq<char> {
    if starts_with(trim_start(l), "--"@) {
        Seq::empty()
    } else {
        before(l, " --"@)
    }
}

fn strip_comment_vec(l: &[char]) -> (r: Vec<char>)
    ensures
        r@ == strip_comment(l@),
{
    let t = trim_start_vec(l);
    if has_prefix(&t, &chars_of("--")) {
        Vec::new()
    } else {
        before_vec(l, &chars_of(" --"))
    }
}

/// A character of an identifier: alphanumeric, `_`, `-` or `'`.
pub open spec fn ident_char(c: char) -> bool {
    alnum(c) || c == '_' || c == '-' || c == '\''
}

/// The first occurrence of `p` in `s` at or after `i`, or -1.
pub open spec fn next_occ(s: Seq<char>, p: Seq<char>, i: int) -> int
    decreases s.len() + 1 - i,
{
    if i < 0 || i > s.len() {
        -1
    } else if occurs_at(s, p, i) {
        i
    } else {
        next_occ(s, p, i + 1)
    }
}

pub proof fn lemma_next_occ_found(s: Seq<char>, p: Seq<char>, i: int)
    ensures
        next_occ(s, p, i) == -1 || (0 <= i <= next_occ(s, p, i) && occurs_at(s, p, next_occ(s, p, i))),
    decreases s.len() + 1 - i,
{
    if 0 <= i <= s.len() && !occurs_at(s, p, i) {
        lemma_next_occ_found(s, p, i + 1);
    }
}

proof fn lemma_next_occ(s: Seq<char>, p: Seq<char>, i: int, j: int)
    requires
        0 <= i <= j,
        occurs_at(s, p, j),
        forall|k: int| i <= k < j ==> !occurs_at(s, p, k),
    ensures
        next_occ(s, p, i) == j,
    decreases j - i,
{
    if i < j {
        lemma_next_occ(s, p, i + 1, j);
    }
}

proof fn lemma_no_next_occ(s: Seq<char>, p: Seq<char>, i: int)
    requires
        0 <= i,
        forall|k: int| i <= k ==> !occurs_at(s, p, k),
    ensures
        next_occ(s, p, i) == -1,
    decreases s.len() + 1 - i,
{
    if i <= s.len() {
        lemma_no_next_occ(s, p, i + 1);
    }
}

/// The length of the leading white space of `s`.
pub open spec fn ws_run(s: Seq<char>) -> nat
    decreases s.len(),
{
    if s.len() > 0 && is_ws(s[0]) {
        1 + ws_run(s.drop_first())
    } else {
        0
    }
}

/// The pinned names found in the comment-free text `c` from position `i`
/// on: the trimmed, non-empty `;`-separated entries of each `using ( … )`
/// whose `using` is not the tail of a longer identifier.
pub open spec fn pins_from(c: Seq<char>, i: int) -> Seq<Seq<char>>
    decreases c.len() + 1 - i,
{
    let start = next_occ(c, "using"@, i);
    if i < 0 || start < i {
        Seq::empty()
    } else {
        proof {
            lemma_next_occ_found(c, "using"@, i);
            reveal_strlit("using");
        }
        let end = start + 5;
        if !(start == 0 || !ident_char(c[start - 1])) {
            pins_from(c, end)
        } else {
            let rest = c.skip(end);
            let off = ws_run(rest) as int;
            if !(off < rest.len() && rest[off] == '(') {
                pins_from(c, end)
            } else {
                let inner_start = off + 1;
                let close = next_occ(rest, seq![')'], inner_start);
                if close < 0 {
                    pins_from(c, end)
                } else {
                    proof {
                        lemma_next_occ_found(rest, seq![')'], inner_start);
                    }
                    let inner = rest.subrange(inner_start, close);
                    nonempty_trimmed(split_on(inner, ';')) + pins_from(c, end + close + 1)
                }
            }
        }
    }
}

/// The trimmed entries, empty ones dropped.
pub open spec fn nonempty_trimmed(es: Seq<Seq<char>>) -> Seq<Seq<char>>
    decreases es.len(),
{
    if es.len() == 0 {
        Seq::empty()
    } else if trim(es.last()).len() == 0 {
        nonempty_trimmed(es.drop_last())
    } else {
        nonempty_trimmed(es.drop_last()).push(trim(es.last()))
    }
}

/// Each line without its comment.
pub open spec fn strip_all(ls: Seq<Seq<char>>) -> Seq<Seq<char>>
    decreases ls.len(),
{
    if ls.len() == 0 {
        Seq::empty()
    } else {
        strip_all(ls.drop_last()).push(strip_comment(ls.last()))
    }
}

/// The comment-stripped lines of a text joined by newlines.
pub open spec fn cleaned_text(text: Seq<char>) -> Seq<char> {
    join(strip_all(lines(text)), seq!['\n'])
}

/// The names a Smoke text pins.
pub open spec fn pins_of(text: Seq<char>) -> Seq<Seq<char>> {
    pins_from(cleaned_text(text), 0)
}

fn ws_run_exec(s: &[char], from: usize) -> (r: usize)
    requires
        from <= s@.len(),
    ensures
        from <= r <= s@.len(),
        r - from == ws_run(s@.skip(from as int)),
{
    let mut k = from;
    while k < s.len() && is_whitespace(s[k])
        invariant
            from <= k <= s@.len(),
            ws_run(s@.skip(from as int)) == (k - from) + ws_run(s@.skip(k as int)),
        decreases s.len() - k,
    {
        assert(s@.skip(k as int).drop_first() =~= s@.skip(k + 1));
        k = k + 1;
    }
    k
}

fn trimmed_entries(inner: &[char]) -> (r: Vec<Vec<char>>)
    ensures
        views(r@) == nonempty_trimmed(split_on(inner@, ';')),
{
    let parts = split_char(inner, ';');
    let ghost pv = views(parts@);
    let mut out: Vec<Vec<char>> = Vec::new();
    let mut k: usize = 0;
    while k < parts.len()
        invariant
            k <= parts@.len(),
            pv == views(parts@),
            pv == split_on(inner@, ';'),
            views(out@) == nonempty_trimmed(pv.take(k as int)),
        decreases parts.len() - k,
    {
        let t = trim_vec(&parts[k]);
        proof {
            assert(pv.take(k + 1).drop_last() =~= pv.take(k as int));
            assert(pv.take(k + 1).last() == parts@[k as int]@);
        }
        if t.len() > 0 {
            let ghost before = views(out@);
            out.push(t);
            assert(views(out@) =~= before.push(t@));
        }
        k = k + 1;
    }
    assert(pv.take(pv.len() as int) =~= pv);
    out
}

/// The pinned names of the comment-free text `c`.
fn pins(c: &[char]) -> (r: Vec<Vec<char>>)
    ensures
        views(r@) == pins_from(c@, 0),
{
    let using = chars_of("using");
    let close_paren: [char; 1] = [')'];
    let mut out: Vec<Vec<char>> = Vec::new();
    let mut i: usize = 0;
    let clen = c.len();
    loop
        invariant
            using@ == "using"@,
            close_paren@ == seq![')'],
            clen == c@.len(),
            i <= c@.len(),
            views(out@) + pins_from(c@, i as int) == pins_from(c@, 0),
        decreases c@.len() + 1 - i,
    {
        let start = match find_from(c, &using, i) {
            None => {
                proof {
                    lemma_no_next_occ(c@, using@, i as int);
                }
                assert(views(out@) + Seq::<Seq<char>>::empty() =~= views(out@));
                return out;
            },
            Some(s) => s,
        };
        proof {
            lemma_next_occ(c@, using@, i as int, start as int);
            reveal_strlit("using");
            assert(using@.len() == 5);
        }
        let end = start + 5;
        let left_ok = start == 0 || !(is_alphanumeric(c[start - 1]) || c[start - 1] == '_' || c[start - 1] == '-'
            || c[start - 1] == '\'');
        if !left_ok {
            i = end;
            continue;
        }
        let rest = slice_vec(c, end, c.len());
        let ghost rv = c@.skip(end as int);
        assert(rest@ =~= rv);
        let o = ws_run_exec(&rest, 0);
        assert(rest@.skip(0) =~= rest@);
        if !(o < rest.len() && rest[o] == '(') {
            i = end;
            continue;
        }
        let inner_start = o + 1;
        let close = match find_from(&rest, &close_paren, inner_start) {
            None => {
                proof {
                    lemma_no_next_occ(rv, seq![')'], inner_start as int);
                }
                i = end;
                continue;
            },
            Some(x) => x,
        };
        proof {
            lemma_next_occ(rv, seq![')'], inner_start as int, close as int);
        }
        let inner = slice_vec(&rest, inner_start, close);
        let names = trimmed_entries(&inner);
        let mut k: usize = 0;
        let ghost before = views(out@);
        while k < names.len()
            invariant
                k <= names@.len(),
                views(out@) == before + views(names@).take(k as int),
            decreases names.len() - k,
        {
            let x = slice_vec(&names[k], 0, names[k].len());
            assert(x@ =~= names@[k as int]@);
            let ghost b2 = views(out@);
            out.push(x);
            proof {
                assert(views(out@) =~= b2.push(x@));
                assert(views(names@).take(k + 1) =~= views(names@).take(k as int).push(names@[k as int]@));
            }
            k = k + 1;
        }
        assert(views(names@).take(names@.len() as int) =~= views(names@));
        assert(pins_from(c@, i as int) == nonempty_trimmed(split_on(inner@, ';')) + pins_from(c@, end + close + 1));
        assert(views(out@) + pins_from(c@, end + close + 1) =~= before + pins_from(c@, i as int));
        i = end + close + 1;
    }
}

/// The comment-stripped lines of `text` joined by newlines.
fn cleaned(text: &str) -> (r: Vec<char>)
    ensures
        r@ == cleaned_text(text@),
{
    let cs = chars_of(text);
    let ls = split_lines(&cs);
    let mut stripped: Vec<Vec<char>> = Vec::new();
    let mut k: usize = 0;
    while k < ls.len()
        invariant
            k <= ls@.len(),
            views(ls@) == lines(text@),
            views(stripped@) == strip_all(lines(text@).take(k as int)),
        decreases ls.len() - k,
    {
        let t = strip_comment_vec(&ls[k]);
        let ghost before = views(stripped@);
        stripped.push(t);
        proof {
            assert(views(ls@)[k as int] == ls@[k as int]@);
            assert(lines(text@).take(k + 1).drop_last() =~= lines(text@).take(k as int));
            assert(views(stripped@) =~= before.push(t@));
        }
        k = k + 1;
    }
    assert(lines(text@).take(ls@.len() as int) =~= lines(text@));
    let nl: [char; 1] = ['\n'];
    assert(nl@ =~= seq!['\n']);
    crate::graph::join_chars(&stripped, &nl)
}

/// Reserved openers that never declare a pinnable headline.
pub open spec fn non_decl_keywords() -> Seq<Seq<char>> {
    seq!["module"@, "open"@, "import"@, "private"@, "record"@, "data"@, "postulate"@, "infix"@, "infixl"@, "infixr"@, "mutual"@, "abstract"@, "instance"@, "field"@, "syntax"@, "pattern"@, "variable"@, "primitive"@, "where"@, "renaming"@, "using"@, "hiding"@, "constructor"@, "interleaved"@, "unquoteDecl"@, "unquoteDef"@, "macro"@, "tactic"@]
}

/// The names a top-level line declares: those before its first standalone
/// `:` token, unless that is the first token or the line opens with a
/// reserved keyword.
pub open spec fn decl_names(l: Seq<char>) -> Seq<Seq<char>> {
    let toks = words(strip_comment(l));
    let colon = first_pos(toks, ":"@);
    if colon <= 0 || non_decl_keywords().contains(toks[0]) {
        Seq::empty()
    } else {
        toks.take(colon)
    }
}

/// One step of the line scan: the block-comment state after line `raw`
/// and whether `raw` is a candidate top-level declaration.
pub open spec fn decl_step(in_block: bool, raw: Seq<char>) -> (bool, bool) {
    if in_block {
        (!contains(raw, "-}"@), false)
    } else if raw.len() == 0 || is_ws(raw[0]) {
        (false, false)
    } else if starts_with(raw, "--"@) {
        (false, false)
    } else if starts_with(raw, "{-"@) {
        (!contains(raw, "-}"@), false)
    } else {
        (false, true)
    }
}

/// Whether a block comment is open after the first `k` lines.
pub open spec fn block_open(ls: Seq<Seq<char>>, k: int) -> bool
    decreases k,
{
    if k <= 0 || k > ls.len() {
        false
    } else {
        decl_step(block_open(ls, k - 1), ls[k - 1]).0
    }
}

/// The names among `ns` the pattern matches, each with `line`.
pub open spec fn matching(pattern: Seq<char>, ns: Seq<Seq<char>>, line: int) -> Seq<(Seq<char>, int)>
    decreases ns.len(),
{
    if ns.len() == 0 {
        Seq::empty()
    } else if regex_finds(pattern, ns.last()) {
        matching(pattern, ns.drop_last(), line).push((ns.last(), line))
    } else {
        matching(pattern, ns.drop_last(), line)
    }
}

/// The headline declarations of the first `k` lines, with 1-based lines.
pub open spec fn headlines_upto(ls: Seq<Seq<char>>, pattern: Seq<char>, k: int) -> Seq<(Seq<char>, int)>
    decreases k,
{
    if k <= 0 || k > ls.len() {
        Seq::empty()
    } else {
        headlines_upto(ls, pattern, k - 1) + if decl_step(block_open(ls, k - 1), ls[k - 1]).1 {
            matching(pattern, decl_names(ls[k - 1]), k)
        } else {
            Seq::empty()
        }
    }
}

/// The headline declarations of a text.
pub open spec fn headlines(text: Seq<char>, pattern: Seq<char>) -> Seq<(Seq<char>, int)> {
    headlines_upto(lines(text), pattern, lines(text).len() as int)
}

/// Some entry module is a Smoke file.
pub open spec fn any_smoke(ctx: LintContext) -> bool {
    exists|k: int| 0 <= k < ctx.entry_modules@.len() && is_smoke(#[trigger] ctx.entry_modules@[k]@)
}

/// Every Smoke entry module can be read.
pub open spec fn smokes_readable(ctx: LintContext) -> bool {
    forall|k: int|
        0 <= k < ctx.entry_modules@.len() && is_smoke(#[trigger] ctx.entry_modules@[k]@) ==> text_at(
            ctx.tree.files@,
            ctx.entry_modules@[k]@,
        ) matches Some(Some(_))
}

/// `e` is the error for the first Smoke entry module that cannot be read.
pub open spec fn smoke_fails_with(ctx: LintContext, e: Seq<char>) -> bool {
    exists|k: int|
        0 <= k < ctx.entry_modules@.len() && is_smoke(#[trigger] ctx.entry_modules@[k]@)
            && !(text_at(ctx.tree.files@, ctx.entry_modules@[k]@) matches Some(Some(_)))
            && (forall|j: int|
                0 <= j < k && is_smoke(#[trigger] ctx.entry_modules@[j]@) ==> text_at(ctx.tree.files@, ctx.entry_modules@[j]@) matches Some(Some(_)))
            && e == "reading Smoke file "@ + ctx.entry_modules@[k]@
}

/// Entry module `k` is a readable Smoke file that pins `m`.
pub open spec fn pins_at(ctx: LintContext, k: int, m: Seq<char>) -> bool {
    is_smoke(ctx.entry_modules@[k]@) && (text_at(ctx.tree.files@, ctx.entry_modules@[k]@) matches Some(Some(t))
        && pins_of(t).contains(m))
}

/// Some Smoke entry module pins `m`.
pub open spec fn pinned_in(ctx: LintContext, m: Seq<char>) -> bool {
    exists|k: int| 0 <= k < ctx.entry_modules@.len() && #[trigger] pins_at(ctx, k, m)
}

/// The warnings for the first `k` headline declarations: one per unpinned
/// name, at its first declaration.
pub open spec fn unpinned_upto(ctx: LintContext, file: Seq<char>, ds: Seq<(Seq<char>, int)>, k: int) -> Seq<DiagView>
    decreases k,
{
    if k <= 0 || k > ds.len() {
        Seq::empty()
    } else {
        let (n, line) = ds[k - 1];
        unpinned_upto(ctx, file, ds, k - 1) + if !pinned_in(ctx, n) && !(exists|j: int| 0 <= j < k - 1 && (#[trigger] ds[j]).0 == n) {
            seq![DiagView {
                rule: "unpinned-headline"@,
                severity: Severity::Warn,
                file,
                message: "headline `"@ + n + "` is not pinned in any Smoke.agda via a `using` clause"@,
                line: Some(line as usize),
            }]
        } else {
            Seq::empty()
        }
    }
}

fn is_non_decl(t: &[char]) -> (r: bool)
    ensures
        r == non_decl_keywords().contains(t@),
{
    let kws: [&str; 28] = ["module", "open", "import", "private", "record", "data", "postulate", "infix", "infixl", "infixr", "mutual", "abstract", "instance", "field", "syntax", "pattern", "variable", "primitive", "where", "renaming", "using", "hiding", "constructor", "interleaved", "unquoteDecl", "unquoteDef", "macro", "tactic"];
    let ghost kv = kws@.map_values(|k: &str| k@);
    assert(kv =~= non_decl_keywords());
    let mut i: usize = 0;
    while i < 28
        invariant
            i <= 28,
            kv == kws@.map_values(|k: &str| k@),
            kv == non_decl_keywords(),
            forall|j: int| 0 <= j < i ==> kv[j] != t@,
        decreases 28 - i,
    {
        let k = chars_of(kws[i]);
        assert(kv[i as int] == kws@[i as int]@);
        if seq_eq(t, &k) {
            return true;
        }
        i = i + 1;
    }
    false
}

fn decl_names_of(l: &[char]) -> (r: Vec<Vec<char>>)
    ensures
        views(r@) == decl_names(l@),
{
    let c = strip_comment_vec(l);
    let toks = split_words(&c);
    proof {
        lemma_first_pos(views(toks@), ":"@);
    }
    match position_of(&toks, &chars_of(":")) {
        None => Vec::new(),
        Some(colon) => {
            if colon == 0 {
                return Vec::new();
            }
            assert(views(toks@)[0] == toks@[0]@);
            if is_non_decl(&toks[0]) {
                return Vec::new();
            }
            let mut out: Vec<Vec<char>> = Vec::new();
            let mut k: usize = 0;
            while k < colon
                invariant
                    k <= colon < toks@.len(),
                    views(out@) == views(toks@).take(k as int),
                decreases colon - k,
            {
                let x = slice_vec(&toks[k], 0, toks[k].len());
                assert(x@ =~= toks@[k as int]@);
                let ghost b2 = views(out@);
                out.push(x);
                proof {
                    assert(views(out@) =~= b2.push(x@));
                    assert(views(toks@).take(k + 1) =~= views(toks@).take(k as int).push(toks@[k as int]@));
                }
                k = k + 1;
            }
            out
        },
    }
}

/// The (name, line) headline declarations of `text`.
pub(crate) fn headline_decls(text: &str, pattern: &str) -> (r: Vec<(String, usize)>)
    requires
        regex_compiles(pattern@),
    ensures
        r@.map_values(|d: (String, usize)| (d.0@, d.1 as int)) == headlines(text@, pattern@),
{
    let cs = chars_of(text);
    let ls = split_lines(&cs);
    let ghost lv = views(ls@);
    let mut out: Vec<(String, usize)> = Vec::new();
    let mut in_block = false;
    let mut i: usize = 0;
    while i < ls.len()
        invariant
            i <= ls@.len(),
            lv == views(ls@),
            lv == lines(text@),
            regex_compiles(pattern@),
            in_block == block_open(lv, i as int),
            out@.map_values(|d: (String, usize)| (d.0@, d.1 as int)) == headlines_upto(lv, pattern@, i as int),
        decreases ls.len() - i,
    {
        let raw = &ls[i];
        assert(lv[i as int] == raw@);
        let ghost step = decl_step(in_block, raw@);
        let ghost before = out@.map_values(|d: (String, usize)| (d.0@, d.1 as int));
        let mut candidate = false;
        if in_block {
            if contains_seq(raw, &chars_of("-}")) {
                in_block = false;
            }
        } else if raw.len() == 0 || is_whitespace(raw[0]) {
        } else if has_prefix(raw, &chars_of("--")) {
        } else if has_prefix(raw, &chars_of("{-")) {
            if !contains_seq(raw, &chars_of("-}")) {
                in_block = true;
            }
        } else {
            candidate = true;
        }
        assert(in_block == step.0 && candidate == step.1);
        if candidate {
            let line_no = i + 1;
            let names = decl_names_of(raw);
            let ghost nv = views(names@);
            let mut k: usize = 0;
            while k < names.len()
                invariant
                    k <= names@.len(),
                    nv == views(names@),
                    regex_compiles(pattern@),
                    line_no == i + 1,
                    out@.map_values(|d: (String, usize)| (d.0@, d.1 as int)) == before + matching(pattern@, nv.take(k as int), i + 1),
                decreases names.len() - k,
            {
                let name = string_of(&names[k]);
                proof {
                    assert(nv.take(k + 1).drop_last() =~= nv.take(k as int));
                    assert(nv.take(k + 1).last() == names@[k as int]@);
                }
                if regex_is_match(pattern, name.as_str()) {
                    let ghost b2 = out@;
                    out.push((name, line_no));
                    assert(out@.map_values(|d: (String, usize)| (d.0@, d.1 as int)) =~= b2.map_values(|d: (String, usize)| (d.0@, d.1 as int)).push((names@[k as int]@, i + 1)));
                }
                k = k + 1;
            }
            assert(nv.take(nv.len() as int) =~= nv);
        }
        assert(out@.map_values(|d: (String, usize)| (d.0@, d.1 as int)) =~= headlines_upto(lv, pattern@, i + 1));
        i = i + 1;
    }
    out
}

fn entry_pins(t: &str) -> (r: Vec<String>)
    ensures
        strs(r@) == pins_of(t@),
{
    let c = cleaned(t);
    let ps = pins(&c);
    let mut out: Vec<String> = Vec::new();
    let mut q: usize = 0;
    while q < ps.len()
        invariant
            q <= ps@.len(),
            strs(out@) == views(ps@).take(q as int),
        decreases ps.len() - q,
    {
        let ghost b = strs(out@);
        out.push(string_of(&ps[q]));
        assert(strs(out@) =~= b.push(ps@[q as int]@));
        assert(views(ps@).take(q + 1) =~= views(ps@).take(q as int).push(ps@[q as int]@));
        q = q + 1;
    }
    assert(views(ps@).take(ps@.len() as int) =~= views(ps@));
    out
}

/// The union of the pins of every Smoke entry module, and whether there
/// is one; an error when a Smoke entry cannot be read.
fn smoke_pins(ctx: &LintContext) -> (r: Result<(Vec<String>, bool), String>)
    ensures
        r is Ok <==> smokes_readable(*ctx),
        r matches Ok(x) ==> crate::order::sorted(strs(x.0@)) && x.1 == any_smoke(*ctx) && forall|m: Seq<char>|
            strs(x.0@).contains(m) <==> pinned_in(*ctx, m),
        r matches Err(e) ==> smoke_fails_with(*ctx, e@),
{
    let mut pinned: Vec<String> = Vec::new();
    let mut found_smoke = false;
    let mut k: usize = 0;
    while k < ctx.entry_modules.len()
        invariant
            k <= ctx.entry_modules@.len(),
            crate::order::sorted(strs(pinned@)),
            found_smoke == exists|j: int| 0 <= j < k && is_smoke(#[trigger] ctx.entry_modules@[j]@),
            forall|j: int|
                0 <= j < k && is_smoke(#[trigger] ctx.entry_modules@[j]@) ==> text_at(ctx.tree.files@, ctx.entry_modules@[j]@) matches Some(Some(_)),
            forall|m: Seq<char>| #![trigger strs(pinned@).contains(m)] strs(pinned@).contains(m) <==> exists|j: int| 0 <= j < k && #[trigger] pins_at(*ctx, j, m),
        decreases ctx.entry_modules.len() - k,
    {
        let e = &ctx.entry_modules[k];
        if smoke_file(e.as_str()) {
            found_smoke = true;
            proof {
                lemma_file_pos(ctx.tree.files@, e@);
            }
            let t = match ctx.tree.find(e.as_str()) {
                None => {
                    assert(!smokes_readable(*ctx)) by {
                        assert(is_smoke(ctx.entry_modules@[k as int]@));
                    }
                    let mut m = String::from_str("reading Smoke file ");
                    m.append(e.as_str());
                    assert(smoke_fails_with(*ctx, m@)) by {
                        assert(is_smoke(ctx.entry_modules@[k as int]@));
                    }
                    return Err(m);
                },
                Some(fi) => match &ctx.tree.files[fi].text {
                    None => {
                        assert(!smokes_readable(*ctx)) by {
                            assert(is_smoke(ctx.entry_modules@[k as int]@));
                        }
                        let mut m = String::from_str("reading Smoke file ");
                        m.append(e.as_str());
                        assert(smoke_fails_with(*ctx, m@)) by {
                            assert(is_smoke(ctx.entry_modules@[k as int]@));
                        }
                        return Err(m);
                    },
                    Some(t) => t,
                },
            };
            let ps = entry_pins(t.as_str());
            let ghost before = strs(pinned@);
            let mut q: usize = 0;
            while q < ps.len()
                invariant
                    q <= ps@.len(),
                    crate::order::sorted(strs(pinned@)),
                    forall|m: Seq<char>| #![trigger strs(pinned@).contains(m)] strs(pinned@).contains(m) <==> before.contains(m) || strs(ps@).take(q as int).contains(m),
                decreases ps.len() - q,
            {
                let ghost b2 = strs(pinned@);
                let x = ps[q].clone();
                let ghost xv = x@;
                crate::order::set_insert(&mut pinned, x);
                proof {
                    assert(strs(ps@)[q as int] == xv);
                    assert forall|m: Seq<char>| #![trigger strs(pinned@).contains(m)] strs(pinned@).contains(m) <==> before.contains(m) || strs(ps@).take(q + 1).contains(m) by {
                        crate::order::lemma_set_insert_contains(b2, strs(pinned@), xv, m);
                        crate::order::lemma_take_push_contains(strs(ps@), q as int, m);
                    }
                }
                q = q + 1;
            }
            proof {
                assert(strs(ps@).take(ps@.len() as int) =~= strs(ps@));
                assert forall|m: Seq<char>| #![trigger strs(pinned@).contains(m)] strs(pinned@).contains(m) <==> exists|j: int| 0 <= j < k + 1 && #[trigger] pins_at(*ctx, j, m) by {
                    if strs(ps@).contains(m) {
                        assert(pins_at(*ctx, k as int, m));
                    }
                    if exists|j: int| 0 <= j < k + 1 && #[trigger] pins_at(*ctx, j, m) {
                        let j = choose|j: int| 0 <= j < k + 1 && #[trigger] pins_at(*ctx, j, m);
                        if j == k {
                            assert(strs(ps@).contains(m));
                        }
                    }
                }
            }
        } else {
            proof {
                assert forall|m: Seq<char>| #![trigger strs(pinned@).contains(m)] strs(pinned@).contains(m) <==> exists|j: int| 0 <= j < k + 1 && #[trigger] pins_at(*ctx, j, m) by {
                    if exists|j: int| 0 <= j < k + 1 && #[trigger] pins_at(*ctx, j, m) {
                        let j = choose|j: int| 0 <= j < k + 1 && #[trigger] pins_at(*ctx, j, m);
                        assert(j != k);
                    }
                }
            }
        }
        k = k + 1;
    }
    Ok((pinned, found_smoke))
}

/// Reports each unpinned headline once, at its first declaration.
fn report_unpinned(ctx: &LintContext, file: &str, ds: &Vec<(String, usize)>, pinned: &Vec<String>, report: &mut LintReport)
    requires
        crate::order::sorted(strs(pinned@)),
        forall|m: Seq<char>| strs(pinned@).contains(m) <==> pinned_in(*ctx, m),
    ensures
        final(report).file == old(report).file,
        final(report).diags() == old(report).diags() + unpinned_upto(
            *ctx,
            file@,
            ds@.map_values(|d: (String, usize)| (d.0@, d.1 as int)),
            ds@.len() as int,
        ),
{
    let ghost dv = ds@.map_values(|d: (String, usize)| (d.0@, d.1 as int));
    let mut reported: Vec<String> = Vec::new();
    let mut i: usize = 0;
    while i < ds.len()
        invariant
            i <= ds@.len(),
            dv == ds@.map_values(|d: (String, usize)| (d.0@, d.1 as int)),
            crate::order::sorted(strs(pinned@)),
            crate::order::sorted(strs(reported@)),
            forall|m: Seq<char>| strs(pinned@).contains(m) <==> pinned_in(*ctx, m),
            forall|m: Seq<char>| strs(reported@).contains(m) ==> exists|j: int| 0 <= j < i && (#[trigger] dv[j]).0 == m,
            forall|j: int| 0 <= j < i ==> strs(reported@).contains((#[trigger] dv[j]).0) || pinned_in(*ctx, dv[j].0),
            report.diags() == old(report).diags() + unpinned_upto(*ctx, file@, dv, i as int),
            report.file == old(report).file,
        decreases ds.len() - i,
    {
        let name = &ds[i].0;
        let line = ds[i].1;
        assert(dv[i as int] == (name@, line as int));
        let ghost seen_before = exists|j: int| 0 <= j < i && (#[trigger] dv[j]).0 == name@;
        let is_pinned = crate::order::set_contains(pinned, name.as_str());
        let was = crate::order::set_contains(&reported, name.as_str());
        proof {
            if seen_before && !pinned_in(*ctx, name@) {
                let j = choose|j: int| 0 <= j < i && (#[trigger] dv[j]).0 == name@;
                assert(strs(reported@).contains(dv[j].0));
            }
        }
        let ghost start = report.diags();
        let ghost rep_before = strs(reported@);
        if !is_pinned && !was {
            let mut msg = String::from_str("headline `");
            msg.append(name.as_str());
            msg.append("` is not pinned in any Smoke.agda via a `using` clause");
            let d = warn("unpinned-headline", file, line, msg);
            report.push(d);
            crate::order::set_insert(&mut reported, name.clone());
            assert(report.diags() =~= start + seq![d@]);
        } else {
            assert(report.diags() =~= start + Seq::<DiagView>::empty());
        }
        proof {
            assert forall|m: Seq<char>| strs(reported@).contains(m) implies exists|j: int| 0 <= j < i + 1 && (#[trigger] dv[j]).0 == m by {
                if !is_pinned && !was {
                    crate::order::lemma_set_insert_contains(rep_before, strs(reported@), name@, m);
                }
            }
            assert forall|j: int| 0 <= j < i + 1 implies strs(reported@).contains((#[trigger] dv[j]).0) || pinned_in(*ctx, dv[j].0) by {
                if !is_pinned && !was {
                    crate::order::lemma_set_insert_contains(rep_before, strs(reported@), name@, dv[j].0);
                }
            }
        }
        assert(report.diags() =~= old(report).diags() + unpinned_upto(*ctx, file@, dv, i + 1));
        i = i + 1;
    }
}

impl LintRule for UnpinnedHeadline {
    open spec fn rule_name(&self) -> Seq<char> {
        "unpinned-headline"@
    }

    open spec fn findings(&self, file: Seq<char>, text: Seq<char>, ctx: LintContext) -> Option<Seq<DiagView>> {
        if is_smoke(file) {
            Some(Seq::empty())
        } else if !smokes_readable(ctx) {
            None
        } else if !any_smoke(ctx) {
            Some(Seq::empty())
        } else if !regex_compiles(self.pattern()) {
            None
        } else {
            let ds = headlines(text, self.pattern());
            Some(unpinned_upto(ctx, file, ds, ds.len() as int))
        }
    }

    /// Fails, for a file other than a Smoke file, when a Smoke entry
    /// module cannot be read, or when there is one and the pattern does
    /// not compile.
    open spec fn fails_with(&self, file: Seq<char>, text: Seq<char>, ctx: LintContext, e: Seq<char>) -> bool {
        &&& !is_smoke(file)
        &&& (smoke_fails_with(ctx, e) || (smokes_readable(ctx) && any_smoke(ctx) && !regex_compiles(self.pattern())
            && e == regex_error(self.pattern())))
    }

    fn name(&self) -> (r: &'static str) {
        "unpinned-headline"
    }

    fn run(&self, file: &str, text: &str, ctx: &LintContext, report: &mut LintReport) -> (r: Result<(), String>) {
        if smoke_file(file) {
            assert(report.diags() + Seq::<DiagView>::empty() =~= report.diags());
            return Ok(());
        }
        let (pinned, found_smoke) = match smoke_pins(ctx) {
            Ok(x) => x,
            Err(e) => {
                return Err(e);
            },
        };
        if !found_smoke {
            assert(report.diags() + Seq::<DiagView>::empty() =~= report.diags());
            return Ok(());
        }
        match regex_check(self.pattern.as_str()) {
            Ok(()) => {},
            Err(e) => {
                return Err(e);
            },
        }
        let ds = headline_decls(text, self.pattern.as_str());
        report_unpinned(ctx, file, &ds, &pinned, report);
        Ok(())
    }
}

} // verus!
