//! The Coq / Rocq backend. A green `coqc` compile does not by itself mean
//! "proven": `Admitted.`/`admit` and genuine `Axiom`/`Parameter`
//! postulates all compile. So a failing compile is an error; a clean one
//! is admitted when the source admits a goal, postulated when it states a
//! genuine postulate, and proven otherwise (`coqc` kernel-checks every
//! `Qed`). Section-scoped declarations, carrier types, decidability
//! witnesses and non-`Prop` function symbols are not postulates.

use vstd::prelude::*;
use super::{str_views, Backend, BackendKind, Verdict, named_paths, files_named};
use crate::graph::{module_char, module_name_spec, SourceTree};
use crate::path::module_file_spec;
use crate::lint::{Rule, RuleConfig};
use crate::lint::coq::{coq_seps, CoqEscapeHatch};
use crate::order::strs;
use crate::text::{alnum, chars_of, contains, contains_char, contains_seq, ends_with, find_first, first_occ, first_pos, has_char, has_prefix, has_suffix, has_token, is_alphanumeric, lemma_first_pos, lines, occurs_at, position_of, rfind, seq_eq, slice_vec, split_lines, split_words, starts_with, string_of, strip_line_comments, strip_ml_comments, token_in, trim, trim_end, trim_start, trim_start_vec, trim_end_vec, trim_vec, views, words};

verus! {

/// The Coq / Rocq proof assistant.
#[derive(Clone, Copy, Debug)]
pub struct Coq;

/// A line admits a goal: `Admitted` or `admit` as a token outside comments.
pub open spec fn line_admits(line: Seq<char>) -> bool {
    let code = strip_ml_comments(line);
    token_in(code, "Admitted"@, coq_seps()) || token_in(code, "admit"@, coq_seps())
}

/// Whether a source closes a proof with `Admitted.` or uses `admit`.
pub open spec fn admits(src: Seq<char>) -> bool {
    exists|i: int| 0 <= i < lines(src).len() && line_admits(#[trigger] lines(src)[i])
}

/// Whether `src` admits a goal (`Admitted`/`admit` as delimited tokens
/// outside `(* … *)` comments, so `admittedly` or a commented `admit` do
/// not count).
pub fn has_admit(src: &str) -> (r: bool)
    ensures
        r == admits(src@),
{
    let cs = chars_of(src);
    let ls = split_lines(&cs);
    let ghost lv = views(ls@);
    let seps = vec!['(', ')', '{', '}', ';', ',', '.'];
    assert(seps@ =~= coq_seps());
    let a1 = chars_of("Admitted");
    let a2 = chars_of("admit");
    let mut i: usize = 0;
    while i < ls.len()
        invariant
            i <= ls@.len(),
            lv == views(ls@),
            lv == lines(src@),
            seps@ == coq_seps(),
            a1@ == "Admitted"@,
            a2@ == "admit"@,
            forall|j: int| 0 <= j < i ==> !line_admits(#[trigger] lv[j]),
        decreases ls.len() - i,
    {
        assert(lv[i as int] == ls@[i as int]@);
        let code = strip_line_comments(&ls[i]);
        if has_token(&code, &a1, &seps) || has_token(&code, &a2, &seps) {
            return true;
        }
        i = i + 1;
    }
    false
}

/// `s` without its leading characters that cannot start a module name.
pub open spec fn drop_lead_nonmod(s: Seq<char>) -> Seq<char>
    decreases s.len(),
{
    if s.len() > 0 && !module_char(s[0]) {
        drop_lead_nonmod(s.drop_first())
    } else {
        s
    }
}

/// `s` without its trailing characters that cannot end a module name.
pub open spec fn drop_trail_nonmod(s: Seq<char>) -> Seq<char>
    decreases s.len(),
{
    if s.len() > 0 && !module_char(s.last()) {
        drop_trail_nonmod(s.drop_last())
    } else {
        s
    }
}

/// `s` without leading dots.
pub open spec fn drop_lead_dots(s: Seq<char>) -> Seq<char>
    decreases s.len(),
{
    if s.len() > 0 && s[0] == '.' {
        drop_lead_dots(s.drop_first())
    } else {
        s
    }
}

/// `s` without trailing dots.
pub open spec fn drop_trail_dots(s: Seq<char>) -> Seq<char>
    decreases s.len(),
{
    if s.len() > 0 && s.last() == '.' {
        drop_trail_dots(s.drop_last())
    } else {
        s
    }
}

/// A module token trimmed to its dotted identifier: surrounding characters
/// that cannot be part of a module name dropped, then the dots at both ends
/// (the statement terminator among them).
pub open spec fn clean_module_spec(tok: Seq<char>) -> Seq<char> {
    drop_trail_dots(drop_lead_dots(drop_trail_nonmod(drop_lead_nonmod(tok))))
}

fn lead_trim(s: &[char], dots: bool) -> (r: Vec<char>)
    ensures
        dots ==> r@ == drop_lead_dots(s@),
        !dots ==> r@ == drop_lead_nonmod(s@),
{
    let mut i: usize = 0;
    assert(s@.skip(0) =~= s@);
    loop
        invariant
            i <= s@.len(),
            dots ==> drop_lead_dots(s@) == drop_lead_dots(s@.skip(i as int)),
            !dots ==> drop_lead_nonmod(s@) == drop_lead_nonmod(s@.skip(i as int)),
        ensures
            i <= s@.len(),
            dots ==> drop_lead_dots(s@) == s@.skip(i as int),
            !dots ==> drop_lead_nonmod(s@) == s@.skip(i as int),
        decreases s.len() - i,
    {
        if i >= s.len() {
            assert(s@.skip(i as int).len() == 0);
            break;
        }
        let c = s[i];
        let drop = if dots { c == '.' } else { !(is_alphanumeric(c) || c == '.' || c == '_') };
        assert(s@.skip(i as int)[0] == c);
        if !drop {
            break;
        }
        assert(s@.skip(i as int).drop_first() =~= s@.skip(i + 1));
        i = i + 1;
    }
    let r = slice_vec(s, i, s.len());
    assert(r@ =~= s@.skip(i as int));
    r
}

fn trail_trim(s: &[char], dots: bool) -> (r: Vec<char>)
    ensures
        dots ==> r@ == drop_trail_dots(s@),
        !dots ==> r@ == drop_trail_nonmod(s@),
{
    let mut n: usize = s.len();
    assert(s@.take(n as int) =~= s@);
    loop
        invariant
            n <= s@.len(),
            dots ==> drop_trail_dots(s@) == drop_trail_dots(s@.take(n as int)),
            !dots ==> drop_trail_nonmod(s@) == drop_trail_nonmod(s@.take(n as int)),
        ensures
            n <= s@.len(),
            dots ==> drop_trail_dots(s@) == s@.take(n as int),
            !dots ==> drop_trail_nonmod(s@) == s@.take(n as int),
        decreases n,
    {
        if n == 0 {
            assert(s@.take(0).len() == 0);
            break;
        }
        let c = s[n - 1];
        let drop = if dots { c == '.' } else { !(is_alphanumeric(c) || c == '.' || c == '_') };
        assert(s@.take(n as int).last() == c);
        if !drop {
            break;
        }
        assert(s@.take(n as int).drop_last() =~= s@.take(n - 1));
        n = n - 1;
    }
    let r = slice_vec(s, 0, n);
    assert(r@ =~= s@.take(n as int));
    r
}

/// Trims a module token to its dotted identifier, keeping internal dots
/// (`Coq.Lists.List.` gives `Coq.Lists.List`).
pub fn clean_module(tok: &str) -> (r: String)
    ensures
        r@ == clean_module_spec(tok@),
{
    let cs = chars_of(tok);
    string_of(&clean_module_chars(&cs))
}

fn clean_module_chars(tok: &[char]) -> (r: Vec<char>)
    ensures
        r@ == clean_module_spec(tok@),
{
    let a = lead_trim(tok, false);
    let b = trail_trim(&a, false);
    let c = lead_trim(&b, true);
    trail_trim(&c, true)
}

/// The modules named by a `Require` from token `idx` on: each cleaned
/// token that is not empty, up to the token that ends with the statement's
/// `.`.
pub open spec fn require_mods(ts: Seq<Seq<char>>, idx: int) -> Seq<Seq<char>>
    decreases ts.len() - idx,
{
    if idx < 0 || idx >= ts.len() {
        Seq::empty()
    } else {
        let c = clean_module_spec(ts[idx]);
        let rest = if ends_with(ts[idx], "."@) { Seq::empty() } else { require_mods(ts, idx + 1) };
        if c.len() > 0 { seq![c] + rest } else { rest }
    }
}

/// A plain module token: non-empty, made of module characters, and neither
/// starting nor ending with a dot.
pub open spec fn plain_module(m: Seq<char>) -> bool {
    &&& m.len() > 0
    &&& forall|i: int| 0 <= i < m.len() ==> module_char(#[trigger] m[i])
    &&& m[0] != '.'
    &&& m.last() != '.'
}

proof fn lemma_clean_plain(m: Seq<char>)
    requires
        plain_module(m),
    ensures
        clean_module_spec(m) == m,
        clean_module_spec(m + "."@) == m,
{
    reveal_strlit(".");
    assert(module_char(m[0]));
    assert(module_char(m[m.len() - 1]));
    assert(drop_lead_nonmod(m) == m);
    assert(drop_trail_nonmod(m) == m);
    assert(drop_lead_dots(m) == m);
    assert(drop_trail_dots(m) == m);
    let d = m + "."@;
    assert(d[0] == m[0]);
    assert(drop_lead_nonmod(d) == d);
    assert(d.last() == '.');
    assert(module_char('.'));
    assert(drop_trail_nonmod(d) == d);
    assert(drop_lead_dots(d) == d);
    assert(d.drop_last() =~= m);
    assert(drop_trail_dots(d) == drop_trail_dots(m));
}

/// The modules of a `Require` run: from token `p` of `ts`, the tokens up to
/// the one that ends the statement with a dot. When those tokens are plain
/// modules `ms` (the last followed by the dot), the result is exactly `ms`,
/// in order, whatever precedes or follows.
pub proof fn lemma_require_run(pre: Seq<Seq<char>>, ms: Seq<Seq<char>>, post: Seq<Seq<char>>)
    requires
        ms.len() >= 1,
        forall|k: int| 0 <= k < ms.len() ==> plain_module(#[trigger] ms[k]),
    ensures
        require_mods(pre + ms.drop_last() + seq![ms.last() + "."@] + post, pre.len() as int) == ms,
{
    let ts = pre + ms.drop_last() + seq![ms.last() + "."@] + post;
    lemma_require_suffix(ts, pre.len() as int, ms, 0);
    assert(ms.skip(0) =~= ms);
}

proof fn lemma_require_suffix(ts: Seq<Seq<char>>, p: int, ms: Seq<Seq<char>>, i: int)
    requires
        0 <= p,
        ms.len() >= 1,
        p + ms.len() <= ts.len(),
        0 <= i < ms.len(),
        forall|k: int| 0 <= k < ms.len() ==> plain_module(#[trigger] ms[k]),
        forall|k: int| 0 <= k < ms.len() - 1 ==> ts[p + k] == #[trigger] ms[k],
        ts[p + ms.len() - 1] == ms.last() + "."@,
    ensures
        require_mods(ts, p + i) == ms.skip(i),
    decreases ms.len() - i,
{
    reveal_strlit(".");
    let m = ms[i];
    assert(plain_module(m));
    lemma_clean_plain(m);
    if i == ms.len() - 1 {
        let tok = m + "."@;
        assert(ts[p + i] == tok);
        assert(tok.skip(tok.len() - 1) =~= "."@);
        assert(ends_with(tok, "."@));
        assert(ms.skip(i) =~= seq![m]);
        assert(seq![m] + Seq::<Seq<char>>::empty() =~= seq![m]);
    } else {
        assert(ts[p + i] == m);
        assert(!ends_with(m, "."@)) by {
            if ends_with(m, "."@) {
                assert(m.skip(m.len() - 1)[0] == m[m.len() - 1]);
            }
        }
        lemma_require_suffix(ts, p, ms, i + 1);
        assert(seq![m] + ms.skip(i + 1) =~= ms.skip(i));
    }
}

/// A line whose words are `Require`, optionally `Import` or `Export`, then
/// plain modules `ms` with the last followed by the terminating dot,
/// requires exactly `ms`, in order. (Without a keyword, a first module
/// named `Import` or `Export` would be read as the keyword.)
pub proof fn lemma_require_line(line: Seq<char>, kw: Seq<Seq<char>>, ms: Seq<Seq<char>>)
    requires
        kw == seq!["Require"@] || kw == seq!["Require"@, "Import"@] || kw == seq!["Require"@, "Export"@],
        ms.len() >= 1,
        forall|k: int| 0 <= k < ms.len() ==> plain_module(#[trigger] ms[k]),
        kw.len() == 1 ==> ms[0] != "Import"@ && ms[0] != "Export"@,
        words(strip_ml_comments(line)) == kw + ms.drop_last() + seq![ms.last() + "."@],
    ensures
        line_requires(line) == ms,
{
    reveal_strlit("Require");
    reveal_strlit("Import");
    reveal_strlit("Export");
    reveal_strlit(".");
    let ts = words(strip_ml_comments(line));
    lemma_first_pos(ts, "Require"@);
    assert(ts[0] == kw[0]);
    assert(first_pos(ts, "Require"@) == 0);
    if kw.len() == 2 {
        assert(ts[1] == kw[1]);
    } else {
        assert(ts[1] != "Import"@ && ts[1] != "Export"@) by {
            if ms.len() == 1 {
                let d = ms[0] + "."@;
                assert(ts[1] == d);
                assert(d.last() == '.');
                assert("Import"@.last() == 't');
                assert("Export"@.last() == 't');
            } else {
                assert(ts[1] == ms[0]);
            }
        }
    }
    lemma_require_run(kw, ms, Seq::empty());
    assert(kw + ms.drop_last() + seq![ms.last() + "."@] + Seq::<Seq<char>>::empty() =~= ts);
}

/// The modules one line `Require`s (`Require [Import|Export] M …`, also
/// after `From P`), comments removed.
pub open spec fn line_requires(line: Seq<char>) -> Seq<Seq<char>> {
    let ts = words(strip_ml_comments(line));
    let r = first_pos(ts, "Require"@);
    if r < 0 {
        Seq::empty()
    } else {
        let i = r + 1;
        let j = if i < ts.len() && (ts[i] == "Import"@ || ts[i] == "Export"@) { i + 1 } else { i };
        require_mods(ts, j)
    }
}

/// The modules every line requires, in order.
pub open spec fn requires_of_lines(ls: Seq<Seq<char>>) -> Seq<Seq<char>>
    decreases ls.len(),
{
    if ls.len() == 0 {
        Seq::empty()
    } else {
        requires_of_lines(ls.drop_last()) + line_requires(ls.last())
    }
}

/// The modules a Coq source depends on through `Require`.
pub open spec fn coq_requires(src: Seq<char>) -> Seq<Seq<char>> {
    requires_of_lines(lines(src))
}

fn line_requires_exec(line: &[char]) -> (r: Vec<String>)
    ensures
        strs(r@) == line_requires(line@),
{
    let code = strip_line_comments(line);
    let ts = split_words(&code);
    let ghost tv = views(ts@);
    let req = chars_of("Require");
    proof {
        lemma_first_pos(tv, "Require"@);
    }
    let mut out: Vec<String> = Vec::new();
    match position_of(&ts, &req) {
        None => {
            assert(strs(out@) =~= Seq::<Seq<char>>::empty());
            out
        },
        Some(pos) => {
            let nts = ts.len();
            assert(pos < nts);
            let mut i = pos + 1;
            if i < ts.len() {
                assert(tv[i as int] == ts@[i as int]@);
                if seq_eq(&ts[i], &chars_of("Import")) || seq_eq(&ts[i], &chars_of("Export")) {
                    i = i + 1;
                }
            }
            let ghost j0 = i as int;
            assert(strs(out@) + require_mods(tv, i as int) =~= require_mods(tv, j0));
            let dot = chars_of(".");
            loop
                invariant_except_break
                    strs(out@) + require_mods(tv, i as int) == require_mods(tv, j0),
                invariant
                    tv == views(ts@),
                    dot@ == "."@,
                    j0 <= i <= ts@.len() + 1,
                ensures
                    strs(out@) == require_mods(tv, j0),
                decreases ts.len() + 1 - i,
            {
                if i >= ts.len() {
                    assert(strs(out@) + Seq::<Seq<char>>::empty() =~= strs(out@));
                    break;
                }
                assert(tv[i as int] == ts@[i as int]@);
                let ends = has_suffix(&ts[i], &dot);
                let c = clean_module_chars(&ts[i]);
                let ghost before = strs(out@);
                if c.len() > 0 {
                    out.push(string_of(&c));
                    assert(strs(out@) =~= before.push(c@));
                }
                if ends {
                    proof {
                        if c@.len() > 0 {
                            assert(require_mods(tv, i as int) =~= seq![c@]);
                            assert(before + seq![c@] =~= strs(out@));
                        } else {
                            assert(require_mods(tv, i as int) =~= Seq::<Seq<char>>::empty());
                            assert(before + Seq::<Seq<char>>::empty() =~= strs(out@));
                        }
                    }
                    break;
                }
                proof {
                    if c@.len() > 0 {
                        assert(before + require_mods(tv, i as int) =~= strs(out@) + require_mods(tv, i + 1));
                    } else {
                        assert(strs(out@) == before);
                    }
                }
                i = i + 1;
            }
            out
        },
    }
}

/// The modules a Coq file depends on via `Require` statements: `Require
/// [Import|Export] M1 M2 ….` and `From P Require [Import|Export] M ….`. A
/// bare `Import`/`Export` is a namespace directive, not a dependency.
pub fn parse_requires(contents: &str) -> (r: Vec<String>)
    ensures
        strs(r@) == coq_requires(contents@),
{
    let cs = chars_of(contents);
    let ls = split_lines(&cs);
    let ghost lv = views(ls@);
    let mut out: Vec<String> = Vec::new();
    let mut i: usize = 0;
    while i < ls.len()
        invariant
            i <= ls@.len(),
            lv == views(ls@),
            lv == lines(contents@),
            strs(out@) == requires_of_lines(lv.take(i as int)),
        decreases ls.len() - i,
    {
        let more = line_requires_exec(&ls[i]);
        proof {
            assert(lv.take(i + 1).drop_last() =~= lv.take(i as int));
            assert(lv.take(i + 1).last() == ls@[i as int]@);
        }
        let ghost before = strs(out@);
        let mut k: usize = 0;
        while k < more.len()
            invariant
                k <= more@.len(),
                strs(out@) == before + strs(more@).take(k as int),
            decreases more.len() - k,
        {
            let ghost mid = strs(out@);
            out.push(more[k].clone());
            assert(strs(out@) =~= mid.push(more@[k as int]@));
            assert(strs(more@).take(k + 1) =~= strs(more@).take(k as int).push(more@[k as int]@));
            assert(strs(out@) =~= before + strs(more@).take(k + 1));
            k = k + 1;
        }
        assert(strs(more@).take(more@.len() as int) =~= strs(more@));
        i = i + 1;
    }
    assert(lv.take(lv.len() as int) =~= lv);
    out
}

/// The index of the last occurrence of `p` in `s` (meaningful when
/// `contains(s, p)`).
pub open spec fn last_occ(s: Seq<char>, p: Seq<char>) -> int {
    choose|i: int| occurs_at(s, p, i) && forall|j: int| i < j ==> !occurs_at(s, p, j)
}

/// The text after the last `p`, or all of `s` (`s.rsplit(p).next()`).
pub open spec fn after_last(s: Seq<char>, p: Seq<char>) -> Seq<char> {
    if contains(s, p) {
        s.skip(last_occ(s, p) + p.len())
    } else {
        s
    }
}

/// Return types that are clearly not `Prop`.
pub open spec fn concrete_returns() -> Seq<Seq<char>> {
    seq!["Q"@, "R"@, "Z"@, "N"@, "nat"@, "bool"@, "list"@, "option"@, "prod"@, "sum"@, "unit"@, "Type"@, "Set"@]
}

/// `t` without one trailing `.`.
pub open spec fn drop_one_dot(t: Seq<char>) -> Seq<char> {
    if t.len() > 0 && t.last() == '.' { t.drop_last() } else { t }
}

/// The stated type of a declaration: the text after its first `:`,
/// trimmed, one terminating `.` dropped, trimmed again.
pub open spec fn decl_type(decl: Seq<char>) -> Seq<char> {
    trim(drop_one_dot(trim(decl.skip(first_occ(decl, ":"@) + 1))))
}

/// A function type's codomain is clearly not `Prop`: it is not `Prop`
/// itself, and its first word is a known concrete type or starts with a
/// lower-case ASCII letter.
pub open spec fn concrete_codomain(typ: Seq<char>) -> bool {
    let ret = trim(after_last(typ, "->"@));
    let ws = words(ret);
    let first: Seq<char> = if ws.len() > 0 { ws[0] } else { Seq::empty() };
    if ret == "Prop"@ {
        false
    } else if concrete_returns().contains(first) {
        true
    } else {
        first.len() > 0 && 'a' <= first[0] && first[0] <= 'z'
    }
}

/// A stated type that makes a declaration an abstraction: a carrier
/// (`Type`/`Set`), a decidability witness (`{_ = _} + {_ <> _}`), or a
/// function type with a concrete codomain.
pub open spec fn abstraction_type(typ: Seq<char>) -> bool {
    if typ == "Type"@ || typ == "Set"@ {
        true
    } else if has_char(typ, '{') && has_char(typ, '=') && has_char(typ, '}') && has_char(typ, '+') && contains(typ, "<>"@) {
        true
    } else if contains(typ, "->"@) {
        concrete_codomain(typ)
    } else {
        false
    }
}

/// A declaration is an abstraction parameter rather than a postulate: it
/// states a type (has a `:`) and that type is an abstraction type.
pub open spec fn abstraction(decl: Seq<char>) -> bool {
    contains(decl, ":"@) && abstraction_type(decl_type(decl))
}

fn one_of(t: &[char], list: &Vec<Vec<char>>) -> (r: bool)
    ensures
        r == views(list@).contains(t@),
{
    let mut i: usize = 0;
    while i < list.len()
        invariant
            i <= list@.len(),
            forall|j: int| 0 <= j < i ==> views(list@)[j] != t@,
        decreases list.len() - i,
    {
        assert(views(list@)[i as int] == list@[i as int]@);
        if seq_eq(&list[i], t) {
            return true;
        }
        i = i + 1;
    }
    false
}

fn after_last_vec(s: &[char], p: &[char]) -> (r: Vec<char>)
    ensures
        r@ == after_last(s@, p@),
{
    match rfind(s, p) {
        None => slice_vec(s, 0, s.len()),
        Some(i) => {
            proof {
                let k = last_occ(s@, p@);
                assert(contains(s@, p@));
                assert(occurs_at(s@, p@, k) && forall|j: int| k < j ==> !occurs_at(s@, p@, j));
                if k < i {
                    assert(!occurs_at(s@, p@, i as int));
                }
                if i < k {
                    assert(!occurs_at(s@, p@, k));
                }
            }
            let n = p.len();
            let total = s.len();
            assert(i + n <= total);
            let r = slice_vec(s, i + n, total);
            assert(r@ =~= s@.skip(i + p@.len()));
            r
        },
    }
}

/// Whether a Coq `Axiom`/`Parameter` declaration is an abstraction
/// parameter (carrier type, decidability witness, or non-`Prop` function
/// symbol) rather than a postulate; unknown shapes are postulates.
pub fn is_abstraction_parameter(decl: &str) -> (r: bool)
    ensures
        r == abstraction(decl@),
{
    let d = chars_of(decl);
    abstraction_chars(&d)
}

#[verifier::spinoff_prover]
#[verifier::rlimit(50)]
fn decl_type_vec(d: &[char]) -> (r: Option<Vec<char>>)
    ensures
        r is None <==> !contains(d@, ":"@),
        r matches Some(t) ==> t@ == decl_type(d@),
{
    let colon = chars_of(":");
    let k = match find_first(d, &colon) {
        None => return None,
        Some(k) => k,
    };
    assert(occurs_at(d@, colon@, k as int));
    proof {
        reveal_strlit(":");
    }
    let total = d.len();
    assert(k + 1 <= total);
    let after = slice_vec(d, k + 1, total);
    assert(after@ =~= d@.skip(first_occ(d@, ":"@) + 1));
    let t1 = trim_vec(&after);
    let t2 = if t1.len() > 0 && t1[t1.len() - 1] == '.' {
        let x = slice_vec(&t1, 0, t1.len() - 1);
        assert(x@ =~= t1@.drop_last());
        x
    } else {
        t1
    };
    Some(trim_vec(&t2))
}

#[verifier::spinoff_prover]
fn concrete_codomain_chars(typ: &[char]) -> (r: bool)
    ensures
        r == concrete_codomain(typ@),
{
    let arrow = chars_of("->");
    let tail = after_last_vec(typ, &arrow);
    let ret = trim_vec(&tail);
    if seq_eq(&ret, &chars_of("Prop")) {
        return false;
    }
    let ws = split_words(&ret);
    let first: Vec<char> = if ws.len() > 0 {
        assert(views(ws@)[0] == ws@[0]@);
        let f = slice_vec(&ws[0], 0, ws[0].len());
        assert(f@ =~= ws@[0]@);
        f
    } else {
        Vec::new()
    };
    assert(first@ == (if words(ret@).len() > 0 { words(ret@)[0] } else { Seq::<char>::empty() }));
    let concrete = vec![chars_of("Q"), chars_of("R"), chars_of("Z"), chars_of("N"), chars_of("nat"), chars_of("bool"), chars_of("list"), chars_of("option"), chars_of("prod"), chars_of("sum"), chars_of("unit"), chars_of("Type"), chars_of("Set")];
    assert(views(concrete@) =~= concrete_returns());
    if one_of(&first, &concrete) {
        return true;
    }
    first.len() > 0 && 'a' <= first[0] && first[0] <= 'z'
}

#[verifier::spinoff_prover]
fn abstraction_type_chars(typ: &[char]) -> (r: bool)
    ensures
        r == abstraction_type(typ@),
{
    if seq_eq(typ, &chars_of("Type")) || seq_eq(typ, &chars_of("Set")) {
        return true;
    }
    if contains_char(typ, '{') && contains_char(typ, '=') && contains_char(typ, '}') && contains_char(typ, '+') && contains_seq(typ, &chars_of("<>")) {
        return true;
    }
    if !contains_seq(typ, &chars_of("->")) {
        return false;
    }
    concrete_codomain_chars(typ)
}

fn abstraction_chars(d: &[char]) -> (r: bool)
    ensures
        r == abstraction(d@),
{
    match decl_type_vec(d) {
        None => false,
        Some(t) => abstraction_type_chars(&t),
    }
}

/// The scan state over a source's lines: section depth, postulates
/// counted, and a declaration still waiting for its terminating `.`.
pub struct PostulateScan {
    pub depth: nat,
    pub count: nat,
    pub pending: Option<Seq<char>>,
}

/// One line of the postulate scan.
pub open spec fn postulate_step(st: PostulateScan, raw: Seq<char>) -> PostulateScan {
    let stripped = strip_ml_comments(raw);
    let t = trim_start(stripped);
    if starts_with(t, "Section "@) {
        PostulateScan { depth: st.depth + 1, count: st.count, pending: None }
    } else if starts_with(t, "End "@) && has_char(t, '.') && st.depth > 0 {
        PostulateScan { depth: (st.depth - 1) as nat, count: st.count, pending: None }
    } else if st.depth > 0 {
        PostulateScan { depth: st.depth, count: st.count, pending: None }
    } else if st.pending is Some {
        let p = st.pending->0 + seq![' '] + trim(stripped);
        if has_char(p, '.') {
            PostulateScan { depth: st.depth, count: if abstraction(p) { st.count } else { st.count + 1 }, pending: None }
        } else {
            PostulateScan { depth: st.depth, count: st.count, pending: Some(p) }
        }
    } else if !(starts_with(t, "Axiom "@) || starts_with(t, "Parameter "@)) {
        st
    } else if ends_with(trim_end(stripped), "."@) {
        PostulateScan { depth: st.depth, count: if abstraction(stripped) { st.count } else { st.count + 1 }, pending: None }
    } else {
        PostulateScan { depth: st.depth, count: st.count, pending: Some(trim(stripped)) }
    }
}

/// The scan over lines.
pub open spec fn postulate_scan(ls: Seq<Seq<char>>) -> PostulateScan
    decreases ls.len(),
{
    if ls.len() == 0 {
        PostulateScan { depth: 0, count: 0, pending: None }
    } else {
        postulate_step(postulate_scan(ls.drop_last()), ls.last())
    }
}

/// The number of genuine unverified postulates in a Coq source.
pub open spec fn genuine_postulates(code: Seq<char>) -> nat {
    postulate_scan(lines(code)).count
}

pub(crate) fn concat(a: &[char], b: &[char]) -> (r: Vec<char>)
    ensures
        r@ == a@ + b@,
{
    let mut out = slice_vec(a, 0, a.len());
    assert(out@ =~= a@);
    let mut i: usize = 0;
    while i < b.len()
        invariant
            i <= b@.len(),
            out@ == a@ + b@.take(i as int),
        decreases b.len() - i,
    {
        out.push(b[i]);
        i = i + 1;
        assert(out@ =~= a@ + b@.take(i as int));
    }
    assert(b@.take(b@.len() as int) =~= b@);
    out
}

/// The view of a pending declaration.
pub open spec fn pending_view(p: Option<Vec<char>>) -> Option<Seq<char>> {
    match p {
        Some(v) => Some(v@),
        None => None,
    }
}

#[verifier::spinoff_prover]
#[verifier::rlimit(50)]
fn postulate_line(depth: usize, count: usize, pending: Option<Vec<char>>, raw: &[char]) -> (r: (usize, usize, Option<Vec<char>>))
    requires
        depth < usize::MAX,
        count < usize::MAX,
    ensures
        r.0 <= depth + 1,
        r.1 <= count + 1,
        postulate_step(PostulateScan { depth: depth as nat, count: count as nat, pending: pending_view(pending) }, raw@)
            == (PostulateScan { depth: r.0 as nat, count: r.1 as nat, pending: pending_view(r.2) }),
{
    let ghost st = PostulateScan { depth: depth as nat, count: count as nat, pending: pending_view(pending) };
    let stripped = strip_line_comments(raw);
    let t = trim_start_vec(&stripped);
    if has_prefix(&t, &chars_of("Section ")) {
        return (depth + 1, count, None);
    }
    if has_prefix(&t, &chars_of("End ")) && contains_char(&t, '.') && depth > 0 {
        return (depth - 1, count, None);
    }
    if depth > 0 {
        return (depth, count, None);
    }
    match pending {
        Some(p) => {
            let mut q = p;
            q.push(' ');
            let tr = trim_vec(&stripped);
            let q2 = concat(&q, &tr);
            assert(q2@ == st.pending->0 + seq![' '] + trim(stripped@));
            if contains_char(&q2, '.') {
                let c = if abstraction_chars(&q2) { count } else { count + 1 };
                (depth, c, None)
            } else {
                (depth, count, Some(q2))
            }
        },
        None => {
            if !(has_prefix(&t, &chars_of("Axiom ")) || has_prefix(&t, &chars_of("Parameter "))) {
                return (depth, count, None);
            }
            let te = trim_end_vec(&stripped);
            if has_suffix(&te, &chars_of(".")) {
                let c = if abstraction_chars(&stripped) { count } else { count + 1 };
                (depth, c, None)
            } else {
                (depth, count, Some(trim_vec(&stripped)))
            }
        },
    }
}

/// Counts the Coq `Axiom`/`Parameter` declarations that are genuine
/// unverified postulates: declarations inside `Section … End` are
/// discharged at `End`, and module-level abstraction parameters (carrier
/// types, decidability witnesses, non-`Prop` function symbols) are not
/// postulates. A declaration may run over several lines up to its `.`.
pub fn count_genuine_postulates(code: &str) -> (n: usize)
    ensures
        n == genuine_postulates(code@),
{
    let cs = chars_of(code);
    let ls = split_lines(&cs);
    let ghost lv = views(ls@);
    let mut depth: usize = 0;
    let mut count: usize = 0;
    let mut pending: Option<Vec<char>> = None;
    let mut i: usize = 0;
    while i < ls.len()
        invariant
            i <= ls@.len(),
            lv == views(ls@),
            lv == lines(code@),
            depth <= i,
            count <= i,
            postulate_scan(lv.take(i as int)) == (PostulateScan {
                depth: depth as nat,
                count: count as nat,
                pending: pending_view(pending),
            }),
        decreases ls.len() - i,
    {
        proof {
            assert(lv.take(i + 1).drop_last() =~= lv.take(i as int));
            assert(lv.take(i + 1).last() == ls@[i as int]@);
        }
        let (d, c, p) = postulate_line(depth, count, pending, &ls[i]);
        depth = d;
        count = c;
        pending = p;
        i = i + 1;
    }
    assert(lv.take(lv.len() as int) =~= lv);
    count
}

/// The verdict of a Coq compile: a failing compile is an error; a clean
/// one is admitted when the source admits a goal (this dominates a
/// postulate), postulated when it holds a genuine postulate, else proven.
pub open spec fn coq_verdict_spec(src: Seq<char>, exit_ok: bool) -> Verdict {
    if !exit_ok {
        Verdict::Error
    } else if admits(src) {
        Verdict::Admitted
    } else if genuine_postulates(src) > 0 {
        Verdict::Postulated
    } else {
        Verdict::Proven
    }
}

/// Maps Coq source and exit status to a verdict.
pub fn coq_verdict(src: &str, exit_ok: bool) -> (v: Verdict)
    ensures
        v == coq_verdict_spec(src@, exit_ok),
{
    if !exit_ok {
        return Verdict::Error;
    }
    if has_admit(src) {
        return Verdict::Admitted;
    }
    if count_genuine_postulates(src) > 0 {
        return Verdict::Postulated;
    }
    Verdict::Proven
}

impl Backend for Coq {
    open spec fn exts_spec(&self) -> Seq<Seq<char>> {
        seq!["v"@]
    }

    open spec fn module_id_spec(&self, file: Seq<char>, root: Seq<char>) -> Option<Seq<char>> {
        module_name_spec(file, root)
    }

    open spec fn module_path_spec(&self, module: Seq<char>, root: Seq<char>) -> Seq<char> {
        module_file_spec(root, module, "v"@)
    }

    open spec fn imports_spec(&self, text: Seq<char>) -> Seq<Seq<char>> {
        coq_requires(text)
    }

    fn name(&self) -> (r: &'static str)
        ensures
            r@ == "coq"@,
    {
        "coq"
    }

    fn kind(&self) -> (r: BackendKind)
        ensures
            r == BackendKind::Assistant,
    {
        BackendKind::Assistant
    }

    fn extensions(&self) -> (r: Vec<&'static str>) {
        let r = vec!["v"];
        assert(str_views(r@) =~= seq!["v"@]);
        r
    }

    /// No global safe flag; the runtime analogue is `Print Assumptions`.
    fn safe_mode(&self) -> (r: Option<&'static str>)
        ensures
            r matches Some(m) && m@ == "Print Assumptions"@,
    {
        Some("Print Assumptions")
    }

    fn command(&self) -> (r: &'static str)
        ensures
            r@ == "coqc"@,
    {
        "coqc"
    }

    fn module_name_of(&self, file: &str, include_root: &str) -> (r: Option<String>) {
        crate::graph::module_name_of(file, include_root)
    }

    fn module_to_path(&self, module: &str, include_root: &str) -> (r: String) {
        crate::path::module_file(module, include_root, "v")
    }

    fn direct_imports(&self, text: &str) -> (r: Vec<String>) {
        parse_requires(text)
    }

    /// Every `All.v`, ordered by path.
    fn discover_roots(&self, include_root: &str, tree: &SourceTree) -> (r: Vec<String>)
        ensures
            strs(r@).to_multiset() == named_paths(tree.files@, seq!["All.v"@]).to_multiset(),
    {
        let names = vec!["All.v"];
        assert(str_views(names@) =~= seq!["All.v"@]);
        files_named(tree, &names)
    }

    fn lint_rules(&self, cfg: &RuleConfig) -> (r: Result<Vec<Rule>, String>)
        ensures
            r matches Ok(v) && v@ == seq![Rule::CoqEscapeHatch(CoqEscapeHatch)],
    {
        let v = vec![Rule::CoqEscapeHatch(CoqEscapeHatch)];
        Ok(v)
    }
}

/// An admitted goal dominates a postulate, and a failing compile is an
/// error whatever the source holds; only a clean compile of a source with
/// neither is proven.
pub proof fn lemma_coq_verdict_order(src: Seq<char>, exit_ok: bool)
    ensures
        !exit_ok ==> coq_verdict_spec(src, exit_ok) == Verdict::Error,
        exit_ok && admits(src) ==> coq_verdict_spec(src, exit_ok) == Verdict::Admitted,
        coq_verdict_spec(src, exit_ok) == Verdict::Proven <==> (exit_ok && !admits(src) && genuine_postulates(src) == 0),
{
}

} // verus!
