//! `/`-separated paths as strings: joining, the file name, its stem and
//! extension, and replacing the extension, each as `std::path` does them
//! on Unix.

use vstd::prelude::*;
use crate::graph::{components, stem_of, Comp, path_components, stem, PathComp, join, module_name_spec, normal_names, pieces_comps, piece_comps};
use crate::text::{chars_of, string_of, slice_vec, split_char, split_on, views, piece_scan, lemma_split_nonempty, lemma_push_contains};

verus! {

/// `base` joined with `rel` as `PathBuf::push` does: an absolute `rel`
/// replaces `base`; otherwise a `/` is put between them unless `base` is
/// empty or already ends with one.
pub open spec fn path_join(base: Seq<char>, rel: Seq<char>) -> Seq<char> {
    if rel.len() > 0 && rel[0] == '/' {
        rel
    } else if base.len() == 0 || base.last() == '/' {
        base + rel
    } else {
        base + seq!['/'] + rel
    }
}

/// `base` with each of `parts` pushed in turn.
pub open spec fn push_all(base: Seq<char>, parts: Seq<Seq<char>>) -> Seq<char>
    decreases parts.len(),
{
    if parts.len() == 0 {
        base
    } else {
        path_join(push_all(base, parts.drop_last()), parts.last())
    }
}

/// `PathBuf::push` on strings.
pub fn join_path(base: &str, rel: &str) -> (r: String)
    ensures
        r@ == path_join(base@, rel@),
{
    let b = chars_of(base);
    let x = chars_of(rel);
    let mut out = b;
    if x.len() > 0 && x[0] == '/' {
        return string_of(&x);
    }
    if !(out.len() == 0 || out[out.len() - 1] == '/') {
        out.push('/');
    }
    let ghost mid = out@;
    let mut i: usize = 0;
    while i < x.len()
        invariant
            i <= x@.len(),
            out@ == mid + x@.take(i as int),
        decreases x.len() - i,
    {
        out.push(x[i]);
        i = i + 1;
        assert(out@ =~= mid + x@.take(i as int));
    }
    assert(x@.take(x@.len() as int) =~= x@);
    assert(out@ =~= path_join(b@, x@));
    string_of(&out)
}

/// The last component of `p`, if it is a normal name (`Path::file_name`).
pub open spec fn file_name_of(p: Seq<char>) -> Option<Seq<char>> {
    let cs = components(p);
    if cs.len() > 0 {
        match cs.last() {
            Comp::Normal(n) => Some(n),
            _ => None,
        }
    } else {
        None
    }
}

/// `Path::file_name` on strings.
pub fn file_name(p: &str) -> (r: Option<String>)
    ensures
        r matches Some(n) ==> file_name_of(p@) == Some(n@),
        r is None ==> file_name_of(p@) is None,
{
    let c = chars_of(p);
    let cs = path_components(&c);
    if cs.len() == 0 {
        return None;
    }
    proof {
        assert(crate::graph::comp_views(cs@).last() == cs@[cs@.len() - 1]@);
    }
    match &cs[cs.len() - 1] {
        PathComp::Normal(n) => Some(string_of(n)),
        _ => None,
    }
}

/// The extension of a file name: what follows its last `.`, unless that
/// `.` is the name's first character.
pub open spec fn ext_of_name(name: Seq<char>) -> Option<Seq<char>> {
    if stem_of(name) == name {
        None
    } else {
        Some(name.skip(stem_of(name).len() as int + 1))
    }
}

/// `Path::extension`.
pub open spec fn extension_of(p: Seq<char>) -> Option<Seq<char>> {
    match file_name_of(p) {
        Some(n) => ext_of_name(n),
        None => None,
    }
}

/// `Path::file_stem`.
pub open spec fn file_stem_of(p: Seq<char>) -> Option<Seq<char>> {
    match file_name_of(p) {
        Some(n) => Some(stem_of(n)),
        None => None,
    }
}

proof fn lemma_stem_prefix(name: Seq<char>)
    ensures
        stem_of(name).len() <= name.len(),
        stem_of(name) == name.take(stem_of(name).len() as int),
        stem_of(name) != name ==> stem_of(name).len() < name.len() && name[stem_of(name).len() as int] == '.',
{
    if exists|i: int| 0 < i < name.len() && name[i] == '.' {
        let i = choose|i: int|
            0 < i < name.len() && name[i] == '.' && forall|j: int| i < j < name.len() ==> name[j] != '.';
        assert(exists|i: int|
            0 < i < name.len() && name[i] == '.' && forall|j: int| i < j < name.len() ==> name[j] != '.') by {
            let k = choose|k: int| 0 < k < name.len() && name[k] == '.';
            lemma_last_dot(name, k);
        }
        assert(stem_of(name) == name.take(i));
    }
}

proof fn lemma_last_dot(name: Seq<char>, k: int)
    requires
        0 < k < name.len(),
        name[k] == '.',
    ensures
        exists|i: int|
            0 < i < name.len() && name[i] == '.' && forall|j: int| i < j < name.len() ==> name[j] != '.',
    decreases name.len() - k,
{
    if exists|j: int| k < j < name.len() && name[j] == '.' {
        let j = choose|j: int| k < j < name.len() && name[j] == '.';
        lemma_last_dot(name, j);
    } else {
        assert(forall|j: int| k < j < name.len() ==> name[j] != '.');
    }
}

/// The path has an extension and it is one of `exts`.
pub fn has_extension(p: &str, exts: &[&str]) -> (r: bool)
    ensures
        r == (extension_of(p@) matches Some(e) && exists|k: int| 0 <= k < exts@.len() && (#[trigger] exts@[k])@ == e),
{
    let e = match extension(p) {
        None => return false,
        Some(e) => e,
    };
    let mut k: usize = 0;
    while k < exts.len()
        invariant
            k <= exts@.len(),
            extension_of(p@) == Some(e@),
            forall|j: int| 0 <= j < k ==> (#[trigger] exts@[j])@ != e@,
        decreases exts.len() - k,
    {
        if crate::text::str_eq(exts[k], e.as_str()) {
            return true;
        }
        k = k + 1;
    }
    false
}

/// The extension of a path, if any.
pub fn extension(p: &str) -> (r: Option<String>)
    ensures
        r matches Some(e) ==> extension_of(p@) == Some(e@),
        r is None ==> extension_of(p@) is None,
{
    match file_name(p) {
        None => None,
        Some(n) => {
            let c = chars_of(n.as_str());
            let s = stem(&c);
            proof {
                lemma_stem_prefix(c@);
            }
            if s.len() == c.len() {
                assert(s@ =~= c@);
                None
            } else {
                let e = slice_vec(&c, s.len() + 1, c.len());
                assert(e@ =~= c@.skip(s@.len() as int + 1));
                Some(string_of(&e))
            }
        },
    }
}

/// `p` with trailing `/` and trailing `/.` pieces removed: what ends at the
/// last component.
pub open spec fn tail_trim(p: Seq<char>) -> Seq<char>
    decreases p.len(),
{
    if p.len() > 0 && p.last() == '/' {
        tail_trim(p.drop_last())
    } else if p.len() >= 2 && p.last() == '.' && p[p.len() - 2] == '/' {
        tail_trim(p.drop_last())
    } else {
        p
    }
}

/// The text after the last `/` of `p` (all of `p` when it has none).
pub open spec fn last_piece(p: Seq<char>) -> Seq<char> {
    split_on(p, '/').last()
}

/// A last piece that names a file (not empty, `.` or `..`).
pub open spec fn is_name(n: Seq<char>) -> bool {
    n.len() > 0 && n != seq!['.'] && n != seq!['.', '.']
}

/// `PathBuf::set_extension(ext)` for a non-empty `ext`: when the path ends
/// in a file name, everything after that name's stem (the old extension and
/// any trailing `/` or `/.`) is replaced by `.ext`; otherwise the path is
/// unchanged.
pub open spec fn set_ext(p: Seq<char>, ext: Seq<char>) -> Seq<char> {
    let q = tail_trim(p);
    let n = last_piece(q);
    if is_name(n) {
        q.take(q.len() - n.len() + stem_of(n).len()) + seq!['.'] + ext
    } else {
        p
    }
}

/// The file path of a dotted module below `root` with extension `ext`:
/// each dot-separated part pushed onto `root`, then the extension set.
pub open spec fn module_file_spec(root: Seq<char>, module: Seq<char>, ext: Seq<char>) -> Seq<char> {
    set_ext(push_all(root, split_on(module, '.')), ext)
}

fn tail_trimmed(p: &[char]) -> (r: usize)
    ensures
        r <= p@.len(),
        tail_trim(p@) == p@.take(r as int),
{
    let mut n = p.len();
    assert(p@.take(n as int) =~= p@);
    while n > 0
        invariant
            n <= p@.len(),
            tail_trim(p@) == tail_trim(p@.take(n as int)),
        decreases n,
    {
        let ghost q = p@.take(n as int);
        if p[n - 1] == '/' {
            assert(q.drop_last() =~= p@.take(n - 1));
            n = n - 1;
        } else if n >= 2 && p[n - 1] == '.' && p[n - 2] == '/' {
            assert(q.drop_last() =~= p@.take(n - 1));
            n = n - 1;
        } else {
            return n;
        }
    }
    n
}

/// `PathBuf::set_extension` with a non-empty extension.
pub fn set_extension(p: &[char], ext: &[char]) -> (r: Vec<char>)
    ensures
        r@ == set_ext(p@, ext@),
{
    let t = tail_trimmed(p);
    let q = slice_vec(p, 0, t);
    assert(q@ =~= tail_trim(p@));
    let pieces = split_char(&q, '/');
    proof {
        assert(views(pieces@).len() == split_on(q@, '/').len());
        crate::text::lemma_split_nonempty(q@, '/');
    }
    let last = &pieces[pieces.len() - 1];
    assert(last@ == last_piece(q@));
    let valid = last.len() > 0 && !(last.len() == 1 && last[0] == '.') && !(last.len() == 2
        && last[0] == '.' && last[1] == '.');
    proof {
        if last@ == seq!['.'] {
            assert(last@.len() == 1);
        }
        if last@ == seq!['.', '.'] {
            assert(last@.len() == 2);
        }
        if last@.len() == 1 && last@[0] == '.' {
            assert(last@ =~= seq!['.']);
        }
        if last@.len() == 2 && last@[0] == '.' && last@[1] == '.' {
            assert(last@ =~= seq!['.', '.']);
        }
    }
    if !valid {
        let r = slice_vec(p, 0, p.len());
        assert(r@ =~= p@);
        return r;
    }
    let s = stem(last);
    proof {
        lemma_stem_prefix(last@);
        crate::text::lemma_last_piece_suffix(q@, '/');
    }
    let mut out = slice_vec(&q, 0, q.len() - last.len() + s.len());
    out.push('.');
    let ghost mid = out@;
    let mut i: usize = 0;
    while i < ext.len()
        invariant
            i <= ext@.len(),
            out@ == mid + ext@.take(i as int),
        decreases ext.len() - i,
    {
        out.push(ext[i]);
        i = i + 1;
        assert(out@ =~= mid + ext@.take(i as int));
    }
    assert(ext@.take(ext@.len() as int) =~= ext@);
    out
}

/// The path of `module` below `include_root` with extension `ext`, as
/// `PathBuf::push` of each dotted part followed by `set_extension` builds it.
pub fn module_file(module: &str, include_root: &str, ext: &str) -> (r: String)
    ensures
        r@ == module_file_spec(include_root@, module@, ext@),
{
    let m = chars_of(module);
    let parts = split_char(&m, '.');
    let mut p = String::from_str(include_root);
    let mut i: usize = 0;
    while i < parts.len()
        invariant
            i <= parts@.len(),
            views(parts@) == split_on(module@, '.'),
            m@ == module@,
            p@ == push_all(include_root@, views(parts@).take(i as int)),
        decreases parts.len() - i,
    {
        let part = string_of(&parts[i]);
        let next = join_path(p.as_str(), part.as_str());
        proof {
            assert(views(parts@).take(i + 1).drop_last() =~= views(parts@).take(i as int));
            assert(views(parts@).take(i + 1).last() == parts@[i as int]@);
        }
        p = next;
        i = i + 1;
    }
    assert(views(parts@).take(parts@.len() as int) =~= views(parts@));
    let pc = chars_of(p.as_str());
    let e = chars_of(ext);
    let r = set_extension(&pc, &e);
    string_of(&r)
}


/// Scanning `a`, a separator, then `b`: the pieces of `a`, then those of `b`.
proof fn lemma_scan_after_sep(a: Seq<char>, b: Seq<char>, sep: char)
    ensures
        piece_scan(a + seq![sep] + b, sep) == (split_on(a, sep) + piece_scan(b, sep).0, piece_scan(b, sep).1),
    decreases b.len(),
{
    if b.len() == 0 {
        assert(a + seq![sep] + b =~= a + seq![sep]);
        assert((a + seq![sep]).drop_last() =~= a);
        assert(split_on(a, sep) + Seq::<Seq<char>>::empty() =~= split_on(a, sep));
    } else {
        lemma_scan_after_sep(a, b.drop_last(), sep);
        assert((a + seq![sep] + b).drop_last() =~= a + seq![sep] + b.drop_last());
        assert((a + seq![sep] + b).last() == b.last());
        let ps = piece_scan(b.drop_last(), sep).0;
        let cur = piece_scan(b.drop_last(), sep).1;
        if b.last() == sep {
            assert(split_on(a, sep) + ps.push(cur) =~= (split_on(a, sep) + ps).push(cur));
        }
    }
}

/// Splitting `a`, a separator, then `b`: the pieces of `a`, then those of `b`.
proof fn lemma_split_concat(a: Seq<char>, b: Seq<char>, sep: char)
    ensures
        split_on(a + seq![sep] + b, sep) == split_on(a, sep) + split_on(b, sep),
{
    lemma_scan_after_sep(a, b, sep);
    let ps = piece_scan(b, sep).0;
    let cur = piece_scan(b, sep).1;
    assert((split_on(a, sep) + ps).push(cur) =~= split_on(a, sep) + ps.push(cur));
}

/// A text without the separator scans as one unfinished piece.
proof fn lemma_scan_plain(s: Seq<char>, sep: char)
    requires
        !s.contains(sep),
    ensures
        piece_scan(s, sep) == (Seq::<Seq<char>>::empty(), s),
    decreases s.len(),
{
    if s.len() > 0 {
        let t = s.drop_last();
        assert(!t.contains(sep)) by {
            if t.contains(sep) {
                let i = choose|i: int| 0 <= i < t.len() && t[i] == sep;
                assert(s[i] == sep);
            }
        }
        lemma_scan_plain(t, sep);
        assert(s[s.len() - 1] != sep);
        assert(t.push(s.last()) =~= s);
    }
}

/// No piece holds the separator.
proof fn lemma_scan_pieces_free(s: Seq<char>, sep: char)
    ensures
        forall|k: int| 0 <= k < piece_scan(s, sep).0.len() ==> !(#[trigger] piece_scan(s, sep).0[k]).contains(sep),
        !piece_scan(s, sep).1.contains(sep),
    decreases s.len(),
{
    if s.len() > 0 {
        let t = s.drop_last();
        lemma_scan_pieces_free(t, sep);
        let ps = piece_scan(t, sep).0;
        let cur = piece_scan(t, sep).1;
        if s.last() == sep {
            assert forall|k: int| 0 <= k < ps.push(cur).len() implies !(#[trigger] ps.push(cur)[k]).contains(sep) by {
                if k < ps.len() {
                    assert(ps.push(cur)[k] == ps[k]);
                }
            }
            assert(!Seq::<char>::empty().contains(sep));
        } else {
            lemma_push_contains(cur, s.last(), sep);
        }
    }
}

/// Joining the pieces of `s` with the separator gives `s` back.
proof fn lemma_join_scan(s: Seq<char>, sep: char)
    ensures
        join(piece_scan(s, sep).0.push(piece_scan(s, sep).1), seq![sep]) == s,
    decreases s.len(),
{
    if s.len() > 0 {
        let t = s.drop_last();
        lemma_join_scan(t, sep);
        let ps = piece_scan(t, sep).0;
        let cur = piece_scan(t, sep).1;
        if s.last() == sep {
            let xs = ps.push(cur).push(Seq::<char>::empty());
            assert(xs.drop_last() =~= ps.push(cur));
            assert(join(xs, seq![sep]) == join(ps.push(cur), seq![sep]) + seq![sep] + xs.last());
            assert(s =~= t + seq![sep] + Seq::<char>::empty());
        } else {
            let c2 = cur.push(s.last());
            let xs = ps.push(c2);
            if ps.len() == 0 {
                assert(ps.push(cur)[0] == cur);
                assert(xs[0] == c2);
                assert(s =~= c2);
            } else {
                assert(xs.drop_last() =~= ps);
                assert(ps.push(cur).drop_last() =~= ps);
                assert(join(xs, seq![sep]) == join(ps, seq![sep]) + seq![sep] + c2);
                assert(join(ps.push(cur), seq![sep]) == join(ps, seq![sep]) + seq![sep] + cur);
                assert(join(ps, seq![sep]) + seq![sep] + c2 =~= (join(ps, seq![sep]) + seq![sep] + cur).push(s.last()));
                assert(s =~= t.push(s.last()));
            }
        }
    }
}

/// The last character of a join is that of the last part.
proof fn lemma_join_last(xs: Seq<Seq<char>>, sep: Seq<char>)
    requires
        xs.len() >= 1,
        xs.last().len() > 0,
    ensures
        join(xs, sep).len() > 0,
        join(xs, sep).last() == xs.last().last(),
{
    if xs.len() > 1 {
        let j = join(xs.drop_last(), sep) + sep + xs.last();
        assert(j.last() == xs.last().last());
    }
}

/// Splitting a join of separator-free parts gives the parts back.
proof fn lemma_split_join(parts: Seq<Seq<char>>, sep: char)
    requires
        parts.len() >= 1,
        forall|k: int| 0 <= k < parts.len() ==> !(#[trigger] parts[k]).contains(sep),
    ensures
        split_on(join(parts, seq![sep]), sep) == parts,
    decreases parts.len(),
{
    let last = parts[parts.len() - 1];
    lemma_scan_plain(last, sep);
    if parts.len() == 1 {
        assert(split_on(parts[0], sep) =~= parts);
    } else {
        let prev = parts.drop_last();
        assert forall|k: int| 0 <= k < prev.len() implies !(#[trigger] prev[k]).contains(sep) by {
            assert(prev[k] == parts[k]);
        }
        lemma_split_join(prev, sep);
        lemma_split_concat(join(prev, seq![sep]), last, sep);
        assert(split_on(last, sep) =~= seq![last]);
        assert(prev + seq![last] =~= parts);
    }
}

/// The separator `path_join` puts between `root` and what follows it.
pub open spec fn sep_after(root: Seq<char>) -> Seq<char> {
    if root.len() == 0 || root.last() == '/' {
        Seq::empty()
    } else {
        seq!['/']
    }
}

/// `push_all` of non-empty parts without `/`: the root, a separator where
/// needed, and the parts joined by `/`.
proof fn lemma_push_all_join(root: Seq<char>, parts: Seq<Seq<char>>)
    requires
        parts.len() >= 1,
        forall|k: int| 0 <= k < parts.len() ==> (#[trigger] parts[k]).len() > 0 && !parts[k].contains('/'),
    ensures
        push_all(root, parts) == root + sep_after(root) + join(parts, seq!['/']),
    decreases parts.len(),
{
    let p = parts[parts.len() - 1];
    assert(p[0] != '/') by {
        if p[0] == '/' {
            assert(p.contains('/'));
        }
    }
    let prev = parts.drop_last();
    if parts.len() == 1 {
        assert(prev.len() == 0);
        assert(push_all(root, prev) == root);
        assert(root + sep_after(root) + p =~= path_join(root, p));
    } else {
        assert forall|k: int| 0 <= k < prev.len() implies (#[trigger] prev[k]).len() > 0 && !prev[k].contains('/') by {
            assert(prev[k] == parts[k]);
        }
        lemma_push_all_join(root, prev);
        let q = prev[prev.len() - 1];
        assert(q == parts[prev.len() - 1]);
        assert(q[q.len() - 1] != '/') by {
            if q[q.len() - 1] == '/' {
                assert(q.contains('/'));
            }
        }
        lemma_join_last(prev, seq!['/']);
        let x = root + sep_after(root) + join(prev, seq!['/']);
        assert(x.last() == join(prev, seq!['/']).last());
        assert(join(parts, seq!['/']) == join(prev, seq!['/']) + seq!['/'] + p);
        assert(x + seq!['/'] + p =~= root + sep_after(root) + (join(prev, seq!['/']) + seq!['/'] + p));
    }
}

/// The components of a concatenation of piece lists.
proof fn lemma_pieces_comps_concat(a: Seq<Seq<char>>, b: Seq<Seq<char>>)
    ensures
        pieces_comps(a + b) == pieces_comps(a) + pieces_comps(b),
    decreases b.len(),
{
    if b.len() == 0 {
        assert(a + b =~= a);
        assert(pieces_comps(a) + Seq::<Comp>::empty() =~= pieces_comps(a));
    } else {
        lemma_pieces_comps_concat(a, b.drop_last());
        assert((a + b).drop_last() =~= a + b.drop_last());
        assert((a + b).last() == b.last());
        assert(pieces_comps(a) + pieces_comps(b.drop_last()) + piece_comps(b.last())
            =~= pieces_comps(a) + (pieces_comps(b.drop_last()) + piece_comps(b.last())));
    }
}

/// A piece that names something: not empty, `.` or `..`.
pub open spec fn plain_piece(p: Seq<char>) -> bool {
    p.len() > 0 && p != seq!['.'] && p != seq!['.', '.']
}

/// Plain pieces are normal components.
proof fn lemma_plain_comps(ps: Seq<Seq<char>>)
    requires
        forall|k: int| 0 <= k < ps.len() ==> plain_piece(#[trigger] ps[k]),
    ensures
        pieces_comps(ps) == ps.map_values(|p: Seq<char>| Comp::Normal(p)),
        normal_names(ps.map_values(|p: Seq<char>| Comp::Normal(p))) == Some(ps),
    decreases ps.len(),
{
    if ps.len() > 0 {
        let prev = ps.drop_last();
        assert forall|k: int| 0 <= k < prev.len() implies plain_piece(#[trigger] prev[k]) by {
            assert(prev[k] == ps[k]);
        }
        lemma_plain_comps(prev);
        assert(plain_piece(ps[ps.len() - 1]));
        assert(ps.map_values(|p: Seq<char>| Comp::Normal(p)).drop_last() =~= prev.map_values(|p: Seq<char>| Comp::Normal(p)));
        assert(prev.map_values(|p: Seq<char>| Comp::Normal(p)) + seq![Comp::Normal(ps.last())]
            =~= ps.map_values(|p: Seq<char>| Comp::Normal(p)));
        assert(prev.push(ps.last()) =~= ps);
    } else {
        assert(ps.map_values(|p: Seq<char>| Comp::Normal(p)) =~= Seq::<Comp>::empty());
    }
}

/// A name without `.` followed by `.agda` has that name as its stem.
proof fn lemma_stem_agda(p: Seq<char>)
    requires
        p.len() > 0,
        !p.contains('.'),
    ensures
        stem_of(p + seq!['.'] + "agda"@) == p,
{
    reveal_strlit("agda");
    let name = p + seq!['.'] + "agda"@;
    let n = p.len() as int;
    assert(name[n] == '.');
    assert forall|j: int| n < j < name.len() implies name[j] != '.' by {
        assert(name[j] == "agda"@[j - n - 1]);
    }
    assert(0 < n < name.len() && name[n] == '.' && forall|j: int| n < j < name.len() ==> name[j] != '.');
    let i = choose|i: int|
        0 < i < name.len() && name[i] == '.' && forall|j: int| i < j < name.len() ==> name[j] != '.';
    if i < n {
        assert(p[i] == '.');
        assert(p.contains('.'));
    }
    assert(i == n);
    assert(name.take(n) =~= p);
}

/// The pieces a root contributes to a path pushed below it.
pub open spec fn root_pieces(root: Seq<char>) -> Seq<Seq<char>> {
    if root.len() == 0 {
        Seq::empty()
    } else if root.last() == '/' {
        split_on(root.drop_last(), '/')
    } else {
        split_on(root, '/')
    }
}

/// The first character of a join is that of the first part.
proof fn lemma_join_first(xs: Seq<Seq<char>>, sep: Seq<char>)
    requires
        xs.len() >= 1,
        forall|k: int| 0 <= k < xs.len() ==> (#[trigger] xs[k]).len() > 0,
    ensures
        join(xs, sep).len() > 0,
        join(xs, sep)[0] == xs[0][0],
    decreases xs.len(),
{
    if xs.len() > 1 {
        let prev = xs.drop_last();
        assert forall|k: int| 0 <= k < prev.len() implies (#[trigger] prev[k]).len() > 0 by {
            assert(prev[k] == xs[k]);
        }
        lemma_join_first(prev, sep);
        assert(prev[0] == xs[0]);
    }
}

/// The pieces of parts pushed below a root.
proof fn lemma_split_below(root: Seq<char>, parts: Seq<Seq<char>>)
    requires
        parts.len() >= 1,
        forall|k: int| 0 <= k < parts.len() ==> !(#[trigger] parts[k]).contains('/'),
    ensures
        split_on(root + sep_after(root) + join(parts, seq!['/']), '/') == root_pieces(root) + parts,
{
    lemma_split_join(parts, '/');
    let j = join(parts, seq!['/']);
    if root.len() == 0 {
        assert(root + sep_after(root) + j =~= j);
        assert(Seq::<Seq<char>>::empty() + parts =~= parts);
    } else if root.last() == '/' {
        let b = root.drop_last();
        assert(root + sep_after(root) + j =~= b + seq!['/'] + j);
        lemma_split_concat(b, j, '/');
    } else {
        lemma_split_concat(root, j, '/');
    }
}

/// The components of plain parts pushed below a root: the root's, then
/// one normal component per part.
proof fn lemma_components_below(root: Seq<char>, parts: Seq<Seq<char>>)
    requires
        parts.len() >= 1,
        forall|k: int| 0 <= k < parts.len() ==> !(#[trigger] parts[k]).contains('/') && plain_piece(parts[k]),
    ensures
        components(root + sep_after(root) + join(parts, seq!['/']))
            == components(root) + parts.map_values(|p: Seq<char>| Comp::Normal(p)),
{
    let j = join(parts, seq!['/']);
    let f = root + sep_after(root) + j;
    assert forall|k: int| 0 <= k < parts.len() implies !(#[trigger] parts[k]).contains('/') by {}
    lemma_split_below(root, parts);
    lemma_plain_comps(parts);
    let n = parts.map_values(|p: Seq<char>| Comp::Normal(p));
    let rp = root_pieces(root);
    lemma_pieces_comps_concat(rp, parts);
    assert forall|k: int| 0 <= k < parts.len() implies (#[trigger] parts[k]).len() > 0 by {
        assert(plain_piece(parts[k]));
    }
    lemma_join_first(parts, seq!['/']);
    assert(parts[0][0] != '/') by {
        if parts[0][0] == '/' {
            assert(parts[0].contains('/'));
        }
    }
    if root.len() == 0 {
        assert(f =~= j);
        assert(split_on(f, '/')[0] == parts[0]);
        assert(plain_piece(parts[0]));
        assert(split_on(root, '/') =~= seq![Seq::<char>::empty()]);
        assert(seq![Seq::<char>::empty()].drop_last() =~= Seq::<Seq<char>>::empty());
        assert(pieces_comps(seq![Seq::<char>::empty()]) =~= Seq::<Comp>::empty());
        assert(components(root) =~= Seq::<Comp>::empty());
        assert(Seq::<Seq<char>>::empty() + parts =~= parts);
        assert(pieces_comps(Seq::<Seq<char>>::empty()) =~= Seq::<Comp>::empty());
        assert(Seq::<Comp>::empty() + n =~= n);
    } else {
        lemma_split_nonempty(root, '/');
        if root.last() == '/' {
            let b = root.drop_last();
            lemma_split_nonempty(b, '/');
            lemma_split_concat(b, Seq::<char>::empty(), '/');
            assert(b + seq!['/'] + Seq::<char>::empty() =~= root);
            assert(split_on(Seq::<char>::empty(), '/') =~= seq![Seq::<char>::empty()]);
            lemma_pieces_comps_concat(rp, seq![Seq::<char>::empty()]);
            assert(seq![Seq::<char>::empty()].drop_last() =~= Seq::<Seq<char>>::empty());
            assert(seq![Seq::<char>::empty()].last() == Seq::<char>::empty());
            assert(piece_comps(Seq::<char>::empty()) =~= Seq::<Comp>::empty());
            assert(pieces_comps(Seq::<Seq<char>>::empty()) =~= Seq::<Comp>::empty());
            assert(pieces_comps(seq![Seq::<char>::empty()]) =~= Seq::<Comp>::empty());
            assert(pieces_comps(rp) + Seq::<Comp>::empty() =~= pieces_comps(rp));
            assert(split_on(root, '/')[0] == rp[0]);
            if b.len() == 0 {
                assert(f[0] == '/');
            } else {
                assert(f[0] == b[0]);
            }
        } else {
            assert(f[0] == root[0]);
        }
        assert((rp + parts)[0] == rp[0]);
        assert(f[0] == root[0]);
        assert(split_on(f, '/')[0] == split_on(root, '/')[0]);
        if root[0] == '/' {
            assert(seq![Comp::Root] + pieces_comps(rp) + n =~= seq![Comp::Root] + (pieces_comps(rp) + n));
        } else if split_on(root, '/')[0] == seq!['.'] {
            assert(seq![Comp::Cur] + pieces_comps(rp) + n =~= seq![Comp::Cur] + (pieces_comps(rp) + n));
        }
    }
}

/// Every dot-separated part of `m` is non-empty and holds no `/`.
pub open spec fn module_parts_ok(m: Seq<char>) -> bool {
    forall|k: int|
        0 <= k < split_on(m, '.').len() ==> (#[trigger] split_on(m, '.')[k]).len() > 0 && !split_on(m, '.')[k].contains('/')
}

/// A module's file below a root maps back to the module: for a module
/// whose dot-separated parts are non-empty and hold no `/`, the module
/// name of `module_file_spec(root, m, "agda")` below `root` is `m`, and
/// the file of that name is the same file again.
pub proof fn lemma_module_path_roundtrip(root: Seq<char>, m: Seq<char>)
    requires
        module_parts_ok(m),
    ensures
        module_name_spec(module_file_spec(root, m, "agda"@), root) == Some(m),
        module_file_spec(root, module_name_spec(module_file_spec(root, m, "agda"@), root)->0, "agda"@)
            == module_file_spec(root, m, "agda"@),
{
    reveal_strlit("agda");
    let parts = split_on(m, '.');
    lemma_split_nonempty(m, '.');
    lemma_scan_pieces_free(m, '.');
    assert forall|k: int| 0 <= k < parts.len() implies !(#[trigger] parts[k]).contains('.') by {
        let ps = piece_scan(m, '.').0;
        if k < ps.len() {
            assert(parts[k] == ps[k]);
        }
    }
    let k = parts.len() as int;
    let pk = parts[k - 1];
    assert(pk.len() > 0 && !pk.contains('/') && !pk.contains('.'));
    lemma_push_all_join(root, parts);
    let jp = join(parts, seq!['/']);
    let x = push_all(root, parts);
    lemma_join_last(parts, seq!['/']);
    assert(x.last() == jp.last());
    assert(pk[pk.len() - 1] != '/' && pk[pk.len() - 1] != '.') by {
        if pk[pk.len() - 1] == '/' {
            assert(pk.contains('/'));
        }
        if pk[pk.len() - 1] == '.' {
            assert(pk.contains('.'));
        }
    }
    assert(tail_trim(x) == x);
    assert forall|j: int| 0 <= j < parts.len() implies !(#[trigger] parts[j]).contains('/') by {}
    lemma_split_below(root, parts);
    assert(split_on(x, '/').last() == pk);
    assert(is_name(pk)) by {
        if pk == seq!['.'] {
            assert(pk[0] == '.');
            assert(pk.contains('.'));
        }
        if pk == seq!['.', '.'] {
            assert(pk[0] == '.');
            assert(pk.contains('.'));
        }
    }
    assert(stem_of(pk) == pk) by {
        if exists|i: int| 0 < i < pk.len() && pk[i] == '.' {
            let i = choose|i: int| 0 < i < pk.len() && pk[i] == '.';
            assert(pk.contains('.'));
        }
    }
    assert(x.take(x.len() - pk.len() + pk.len()) =~= x);
    let f = x + seq!['.'] + "agda"@;
    assert(module_file_spec(root, m, "agda"@) == f);
    let pk2 = pk + seq!['.'] + "agda"@;
    let parts2 = parts.drop_last().push(pk2);
    assert(!pk2.contains('/')) by {
        if pk2.contains('/') {
            let i = choose|i: int| 0 <= i < pk2.len() && pk2[i] == '/';
            if i < pk.len() {
                assert(pk[i] == '/');
                assert(pk.contains('/'));
            }
        }
    }
    assert forall|j: int| 0 <= j < parts2.len() implies !(#[trigger] parts2[j]).contains('/') && plain_piece(parts2[j]) by {
        if j < k - 1 {
            assert(parts2[j] == parts[j]);
            assert(!parts[j].contains('.'));
            if parts[j] == seq!['.'] || parts[j] == seq!['.', '.'] {
                assert(parts[j][0] == '.');
                assert(parts[j].contains('.'));
            }
        } else {
            assert(parts2[j] == pk2);
            if pk2 == seq!['.', '.'] {
                assert(pk2[0] == pk[0]);
                assert(pk.contains('.'));
            }
        }
    }
    assert(join(parts2, seq!['/']) == jp + seq!['.'] + "agda"@) by {
        let prev = parts.drop_last();
        assert(parts2.drop_last() =~= prev);
        if k == 1 {
            assert(jp == pk);
            assert(join(parts2, seq!['/']) == pk2);
        } else {
            assert(jp == join(prev, seq!['/']) + seq!['/'] + pk);
            assert(join(parts2, seq!['/']) == join(prev, seq!['/']) + seq!['/'] + pk2);
        }
    }
    assert(f =~= root + sep_after(root) + join(parts2, seq!['/']));
    lemma_components_below(root, parts2);
    let n2 = parts2.map_values(|p: Seq<char>| Comp::Normal(p));
    let rc = components(root);
    let fc = components(f);
    assert(fc == rc + n2);
    assert(fc.take(rc.len() as int) =~= rc);
    assert(fc.skip(rc.len() as int) =~= n2);
    assert(n2.last() == Comp::Normal(pk2));
    lemma_stem_agda(pk);
    assert(n2.drop_last().push(Comp::Normal(pk)) =~= parts.map_values(|p: Seq<char>| Comp::Normal(p)));
    assert forall|j: int| 0 <= j < parts.len() implies plain_piece(#[trigger] parts[j]) by {
        if parts[j] == seq!['.'] || parts[j] == seq!['.', '.'] {
            assert(parts[j][0] == '.');
            assert(parts[j].contains('.'));
        }
    }
    lemma_plain_comps(parts);
    lemma_join_scan(m, '.');
}
} // verus!
