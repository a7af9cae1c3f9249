//! Character-level text primitives shared by the lint rules and parsers.

use vstd::prelude::*;
use vstd::std_specs::iter::IteratorSpec;

verus! {

broadcast use vstd::string::group_string_axioms;

/// The characters of `s`, in order.
pub fn chars_of(s: &str) -> (v: Vec<char>)
    ensures
        v@ == s@,
{
    let mut v: Vec<char> = Vec::new();
    let mut it = s.chars();
    loop
        invariant
            it.remaining() == s@.skip(v.len() as int),
            v@ == s@.take(v.len() as int),
            v.len() <= s@.len(),
        ensures
            v@ == s@,
        decreases s@.len() - v.len(),
    {
        match it.next() {
            Some(c) => {
                proof {
                    assert(s@.skip(v.len() as int).drop_first() =~= s@.skip(v.len() + 1));
                }
                v.push(c);
                assert(v@ =~= s@.take(v.len() as int));
            },
            None => {
                assert(s@.skip(v.len() as int).len() == 0);
                assert(v@ =~= s@);
                break;
            },
        }
    }
    v
}

/// `String::push`: appends the character `c` to `s`.
#[verifier::external_body]
pub(crate) fn push_char(s: &mut String, c: char)
    ensures
        final(s)@ == old(s)@.push(c),
{
    s.push(c);
}

/// The string made of the characters `v`.
pub fn string_of(v: &[char]) -> (s: String)
    ensures
        s@ == v@,
{
    let mut s = String::new();
    let mut i: usize = 0;
    while i < v.len()
        invariant
            i <= v.len(),
            s@ == v@.take(i as int),
        decreases v.len() - i,
    {
        push_char(&mut s, v[i]);
        i = i + 1;
        assert(s@ =~= v@.take(i as int));
    }
    assert(v@.take(v.len() as int) =~= v@);
    s
}


/// Unicode `White_Space`: the characters `char::is_whitespace` accepts.
pub open spec fn is_ws(c: char) -> bool {
    let u = c as u32;
    ||| (9 <= u && u <= 13)
    ||| u == 32
    ||| u == 0x85
    ||| u == 0xa0
    ||| u == 0x1680
    ||| (0x2000 <= u && u <= 0x200a)
    ||| u == 0x2028
    ||| u == 0x2029
    ||| u == 0x202f
    ||| u == 0x205f
    ||| u == 0x3000
}

/// Whether `c` is Unicode white space.
pub fn is_whitespace(c: char) -> (b: bool)
    ensures
        b == is_ws(c),
{
    let u = c as u32;
    (9 <= u && u <= 13) || u == 32 || u == 0x85 || u == 0xa0 || u == 0x1680 || (0x2000 <= u
        && u <= 0x200a) || u == 0x2028 || u == 0x2029 || u == 0x202f || u == 0x205f || u == 0x3000
}

/// `p` is a prefix of `s`.
pub open spec fn starts_with(s: Seq<char>, p: Seq<char>) -> bool {
    p.len() <= s.len() && s.take(p.len() as int) == p
}

/// `p` is a suffix of `s`.
pub open spec fn ends_with(s: Seq<char>, p: Seq<char>) -> bool {
    p.len() <= s.len() && s.skip(s.len() - p.len()) == p
}

/// `p` occurs in `s` starting at index `i`.
pub open spec fn occurs_at(s: Seq<char>, p: Seq<char>, i: int) -> bool {
    0 <= i && i + p.len() <= s.len() && s.subrange(i, i + p.len()) == p
}

/// `p` occurs somewhere in `s`.
pub open spec fn contains(s: Seq<char>, p: Seq<char>) -> bool {
    exists|i: int| occurs_at(s, p, i)
}

/// `c` occurs in `s`.
pub open spec fn has_char(s: Seq<char>, c: char) -> bool {
    exists|i: int| 0 <= i < s.len() && s[i] == c
}

/// Character-wise equality of two sequences.
pub fn seq_eq(a: &[char], b: &[char]) -> (r: bool)
    ensures
        r == (a@ == b@),
{
    if a.len() != b.len() {
        return false;
    }
    let mut i: usize = 0;
    while i < a.len()
        invariant
            a.len() == b.len(),
            i <= a.len(),
            forall|j: int| 0 <= j < i ==> a@[j] == b@[j],
        decreases a.len() - i,
    {
        if a[i] != b[i] {
            return false;
        }
        i = i + 1;
    }
    assert(a@ =~= b@);
    true
}

/// Whether two strings have the same characters.
pub fn str_eq(a: &str, b: &str) -> (r: bool)
    ensures
        r == (a@ == b@),
{
    let x = chars_of(a);
    let y = chars_of(b);
    seq_eq(&x, &y)
}

/// Whether `p` occurs in `s` at index `i`.
pub fn matches_at(s: &[char], p: &[char], i: usize) -> (r: bool)
    ensures
        r == occurs_at(s@, p@, i as int),
{
    if i > s.len() || p.len() > s.len() - i {
        return false;
    }
    let mut k: usize = 0;
    while k < p.len()
        invariant
            i + p.len() <= s.len(),
            k <= p.len(),
            forall|j: int| 0 <= j < k ==> s@[i + j] == p@[j],
        decreases p.len() - k,
    {
        if s[i + k] != p[k] {
            assert(s@.subrange(i as int, i + p.len())[k as int] != p@[k as int]);
            return false;
        }
        k = k + 1;
    }
    assert(s@.subrange(i as int, i + p.len()) =~= p@);
    true
}

/// Whether `s` begins with `p`.
pub fn has_prefix(s: &[char], p: &[char]) -> (r: bool)
    ensures
        r == starts_with(s@, p@),
{
    let r = matches_at(s, p, 0);
    assert(s@.take(p@.len() as int) =~= s@.subrange(0, p@.len() as int));
    r
}

/// Whether `s` ends with `p`.
pub fn has_suffix(s: &[char], p: &[char]) -> (r: bool)
    ensures
        r == ends_with(s@, p@),
{
    if p.len() > s.len() {
        return false;
    }
    let r = matches_at(s, p, s.len() - p.len());
    assert(s@.skip(s.len() - p.len()) =~= s@.subrange(s.len() - p.len(), s.len() as int));
    r
}

/// The index of the first occurrence of `p` in `s` at or after `from`.
pub fn find_from(s: &[char], p: &[char], from: usize) -> (r: Option<usize>)
    ensures
        r matches Some(i) ==> from <= i && occurs_at(s@, p@, i as int) && forall|j: int|
            from <= j < i ==> !occurs_at(s@, p@, j),
        r is None ==> forall|j: int| from <= j ==> !occurs_at(s@, p@, j),
{
    let mut i = from;
    while i < s.len()
        invariant
            from <= i,
            forall|j: int| from <= j < i ==> !occurs_at(s@, p@, j),
        decreases s.len() - i,
    {
        if matches_at(s, p, i) {
            return Some(i);
        }
        i = i + 1;
    }
    if i == s.len() && matches_at(s, p, i) {
        return Some(i);
    }
    None
}

/// The index of the first occurrence of `p` in `s`.
pub fn find(s: &[char], p: &[char]) -> (r: Option<usize>)
    ensures
        r matches Some(i) ==> occurs_at(s@, p@, i as int) && forall|j: int|
            0 <= j < i ==> !occurs_at(s@, p@, j),
        r is None ==> !contains(s@, p@),
{
    find_from(s, p, 0)
}

/// Whether `p` occurs anywhere in `s`.
pub fn contains_seq(s: &[char], p: &[char]) -> (r: bool)
    ensures
        r == contains(s@, p@),
{
    match find(s, p) {
        Some(i) => {
            assert(occurs_at(s@, p@, i as int));
            true
        },
        None => false,
    }
}

/// Whether the character `c` occurs in `s`.
pub fn contains_char(s: &[char], c: char) -> (r: bool)
    ensures
        r == has_char(s@, c),
{
    let mut i: usize = 0;
    while i < s.len()
        invariant
            i <= s.len(),
            forall|j: int| 0 <= j < i ==> s@[j] != c,
        decreases s.len() - i,
    {
        if s[i] == c {
            return true;
        }
        i = i + 1;
    }
    false
}

/// The index of the last occurrence of `p` in `s`.
pub fn rfind(s: &[char], p: &[char]) -> (r: Option<usize>)
    ensures
        r matches Some(i) ==> occurs_at(s@, p@, i as int) && forall|j: int|
            i < j ==> !occurs_at(s@, p@, j),
        r is None ==> !contains(s@, p@),
{
    if p.len() > s.len() {
        return None;
    }
    let mut i = s.len() - p.len();
    loop
        invariant
            i <= s.len() - p.len(),
            p.len() <= s.len(),
            forall|j: int| i < j ==> !occurs_at(s@, p@, j),
        decreases i,
    {
        if matches_at(s, p, i) {
            return Some(i);
        }
        if i == 0 {
            return None;
        }
        i = i - 1;
    }
}

/// `s[from..to]` as a new vector.
pub fn slice_vec(s: &[char], from: usize, to: usize) -> (r: Vec<char>)
    requires
        from <= to <= s.len(),
    ensures
        r@ == s@.subrange(from as int, to as int),
{
    let mut r: Vec<char> = Vec::new();
    let mut i = from;
    while i < to
        invariant
            from <= i <= to <= s.len(),
            r@ == s@.subrange(from as int, i as int),
        decreases to - i,
    {
        r.push(s[i]);
        i = i + 1;
        assert(r@ =~= s@.subrange(from as int, i as int));
    }
    r
}

/// The length of the maximal prefix of `s` made of white space.
pub open spec fn lead_ws_len(s: Seq<char>) -> nat
    decreases s.len(),
{
    if s.len() > 0 && is_ws(s[0]) {
        1 + lead_ws_len(s.drop_first())
    } else {
        0
    }
}

/// The length of the maximal suffix of `s` made of white space.
pub open spec fn trail_ws_len(s: Seq<char>) -> nat
    decreases s.len(),
{
    if s.len() > 0 && is_ws(s.last()) {
        1 + trail_ws_len(s.drop_last())
    } else {
        0
    }
}

/// `s` without leading white space (`str::trim_start`).
pub open spec fn trim_start(s: Seq<char>) -> Seq<char> {
    s.skip(lead_ws_len(s) as int)
}

/// `s` without trailing white space (`str::trim_end`).
pub open spec fn trim_end(s: Seq<char>) -> Seq<char> {
    s.take(s.len() - trail_ws_len(s))
}

/// `s` without surrounding white space (`str::trim`).
pub open spec fn trim(s: Seq<char>) -> Seq<char> {
    trim_end(trim_start(s))
}

proof fn lemma_lead_ws(s: Seq<char>, i: int)
    requires
        0 <= i <= s.len(),
        forall|j: int| 0 <= j < i ==> is_ws(s[j]),
    ensures
        lead_ws_len(s) == i + lead_ws_len(s.skip(i)),
    decreases i,
{
    if i == 0 {
        assert(s.skip(0) =~= s);
    } else {
        lemma_lead_ws(s.drop_first(), i - 1);
        assert(s.drop_first().skip(i - 1) =~= s.skip(i));
    }
}

proof fn lemma_lead_ws_bound(s: Seq<char>)
    ensures
        lead_ws_len(s) <= s.len(),
    decreases s.len(),
{
    if s.len() > 0 && is_ws(s[0]) {
        lemma_lead_ws_bound(s.drop_first());
    }
}

proof fn lemma_trail_ws(s: Seq<char>, i: int)
    requires
        0 <= i <= s.len(),
        forall|j: int| s.len() - i <= j < s.len() ==> is_ws(s[j]),
    ensures
        trail_ws_len(s) == i + trail_ws_len(s.take(s.len() - i)),
    decreases i,
{
    if i == 0 {
        assert(s.take(s.len() as int) =~= s);
    } else {
        lemma_trail_ws(s.drop_last(), i - 1);
        assert(s.drop_last().take(s.drop_last().len() - (i - 1)) =~= s.take(s.len() - i));
    }
}

proof fn lemma_trail_ws_bound(s: Seq<char>)
    ensures
        trail_ws_len(s) <= s.len(),
    decreases s.len(),
{
    if s.len() > 0 && is_ws(s.last()) {
        lemma_trail_ws_bound(s.drop_last());
    }
}

/// The number of leading white-space characters of `s`.
pub fn lead_ws(s: &[char]) -> (n: usize)
    ensures
        n == lead_ws_len(s@),
        n <= s.len(),
{
    let mut i: usize = 0;
    while i < s.len() && is_whitespace(s[i])
        invariant
            i <= s.len(),
            forall|j: int| 0 <= j < i ==> is_ws(s@[j]),
        decreases s.len() - i,
    {
        i = i + 1;
    }
    proof {
        lemma_lead_ws(s@, i as int);
        if i < s.len() {
            assert(s@.skip(i as int)[0] == s@[i as int]);
        } else {
            assert(s@.skip(i as int).len() == 0);
        }
    }
    i
}

/// The number of trailing white-space characters of `s`.
pub fn trail_ws(s: &[char]) -> (n: usize)
    ensures
        n == trail_ws_len(s@),
        n <= s.len(),
{
    let mut i: usize = 0;
    while i < s.len() && is_whitespace(s[s.len() - 1 - i])
        invariant
            i <= s.len(),
            forall|j: int| s.len() - i <= j < s.len() ==> is_ws(s@[j]),
        decreases s.len() - i,
    {
        i = i + 1;
    }
    proof {
        lemma_trail_ws(s@, i as int);
        let t = s@.take(s.len() - i);
        if i < s.len() {
            assert(t.last() == s@[s.len() - 1 - i]);
        } else {
            assert(t.len() == 0);
        }
    }
    i
}

/// `str::trim_start` on characters.
pub fn trim_start_vec(s: &[char]) -> (r: Vec<char>)
    ensures
        r@ == trim_start(s@),
{
    let n = lead_ws(s);
    let r = slice_vec(s, n, s.len());
    assert(r@ =~= s@.skip(n as int));
    r
}

/// `str::trim_end` on characters.
pub fn trim_end_vec(s: &[char]) -> (r: Vec<char>)
    ensures
        r@ == trim_end(s@),
{
    let n = trail_ws(s);
    let r = slice_vec(s, 0, s.len() - n);
    assert(r@ =~= s@.take(s.len() - n));
    r
}

/// `str::trim` on characters.
pub fn trim_vec(s: &[char]) -> (r: Vec<char>)
    ensures
        r@ == trim(s@),
{
    let a = trim_start_vec(s);
    trim_end_vec(&a)
}


/// The views of a vector of character vectors.
pub open spec fn views(v: Seq<Vec<char>>) -> Seq<Seq<char>> {
    v.map_values(|l: Vec<char>| l@)
}

/// `l` without one trailing carriage return.
pub open spec fn strip_cr(l: Seq<char>) -> Seq<char> {
    if l.len() > 0 && l.last() == '\r' {
        l.drop_last()
    } else {
        l
    }
}

/// Left-to-right line scan: the finished lines and the line in progress.
pub open spec fn line_scan(s: Seq<char>) -> (Seq<Seq<char>>, Seq<char>)
    decreases s.len(),
{
    if s.len() == 0 {
        (Seq::empty(), Seq::empty())
    } else {
        let (ls, cur) = line_scan(s.drop_last());
        if s.last() == '\n' {
            (ls.push(strip_cr(cur)), Seq::empty())
        } else {
            (ls, cur.push(s.last()))
        }
    }
}

/// The lines of `s` as `str::lines` yields them: split at `\n`, a `\r`
/// directly before the `\n` dropped, and no empty line after a final `\n`.
pub open spec fn lines(s: Seq<char>) -> Seq<Seq<char>> {
    let (ls, cur) = line_scan(s);
    if cur.len() == 0 {
        ls
    } else {
        ls.push(cur)
    }
}

fn strip_cr_vec(l: Vec<char>) -> (r: Vec<char>)
    ensures
        r@ == strip_cr(l@),
{
    let mut l = l;
    let ghost orig = l@;
    if l.len() > 0 && l[l.len() - 1] == '\r' {
        l.pop();
        assert(l@ =~= orig.drop_last());
    }
    l
}

/// `str::lines` on characters.
pub fn split_lines(s: &[char]) -> (r: Vec<Vec<char>>)
    ensures
        views(r@) == lines(s@),
{
    let mut out: Vec<Vec<char>> = Vec::new();
    let mut cur: Vec<char> = Vec::new();
    let mut i: usize = 0;
    while i < s.len()
        invariant
            i <= s.len(),
            (views(out@), cur@) == line_scan(s@.take(i as int)),
        decreases s.len() - i,
    {
        let c = s[i];
        proof {
            assert(s@.take(i + 1).drop_last() =~= s@.take(i as int));
            assert(s@.take(i + 1).last() == c);
        }
        if c == '\n' {
            let line = strip_cr_vec(cur);
            let ghost before = out@;
            out.push(line);
            assert(views(out@) =~= views(before).push(line@));
            cur = Vec::new();
        } else {
            cur.push(c);
        }
        i = i + 1;
    }
    assert(s@.take(s.len() as int) =~= s@);
    if cur.len() > 0 {
        let ghost before = out@;
        let c2 = cur;
        out.push(c2);
        assert(views(out@) =~= views(before).push(c2@));
    }
    out
}

/// Left-to-right scan for `str::split_whitespace`.
pub open spec fn word_scan(s: Seq<char>) -> (Seq<Seq<char>>, Seq<char>)
    decreases s.len(),
{
    if s.len() == 0 {
        (Seq::empty(), Seq::empty())
    } else {
        let (ws, cur) = word_scan(s.drop_last());
        if is_ws(s.last()) {
            if cur.len() > 0 {
                (ws.push(cur), Seq::empty())
            } else {
                (ws, Seq::empty())
            }
        } else {
            (ws, cur.push(s.last()))
        }
    }
}

/// The maximal runs of non-white-space characters of `s`.
pub open spec fn words(s: Seq<char>) -> Seq<Seq<char>> {
    let (ws, cur) = word_scan(s);
    if cur.len() > 0 {
        ws.push(cur)
    } else {
        ws
    }
}

/// `str::split_whitespace` on characters.
pub fn split_words(s: &[char]) -> (r: Vec<Vec<char>>)
    ensures
        views(r@) == words(s@),
{
    let mut out: Vec<Vec<char>> = Vec::new();
    let mut cur: Vec<char> = Vec::new();
    let mut i: usize = 0;
    while i < s.len()
        invariant
            i <= s.len(),
            (views(out@), cur@) == word_scan(s@.take(i as int)),
        decreases s.len() - i,
    {
        let c = s[i];
        proof {
            assert(s@.take(i + 1).drop_last() =~= s@.take(i as int));
            assert(s@.take(i + 1).last() == c);
        }
        if is_whitespace(c) {
            if cur.len() > 0 {
                let ghost before = out@;
                let w = cur;
                out.push(w);
                assert(views(out@) =~= views(before).push(w@));
            }
            cur = Vec::new();
        } else {
            cur.push(c);
        }
        i = i + 1;
    }
    assert(s@.take(s.len() as int) =~= s@);
    if cur.len() > 0 {
        let ghost before = out@;
        let w = cur;
        out.push(w);
        assert(views(out@) =~= views(before).push(w@));
    }
    out
}

/// Left-to-right scan for `str::split(sep)` with a single-character separator.
pub open spec fn piece_scan(s: Seq<char>, sep: char) -> (Seq<Seq<char>>, Seq<char>)
    decreases s.len(),
{
    if s.len() == 0 {
        (Seq::empty(), Seq::empty())
    } else {
        let (ps, cur) = piece_scan(s.drop_last(), sep);
        if s.last() == sep {
            (ps.push(cur), Seq::empty())
        } else {
            (ps, cur.push(s.last()))
        }
    }
}

/// The pieces of `s` between occurrences of `sep`, empty pieces included
/// (`str::split(char)`).
pub open spec fn split_on(s: Seq<char>, sep: char) -> Seq<Seq<char>> {
    let (ps, cur) = piece_scan(s, sep);
    ps.push(cur)
}

/// `split_on` always yields at least one piece.
pub proof fn lemma_split_nonempty(s: Seq<char>, sep: char)
    ensures
        split_on(s, sep).len() >= 1,
{
}

proof fn lemma_piece_scan_suffix(s: Seq<char>, sep: char)
    ensures
        piece_scan(s, sep).1.len() <= s.len(),
        s.skip(s.len() - piece_scan(s, sep).1.len()) == piece_scan(s, sep).1,
    decreases s.len(),
{
    if s.len() > 0 {
        lemma_piece_scan_suffix(s.drop_last(), sep);
        let cur = piece_scan(s.drop_last(), sep).1;
        if s.last() != sep {
            assert(s.skip(s.len() - (cur.len() + 1)) =~= s.drop_last().skip(
                s.drop_last().len() - cur.len(),
            ).push(s.last()));
        } else {
            assert(s.skip(s.len() as int) =~= Seq::<char>::empty());
        }
    } else {
        assert(s.skip(0) =~= s);
    }
}

/// The last piece of a split is a suffix of the text.
pub proof fn lemma_last_piece_suffix(s: Seq<char>, sep: char)
    ensures
        split_on(s, sep).last().len() <= s.len(),
        s.skip(s.len() - split_on(s, sep).last().len()) == split_on(s, sep).last(),
{
    lemma_piece_scan_suffix(s, sep);
}

/// `str::split(char)` on characters.
pub fn split_char(s: &[char], sep: char) -> (r: Vec<Vec<char>>)
    ensures
        views(r@) == split_on(s@, sep),
{
    let mut out: Vec<Vec<char>> = Vec::new();
    let mut cur: Vec<char> = Vec::new();
    let mut i: usize = 0;
    while i < s.len()
        invariant
            i <= s.len(),
            (views(out@), cur@) == piece_scan(s@.take(i as int), sep),
        decreases s.len() - i,
    {
        let c = s[i];
        proof {
            assert(s@.take(i + 1).drop_last() =~= s@.take(i as int));
            assert(s@.take(i + 1).last() == c);
        }
        if c == sep {
            let ghost before = out@;
            let w = cur;
            out.push(w);
            assert(views(out@) =~= views(before).push(w@));
            cur = Vec::new();
        } else {
            cur.push(c);
        }
        i = i + 1;
    }
    assert(s@.take(s.len() as int) =~= s@);
    let ghost before = out@;
    let w = cur;
    out.push(w);
    assert(views(out@) =~= views(before).push(w@));
    out
}

/// `c` is a token separator: white space or one of `seps`.
pub open spec fn is_sep(c: char, seps: Seq<char>) -> bool {
    is_ws(c) || has_char(seps, c)
}

/// `tok` occurs in `s` with a separator (or the text's edge) on both sides.
/// For a non-empty `tok` free of separators this is exactly "one of the
/// pieces of `s` split at separators equals `tok`".
pub open spec fn token_in(s: Seq<char>, tok: Seq<char>, seps: Seq<char>) -> bool {
    exists|i: int|
        #![trigger occurs_at(s, tok, i)]
        occurs_at(s, tok, i) && (i == 0 || is_sep(s[i - 1], seps)) && (i + tok.len() == s.len()
            || is_sep(s[i + tok.len()], seps))
}

/// Whether `c` is white space or one of `seps`.
pub fn is_separator(c: char, seps: &[char]) -> (r: bool)
    ensures
        r == is_sep(c, seps@),
{
    is_whitespace(c) || contains_char(seps, c)
}

/// Whether `tok` appears in `s` as a separator-delimited token.
pub fn has_token(s: &[char], tok: &[char], seps: &[char]) -> (r: bool)
    ensures
        r == token_in(s@, tok@, seps@),
{
    let mut i: usize = 0;
    while i < s.len()
        invariant
            i <= s.len(),
            forall|j: int|
                #![trigger occurs_at(s@, tok@, j)]
                0 <= j < i ==> !(occurs_at(s@, tok@, j) && (j == 0 || is_sep(s@[j - 1], seps@)) && (
                j + tok@.len() == s@.len() || is_sep(s@[j + tok@.len()], seps@))),
        decreases s.len() - i,
    {
        if matches_at(s, tok, i) {
            let left = i == 0 || is_separator(s[i - 1], seps);
            let right = i + tok.len() == s.len() || is_separator(s[i + tok.len()], seps);
            if left && right {
                return true;
            }
        }
        i = i + 1;
    }
    if matches_at(s, tok, i) {
        let left = i == 0 || is_separator(s[i - 1], seps);
        if left {
            return true;
        }
    }
    proof {
        assert forall|j: int| #![trigger occurs_at(s@, tok@, j)] occurs_at(s@, tok@, j) implies !((j == 0 || is_sep(s@[j - 1], seps@)) && (j + tok@.len() == s@.len() || is_sep(s@[j + tok@.len()], seps@))) by {
            if j < i {
            } else {
                assert(j == s.len());
            }
        }
    }
    false
}

/// The index of the first occurrence of `p` in `s` (meaningful when
/// `contains(s, p)`).
pub open spec fn first_occ(s: Seq<char>, p: Seq<char>) -> int {
    choose|i: int| occurs_at(s, p, i) && forall|j: int| 0 <= j < i ==> !occurs_at(s, p, j)
}

/// The text before the first `p`, or all of `s` (`s.split(p).next()`).
pub open spec fn before(s: Seq<char>, p: Seq<char>) -> Seq<char> {
    if contains(s, p) {
        s.take(first_occ(s, p))
    } else {
        s
    }
}

/// The first occurrence index, tied to `first_occ`.
pub fn find_first(s: &[char], p: &[char]) -> (r: Option<usize>)
    ensures
        r matches Some(i) ==> contains(s@, p@) && i == first_occ(s@, p@) && occurs_at(
            s@,
            p@,
            i as int,
        ),
        r is None ==> !contains(s@, p@),
{
    let r = find(s, p);
    if let Some(i) = r {
        proof {
            let k = first_occ(s@, p@);
            assert(occurs_at(s@, p@, i as int));
            assert(occurs_at(s@, p@, k) && forall|j: int| 0 <= j < k ==> !occurs_at(s@, p@, j));
            if k < i {
                assert(!occurs_at(s@, p@, k));
            }
            if i < k {
                assert(!occurs_at(s@, p@, i as int));
            }
        }
    }
    r
}

/// `s.split(p).next()`: the text before the first `p`, or all of `s`.
pub fn before_vec(s: &[char], p: &[char]) -> (r: Vec<char>)
    ensures
        r@ == before(s@, p@),
{
    match find_first(s, p) {
        Some(i) => {
            let r = slice_vec(s, 0, i);
            assert(r@ =~= s@.take(i as int));
            r
        },
        None => slice_vec(s, 0, s.len()),
    }
}

/// `char::is_alphanumeric`: Unicode `Alphabetic` or `Numeric`.
pub uninterp spec fn alnum(c: char) -> bool;

/// An ASCII letter or digit.
pub open spec fn ascii_alnum(c: char) -> bool {
    ('0' <= c && c <= '9') || ('a' <= c && c <= 'z') || ('A' <= c && c <= 'Z')
}

/// `char::is_alphanumeric`. On ASCII it is exactly the letters and digits,
/// as its documentation states; beyond ASCII the Unicode tables decide,
/// which nothing here restates.
#[verifier::external_body]
pub(crate) fn is_alphanumeric(c: char) -> (r: bool)
    ensures
        r == alnum(c),
        (c as u32) < 128 ==> (r <==> ascii_alnum(c)),
{
    c.is_alphanumeric()
}

/// The `Some` values of `xs`, in order.
pub open spec fn somes(xs: Seq<Option<Seq<char>>>) -> Seq<Seq<char>>
    decreases xs.len(),
{
    if xs.len() == 0 {
        Seq::empty()
    } else {
        match xs.last() {
            Some(x) => somes(xs.drop_last()).push(x),
            None => somes(xs.drop_last()),
        }
    }
}

/// The index of the first element of `ts` equal to `t`, or -1.
pub open spec fn first_pos(ts: Seq<Seq<char>>, t: Seq<char>) -> int
    decreases ts.len(),
{
    if ts.len() == 0 {
        -1
    } else if first_pos(ts.drop_last(), t) >= 0 {
        first_pos(ts.drop_last(), t)
    } else if ts.last() == t {
        ts.len() - 1
    } else {
        -1
    }
}

/// The first position of `t` among `ts`.
pub fn position_of(ts: &Vec<Vec<char>>, t: &[char]) -> (r: Option<usize>)
    ensures
        r matches Some(i) ==> i == first_pos(views(ts@), t@) && i < ts@.len(),
        r is None ==> first_pos(views(ts@), t@) == -1,
{
    let mut i: usize = 0;
    while i < ts.len()
        invariant
            i <= ts@.len(),
            first_pos(views(ts@).take(i as int), t@) == -1,
        decreases ts.len() - i,
    {
        proof {
            assert(views(ts@).take(i + 1).drop_last() =~= views(ts@).take(i as int));
        }
        if seq_eq(&ts[i], t) {
            proof {
                lemma_first_pos_prefix(views(ts@), t@, i + 1);
            }
            return Some(i);
        }
        i = i + 1;
    }
    assert(views(ts@).take(ts@.len() as int) =~= views(ts@));
    None
}

/// Once found in a prefix, the first position is that of the whole.
pub proof fn lemma_first_pos_prefix(ts: Seq<Seq<char>>, t: Seq<char>, n: int)
    requires
        0 <= n <= ts.len(),
        first_pos(ts.take(n), t) >= 0,
    ensures
        first_pos(ts, t) == first_pos(ts.take(n), t),
    decreases ts.len() - n,
{
    if n < ts.len() {
        assert(ts.take(n + 1).drop_last() =~= ts.take(n));
        lemma_first_pos_prefix(ts, t, n + 1);
    } else {
        assert(ts.take(n) =~= ts);
    }
}

/// `first_pos` finds an element equal to `t`, and none before it.
pub proof fn lemma_first_pos(ts: Seq<Seq<char>>, t: Seq<char>)
    ensures
        -1 <= first_pos(ts, t) < ts.len(),
        first_pos(ts, t) >= 0 ==> ts[first_pos(ts, t)] == t,
        forall|j: int| 0 <= j < ts.len() && (first_pos(ts, t) == -1 || j < first_pos(ts, t)) ==> ts[j] != t,
    decreases ts.len(),
{
    if ts.len() > 0 {
        lemma_first_pos(ts.drop_last(), t);
        assert forall|j: int| 0 <= j < ts.len() && (first_pos(ts, t) == -1 || j < first_pos(ts, t)) implies ts[j] != t by {
            if j < ts.len() - 1 {
                assert(ts[j] == ts.drop_last()[j]);
            }
        }
    }
}

/// The bytes of `b` from position `i` on, with `(* … *)` spans cut out
/// (nesting counted by `depth`) and each kept byte read as the character of
/// that code (as `byte as char` does); an unclosed `(*` drops the rest.
pub open spec fn strip_from(b: Seq<u8>, i: int, depth: nat) -> Seq<char>
    decreases b.len() - i,
{
    if i < 0 || i >= b.len() {
        Seq::empty()
    } else if i + 1 < b.len() && b[i] == 40u8 && b[i + 1] == 42u8 {
        strip_from(b, i + 2, depth + 1)
    } else if depth > 0 && i + 1 < b.len() && b[i] == 42u8 && b[i + 1] == 41u8 {
        strip_from(b, i + 2, (depth - 1) as nat)
    } else if depth == 0 {
        seq![(b[i] as u32) as char] + strip_from(b, i + 1, depth)
    } else {
        strip_from(b, i + 1, depth)
    }
}

/// A line with its `(* … *)` comment spans removed, byte by byte.
pub open spec fn strip_ml_comments(line: Seq<char>) -> Seq<char> {
    strip_from(vstd::utf8::encode_utf8(line), 0, 0)
}

/// Removes `(* … *)` comment spans from one line: balanced spans are cut,
/// an unclosed `(*` truncates the rest. Works on the UTF-8 bytes, keeping
/// each byte outside a comment as the character of that code.
pub fn strip_line_comments(line: &[char]) -> (r: Vec<char>)
    ensures
        r@ == strip_ml_comments(line@),
{
    let s = string_of(line);
    let bytes = s.as_str().as_bytes();
    let ghost b = bytes@;
    assert(b == vstd::utf8::encode_utf8(line@));
    let mut out: Vec<char> = Vec::new();
    let mut i: usize = 0;
    let mut depth: usize = 0;
    while i < bytes.len()
        invariant
            b == bytes@,
            i <= b.len() + 1,
            depth <= i,
            out@ + strip_from(b, i as int, depth as nat) == strip_from(b, 0, 0),
        decreases b.len() - i,
    {
        if i + 1 < bytes.len() && bytes[i] == 40u8 && bytes[i + 1] == 42u8 {
            depth = depth + 1;
            i = i + 2;
            continue;
        }
        if depth > 0 && i + 1 < bytes.len() && bytes[i] == 42u8 && bytes[i + 1] == 41u8 {
            depth = depth - 1;
            i = i + 2;
            continue;
        }
        if depth == 0 {
            let c = bytes[i] as char;
            let ghost before = out@;
            out.push(c);
            assert(c == (b[i as int] as u32) as char);
            assert(out@ + strip_from(b, i + 1, 0) =~= before + (seq![c] + strip_from(b, i + 1, 0)));
        }
        i = i + 1;
    }
    assert(strip_from(b, i as int, depth as nat) == Seq::<char>::empty());
    assert(out@ =~= out@ + Seq::<char>::empty());
    out
}

/// What a sequence with one more element contains.
pub proof fn lemma_push_contains<A>(s: Seq<A>, x: A, y: A)
    ensures
        s.push(x).contains(y) <==> (s.contains(y) || x == y),
{
    if s.push(x).contains(y) {
        let k = choose|k: int| 0 <= k < s.push(x).len() && s.push(x)[k] == y;
        if k < s.len() {
            assert(s[k] == y);
        }
    }
    if s.contains(y) {
        let k = choose|k: int| 0 <= k < s.len() && s[k] == y;
        assert(s.push(x)[k] == y);
    }
    if x == y {
        assert(s.push(x)[s.len() as int] == y);
    }
}

} // verus!
