//! How a check is dispatched: run the tool locally, or route it to the
//! Echidna orchestrator. Both routes answer with the same [`Outcome`]. The
//! Echidna route is an honest stub: it reports the tool as unavailable,
//! with the reason, and never makes up a verdict.

use vstd::prelude::*;
use crate::prover::{BackendKind, Outcome, Verdict};
use crate::text::{chars_of, find_first, slice_vec, str_eq, string_of};

verus! {

/// How a check is dispatched.
#[derive(Clone, Debug)]
pub enum Dispatch {
    /// Run the tool locally (the default).
    Local,
    /// Route to the Echidna orchestrator at `base_url`.
    Echidna { base_url: String },
}

/// The conventional Echidna orchestrator endpoint.
pub const DEFAULT_ECHIDNA_URL: &'static str = "http://127.0.0.1:8090";

/// The outcome of a parse of a `--dispatch` value.
pub open spec fn dispatch_spec(s: Seq<char>) -> Option<(bool, Seq<char>)> {
    if crate::text::contains(s, "="@) {
        let i = crate::text::first_occ(s, "="@);
        if s.take(i) == "echidna"@ { Some((true, s.skip(i + 1))) } else { None }
    } else if s == "echidna"@ {
        Some((true, DEFAULT_ECHIDNA_URL@))
    } else if s == "local"@ {
        Some((false, Seq::empty()))
    } else {
        None
    }
}

/// The route a dispatch value denotes: `(false, _)` for local,
/// `(true, url)` for Echidna.
pub open spec fn route(d: Dispatch) -> (bool, Seq<char>) {
    match d {
        Dispatch::Local => (false, Seq::empty()),
        Dispatch::Echidna { base_url } => (true, base_url@),
    }
}

/// The stub's explanation for the Echidna route at `url`.
pub open spec fn echidna_reason(url: Seq<char>) -> Seq<char> {
    "echidna dispatch seam is wired ("@ + url + ") but the orchestrator client is not built in this configuration; no verdict fabricated"@
}

impl Dispatch {
    /// Parses a `--dispatch` value: `local`, `echidna`, or `echidna=<url>`
    /// (text before the first `=` must be `echidna`).
    pub fn parse(s: &str) -> (r: Result<Dispatch, String>)
        ensures
            r is Ok <==> dispatch_spec(s@) is Some,
            r matches Ok(d) ==> dispatch_spec(s@) == Some(route(d)),
    {
        let cs = chars_of(s);
        let eq = chars_of("=");
        match find_first(&cs, &eq) {
            Some(i) => {
                proof {
                    reveal_strlit("=");
                }
                assert(crate::text::occurs_at(cs@, eq@, i as int));
                let total = cs.len();
                assert(i + 1 <= total);
                let head = slice_vec(&cs, 0, i);
                if crate::text::seq_eq(&head, &chars_of("echidna")) {
                    let url = slice_vec(&cs, i + 1, total);
                    return Ok(Dispatch::Echidna { base_url: string_of(&url) });
                }
            },
            None => {
                if str_eq(s, "echidna") {
                    return Ok(Dispatch::Echidna { base_url: String::from_str(DEFAULT_ECHIDNA_URL) });
                } else if str_eq(s, "local") {
                    return Ok(Dispatch::Local);
                }
            },
        }
        let mut msg = chars_of("unknown --dispatch `");
        let tail = chars_of("` (known: local, echidna, echidna=<url>)");
        let mut k: usize = 0;
        while k < cs.len()
            decreases cs.len() - k,
        {
            msg.push(cs[k]);
            k = k + 1;
        }
        let mut k: usize = 0;
        while k < tail.len()
            decreases tail.len() - k,
        {
            msg.push(tail[k]);
            k = k + 1;
        }
        Err(string_of(&msg))
    }

    /// What the route answers by itself: nothing for the local route (the
    /// backend's tool is run), the honest unavailable stub for Echidna,
    /// keeping the backend's `kind`.
    pub fn run(&self, kind: BackendKind) -> (r: Option<Outcome>)
        ensures
            (*self is Local) <==> r is None,
            r matches Some(o) ==> (!o.available && o.exit_code is None && !o.ok && o.kind == kind
                && o.verdict == Verdict::Unavailable && o.output_tail@ == echidna_reason(route(*self).1)),
    {
        match self {
            Dispatch::Local => None,
            Dispatch::Echidna { base_url } => Some(echidna_stub(kind, base_url.as_str())),
        }
    }
}

fn append(out: &mut Vec<char>, s: &str)
    ensures
        final(out)@ == old(out)@ + s@,
{
    let cs = chars_of(s);
    let ghost start = out@;
    let mut i: usize = 0;
    while i < cs.len()
        invariant
            i <= cs@.len(),
            out@ == start + cs@.take(i as int),
        decreases cs.len() - i,
    {
        out.push(cs[i]);
        i = i + 1;
        assert(out@ =~= start + cs@.take(i as int));
    }
    assert(cs@.take(cs@.len() as int) =~= cs@);
}

/// The honest Echidna stub: the standard outcome shape, reporting
/// `Unavailable` with the reason instead of a verdict.
fn echidna_stub(kind: BackendKind, base_url: &str) -> (o: Outcome)
    ensures
        !o.available && o.exit_code is None && !o.ok && o.kind == kind && o.verdict == Verdict::Unavailable,
        o.output_tail@ == echidna_reason(base_url@),
{
    let mut t: Vec<char> = Vec::new();
    append(&mut t, "echidna dispatch seam is wired (");
    append(&mut t, base_url);
    append(&mut t, ") but the orchestrator client is not built in this configuration; no verdict fabricated");
    Outcome { available: false, exit_code: None, ok: false, output_tail: string_of(&t), kind, verdict: Verdict::Unavailable }
}

} // verus!
