//! The four-state triage workspace: `inbox`, `working`, `proven`,
//! `rejected`, one directory each below the workspace root. Transitions
//! follow a fixed state machine; the file system is the source of truth, so
//! the decisions here take what was found on disk as plain values.

use vstd::prelude::*;
use crate::event::EventKind;
use crate::order::{lt, lemma_lt_irrefl, lemma_lt_total, lemma_lt_trans, str_lt};
use crate::path::{join_path, path_join};
use crate::proven::ProvenManifest;
use crate::text::{chars_of, string_of};

verus! {

/// A triage state.
#[derive(Clone, Copy, Debug, PartialEq, Eq, Structural)]
pub enum State {
    Inbox,
    Working,
    Proven,
    Rejected,
}

/// The directory name of a state.
pub open spec fn dir_of(s: State) -> Seq<char> {
    match s {
        State::Inbox => "inbox"@,
        State::Working => "working"@,
        State::Proven => "proven"@,
        State::Rejected => "rejected"@,
    }
}

/// Each state has its own directory: `inbox`, `working`, `proven` and
/// `rejected`, no two alike.
pub proof fn lemma_state_dirs(a: State, b: State)
    ensures
        dir_of(a) == "inbox"@ <==> a == State::Inbox,
        dir_of(a) == "working"@ <==> a == State::Working,
        dir_of(a) == "proven"@ <==> a == State::Proven,
        dir_of(a) == "rejected"@ <==> a == State::Rejected,
        dir_of(a) == dir_of(b) <==> a == b,
{
    reveal_strlit("inbox");
    reveal_strlit("working");
    reveal_strlit("proven");
    reveal_strlit("rejected");
    assert("inbox"@ != "working"@ && "inbox"@ != "proven"@ && "inbox"@ != "rejected"@) by {
        assert("inbox"@.len() != "working"@.len() && "inbox"@.len() != "rejected"@.len());
        assert("inbox"@[0] != "proven"@[0]);
    }
    assert("working"@ != "proven"@ && "working"@ != "rejected"@) by {
        assert("working"@.len() != "proven"@.len());
        assert("working"@[0] != "rejected"@[0]);
    }
    assert("proven"@ != "rejected"@) by {
        assert("proven"@.len() != "rejected"@.len());
    }
}

/// The states in their fixed order.
pub open spec fn state_order() -> Seq<State> {
    seq![State::Inbox, State::Working, State::Proven, State::Rejected]
}

impl State {
    /// The state's directory name below the workspace root.
    pub fn dir_name(self) -> (r: &'static str)
        ensures
            r@ == dir_of(self),
    {
        match self {
            State::Inbox => "inbox",
            State::Working => "working",
            State::Proven => "proven",
            State::Rejected => "rejected",
        }
    }
}

/// The legal moves of the state machine and the event each one logs.
pub open spec fn transition_spec(from: State, to: State) -> Option<EventKind> {
    match (from, to) {
        (State::Inbox, State::Working) => Some(EventKind::Claim),
        (State::Working, State::Proven) => Some(EventKind::Promote),
        (State::Working, State::Rejected) => Some(EventKind::Reject),
        (State::Rejected, State::Inbox) => Some(EventKind::Requeue),
        (State::Proven, State::Inbox) => Some(EventKind::Invalidate),
        _ => None,
    }
}

/// The lifecycle: a file is claimed from the inbox into work, promoted
/// or rejected from work, requeued from rejected back to the inbox, and
/// invalidated from proven back to the inbox. Each of these moves logs its
/// own event, and no other move is legal.
pub proof fn lemma_lifecycle(from: State, to: State)
    ensures
        transition_spec(from, to) == Some(EventKind::Claim) <==> (from == State::Inbox && to == State::Working),
        transition_spec(from, to) == Some(EventKind::Promote) <==> (from == State::Working && to == State::Proven),
        transition_spec(from, to) == Some(EventKind::Reject) <==> (from == State::Working && to == State::Rejected),
        transition_spec(from, to) == Some(EventKind::Requeue) <==> (from == State::Rejected && to == State::Inbox),
        transition_spec(from, to) == Some(EventKind::Invalidate) <==> (from == State::Proven && to == State::Inbox),
        transition_spec(from, to) is None <==> !(
            (from == State::Inbox && to == State::Working)
            || (from == State::Working && to == State::Proven)
            || (from == State::Working && to == State::Rejected)
            || (from == State::Rejected && to == State::Inbox)
            || (from == State::Proven && to == State::Inbox)),
{
}

/// The event kind for a transition, or `None` if the pair is not a legal
/// move.
pub fn transition_kind(from: State, to: State) -> (r: Option<EventKind>)
    ensures
        r == transition_spec(from, to),
{
    match (from, to) {
        (State::Inbox, State::Working) => Some(EventKind::Claim),
        (State::Working, State::Proven) => Some(EventKind::Promote),
        (State::Working, State::Rejected) => Some(EventKind::Reject),
        (State::Rejected, State::Inbox) => Some(EventKind::Requeue),
        (State::Proven, State::Inbox) => Some(EventKind::Invalidate),
        _ => None,
    }
}

/// No state moves to itself, and a file only reaches `proven` from
/// `working`: every `proven` file was claimed and worked on first.
pub proof fn lemma_transition_shape(from: State, to: State)
    ensures
        transition_spec(from, to) is Some ==> from != to,
        transition_spec(from, to) is Some && to == State::Proven ==> from == State::Working,
        transition_spec(from, to) is Some && from == State::Proven ==> to == State::Inbox,
{
}

/// Each event kind belongs to exactly one move: the log determines the
/// path a file took.
pub proof fn lemma_transition_kind_unique(f1: State, t1: State, f2: State, t2: State)
    requires
        transition_spec(f1, t1) is Some,
        transition_spec(f1, t1) == transition_spec(f2, t2),
    ensures
        f1 == f2 && t1 == t2,
{
}

/// A workspace: a root directory holding the four state directories.
#[derive(Clone, Debug)]
pub struct Workspace {
    root: String,
}

/// A `proven` file flagged stale.
#[derive(Clone, Debug)]
pub struct StaleEntry {
    pub file: String,
    pub reason: &'static str,
}

/// Why a proven file is stale, given its recorded hash (if any) and its
/// current hash; `None` when it is not.
pub open spec fn stale_reason(recorded: Option<(Seq<char>, Seq<char>)>, current: Seq<char>) -> Option<Seq<char>> {
    match recorded {
        None => Some("no recorded hash"@),
        Some(r) => if r.0 != current {
            Some("content changed since promotion"@)
        } else {
            None
        },
    }
}

/// Why the proven file `p` (its name and current hash) is stale, if it is.
pub open spec fn stale_of(manifest: &ProvenManifest, p: (String, String)) -> Option<Seq<char>> {
    stale_reason(manifest.lookup(p.0@), p.1@)
}

/// What a requested transition comes to, before anything is moved.
#[derive(Clone, Debug)]
pub struct TransitionPlan {
    pub kind: EventKind,
    /// Where the file is now.
    pub src: String,
    /// Where it goes.
    pub dst: String,
    /// Record the file's hash in the manifest (it enters `proven`).
    pub record_hash: bool,
    /// Drop the file's record from the manifest (it leaves `proven`).
    pub drop_record: bool,
}

impl Workspace {
    /// The workspace's root path.
    pub closed spec fn root_spec(&self) -> Seq<char> {
        self.root@
    }

    /// The path of a state's directory.
    pub open spec fn state_dir_spec(&self, s: State) -> Seq<char> {
        path_join(self.root_spec(), dir_of(s))
    }

    /// The path a file of that name has in state `s`.
    pub open spec fn state_file_spec(&self, s: State, name: Seq<char>) -> Seq<char> {
        path_join(self.state_dir_spec(s), name)
    }

    /// Opens the workspace at `root`. `is_dir[i]` tells whether the
    /// directory of the `i`-th state (inbox, working, proven, rejected) is
    /// present; the first missing one is named in the error.
    pub fn open(root: &str, is_dir: &[bool]) -> (r: Result<Workspace, String>)
        requires
            is_dir@.len() == 4,
        ensures
            r is Ok <==> forall|i: int| 0 <= i < 4 ==> is_dir@[i],
            r matches Ok(w) ==> w.root_spec() == root@,
            r matches Err(e) ==> exists|i: int|
                0 <= i < 4 && !is_dir@[i] && (forall|j: int| 0 <= j < i ==> is_dir@[j]) && e@
                    == "workspace missing state dir: "@ + path_join(root@, dir_of(state_order()[i])),
    {
        let states: [State; 4] = [State::Inbox, State::Working, State::Proven, State::Rejected];
        assert(states@ =~= state_order());
        let mut i: usize = 0;
        while i < 4
            invariant
                i <= 4,
                is_dir@.len() == 4,
                states@ == state_order(),
                forall|j: int| 0 <= j < i ==> is_dir@[j],
            decreases 4 - i,
        {
            if !is_dir[i] {
                let p = join_path(root, states[i].dir_name());
                let mut msg = String::from_str("workspace missing state dir: ");
                let pc = chars_of(p.as_str());
                let mut k: usize = 0;
                let ghost start = msg@;
                proof {
                    reveal_strlit("workspace missing state dir: ");
                }
                while k < pc.len()
                    invariant
                        k <= pc@.len(),
                        msg@ == start + pc@.take(k as int),
                    decreases pc.len() - k,
                {
                    crate::text::push_char(&mut msg, pc[k]);
                    k = k + 1;
                    assert(msg@ =~= start + pc@.take(k as int));
                }
                assert(pc@.take(pc@.len() as int) =~= pc@);
                return Err(msg);
            }
            i = i + 1;
        }
        Ok(Workspace { root: String::from_str(root) })
    }

    /// The workspace root.
    pub fn root(&self) -> (r: &str)
        ensures
            r@ == self.root_spec(),
    {
        self.root.as_str()
    }

    /// The directory of `state`.
    pub fn state_dir(&self, state: State) -> (r: String)
        ensures
            r@ == self.state_dir_spec(state),
    {
        join_path(self.root.as_str(), state.dir_name())
    }

    /// The path a file named `file_name` has in `state`.
    pub fn state_file(&self, state: State, file_name: &str) -> (r: String)
        ensures
            r@ == self.state_file_spec(state, file_name@),
    {
        let d = self.state_dir(state);
        join_path(d.as_str(), file_name)
    }

    /// Which state holds the file: `is_file[i]` tells whether
    /// `state_file(i-th state, name)` is a file; the first state that holds
    /// it wins.
    pub fn state_of(&self, is_file: &[bool]) -> (r: Option<State>)
        requires
            is_file@.len() == 4,
        ensures
            r is None <==> forall|i: int| 0 <= i < 4 ==> !is_file@[i],
            r matches Some(s) ==> exists|i: int|
                0 <= i < 4 && is_file@[i] && state_order()[i] == s && forall|j: int| 0 <= j < i ==> !is_file@[j],
    {
        let states: [State; 4] = [State::Inbox, State::Working, State::Proven, State::Rejected];
        assert(states@ =~= state_order());
        let mut i: usize = 0;
        while i < 4
            invariant
                i <= 4,
                is_file@.len() == 4,
                states@ == state_order(),
                forall|j: int| 0 <= j < i ==> !is_file@[j],
            decreases 4 - i,
        {
            if is_file[i] {
                return Some(states[i]);
            }
            i = i + 1;
        }
        None
    }

    /// Decides a transition of `file_name` from `from` to `to`: refused
    /// when the move is not in the state machine, or when the file is not in
    /// `from` (`src_is_file` tells whether `state_file(from, file_name)` is
    /// a file); otherwise the move to make and what it does to the manifest.
    pub fn plan_transition(&self, file_name: &str, from: State, to: State, src_is_file: bool) -> (r: Result<TransitionPlan, String>)
        ensures
            r is Ok <==> transition_spec(from, to) is Some && src_is_file,
            r matches Ok(p) ==> Some(p.kind) == transition_spec(from, to)
                && p.src@ == self.state_file_spec(from, file_name@)
                && p.dst@ == self.state_file_spec(to, file_name@)
                && p.record_hash == (to == State::Proven)
                && p.drop_record == (from == State::Proven && to != State::Proven),
            r matches Err(e) ==> (transition_spec(from, to) is None ==> e@ == "disallowed transition "@
                + dir_of(from) + " -> "@ + dir_of(to)) && (transition_spec(from, to) is Some ==> e@
                == "`"@ + file_name@ + "` is not in `"@ + dir_of(from) + "`"@),
    {
        let kind = match transition_kind(from, to) {
            Some(k) => k,
            None => {
                let mut m = String::from_str("disallowed transition ");
                m.append(from.dir_name());
                m.append(" -> ");
                m.append(to.dir_name());
                return Err(m);
            },
        };
        if !src_is_file {
            let mut m = String::from_str("`");
            m.append(file_name);
            m.append("` is not in `");
            m.append(from.dir_name());
            m.append("`");
            return Err(m);
        }
        Ok(TransitionPlan {
            kind,
            src: self.state_file(from, file_name),
            dst: self.state_file(to, file_name),
            record_hash: to == State::Proven,
            drop_record: from == State::Proven && to != State::Proven,
        })
    }

    /// The proven files that are stale: those with no record in `manifest`
    /// and those whose current hash differs from the recorded one. `proven`
    /// holds each file in the `proven` directory with its current hash.
    /// The result holds exactly the entries of `stale_views`, ordered by
    /// file name.
    pub fn stale_proven(&self, manifest: &ProvenManifest, proven: &[(String, String)]) -> (r: Vec<StaleEntry>)
        requires
            manifest.wf(),
            forall|i: int, j: int| 0 <= i < j < proven@.len() ==> proven@[i].0@ != proven@[j].0@,
        ensures
            forall|i: int, j: int| 0 <= i < j < r@.len() ==> lt(#[trigger] r@[i].file@, #[trigger] r@[j].file@),
            sviews(r@).to_set() == stale_views(manifest, proven@).to_set(),
    {
        let mut c: Vec<StaleEntry> = Vec::new();
        let mut k: usize = 0;
        while k < proven.len()
            invariant
                k <= proven@.len(),
                manifest.wf(),
                sviews(c@) == stale_views(manifest, proven@.take(k as int)),
            decreases proven.len() - k,
        {
            let name = &proven[k].0;
            let current = &proven[k].1;
            let reason: Option<&'static str> = match manifest.get(name.as_str()) {
                None => {
                    proof {
                        reveal_strlit("no recorded hash");
                    }
                    Some("no recorded hash")
                },
                Some(rec) => {
                    if rec.sha256 != *current {
                        proof {
                            reveal_strlit("content changed since promotion");
                        }
                        Some("content changed since promotion")
                    } else {
                        None
                    }
                },
            };
            proof {
                assert(proven@.take(k + 1).drop_last() =~= proven@.take(k as int));
                assert(proven@.take(k + 1).last() == proven@[k as int]);
            }
            if let Some(why) = reason {
                let ghost before = c@;
                c.push(StaleEntry { file: name.clone(), reason: why });
                assert(sviews(c@) =~= sviews(before).push((name@, why@)));
            }
            k = k + 1;
        }
        assert(proven@.take(proven@.len() as int) =~= proven@);
        proof {
            lemma_stale_views_distinct(manifest, proven@);
            assert forall|a: int, b: int| 0 <= a < b < c@.len() implies c@[a].file@ != c@[b].file@ by {
                assert(sviews(c@)[a].0 == c@[a].file@);
                assert(sviews(c@)[b].0 == c@[b].file@);
            }
        }
        let mut out: Vec<StaleEntry> = Vec::new();
        let mut j: usize = 0;
        while j < c.len()
            invariant
                j <= c@.len(),
                sviews(c@) == stale_views(manifest, proven@),
                forall|a: int, b: int| 0 <= a < b < c@.len() ==> c@[a].file@ != c@[b].file@,
                forall|p: int, q: int| 0 <= p < q < out@.len() ==> lt(#[trigger] out@[p].file@, #[trigger] out@[q].file@),
                sviews(out@).to_set() == sviews(c@.take(j as int)).to_set(),
                forall|p: int| #![trigger out@[p]] 0 <= p < out@.len() ==> exists|a: int| 0 <= a < j && out@[p].file@ == (#[trigger] c@[a]).file@,
            decreases c.len() - j,
        {
            let e = StaleEntry { file: c[j].file.clone(), reason: c[j].reason };
            let ghost before = out@;
            proof {
                assert forall|p: int| #![trigger before[p]] 0 <= p < before.len() implies before[p].file@ != e.file@ by {
                    let a = choose|a: int| 0 <= a < j && before[p].file@ == (#[trigger] c@[a]).file@;
                }
            }
            insert_stale(&mut out, e);
            proof {
                assert(c@.take(j + 1) =~= c@.take(j as int).push(c@[j as int]));
                assert(sviews(c@.take(j + 1)) =~= sviews(c@.take(j as int)).push((c@[j as int].file@, c@[j as int].reason@)));
                sviews(c@.take(j as int)).lemma_push_to_set_commute((c@[j as int].file@, c@[j as int].reason@));
                lemma_insert_views(before, out@, c@[j as int].file@, c@[j as int].reason@);
                assert forall|p: int| #![trigger out@[p]] 0 <= p < out@.len() implies exists|a: int| 0 <= a < j + 1 && out@[p].file@ == (#[trigger] c@[a]).file@ by {
                    assert(out@[p] == out@[p]);
                    if out@[p].file@ == c@[j as int].file@ {
                    } else {
                        let b = choose|b: int| 0 <= b < before.len() && before[b] == out@[p];
                        let a = choose|a: int| 0 <= a < j && before[b].file@ == (#[trigger] c@[a]).file@;
                    }
                }
            }
            j = j + 1;
        }
        assert(c@.take(c@.len() as int) =~= c@);
        out
    }
}

proof fn lemma_insert_views(before: Seq<StaleEntry>, after: Seq<StaleEntry>, f: Seq<char>, why: Seq<char>)
    requires
        forall|i: int|
            #![trigger after[i]]
            0 <= i < after.len() ==> (after[i].file@ == f && after[i].reason@ == why)
                || exists|j: int| 0 <= j < before.len() && before[j] == after[i],
        forall|j: int|
            #![trigger before[j]]
            0 <= j < before.len() ==> exists|i: int| 0 <= i < after.len() && after[i] == before[j],
        exists|i: int| 0 <= i < after.len() && after[i].file@ == f && after[i].reason@ == why,
    ensures
        sviews(after).to_set() == sviews(before).to_set().insert((f, why)),
{
    assert forall|x: (Seq<char>, Seq<char>)| sviews(after).to_set().contains(x) <==> sviews(before).to_set().insert(
        (f, why)).contains(x) by {
        if sviews(after).to_set().contains(x) {
            let i = choose|i: int| 0 <= i < sviews(after).len() && sviews(after)[i] == x;
            assert(after[i] == after[i]);
            if !(after[i].file@ == f && after[i].reason@ == why) {
                let b = choose|b: int| 0 <= b < before.len() && before[b] == after[i];
                assert(sviews(before)[b] == x);
            }
        }
        if sviews(before).to_set().contains(x) {
            let b = choose|b: int| 0 <= b < sviews(before).len() && sviews(before)[b] == x;
            assert(before[b] == before[b]);
            let i = choose|i: int| 0 <= i < after.len() && after[i] == before[b];
            assert(sviews(after)[i] == x);
        }
        if x == (f, why) {
            let i = choose|i: int| 0 <= i < after.len() && after[i].file@ == f && after[i].reason@ == why;
            assert(sviews(after)[i] == x);
        }
    }
    assert(sviews(after).to_set() =~= sviews(before).to_set().insert((f, why)));
}

/// The (file, reason) content of stale entries.
pub open spec fn sviews(v: Seq<StaleEntry>) -> Seq<(Seq<char>, Seq<char>)> {
    v.map_values(|e: StaleEntry| (e.file@, e.reason@))
}

/// Once a promotion has recorded `rec` for `name`, the file is stale
/// exactly when its current hash differs from the recorded one.
pub proof fn lemma_stale_after_promotion(
    before: ProvenManifest,
    after: ProvenManifest,
    name: Seq<char>,
    rec: (Seq<char>, Seq<char>),
    current: Seq<char>,
)
    requires
        after.records() == before.records().insert(name, rec),
    ensures
        stale_reason(after.lookup(name), current) == (if rec.0 == current {
            None
        } else {
            Some("content changed since promotion"@)
        }),
{
    assert(after.records().dom().contains(name));
    assert(after.lookup(name) == Some(rec));
}

/// Once a file's record is dropped (it left `proven`), a file of that name
/// found in `proven` again is stale for having no recorded hash.
pub proof fn lemma_stale_after_drop(before: ProvenManifest, after: ProvenManifest, name: Seq<char>, current: Seq<char>)
    requires
        after.records() == before.records().remove(name),
    ensures
        stale_reason(after.lookup(name), current) == Some("no recorded hash"@),
{
    assert(!after.records().dom().contains(name));
}

/// The stale files among `ps`, in the given order, each with its reason.
pub open spec fn stale_views(m: &ProvenManifest, ps: Seq<(String, String)>) -> Seq<(Seq<char>, Seq<char>)>
    decreases ps.len(),
{
    if ps.len() == 0 {
        Seq::empty()
    } else {
        let rest = stale_views(m, ps.drop_last());
        match stale_of(m, ps.last()) {
            Some(r) => rest.push((ps.last().0@, r)),
            None => rest,
        }
    }
}

proof fn lemma_stale_views_from(m: &ProvenManifest, ps: Seq<(String, String)>)
    ensures
        forall|i: int| 0 <= i < stale_views(m, ps).len() ==> exists|q: int|
            0 <= q < ps.len() && (#[trigger] stale_views(m, ps)[i]).0 == ps[q].0@,
    decreases ps.len(),
{
    if ps.len() > 0 {
        lemma_stale_views_from(m, ps.drop_last());
        let rest = stale_views(m, ps.drop_last());
        assert forall|i: int| 0 <= i < stale_views(m, ps).len() implies exists|q: int|
            0 <= q < ps.len() && (#[trigger] stale_views(m, ps)[i]).0 == ps[q].0@ by {
            if i < rest.len() {
                assert(stale_views(m, ps)[i] == rest[i]);
                let q = choose|q: int| 0 <= q < ps.drop_last().len() && rest[i].0 == ps.drop_last()[q].0@;
                assert(ps[q] == ps.drop_last()[q]);
            } else {
                assert(stale_views(m, ps)[i].0 == ps[ps.len() - 1].0@);
            }
        }
    }
}

proof fn lemma_stale_views_distinct(m: &ProvenManifest, ps: Seq<(String, String)>)
    requires
        forall|i: int, j: int| 0 <= i < j < ps.len() ==> ps[i].0@ != ps[j].0@,
    ensures
        forall|a: int, b: int|
            0 <= a < b < stale_views(m, ps).len() ==> (#[trigger] stale_views(m, ps)[a]).0 != (
            #[trigger] stale_views(m, ps)[b]).0,
    decreases ps.len(),
{
    if ps.len() > 0 {
        let init = ps.drop_last();
        lemma_stale_views_distinct(m, init);
        lemma_stale_views_from(m, init);
        let rest = stale_views(m, init);
        assert forall|a: int, b: int|
            0 <= a < b < stale_views(m, ps).len() implies (#[trigger] stale_views(m, ps)[a]).0 != (
            #[trigger] stale_views(m, ps)[b]).0 by {
            if b < rest.len() {
                assert(stale_views(m, ps)[a] == rest[a]);
                assert(stale_views(m, ps)[b] == rest[b]);
            } else {
                assert(stale_views(m, ps)[a] == rest[a]);
                let q = choose|q: int| 0 <= q < init.len() && (#[trigger] rest[a]).0 == init[q].0@;
                assert(ps[q] == init[q]);
                assert(stale_views(m, ps)[b].0 == ps[ps.len() - 1].0@);
            }
        }
    }
}

/// Inserts `e` into a list ordered by file name whose names differ from
/// `e`'s.
fn insert_stale(v: &mut Vec<StaleEntry>, e: StaleEntry)
    requires
        forall|p: int, q: int| 0 <= p < q < old(v)@.len() ==> lt(#[trigger] old(v)@[p].file@, #[trigger] old(v)@[q].file@),
        forall|p: int| 0 <= p < old(v)@.len() ==> old(v)@[p].file@ != e.file@,
    ensures
        forall|p: int, q: int| 0 <= p < q < final(v)@.len() ==> lt(#[trigger] final(v)@[p].file@, #[trigger] final(v)@[q].file@),
        forall|i: int|
            #![trigger final(v)@[i]]
            0 <= i < final(v)@.len() ==> (final(v)@[i].file@ == e.file@ && final(v)@[i].reason@ == e.reason@)
                || exists|j: int| 0 <= j < old(v)@.len() && old(v)@[j] == final(v)@[i],
        forall|j: int|
            #![trigger old(v)@[j]]
            0 <= j < old(v)@.len() ==> exists|i: int| 0 <= i < final(v)@.len() && final(v)@[i] == old(v)@[j],
        exists|i: int| 0 <= i < final(v)@.len() && final(v)@[i].file@ == e.file@ && final(v)@[i].reason@ == e.reason@,
{
    let pos = stale_position(v, e.file.as_str());
    let ghost before = v@;
    let ghost name = e.file@;
    let ghost why = e.reason@;
    v.insert(pos, e);
    assert(v@[pos as int].file@ == name && v@[pos as int].reason@ == why);
    assert forall|i: int, j: int| 0 <= i < j < v@.len() implies lt(#[trigger] v@[i].file@, #[trigger] v@[j].file@) by {
        if j < pos {
            assert(v@[i] == before[i] && v@[j] == before[j]);
        } else if j == pos {
            assert(v@[i] == before[i]);
        } else if i < pos {
            assert(v@[i] == before[i] && v@[j] == before[j - 1]);
            lemma_lt_trans(before[i].file@, name, before[j - 1].file@);
        } else if i == pos {
            assert(v@[j] == before[j - 1]);
        } else {
            assert(v@[i] == before[i - 1] && v@[j] == before[j - 1]);
        }
    }
    assert forall|i: int| #![trigger v@[i]] 0 <= i < v@.len() implies (v@[i].file@ == name && v@[i].reason@ == why)
        || exists|j: int| 0 <= j < before.len() && before[j] == v@[i] by {
        if i < pos {
            assert(before[i] == v@[i]);
        } else if i > pos {
            assert(before[i - 1] == v@[i]);
        }
    }
    assert forall|j: int| #![trigger before[j]] 0 <= j < before.len() implies exists|i: int|
        0 <= i < v@.len() && v@[i] == before[j] by {
        if j < pos {
            assert(v@[j] == before[j]);
        } else {
            assert(v@[j + 1] == before[j]);
        }
    }
}

/// Where a file name goes in a list ordered by file name.
fn stale_position(v: &Vec<StaleEntry>, name: &str) -> (i: usize)
    requires
        forall|p: int, q: int| 0 <= p < q < v@.len() ==> lt(#[trigger] v@[p].file@, #[trigger] v@[q].file@),
        forall|p: int| 0 <= p < v@.len() ==> v@[p].file@ != name@,
    ensures
        i <= v@.len(),
        forall|p: int| 0 <= p < i ==> lt(#[trigger] v@[p].file@, name@),
        forall|p: int| i <= p < v@.len() ==> lt(name@, #[trigger] v@[p].file@),
{
    let mut i: usize = 0;
    while i < v.len()
        invariant
            i <= v@.len(),
            forall|p: int, q: int| 0 <= p < q < v@.len() ==> lt(#[trigger] v@[p].file@, #[trigger] v@[q].file@),
            forall|p: int| 0 <= p < v@.len() ==> v@[p].file@ != name@,
            forall|p: int| 0 <= p < i ==> lt(#[trigger] v@[p].file@, name@),
        decreases v.len() - i,
    {
        if str_lt(v[i].file.as_str(), name) {
            i = i + 1;
        } else {
            proof {
                lemma_lt_total(v@[i as int].file@, name@);
                assert forall|p: int| i <= p < v@.len() implies lt(name@, #[trigger] v@[p].file@) by {
                    if p > i {
                        assert(lt(v@[i as int].file@, v@[p].file@));
                        lemma_lt_trans(name@, v@[i as int].file@, v@[p].file@);
                    }
                }
            }
            return i;
        }
    }
    i
}

} // verus!
