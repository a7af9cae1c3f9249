//! The `proven`-state content-hash manifest: for each file name that entered
//! `proven`, the hash recorded at promotion. A proven file whose current hash
//! differs (or that has no record) is stale.

use vstd::prelude::*;
use crate::order::{lt, sorted, str_lt, lemma_lt_irrefl, lemma_lt_total, lemma_lt_trans};

verus! {

/// The manifest's file name under `<workspace>/.arghda/`.
pub const HASHES_FILE: &'static str = "hashes.json";

/// What was recorded when a file entered `proven`.
#[derive(Clone, Debug)]
pub struct ProvenRecord {
    pub sha256: String,
    pub promoted_at: String,
}

/// The whole manifest: file name to record, ordered by file name with each
/// name once.
#[derive(Clone, Debug)]
pub struct ProvenManifest {
    pub entries: Vec<(String, ProvenRecord)>,
}

/// The names of the entries, in order.
pub open spec fn entry_keys(es: Seq<(String, ProvenRecord)>) -> Seq<Seq<char>> {
    es.map_values(|e: (String, ProvenRecord)| e.0@)
}

/// A record's content: its hash and its promotion time.
pub open spec fn record_view(r: ProvenRecord) -> (Seq<char>, Seq<char>) {
    (r.sha256@, r.promoted_at@)
}

impl ProvenManifest {
    /// Names in strictly increasing order.
    pub open spec fn wf(&self) -> bool {
        sorted(entry_keys(self.entries@))
    }

    /// The position of name `k` among the entries.
    pub open spec fn key_index(&self, k: Seq<char>) -> int {
        choose|i: int| 0 <= i < self.entries@.len() && self.entries@[i].0@ == k
    }

    /// The manifest as a map from file name to (hash, promotion time).
    pub open spec fn records(&self) -> Map<Seq<char>, (Seq<char>, Seq<char>)> {
        Map::new(
            |k: Seq<char>| exists|i: int| 0 <= i < self.entries@.len() && self.entries@[i].0@ == k,
            |k: Seq<char>| record_view(self.entries@[self.key_index(k)].1),
        )
    }

    /// The record of `k`, if any.
    pub open spec fn lookup(&self, k: Seq<char>) -> Option<(Seq<char>, Seq<char>)> {
        if self.records().dom().contains(k) {
            Some(self.records()[k])
        } else {
            None
        }
    }

    /// An empty manifest.
    pub fn new() -> (m: ProvenManifest)
        ensures
            m.wf(),
            m.records() == Map::<Seq<char>, (Seq<char>, Seq<char>)>::empty(),
    {
        let m = ProvenManifest { entries: Vec::new() };
        assert(m.records() =~= Map::<Seq<char>, (Seq<char>, Seq<char>)>::empty());
        m
    }

    proof fn lemma_lookup(&self, i: int)
        requires
            self.wf(),
            0 <= i < self.entries@.len(),
        ensures
            self.records().dom().contains(self.entries@[i].0@),
            self.records()[self.entries@[i].0@] == record_view(self.entries@[i].1),
    {
        let k = self.entries@[i].0@;
        assert(exists|j: int| 0 <= j < self.entries@.len() && self.entries@[j].0@ == k);
        let j = self.key_index(k);
        assert(entry_keys(self.entries@)[i] == k);
        assert(entry_keys(self.entries@)[j] == k);
        crate::order::lemma_sorted_unique(entry_keys(self.entries@), i, j);
    }

    fn position(&self, name: &str) -> (r: (usize, bool))
        requires
            self.wf(),
        ensures
            r.0 <= self.entries@.len(),
            forall|k: int| 0 <= k < r.0 ==> lt(#[trigger] entry_keys(self.entries@)[k], name@),
            r.1 ==> r.0 < self.entries@.len() && self.entries@[r.0 as int].0@ == name@,
            !r.1 ==> forall|k: int|
                r.0 <= k < self.entries@.len() ==> lt(name@, #[trigger] entry_keys(self.entries@)[k]),
    {
        let mut i: usize = 0;
        while i < self.entries.len()
            invariant
                i <= self.entries@.len(),
                self.wf(),
                forall|k: int| 0 <= k < i ==> lt(#[trigger] entry_keys(self.entries@)[k], name@),
            decreases self.entries.len() - i,
        {
            assert(entry_keys(self.entries@)[i as int] == self.entries@[i as int].0@);
            if str_lt(self.entries[i].0.as_str(), name) {
                i = i + 1;
            } else {
                let same = !str_lt(name, self.entries[i].0.as_str());
                proof {
                    lemma_lt_total(self.entries@[i as int].0@, name@);
                    if !same {
                        assert forall|k: int| i <= k < self.entries@.len() implies lt(
                            name@,
                            #[trigger] entry_keys(self.entries@)[k],
                        ) by {
                            if k > i {
                                assert(lt(entry_keys(self.entries@)[i as int], entry_keys(self.entries@)[k]));
                                lemma_lt_trans(name@, entry_keys(self.entries@)[i as int], entry_keys(self.entries@)[k]);
                            }
                        }
                    }
                }
                return (i, same);
            }
        }
        (i, false)
    }

    proof fn lemma_absent(&self, i: int, name: Seq<char>)
        requires
            self.wf(),
            0 <= i <= self.entries@.len(),
            forall|k: int| 0 <= k < i ==> lt(#[trigger] entry_keys(self.entries@)[k], name),
            forall|k: int| i <= k < self.entries@.len() ==> lt(name, #[trigger] entry_keys(self.entries@)[k]),
        ensures
            !self.records().dom().contains(name),
    {
        if self.records().dom().contains(name) {
            let j = choose|j: int| 0 <= j < self.entries@.len() && self.entries@[j].0@ == name;
            assert(entry_keys(self.entries@)[j] == name);
            lemma_lt_irrefl(name);
        }
    }

    /// Whether `name` has a record.
    pub fn contains_key(&self, name: &str) -> (b: bool)
        requires
            self.wf(),
        ensures
            b == self.records().dom().contains(name@),
    {
        let (i, found) = self.position(name);
        proof {
            if found {
                self.lemma_lookup(i as int);
            } else {
                self.lemma_absent(i as int, name@);
            }
        }
        found
    }

    /// The record of `name`, if any.
    pub fn get(&self, name: &str) -> (r: Option<&ProvenRecord>)
        requires
            self.wf(),
        ensures
            r matches Some(rec) ==> self.records().dom().contains(name@) && self.records()[name@]
                == record_view(*rec),
            r is None ==> !self.records().dom().contains(name@),
    {
        let (i, found) = self.position(name);
        if found {
            proof {
                self.lemma_lookup(i as int);
            }
            Some(&self.entries[i].1)
        } else {
            proof {
                self.lemma_absent(i as int, name@);
            }
            None
        }
    }

    /// Records `rec` for `name`, replacing any earlier record.
    pub fn insert(&mut self, name: String, rec: ProvenRecord)
        requires
            old(self).wf(),
        ensures
            final(self).wf(),
            final(self).records() == old(self).records().insert(name@, record_view(rec)),
    {
        let (i, found) = self.position(name.as_str());
        let ghost old_es = self.entries@;
        let ghost old_k = entry_keys(old_es);
        let ghost old_m = self.records();
        let ghost nk = name@;
        let ghost rv = record_view(rec);
        if found {
            self.entries.set(i, (name, rec));
            let ghost es = self.entries@;
            assert(entry_keys(es) =~= old_k.update(i as int, nk));
            assert forall|p: int, q: int| 0 <= p < q < es.len() implies lt(
                #[trigger] entry_keys(es)[p],
                #[trigger] entry_keys(es)[q],
            ) by {
                assert(old_k[i as int] == nk);
                assert(lt(old_k[p], old_k[q]));
            }
            assert forall|k: Seq<char>| #![trigger self.records().dom().contains(k)]
                self.records().dom().contains(k) <==> old_m.insert(nk, rv).dom().contains(k) by {
                if self.records().dom().contains(k) {
                    let j = choose|j: int| 0 <= j < es.len() && es[j].0@ == k;
                    if j != i {
                        assert(old_es[j].0@ == k);
                    }
                }
                if old_m.dom().contains(k) {
                    let j = choose|j: int| 0 <= j < old_es.len() && old_es[j].0@ == k;
                    if j != i {
                        assert(es[j].0@ == k);
                    } else {
                        assert(es[i as int].0@ == k);
                    }
                }
                if k == nk {
                    assert(es[i as int].0@ == k);
                }
            }
            assert forall|k: Seq<char>| #![trigger self.records()[k]]
                self.records().dom().contains(k) implies self.records()[k] == old_m.insert(nk, rv)[k] by {
                let j = choose|j: int| 0 <= j < es.len() && es[j].0@ == k;
                self.lemma_lookup(j);
                if j != i {
                    assert(old_es[j] == es[j]);
                    assert(entry_keys(old_es)[j] == k);
                    old(self).lemma_lookup(j);
                    assert(old_k[i as int] == nk);
                    if k == nk {
                        crate::order::lemma_sorted_unique(old_k, i as int, j);
                    }
                }
            }
            assert(self.records() =~= old_m.insert(nk, rv));
        } else {
            self.entries.insert(i, (name, rec));
            let ghost es = self.entries@;
            assert(entry_keys(es) =~= old_k.take(i as int).push(nk) + old_k.skip(i as int));
            assert forall|p: int, q: int| 0 <= p < q < es.len() implies lt(
                #[trigger] entry_keys(es)[p],
                #[trigger] entry_keys(es)[q],
            ) by {
                if q < i {
                    assert(lt(old_k[p], old_k[q]));
                } else if q == i {
                    assert(entry_keys(es)[p] == old_k[p]);
                } else if p < i {
                    assert(lt(old_k[p], nk));
                    assert(lt(nk, old_k[q - 1]));
                    lemma_lt_trans(old_k[p], nk, old_k[q - 1]);
                } else if p == i {
                    assert(entry_keys(es)[q] == old_k[q - 1]);
                } else {
                    assert(lt(old_k[p - 1], old_k[q - 1]));
                }
            }
            assert forall|k: Seq<char>| #![trigger self.records().dom().contains(k)]
                self.records().dom().contains(k) <==> old_m.insert(nk, rv).dom().contains(k) by {
                if self.records().dom().contains(k) {
                    let j = choose|j: int| 0 <= j < es.len() && es[j].0@ == k;
                    if j < i {
                        assert(old_es[j].0@ == k);
                    } else if j > i {
                        assert(old_es[j - 1].0@ == k);
                    }
                }
                if old_m.dom().contains(k) {
                    let j = choose|j: int| 0 <= j < old_es.len() && old_es[j].0@ == k;
                    if j < i {
                        assert(es[j].0@ == k);
                    } else {
                        assert(es[j + 1].0@ == k);
                    }
                }
                if k == nk {
                    assert(es[i as int].0@ == k);
                }
            }
            assert forall|k: Seq<char>| #![trigger self.records()[k]]
                self.records().dom().contains(k) implies self.records()[k] == old_m.insert(nk, rv)[k] by {
                let j = choose|j: int| 0 <= j < es.len() && es[j].0@ == k;
                self.lemma_lookup(j);
                lemma_lt_irrefl(nk);
                if j < i {
                    assert(old_es[j] == es[j]);
                    assert(entry_keys(old_es)[j] == k);
                    old(self).lemma_lookup(j);
                    assert(lt(old_k[j], nk));
                } else if j > i {
                    assert(old_es[j - 1] == es[j]);
                    assert(entry_keys(old_es)[j - 1] == k);
                    old(self).lemma_lookup(j - 1);
                    assert(lt(nk, old_k[j - 1]));
                }
            }
            assert(self.records() =~= old_m.insert(nk, rv));
        }
    }

    /// Drops the record of `name`; whether there was one.
    pub fn remove(&mut self, name: &str) -> (had: bool)
        requires
            old(self).wf(),
        ensures
            final(self).wf(),
            had == old(self).records().dom().contains(name@),
            final(self).records() == old(self).records().remove(name@),
    {
        let (i, found) = self.position(name);
        let ghost old_es = self.entries@;
        let ghost old_k = entry_keys(old_es);
        let ghost old_m = self.records();
        if !found {
            proof {
                self.lemma_absent(i as int, name@);
            }
            assert(old_m.remove(name@) =~= old_m);
            return false;
        }
        proof {
            self.lemma_lookup(i as int);
        }
        self.entries.remove(i);
        let ghost es = self.entries@;
        assert(entry_keys(es) =~= old_k.take(i as int) + old_k.skip(i + 1));
        assert forall|p: int, q: int| 0 <= p < q < es.len() implies lt(
            #[trigger] entry_keys(es)[p],
            #[trigger] entry_keys(es)[q],
        ) by {
            if q < i {
                assert(lt(old_k[p], old_k[q]));
            } else if p < i {
                assert(lt(old_k[p], old_k[q + 1]));
            } else {
                assert(lt(old_k[p + 1], old_k[q + 1]));
            }
        }
        assert forall|k: Seq<char>| #![trigger self.records().dom().contains(k)]
            self.records().dom().contains(k) <==> old_m.remove(name@).dom().contains(k) by {
            if self.records().dom().contains(k) {
                let j = choose|j: int| 0 <= j < es.len() && es[j].0@ == k;
                if j < i {
                    assert(old_es[j].0@ == k);
                    assert(lt(old_k[j], old_k[i as int]));
                    if k == name@ {
                        lemma_lt_irrefl(k);
                    }
                } else {
                    assert(old_es[j + 1].0@ == k);
                    assert(lt(old_k[i as int], old_k[j + 1]));
                    if k == name@ {
                        lemma_lt_irrefl(k);
                    }
                }
            }
            if old_m.remove(name@).dom().contains(k) {
                let j = choose|j: int| 0 <= j < old_es.len() && old_es[j].0@ == k;
                if j < i {
                    assert(es[j].0@ == k);
                } else {
                    assert(j != i);
                    assert(es[j - 1].0@ == k);
                }
            }
        }
        assert forall|k: Seq<char>| #![trigger self.records()[k]]
            self.records().dom().contains(k) implies self.records()[k] == old_m.remove(name@)[k] by {
            let j = choose|j: int| 0 <= j < es.len() && es[j].0@ == k;
            self.lemma_lookup(j);
            if j < i {
                assert(old_es[j] == es[j]);
                assert(entry_keys(old_es)[j] == k);
                old(self).lemma_lookup(j);
            } else {
                assert(old_es[j + 1] == es[j]);
                assert(entry_keys(old_es)[j + 1] == k);
                old(self).lemma_lookup(j + 1);
            }
        }
        assert(self.records() =~= old_m.remove(name@));
        true
    }
}

/// A record written for `name` is what a later read of `name` gives back,
/// and the other names keep their records.
pub proof fn lemma_read_after_insert(
    before: ProvenManifest,
    after: ProvenManifest,
    name: Seq<char>,
    rec: (Seq<char>, Seq<char>),
    other: Seq<char>,
)
    requires
        after.records() == before.records().insert(name, rec),
    ensures
        after.lookup(name) == Some(rec),
        other != name ==> after.lookup(other) == before.lookup(other),
{
    assert(after.records().dom().contains(name));
    if other != name {
        assert(after.records().dom().contains(other) == before.records().dom().contains(other));
    }
}

/// After a removal, `name` has no record, and the other names keep theirs.
pub proof fn lemma_read_after_remove(before: ProvenManifest, after: ProvenManifest, name: Seq<char>, other: Seq<char>)
    requires
        after.records() == before.records().remove(name),
    ensures
        after.lookup(name) is None,
        other != name ==> after.lookup(other) == before.lookup(other),
{
    if other != name {
        assert(after.records().dom().contains(other) == before.records().dom().contains(other));
    }
}

} // verus!
