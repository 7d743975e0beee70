//! The parent-before-child work-list traversal that drives the rewrite.
//!
//! The traverser owns the only mutable state of a run: the work-list and the
//! append-only mapping from source id to rewritten id. It is fed one commit
//! at a time by its caller, decides whether that commit can be finalized yet,
//! and assembles the rewritten commit when it can. Every ancestor is
//! finalized exactly once, after all of its parents: an id popped from the
//! work-list is discarded when it is already finalized — without that guard a
//! commit reachable along two paths would be rewritten twice and the
//! one-to-one mapping would be lost.

use vstd::prelude::*;
use vstd::string::StringExecFns;

use crate::data::Identity;
use crate::data::Oid;
use crate::redact::redact_spec;
use crate::redact::redact_identity;
use crate::redact::RedactConfig;

verus! {

/// Whether the pair list holds an entry for the key.
pub open spec fn al_contains(s: Seq<(Oid, Oid)>, k: Oid) -> bool {
    exists|i: int| 0 <= i < s.len() && (#[trigger] s[i]).0 == k
}

/// An index of the entry for the key, when one exists.
pub open spec fn al_index(s: Seq<(Oid, Oid)>, k: Oid) -> int {
    choose|i: int| 0 <= i < s.len() && (#[trigger] s[i]).0 == k
}

/// The value recorded for the key.
pub open spec fn al_get(s: Seq<(Oid, Oid)>, k: Oid) -> Oid
    recommends
        al_contains(s, k),
{
    s[al_index(s, k)].1
}

/// No key occurs twice: each source commit has at most one rewritten id.
pub open spec fn al_unique(s: Seq<(Oid, Oid)>) -> bool {
    forall|i: int, j: int| 0 <= i < j < s.len() ==> (#[trigger] s[i]).0 != (#[trigger] s[j]).0
}

/// Appending a fresh key keeps the list unique, adds exactly that key, and
/// leaves every other lookup unchanged.
pub proof fn lemma_al_push(s: Seq<(Oid, Oid)>, k: Oid, v: Oid, q: Oid)
    requires
        al_unique(s),
        !al_contains(s, k),
    ensures
        al_unique(s.push((k, v))),
        al_contains(s.push((k, v)), q) <==> (al_contains(s, q) || q == k),
        al_get(s.push((k, v)), k) == v,
        q != k && al_contains(s, q) ==> al_get(s.push((k, v)), q) == al_get(s, q),
{
    let t = s.push((k, v));
    assert forall|i: int, j: int| 0 <= i < j < t.len() implies (#[trigger] t[i]).0 != (
    #[trigger] t[j]).0 by {
        if j < s.len() {
            assert(t[i] == s[i] && t[j] == s[j]);
        } else {
            assert(t[j].0 == k);
            assert(t[i] == s[i]);
            if s[i].0 == k {
                assert(al_contains(s, k));
            }
        }
    }
    if al_contains(s, q) {
        let w = al_index(s, q);
        assert(t[w].0 == q);
        assert(al_contains(t, q));
    }
    if q == k {
        assert(t[s.len() as int].0 == k);
        assert(al_contains(t, q));
    }
    if al_contains(t, q) {
        let w = al_index(t, q);
        assert(0 <= w < t.len() && t[w].0 == q);
        if w < s.len() {
            assert(s[w].0 == q);
            assert(al_contains(s, q));
        }
    }
    assert(t[s.len() as int].0 == k);
    assert(al_contains(t, k));
    let wk = al_index(t, k);
    assert(0 <= wk < t.len() && t[wk].0 == k);
    if wk < s.len() {
        assert(s[wk].0 == k);
        assert(al_contains(s, k));
    }
    assert(al_get(t, k) == v);
    if q != k && al_contains(s, q) {
        let wq = al_index(t, q);
        assert(0 <= wq < t.len() && t[wq].0 == q);
        assert(wq < s.len());
        let wo = al_index(s, q);
        assert(0 <= wo < s.len() && s[wo].0 == q);
        if wq != wo {
            assert(s[wq].0 == s[wo].0);
            assert(false);
        }
    }
}

/// Looks the key up in the pair list.
fn al_find(v: &Vec<(Oid, Oid)>, k: Oid) -> (r: Option<Oid>)
    requires
        al_unique(v@),
    ensures
        match r {
            Some(x) => al_contains(v@, k) && x == al_get(v@, k),
            None => !al_contains(v@, k),
        },
{
    let mut i: usize = 0;
    while i < v.len()
        invariant
            i <= v@.len(),
            al_unique(v@),
            forall|j: int| 0 <= j < i ==> (#[trigger] v@[j]).0 != k,
        decreases v@.len() - i,
    {
        if v[i].0 == k {
            proof {
                assert(al_contains(v@, k));
                let w = al_index(v@, k);
                assert(0 <= w < v@.len() && v@[w].0 == k);
                if w != i {
                    assert(v@[w].0 == v@[i as int].0);
                    assert(false);
                }
            }
            return Some(v[i].1);
        }
        i = i + 1;
    }
    None
}

/// Of the given parent ids, those not yet finalized, in order: what a
/// deferred commit pushes on top of itself so they are handled first.
pub open spec fn pending_parents(ps: Seq<Oid>, done: Seq<(Oid, Oid)>) -> Seq<Oid>
    decreases ps.len(),
{
    if ps.len() == 0 {
        Seq::empty()
    } else {
        pending_parents(ps.drop_last(), done) + (if al_contains(done, ps.last()) {
            Seq::empty()
        } else {
            seq![ps.last()]
        })
    }
}

/// What a deferral pushes is drawn from the parent list: nothing else ever
/// enters the work-list.
pub proof fn lemma_pending_parents_subset(ps: Seq<Oid>, done: Seq<(Oid, Oid)>, x: Oid)
    requires
        pending_parents(ps, done).contains(x),
    ensures
        ps.contains(x),
    decreases ps.len(),
{
    if ps.len() == 0 {
        assert(false);
    } else {
        let head = pending_parents(ps.drop_last(), done);
        let tail: Seq<Oid> = if al_contains(done, ps.last()) {
            Seq::empty()
        } else {
            seq![ps.last()]
        };
        assert(pending_parents(ps, done) == head + tail);
        let w = (head + tail).index_of(x);
        assert(0 <= w < (head + tail).len() && (head + tail)[w] == x);
        if w < head.len() {
            assert(head[w] == x);
            assert(head.contains(x));
            lemma_pending_parents_subset(ps.drop_last(), done, x);
            let v = ps.drop_last().index_of(x);
            assert(ps[v] == x);
        } else {
            assert(tail[w - head.len()] == x);
            assert(ps[ps.len() - 1] == x);
        }
    }
}

/// A deferral pushes no more entries than the commit has parents.
pub proof fn lemma_pending_parents_len(ps: Seq<Oid>, done: Seq<(Oid, Oid)>)
    ensures
        pending_parents(ps, done).len() <= ps.len(),
    decreases ps.len(),
{
    if ps.len() > 0 {
        lemma_pending_parents_len(ps.drop_last(), done);
    }
}

/// Every not-yet-finalized parent is among the pending ones a deferral
/// pushes.
pub proof fn lemma_pending_parents_complete(ps: Seq<Oid>, done: Seq<(Oid, Oid)>, k: int)
    requires
        0 <= k < ps.len(),
        !al_contains(done, ps[k]),
    ensures
        pending_parents(ps, done).contains(ps[k]),
    decreases ps.len(),
{
    let head = pending_parents(ps.drop_last(), done);
    let tail: Seq<Oid> = if al_contains(done, ps.last()) {
        Seq::empty()
    } else {
        seq![ps.last()]
    };
    assert(pending_parents(ps, done) == head + tail);
    if k == ps.len() - 1 {
        assert(tail[0] == ps[k]);
        assert((head + tail)[head.len() as int] == ps[k]);
        assert(pending_parents(ps, done).contains(ps[k]));
    } else {
        assert(ps.drop_last()[k] == ps[k]);
        lemma_pending_parents_complete(ps.drop_last(), done, k);
        let w = head.index_of(ps[k]);
        assert(0 <= w < head.len() && head[w] == ps[k]);
        assert((head + tail)[w] == ps[k]);
        assert(pending_parents(ps, done).contains(ps[k]));
    }
}

/// A key found in a prefix of the pair list is in the whole list.
pub proof fn lemma_al_take_contains(s: Seq<(Oid, Oid)>, i: int, k: Oid)
    requires
        0 <= i <= s.len(),
        al_contains(s.take(i), k),
    ensures
        al_contains(s, k),
{
    let w = al_index(s.take(i), k);
    assert(0 <= w < i && s.take(i)[w].0 == k);
    assert(s[w].0 == k);
}

/// Every one of the parent ids is already finalized.
pub open spec fn all_parents_done(parents: Seq<Oid>, done: Seq<(Oid, Oid)>) -> bool {
    forall|k: int| 0 <= k < parents.len() ==> al_contains(done, #[trigger] parents[k])
}

/// A rewritten commit, ready to be persisted: redacted identities, the
/// already-mapped parent ids in the original order, the canonical empty tree,
/// and the fixed placeholder message.
#[derive(Debug)]
pub struct RewriteCommit {
    pub author: Identity,
    pub committer: Identity,
    pub message: String,
    pub tree: Oid,
    pub parents: Vec<Oid>,
}

/// Where the traverser stands between calls.
pub ghost enum Phase {
    /// Ready to pop the next work-list entry.
    Idle,
    /// An id was handed out by [`Traverser::pop_next`] and awaits its commit.
    Fetch(Oid),
    /// A rewritten commit was assembled for this id and awaits the id the
    /// store assigned to it.
    Build(Oid),
}

/// What popping the work-list yielded.
pub enum PopStep {
    /// The work-list is empty: the closure is exhausted.
    Finished,
    /// The popped id is already finalized and was discarded.
    Skip(Oid),
    /// This id must be looked up in the source store and handed to
    /// [`Traverser::process`].
    Visit(Oid),
}

/// What processing one commit yielded.
pub enum BuildStep {
    /// Some parent is not finalized yet; the commit was pushed back under its
    /// pending parents.
    Deferred,
    /// All parents are finalized: persist this rewritten commit and report
    /// the assigned id through [`Traverser::record`].
    Ready(RewriteCommit),
}

/// The work-list traversal over the ancestor closure of `start`.
pub struct Traverser {
    /// The commit whose ancestor closure is being rewritten.
    pub start: Oid,
    /// The redaction settings applied to every identity.
    pub config: RedactConfig,
    /// The canonical empty content reference of the target store, given to
    /// every rewritten commit.
    pub empty_tree: Oid,
    /// The work-list; ids are popped from the end.
    pub stack: Vec<Oid>,
    /// The append-only mapping, in finalization order: source id to
    /// rewritten id.
    pub done: Vec<(Oid, Oid)>,
    /// Protocol state between calls.
    pub phase: Ghost<Phase>,
    /// The parent lists reported so far, one per processed id.
    pub parents_seen: Ghost<Map<Oid, Seq<Oid>>>,
    /// Marks, entry for entry of the work-list, the copies a deferral pushed
    /// back: every parent such a copy was waiting on is pushed above it, so
    /// by the time it pops again its parents are finalized.
    pub armed: Ghost<Seq<bool>>,
}

impl Traverser {
    /// The traverser's invariant: the mapping has one entry per finalized id;
    /// every finalized commit's parents were finalized strictly before it;
    /// and the start commit is never lost — it is finalized, waiting on the
    /// work-list, or in flight.
    pub open spec fn inv(&self) -> bool {
        &&& self.config.wf()
        &&& self.armed@.len() == self.stack@.len()
        &&& al_unique(self.done@)
        &&& (forall|i: int|
            0 <= i < self.done@.len() ==> {
                let id = (#[trigger] self.done@[i]).0;
                &&& self.parents_seen@.contains_key(id)
                &&& (forall|k: int|
                    0 <= k < self.parents_seen@[id].len() ==> al_contains(
                        self.done@.take(i),
                        #[trigger] self.parents_seen@[id][k],
                    ))
            })
        &&& (match self.phase@ {
            Phase::Idle => true,
            Phase::Fetch(id) => !al_contains(self.done@, id),
            Phase::Build(id) => {
                &&& !al_contains(self.done@, id)
                &&& self.parents_seen@.contains_key(id)
                &&& (forall|k: int|
                    0 <= k < self.parents_seen@[id].len() ==> al_contains(
                        self.done@,
                        #[trigger] self.parents_seen@[id][k],
                    ))
            },
        })
        &&& (al_contains(self.done@, self.start) || self.stack@.contains(self.start)
            || self.phase@ == Phase::Fetch(self.start) || self.phase@ == Phase::Build(self.start))
    }

    /// A fresh traverser: empty mapping, the start id alone on the work-list.
    pub fn new(start: Oid, config: RedactConfig, empty_tree: Oid) -> (r: Traverser)
        requires
            config.wf(),
        ensures
            r.inv(),
            r.start == start,
            r.config == config,
            r.empty_tree == empty_tree,
            r.stack@ == seq![start],
            r.done@.len() == 0,
            r.phase@ == Phase::Idle,
            r.parents_seen@ == Map::<Oid, Seq<Oid>>::empty(),
            r.armed@ == seq![false],
    {
        let mut stack: Vec<Oid> = Vec::new();
        stack.push(start);
        let ghost armed0: Seq<bool> = seq![false];
        let r = Traverser {
            start,
            config,
            empty_tree,
            stack,
            done: Vec::new(),
            phase: Ghost(Phase::Idle),
            parents_seen: Ghost(Map::<Oid, Seq<Oid>>::empty()),
            armed: Ghost(armed0),
        };
        proof {
            assert(r.stack@ =~= seq![start]);
            assert(r.armed@.len() == 1);
            assert(r.stack@[0] == start);
            assert(r.stack@.contains(start));
        }
        r
    }

    /// Pops the next work-list entry: nothing when the closure is exhausted,
    /// a discarded already-finalized id, or an id to visit.
    pub fn pop_next(&mut self) -> (r: PopStep)
        requires
            old(self).inv(),
            old(self).phase@ == Phase::Idle,
        ensures
            final(self).inv(),
            final(self).start == old(self).start,
            final(self).config == old(self).config,
            final(self).empty_tree == old(self).empty_tree,
            final(self).done == old(self).done,
            final(self).parents_seen@ == old(self).parents_seen@,
            match r {
                PopStep::Finished => {
                    &&& old(self).stack@.len() == 0
                    &&& final(self).stack@ == old(self).stack@
                    &&& final(self).armed@ == old(self).armed@
                    &&& final(self).phase@ == Phase::Idle
                },
                PopStep::Skip(id) => {
                    &&& old(self).stack@.len() > 0
                    &&& id == old(self).stack@.last()
                    &&& al_contains(final(self).done@, id)
                    &&& final(self).stack@ == old(self).stack@.drop_last()
                    &&& final(self).armed@ == old(self).armed@.drop_last()
                    &&& final(self).phase@ == Phase::Idle
                },
                PopStep::Visit(id) => {
                    &&& old(self).stack@.len() > 0
                    &&& id == old(self).stack@.last()
                    &&& !al_contains(final(self).done@, id)
                    &&& final(self).stack@ == old(self).stack@.drop_last()
                    &&& final(self).armed@ == old(self).armed@.drop_last()
                    &&& final(self).phase@ == Phase::Fetch(id)
                },
            },
    {
        match self.stack.pop() {
            None => PopStep::Finished,
            Some(id) => {
                self.armed = Ghost(self.armed@.drop_last());
                proof {
                    assert(self.stack@ =~= old(self).stack@.drop_last());
                    if self.start != id && old(self).stack@.contains(self.start) {
                        let w = choose|w: int|
                            0 <= w < old(self).stack@.len() && old(self).stack@[w] == self.start;
                        assert(old(self).stack@[old(self).stack@.len() - 1] == id);
                        assert(w < old(self).stack@.len() - 1);
                        assert(self.stack@[w] == self.start);
                        assert(self.stack@.contains(self.start));
                    }
                }
                if al_find(&self.done, id).is_some() {
                    PopStep::Skip(id)
                } else {
                    self.phase = Ghost(Phase::Fetch(id));
                    PopStep::Visit(id)
                }
            },
        }
    }

    /// Decides one visited commit, given its parent ids and identities. When
    /// every parent is finalized, the rewritten commit is assembled: parents
    /// remapped in their original order, identities redacted per the
    /// configuration, tree and message fixed. Otherwise the id goes back on
    /// the work-list under its not-yet-finalized parents.
    pub fn process(
        &mut self,
        id: Oid,
        parents: &Vec<Oid>,
        author: &Identity,
        committer: &Identity,
    ) -> (r: BuildStep)
        requires
            old(self).inv(),
            old(self).phase@ == Phase::Fetch(id),
            old(self).parents_seen@.contains_key(id) ==> old(self).parents_seen@[id] == parents@,
        ensures
            final(self).inv(),
            final(self).start == old(self).start,
            final(self).config == old(self).config,
            final(self).empty_tree == old(self).empty_tree,
            final(self).done == old(self).done,
            final(self).parents_seen@ == old(self).parents_seen@.insert(id, parents@),
            if all_parents_done(parents@, old(self).done@) {
                &&& r matches BuildStep::Ready(c) && ({
                    &&& c.parents@.len() == parents@.len()
                    &&& (forall|k: int|
                        0 <= k < parents@.len() ==> c.parents@[k] == al_get(
                            old(self).done@,
                            #[trigger] parents@[k],
                        ))
                    &&& c.author@ == redact_spec(
                        old(self).config.enabled,
                        old(self).config.key@,
                        author@,
                    )
                    &&& c.committer@ == redact_spec(
                        old(self).config.enabled,
                        old(self).config.key@,
                        committer@,
                    )
                    &&& c.message@ == "redacted"@
                    &&& c.tree == old(self).empty_tree
                })
                &&& final(self).phase@ == Phase::Build(id)
                &&& final(self).stack == old(self).stack
                &&& final(self).armed@ == old(self).armed@
            } else {
                &&& r is Deferred
                &&& final(self).phase@ == Phase::Idle
                &&& final(self).stack@ == old(self).stack@.push(id) + pending_parents(
                    parents@,
                    old(self).done@,
                )
                &&& final(self).armed@ == old(self).armed@.push(true) + Seq::new(
                    pending_parents(parents@, old(self).done@).len(),
                    |i: int| false,
                )
            },
    {
        let mut all = true;
        let mut k: usize = 0;
        while k < parents.len()
            invariant
                k <= parents@.len(),
                al_unique(self.done@),
                all ==> (forall|j: int|
                    0 <= j < k ==> al_contains(self.done@, #[trigger] parents@[j])),
                !all ==> !all_parents_done(parents@, self.done@),
            decreases parents@.len() - k,
        {
            if al_find(&self.done, parents[k]).is_none() {
                proof {
                    assert(!al_contains(self.done@, parents@[k as int]));
                }
                all = false;
            }
            k = k + 1;
        }
        if all {
            let mut mapped: Vec<Oid> = Vec::new();
            let mut k: usize = 0;
            while k < parents.len()
                invariant
                    k <= parents@.len(),
                    al_unique(self.done@),
                    all_parents_done(parents@, self.done@),
                    mapped@.len() == k,
                    forall|j: int|
                        0 <= j < k ==> mapped@[j] == al_get(self.done@, #[trigger] parents@[j]),
                decreases parents@.len() - k,
            {
                let m = al_find(&self.done, parents[k]).unwrap();
                mapped.push(m);
                k = k + 1;
            }
            let commit = RewriteCommit {
                author: redact_identity(&self.config, author),
                committer: redact_identity(&self.config, committer),
                message: String::from_str("redacted"),
                tree: self.empty_tree,
                parents: mapped,
            };
            self.phase = Ghost(Phase::Build(id));
            self.parents_seen = Ghost(self.parents_seen@.insert(id, parents@));
            BuildStep::Ready(commit)
        } else {
            self.stack.push(id);
            self.armed = Ghost(self.armed@.push(true));
            proof {
                assert(self.stack@ =~= old(self).stack@.push(id) + pending_parents(
                    parents@.take(0),
                    self.done@,
                ));
                assert(self.armed@ =~= old(self).armed@.push(true) + Seq::new(
                    pending_parents(parents@.take(0), self.done@).len(),
                    |i: int| false,
                ));
            }
            let mut k: usize = 0;
            while k < parents.len()
                invariant
                    k <= parents@.len(),
                    al_unique(self.done@),
                    self.done == old(self).done,
                    self.start == old(self).start,
                    self.config == old(self).config,
                    self.empty_tree == old(self).empty_tree,
                    self.parents_seen == old(self).parents_seen,
                    self.phase == old(self).phase,
                    self.stack@ == old(self).stack@.push(id) + pending_parents(
                        parents@.take(k as int),
                        self.done@,
                    ),
                    self.armed@ == old(self).armed@.push(true) + Seq::new(
                        pending_parents(parents@.take(k as int), self.done@).len(),
                        |i: int| false,
                    ),
                decreases parents@.len() - k,
            {
                proof {
                    assert(parents@.take(k as int + 1).drop_last() =~= parents@.take(k as int));
                    assert(parents@.take(k as int + 1).last() == parents@[k as int]);
                }
                if al_find(&self.done, parents[k]).is_none() {
                    self.stack.push(parents[k]);
                    self.armed = Ghost(self.armed@.push(false));
                    proof {
                        assert(self.stack@ =~= old(self).stack@.push(id) + pending_parents(
                            parents@.take(k as int + 1),
                            self.done@,
                        ));
                        assert(self.armed@ =~= old(self).armed@.push(true) + Seq::new(
                            pending_parents(parents@.take(k as int + 1), self.done@).len(),
                            |i: int| false,
                        ));
                    }
                } else {
                    proof {
                        assert(pending_parents(parents@.take(k as int + 1), self.done@)
                            =~= pending_parents(parents@.take(k as int), self.done@));
                    }
                }
                k = k + 1;
            }
            proof {
                assert(parents@.take(parents@.len() as int) =~= parents@);
                let ns = old(self).stack@.push(id) + pending_parents(parents@, self.done@);
                assert(ns[old(self).stack@.len() as int] == id);
                assert(ns.contains(id));
                if self.start != id && old(self).stack@.contains(self.start) {
                    let w = choose|w: int|
                        0 <= w < old(self).stack@.len() && old(self).stack@[w] == self.start;
                    assert(ns[w] == self.start);
                    assert(ns.contains(self.start));
                }
            }
            self.phase = Ghost(Phase::Idle);
            self.parents_seen = Ghost(self.parents_seen@.insert(id, parents@));
            BuildStep::Deferred
        }
    }

    /// Records the id the target store assigned to the commit assembled for
    /// `source`: the one appending step of the mapping.
    pub fn record(&mut self, source: Oid, new_id: Oid)
        requires
            old(self).inv(),
            old(self).phase@ == Phase::Build(source),
        ensures
            final(self).inv(),
            final(self).start == old(self).start,
            final(self).config == old(self).config,
            final(self).empty_tree == old(self).empty_tree,
            final(self).stack == old(self).stack,
            final(self).armed@ == old(self).armed@,
            final(self).parents_seen@ == old(self).parents_seen@,
            final(self).done@ == old(self).done@.push((source, new_id)),
            final(self).phase@ == Phase::Idle,
    {
        proof {
            lemma_al_push(self.done@, source, new_id, self.start);
        }
        self.done.push((source, new_id));
        self.phase = Ghost(Phase::Idle);
        proof {
            let nd = self.done@;
            let od = old(self).done@;
            assert forall|i: int| 0 <= i < nd.len() implies {
                let id = (#[trigger] nd[i]).0;
                &&& self.parents_seen@.contains_key(id)
                &&& (forall|k: int|
                    0 <= k < self.parents_seen@[id].len() ==> al_contains(
                        nd.take(i),
                        #[trigger] self.parents_seen@[id][k],
                    ))
            } by {
                if i < od.len() {
                    assert(nd[i] == od[i]);
                    assert(nd.take(i) =~= od.take(i));
                } else {
                    assert(nd[i].0 == source);
                    assert(nd.take(i) =~= od);
                }
            }
        }
    }

    /// The rewritten id recorded for a source id, if that commit has been
    /// finalized.
    pub fn lookup(&self, id: Oid) -> (r: Option<Oid>)
        requires
            self.inv(),
        ensures
            match r {
                Some(x) => al_contains(self.done@, id) && x == al_get(self.done@, id),
                None => !al_contains(self.done@, id),
            },
    {
        al_find(&self.done, id)
    }
}

} // verus!
