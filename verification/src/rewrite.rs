//! The complete in-memory rewrite: the work-list traversal run to exhaustion
//! over a source graph held as plain values, yielding an ordered plan of
//! rewritten commits.
//!
//! The plan is the Mapping made observable: one entry per commit of the
//! ancestor closure of the start id, each listed only after all of its
//! parents, carrying the rewritten commit with its remapped parent ids. A
//! caller persisting the plan in order can take each entry's `new_id` as the
//! id to hand out; a caller writing to a real store uses
//! [`crate::traverse::Traverser`] directly and records the store's ids
//! instead.

use vstd::prelude::*;

use crate::data::Oid;
use crate::data::SourceCommit;
use crate::redact::RedactConfig;
use crate::traverse::al_contains;
use crate::traverse::al_get;
use crate::traverse::al_index;
use crate::traverse::al_unique;
use crate::traverse::all_parents_done;
use crate::traverse::pending_parents;
use crate::traverse::BuildStep;
use crate::traverse::Phase;
use crate::traverse::PopStep;
use crate::traverse::RewriteCommit;
use crate::traverse::Traverser;

verus! {

/// Each id names at most one commit of the source graph.
pub open spec fn unique_ids(g: Seq<SourceCommit>) -> bool {
    forall|i: int, j: int| 0 <= i < j < g.len() ==> (#[trigger] g[i]).id != (#[trigger] g[j]).id
}

/// The parent structure of the source graph: each commit's id mapped to its
/// parent ids, in order.
pub open spec fn parent_map(g: Seq<SourceCommit>) -> Map<Oid, Seq<Oid>>
    decreases g.len(),
{
    if g.len() == 0 {
        Map::empty()
    } else {
        parent_map(g.drop_last()).insert(g.last().id, g.last().parents@)
    }
}

/// Every commit of the graph appears in the parent map under its own id.
pub proof fn lemma_parent_map_entry(g: Seq<SourceCommit>, i: int)
    requires
        unique_ids(g),
        0 <= i < g.len(),
    ensures
        parent_map(g).contains_key(g[i].id),
        parent_map(g)[g[i].id] == g[i].parents@,
    decreases g.len(),
{
    if i == g.len() - 1 {
    } else {
        let h = g.drop_last();
        assert(unique_ids(h));
        assert(h[i] == g[i]);
        lemma_parent_map_entry(h, i);
        assert(g.last().id != g[i].id);
    }
}

/// Only the graph's commits appear in the parent map.
pub proof fn lemma_parent_map_domain(g: Seq<SourceCommit>, id: Oid)
    requires
        parent_map(g).contains_key(id),
    ensures
        exists|i: int| 0 <= i < g.len() && (#[trigger] g[i]).id == id,
    decreases g.len(),
{
    if g.len() > 0 {
        if g.last().id == id {
            assert(g[g.len() - 1].id == id);
        } else {
            lemma_parent_map_domain(g.drop_last(), id);
            let w = choose|i: int|
                0 <= i < g.drop_last().len() && (#[trigger] g.drop_last()[i]).id == id;
            assert(g[w].id == id);
        }
    }
}

/// A chain of parent steps: each element is followed by one of its parents.
pub open spec fn is_path(g: Map<Oid, Seq<Oid>>, p: Seq<Oid>) -> bool {
    forall|i: int|
        0 <= i < p.len() - 1 ==> g.contains_key(#[trigger] p[i]) && g[p[i]].contains(p[i + 1])
}

/// Membership in the ancestor closure: `to` is reachable from `from` along
/// parent edges (every id reaches itself).
#[verifier::opaque]
pub open spec fn reaches(g: Map<Oid, Seq<Oid>>, from: Oid, to: Oid) -> bool {
    exists|p: Seq<Oid>|
        #[trigger] is_path(g, p) && p.len() > 0 && p.first() == from && p.last() == to
}

/// Every id reaches itself.
pub proof fn lemma_reaches_self(g: Map<Oid, Seq<Oid>>, x: Oid)
    ensures
        reaches(g, x, x),
{
    reveal(reaches);
    let p = seq![x];
    assert(p.len() == 1 && p.first() == x && p.last() == x);
    assert(is_path(g, p));
}

/// Reachability extends along one parent edge.
pub proof fn lemma_reaches_step(g: Map<Oid, Seq<Oid>>, from: Oid, mid: Oid, nxt: Oid)
    requires
        reaches(g, from, mid),
        g.contains_key(mid),
        g[mid].contains(nxt),
    ensures
        reaches(g, from, nxt),
{
    reveal(reaches);
    let p = choose|p: Seq<Oid>|
        #[trigger] is_path(g, p) && p.len() > 0 && p.first() == from && p.last() == mid;
    let q = p.push(nxt);
    assert forall|i: int| 0 <= i < q.len() - 1 implies g.contains_key(#[trigger] q[i]) && g[q[i]].contains(
        q[i + 1],
    ) by {
        if i < p.len() - 1 {
            assert(q[i] == p[i] && q[i + 1] == p[i + 1]);
        } else {
            assert(q[i] == p.last() && q[i + 1] == nxt);
        }
    }
    assert(is_path(g, q));
    assert(q.first() == from && q.last() == nxt);
}

/// A set closed under parent edges: it holds every parent of each of its
/// members that the graph knows.
pub open spec fn parent_closed(g: Map<Oid, Seq<Oid>>, s: Set<Oid>) -> bool {
    forall|id: Oid, k: int|
        s.contains(id) && g.contains_key(id) && 0 <= k < g[id].len() ==> s.contains(
            #[trigger] g[id][k],
        )
}

/// A path that starts inside a parent-closed set never leaves it.
pub proof fn lemma_path_stays_in_closed_set(g: Map<Oid, Seq<Oid>>, s: Set<Oid>, p: Seq<Oid>)
    requires
        parent_closed(g, s),
        is_path(g, p),
        p.len() > 0,
        s.contains(p.first()),
    ensures
        s.contains(p.last()),
    decreases p.len(),
{
    if p.len() > 1 {
        let q = p.drop_last();
        assert forall|i: int| 0 <= i < q.len() - 1 implies g.contains_key(#[trigger] q[i])
            && g[q[i]].contains(q[i + 1]) by {
            assert(q[i] == p[i] && q[i + 1] == p[i + 1]);
        }
        assert(is_path(g, q));
        lemma_path_stays_in_closed_set(g, s, q);
        let j = p.len() - 2;
        assert(g.contains_key(p[j]) && g[p[j]].contains(p[j + 1]));
        assert(s.contains(q.last()) && q.last() == p[j]);
        let k = choose|k: int| 0 <= k < g[p[j]].len() && g[p[j]][k] == p[j + 1];
        assert(s.contains(g[p[j]][k]));
    }
}

/// The heart of totality: a parent-closed set holding the start id holds the
/// start id's whole ancestor closure.
pub proof fn lemma_reachable_in_closed_set(g: Map<Oid, Seq<Oid>>, s: Set<Oid>, from: Oid, to: Oid)
    requires
        parent_closed(g, s),
        s.contains(from),
        reaches(g, from, to),
    ensures
        s.contains(to),
{
    reveal(reaches);
    let p = choose|p: Seq<Oid>|
        #[trigger] is_path(g, p) && p.len() > 0 && p.first() == from && p.last() == to;
    lemma_path_stays_in_closed_set(g, s, p);
}

/// A proper ancestry chain: at least one parent edge is taken.
pub open spec fn proper_reaches(g: Map<Oid, Seq<Oid>>, from: Oid, to: Oid) -> bool {
    exists|p: Seq<Oid>|
        #[trigger] is_path(g, p) && p.len() >= 2 && p.first() == from && p.last() == to
}

/// No commit is its own proper ancestor. Content-addressed stores guarantee
/// this of every history by construction.
pub open spec fn acyclic(g: Map<Oid, Seq<Oid>>) -> bool {
    forall|v: Oid| !proper_reaches(g, v, v)
}

/// One parent edge is a proper ancestry chain.
pub proof fn lemma_proper_edge(g: Map<Oid, Seq<Oid>>, a: Oid, p: Oid)
    requires
        g.contains_key(a),
        g[a].contains(p),
    ensures
        proper_reaches(g, a, p),
{
    let q = seq![a, p];
    assert(q.len() == 2 && q.first() == a && q.last() == p);
    assert forall|i: int| 0 <= i < q.len() - 1 implies g.contains_key(#[trigger] q[i]) && g[q[i]].contains(
        q[i + 1],
    ) by {
        assert(q[0] == a && q[1] == p);
    }
    assert(is_path(g, q));
}

/// A proper ancestry chain extends along one more parent edge.
pub proof fn lemma_proper_step(g: Map<Oid, Seq<Oid>>, a: Oid, b: Oid, c: Oid)
    requires
        proper_reaches(g, a, b),
        g.contains_key(b),
        g[b].contains(c),
    ensures
        proper_reaches(g, a, c),
{
    let p = choose|p: Seq<Oid>|
        #[trigger] is_path(g, p) && p.len() >= 2 && p.first() == a && p.last() == b;
    let q = p.push(c);
    assert forall|i: int| 0 <= i < q.len() - 1 implies g.contains_key(#[trigger] q[i]) && g[q[i]].contains(
        q[i + 1],
    ) by {
        if i < p.len() - 1 {
            assert(q[i] == p[i] && q[i + 1] == p[i + 1]);
        } else {
            assert(q[i] == p.last() && q[i + 1] == c);
        }
    }
    assert(is_path(g, q));
    assert(q.first() == a && q.last() == c);
}

/// The parent is accounted for from position `i`'s point of view: finalized,
/// or still above `i` on the work-list.
pub open spec fn parent_settled(p: Oid, i: int, stack: Seq<Oid>, done: Seq<(Oid, Oid)>) -> bool {
    al_contains(done, p) || exists|j: int| i < j < stack.len() && #[trigger] stack[j] == p
}

/// Every pushed-back (armed) work-list entry has each of its parents settled
/// relative to it: by the time it is popped again nothing is left above it,
/// so all of its parents are finalized.
#[verifier::opaque]
pub open spec fn armed_settled(
    stack: Seq<Oid>,
    armed: Seq<bool>,
    done: Seq<(Oid, Oid)>,
    pm: Map<Oid, Seq<Oid>>,
) -> bool {
    forall|i: int|
        0 <= i < stack.len() && #[trigger] armed[i] ==> pm.contains_key(stack[i]) && (forall|k: int|
            0 <= k < pm[stack[i]].len() ==> parent_settled(
                #[trigger] pm[stack[i]][k],
                i,
                stack,
                done,
            ))
}

/// Everything above a pushed-back entry is a proper ancestor of it, so a
/// second copy of the same id above it would witness a cycle.
#[verifier::opaque]
pub open spec fn armed_dominates(stack: Seq<Oid>, armed: Seq<bool>, pm: Map<Oid, Seq<Oid>>) -> bool {
    forall|i: int, j: int|
        #![trigger armed[i], stack[j]]
        0 <= i < j < stack.len() && armed[i] ==> proper_reaches(pm, stack[i], stack[j])
}

/// Every id that has deferred and is not yet finalized still has its
/// pushed-back copy on the work-list.
#[verifier::opaque]
pub open spec fn deferred_armed(
    d: Set<Oid>,
    stack: Seq<Oid>,
    armed: Seq<bool>,
    done: Seq<(Oid, Oid)>,
) -> bool {
    forall|x: Oid|
        #[trigger] d.contains(x) && !al_contains(done, x) ==> exists|i: int|
            0 <= i < stack.len() && #[trigger] armed[i] && stack[i] == x
}

/// Popping a finalized id keeps the work-list discipline.
pub proof fn lemma_armed_after_pop(
    stackb: Seq<Oid>,
    armedb: Seq<bool>,
    stack2: Seq<Oid>,
    armed2: Seq<bool>,
    doneb: Seq<(Oid, Oid)>,
    done2: Seq<(Oid, Oid)>,
    pm: Map<Oid, Seq<Oid>>,
    d: Set<Oid>,
)
    requires
        armed_settled(stackb, armedb, doneb, pm),
        armed_dominates(stackb, armedb, pm),
        deferred_armed(d, stackb, armedb, doneb),
        stackb.len() > 0,
        armedb.len() == stackb.len(),
        stack2 == stackb.drop_last(),
        armed2 == armedb.drop_last(),
        al_contains(done2, stackb.last()),
        forall|q: Oid| al_contains(doneb, q) ==> al_contains(done2, q),
    ensures
        armed_settled(stack2, armed2, done2, pm),
        armed_dominates(stack2, armed2, pm),
        deferred_armed(d, stack2, armed2, done2),
{
    reveal(armed_settled);
    reveal(armed_dominates);
    reveal(deferred_armed);
    let l = stackb.len() - 1;
    assert forall|i: int| 0 <= i < stack2.len() && #[trigger] armed2[i] implies pm.contains_key(
        stack2[i],
    ) && (forall|k: int|
        0 <= k < pm[stack2[i]].len() ==> parent_settled(
            #[trigger] pm[stack2[i]][k],
            i,
            stack2,
            done2,
        )) by {
        assert(armedb[i] && stack2[i] == stackb[i]);
        assert forall|k: int| 0 <= k < pm[stack2[i]].len() implies parent_settled(
            #[trigger] pm[stack2[i]][k],
            i,
            stack2,
            done2,
        ) by {
            let p = pm[stackb[i]][k];
            assert(parent_settled(p, i, stackb, doneb));
            if al_contains(doneb, p) {
                assert(al_contains(done2, p));
            } else {
                let j = choose|j: int| i < j < stackb.len() && #[trigger] stackb[j] == p;
                if j < l {
                    assert(stack2[j] == p);
                } else {
                    assert(p == stackb.last());
                    assert(al_contains(done2, p));
                }
            }
        }
    }
    assert forall|i: int, j: int|
        #![trigger armed2[i], stack2[j]]
        0 <= i < j < stack2.len() && armed2[i] implies proper_reaches(pm, stack2[i], stack2[j]) by {
        assert(armedb[i] && stack2[i] == stackb[i] && stack2[j] == stackb[j]);
    }
    assert forall|x: Oid| #[trigger] d.contains(x) && !al_contains(done2, x) implies exists|i: int|
        0 <= i < stack2.len() && #[trigger] armed2[i] && stack2[i] == x by {
        assert(al_contains(doneb, x) ==> al_contains(done2, x));
        let i = choose|i: int| 0 <= i < stackb.len() && #[trigger] armedb[i] && stackb[i] == x;
        if i == l {
            assert(al_contains(done2, x));
            assert(false);
        }
        assert(armed2[i] && stack2[i] == x);
    }
}

/// A deferring pop is the id's first: a pushed-back copy is popped with its
/// parents finalized, and a second unarmed copy above the pushed-back one
/// would witness a cycle.
pub proof fn lemma_defer_is_first(
    stackb: Seq<Oid>,
    armedb: Seq<bool>,
    done: Seq<(Oid, Oid)>,
    pm: Map<Oid, Seq<Oid>>,
    d: Set<Oid>,
    id: Oid,
    parents: Seq<Oid>,
)
    requires
        armed_settled(stackb, armedb, done, pm),
        armed_dominates(stackb, armedb, pm),
        deferred_armed(d, stackb, armedb, done),
        acyclic(pm),
        stackb.len() > 0,
        armedb.len() == stackb.len(),
        stackb.last() == id,
        !al_contains(done, id),
        pm.contains_key(id),
        pm[id] == parents,
        !all_parents_done(parents, done),
    ensures
        !armedb.last(),
        !d.contains(id),
{
    reveal(armed_settled);
    reveal(armed_dominates);
    reveal(deferred_armed);
    let l = stackb.len() - 1;
    if armedb[l] {
        assert(stackb[l] == id);
        assert forall|k: int| 0 <= k < parents.len() implies al_contains(
            done,
            #[trigger] parents[k],
        ) by {
            assert(parent_settled(pm[stackb[l]][k], l, stackb, done));
            if !al_contains(done, parents[k]) {
                let j = choose|j: int| l < j < stackb.len() && #[trigger] stackb[j] == parents[k];
                assert(false);
            }
        }
        assert(all_parents_done(parents, done));
        assert(false);
    }
    if d.contains(id) {
        let i = choose|i: int| 0 <= i < stackb.len() && #[trigger] armedb[i] && stackb[i] == id;
        assert(i < l);
        assert(proper_reaches(pm, stackb[i], stackb[l]));
        assert(proper_reaches(pm, id, id));
        assert(false);
    }
}

/// A deferral keeps the work-list discipline: the pushed-back copy has all
/// of its pending parents above it, and everything newly above any armed
/// entry is a proper ancestor of it.
pub proof fn lemma_armed_after_defer(
    stackb: Seq<Oid>,
    armedb: Seq<bool>,
    done: Seq<(Oid, Oid)>,
    pm: Map<Oid, Seq<Oid>>,
    d: Set<Oid>,
    id: Oid,
    parents: Seq<Oid>,
    stack2: Seq<Oid>,
    armed2: Seq<bool>,
)
    requires
        armed_settled(stackb, armedb, done, pm),
        armed_dominates(stackb, armedb, pm),
        deferred_armed(d, stackb, armedb, done),
        stackb.len() > 0,
        armedb.len() == stackb.len(),
        stackb.last() == id,
        !armedb.last(),
        pm.contains_key(id),
        pm[id] == parents,
        stack2 == stackb.drop_last().push(id) + pending_parents(parents, done),
        armed2 == armedb.drop_last().push(true) + Seq::new(
            pending_parents(parents, done).len(),
            |i: int| false,
        ),
    ensures
        armed_settled(stack2, armed2, done, pm),
        armed_dominates(stack2, armed2, pm),
        deferred_armed(d.insert(id), stack2, armed2, done),
{
    reveal(armed_settled);
    reveal(armed_dominates);
    reveal(deferred_armed);
    let l = stackb.len() - 1;
    let pp = pending_parents(parents, done);
    assert(stack2.len() == stackb.len() + pp.len());
    assert(armed2.len() == stack2.len());
    assert forall|j: int| stackb.len() <= j < stack2.len() implies pm[id].contains(
        #[trigger] stack2[j],
    ) by {
        let x = pp[j - stackb.len()];
        assert(stack2[j] == x);
        assert(pp.contains(x));
        crate::traverse::lemma_pending_parents_subset(parents, done, x);
    }
    assert forall|i: int| 0 <= i < stack2.len() && #[trigger] armed2[i] implies pm.contains_key(
        stack2[i],
    ) && (forall|k: int|
        0 <= k < pm[stack2[i]].len() ==> parent_settled(
            #[trigger] pm[stack2[i]][k],
            i,
            stack2,
            done,
        )) by {
        if i < l {
            assert(armedb[i] && stack2[i] == stackb[i]);
            assert forall|k: int| 0 <= k < pm[stack2[i]].len() implies parent_settled(
                #[trigger] pm[stack2[i]][k],
                i,
                stack2,
                done,
            ) by {
                let p = pm[stackb[i]][k];
                assert(parent_settled(p, i, stackb, done));
                if !al_contains(done, p) {
                    let j = choose|j: int| i < j < stackb.len() && #[trigger] stackb[j] == p;
                    if j < l {
                        assert(stack2[j] == p);
                    } else {
                        assert(p == id);
                        assert(stack2[l] == id);
                    }
                }
            }
        } else if i == l {
            assert(stack2[l] == id);
            assert forall|k: int| 0 <= k < pm[stack2[i]].len() implies parent_settled(
                #[trigger] pm[stack2[i]][k],
                i,
                stack2,
                done,
            ) by {
                let p = parents[k];
                if !al_contains(done, p) {
                    crate::traverse::lemma_pending_parents_complete(parents, done, k);
                    let w = pp.index_of(p);
                    assert(0 <= w < pp.len() && pp[w] == p);
                    assert(stack2[stackb.len() + w] == p);
                }
            }
        } else {
            assert(!armed2[i]);
            assert(false);
        }
    }
    assert forall|i: int, j: int|
        #![trigger armed2[i], stack2[j]]
        0 <= i < j < stack2.len() && armed2[i] implies proper_reaches(pm, stack2[i], stack2[j]) by {
        if i < l {
            assert(armedb[i] && stack2[i] == stackb[i]);
            if j < l {
                assert(stack2[j] == stackb[j]);
            } else if j == l {
                assert(stack2[j] == id && stackb[l] == id);
                assert(proper_reaches(pm, stackb[i], stackb[l]));
            } else {
                assert(proper_reaches(pm, stackb[i], stackb[l]));
                assert(pm[id].contains(stack2[j]));
                lemma_proper_step(pm, stackb[i], id, stack2[j]);
            }
        } else if i == l {
            assert(stack2[i] == id);
            assert(pm[id].contains(stack2[j]));
            lemma_proper_edge(pm, id, stack2[j]);
        } else {
            assert(!armed2[i]);
            assert(false);
        }
    }
    assert forall|x: Oid| #[trigger] d.insert(id).contains(x) && !al_contains(done, x) implies exists|i: int|
        0 <= i < stack2.len() && #[trigger] armed2[i] && stack2[i] == x by {
        if x == id {
            assert(armed2[l] && stack2[l] == id);
        } else {
            let i = choose|i: int| 0 <= i < stackb.len() && #[trigger] armedb[i] && stackb[i] == x;
            assert(i != l);
            assert(armed2[i] && stack2[i] == x);
        }
    }
}

/// The deferral budget still open: the ids no deferral has pushed back yet,
/// each weighted by one plus its parent count. Together with the work-list
/// length this bounds the steps left in a run.
pub open spec fn b_left(g: Seq<SourceCommit>, d: Set<Oid>) -> int
    decreases g.len(),
{
    if g.len() == 0 {
        0
    } else {
        b_left(g.drop_last(), d) + if d.contains(g.last().id) {
            0
        } else {
            1 + g.last().parents@.len()
        }
    }
}

/// The budget is never negative.
pub proof fn lemma_b_left_nonneg(g: Seq<SourceCommit>, d: Set<Oid>)
    ensures
        b_left(g, d) >= 0,
    decreases g.len(),
{
    if g.len() > 0 {
        lemma_b_left_nonneg(g.drop_last(), d);
    }
}

/// Marking an id outside the graph spends none of the budget.
pub proof fn lemma_b_left_fresh(g: Seq<SourceCommit>, d: Set<Oid>, x: Oid)
    requires
        forall|i: int| 0 <= i < g.len() ==> (#[trigger] g[i]).id != x,
    ensures
        b_left(g, d.insert(x)) == b_left(g, d),
    decreases g.len(),
{
    if g.len() > 0 {
        assert(g[g.len() - 1].id != x);
        assert forall|i: int| 0 <= i < g.drop_last().len() implies (#[trigger] g.drop_last()[i]).id
            != x by {
            assert(g.drop_last()[i] == g[i]);
        }
        lemma_b_left_fresh(g.drop_last(), d, x);
    }
}

/// Marking a graph id spends exactly its weight of the budget.
pub proof fn lemma_b_left_insert(g: Seq<SourceCommit>, d: Set<Oid>, x: Oid, w: int)
    requires
        unique_ids(g),
        0 <= w < g.len(),
        g[w].id == x,
        !d.contains(x),
    ensures
        b_left(g, d.insert(x)) == b_left(g, d) - 1 - g[w].parents@.len(),
    decreases g.len(),
{
    if w == g.len() - 1 {
        assert forall|i: int| 0 <= i < g.drop_last().len() implies (#[trigger] g.drop_last()[i]).id
            != x by {
            assert(g.drop_last()[i] == g[i]);
        }
        lemma_b_left_fresh(g.drop_last(), d, x);
    } else {
        assert(g.drop_last()[w] == g[w]);
        assert(unique_ids(g.drop_last()));
        lemma_b_left_insert(g.drop_last(), d, x, w);
        assert(g.last().id != x);
    }
}

/// Law (the stable part of re-running): the set of rewritten source commits
/// is fixed by the graph and the start id alone — any two successful runs
/// rewrite exactly the same commits, namely the ancestor closure of the
/// start. Together with [`entry_correct`], which pins every rewritten commit
/// as a function of its source commit, the key and the already-mapped
/// parents, a re-run with the same inputs rebuilds the same target shape.
pub proof fn lemma_rewritten_set_is_the_closure(
    g: Seq<SourceCommit>,
    start: Oid,
    p1: Seq<(Oid, Oid)>,
    p2: Seq<(Oid, Oid)>,
)
    requires
        forall|id: Oid| al_contains(p1, id) <==> reaches(parent_map(g), start, id),
        forall|id: Oid| al_contains(p2, id) <==> reaches(parent_map(g), start, id),
    ensures
        forall|id: Oid| al_contains(p1, id) <==> al_contains(p2, id),
{
}

/// One finalized commit of the plan: which source commit it rewrites, the id
/// standing for it in the target, and the rewritten commit itself.
#[derive(Debug)]
pub struct PlanEntry {
    pub source: Oid,
    pub new_id: Oid,
    pub commit: RewriteCommit,
}

/// Why a run aborted. Any failure is fatal: no partial plan is returned.
#[derive(Clone, Copy, PartialEq, Eq, Structural, Debug)]
pub enum RewriteError {
    /// This id is reachable from the start id but the source graph has no
    /// commit for it.
    MissingCommit(Oid),
}

/// The source-to-target id pairs of a plan, in finalization order.
pub open spec fn plan_pairs(plan: Seq<PlanEntry>) -> Seq<(Oid, Oid)> {
    plan.map_values(|e: PlanEntry| (e.source, e.new_id))
}

/// What makes one plan entry right, given the pairs finalized strictly before
/// it: it rewrites a commit of the graph; parent count and order are the
/// original's, each parent already remapped; identities are redacted per the
/// configuration; tree and message are the fixed replacements.
#[verifier::opaque]
pub open spec fn entry_correct(
    e: PlanEntry,
    g: Seq<SourceCommit>,
    prior: Seq<(Oid, Oid)>,
    config: RedactConfig,
    empty_tree: Oid,
) -> bool {
    &&& (exists|i: int|
        0 <= i < g.len() && (#[trigger] g[i]).id == e.source && {
            let c = g[i];
            &&& e.commit.parents@.len() == c.parents@.len()
            &&& (forall|k: int|
                0 <= k < c.parents@.len() ==> al_contains(prior, #[trigger] c.parents@[k])
                    && e.commit.parents@[k] == al_get(prior, c.parents@[k]))
            &&& e.commit.author@ == crate::redact::redact_spec(
                config.enabled,
                config.key@,
                c.author@,
            )
            &&& e.commit.committer@ == crate::redact::redact_spec(
                config.enabled,
                config.key@,
                c.committer@,
            )
        })
    &&& e.commit.message@ == "redacted"@
    &&& e.commit.tree == empty_tree
}

/// Finds the commit a given id names, scanning the graph.
fn find_commit<'a>(g: &'a Vec<SourceCommit>, id: Oid) -> (r: Option<&'a SourceCommit>)
    requires
        unique_ids(g@),
    ensures
        match r {
            Some(c) => {
                &&& exists|i: int| 0 <= i < g@.len() && #[trigger] g@[i] == *c
                &&& c.id == id
                &&& parent_map(g@).contains_key(id)
                &&& parent_map(g@)[id] == c.parents@
            },
            None => !parent_map(g@).contains_key(id),
        },
{
    let mut i: usize = 0;
    while i < g.len()
        invariant
            unique_ids(g@),
            i <= g@.len(),
            forall|j: int| 0 <= j < i ==> (#[trigger] g@[j]).id != id,
        decreases g@.len() - i,
    {
        let c: &SourceCommit = &g[i];
        if c.id == id {
            proof {
                lemma_parent_map_entry(g@, i as int);
                assert(g@[i as int] == *c);
            }
            return Some(c);
        }
        i = i + 1;
    }
    proof {
        if parent_map(g@).contains_key(id) {
            lemma_parent_map_domain(g@, id);
            let w = choose|w: int| 0 <= w < g@.len() && (#[trigger] g@[w]).id == id;
            assert(false);
        }
    }
    None
}

/// Rewrites the whole ancestor closure of `start` over an in-memory source
/// graph, and returns the finalized plan.
///
/// On success the plan lists, in an order where every commit follows all of
/// its parents, exactly one entry for each commit of the ancestor closure of
/// `start` — no omissions, no duplicates, nothing unreachable — and every
/// entry satisfies [`entry_correct`] against the entries before it: original
/// parent count and order, remapped parent ids, redacted identities, the
/// canonical empty tree and the fixed placeholder message. Target ids are
/// assigned densely in finalization order. A reachable id the graph cannot
/// resolve aborts the run, naming that id; on a graph that resolves every
/// reachable id the run always succeeds. The parent relation is acyclic by
/// construction of any content-addressed store, and on such graphs the run
/// terminates: every deferral is an id's first, so the work-list shrinks
/// against a budget fixed by the graph.
#[verifier::rlimit(100)]
#[verifier::spinoff_prover]
pub fn rewrite_history(
    graph: &Vec<SourceCommit>,
    start: Oid,
    config: RedactConfig,
    empty_tree: Oid,
) -> (r: Result<Vec<PlanEntry>, RewriteError>)
    requires
        unique_ids(graph@),
        acyclic(parent_map(graph@)),
        config.wf(),
    ensures
        match r {
            Ok(plan) => {
                &&& al_unique(plan_pairs(plan@))
                &&& (forall|i: int|
                    0 <= i < plan@.len() ==> entry_correct(
                        #[trigger] plan@[i],
                        graph@,
                        plan_pairs(plan@).take(i),
                        config,
                        empty_tree,
                    ))
                &&& (forall|i: int|
                    0 <= i < plan@.len() ==> reaches(
                        parent_map(graph@),
                        start,
                        (#[trigger] plan@[i]).source,
                    ))
                &&& (forall|id: Oid|
                    reaches(parent_map(graph@), start, id) ==> al_contains(
                        plan_pairs(plan@),
                        id,
                    ))
                &&& (forall|id: Oid|
                    al_contains(plan_pairs(plan@), id) ==> reaches(
                        parent_map(graph@),
                        start,
                        id,
                    ))
                &&& (forall|i: int|
                    0 <= i < plan@.len() ==> (#[trigger] plan@[i]).new_id == (Oid {
                        hi: i as u64,
                        mid: 0,
                        lo: 0,
                    }))
            },
            Err(RewriteError::MissingCommit(id)) => {
                &&& reaches(parent_map(graph@), start, id)
                &&& !parent_map(graph@).contains_key(id)
            },
        },
{
    let ghost pm = parent_map(graph@);
    let mut t = Traverser::new(start, config, empty_tree);
    let mut plan: Vec<PlanEntry> = Vec::new();
    let ghost mut deferred: Set<Oid> = Set::empty();
    proof {
        lemma_reaches_self(pm, start);
        lemma_b_left_nonneg(graph@, deferred);
        reveal(armed_settled);
        reveal(armed_dominates);
        reveal(deferred_armed);
        assert(t.armed@ == seq![false]);
        assert(forall|i: int| 0 <= i < t.armed@.len() ==> !(#[trigger] t.armed@[i]));
        assert(armed_settled(t.stack@, t.armed@, t.done@, pm));
        assert(armed_dominates(t.stack@, t.armed@, pm));
        assert(deferred_armed(deferred, t.stack@, t.armed@, t.done@));
    }
    loop
        invariant_except_break
            armed_settled(t.stack@, t.armed@, t.done@, pm),
            armed_dominates(t.stack@, t.armed@, pm),
            deferred_armed(deferred, t.stack@, t.armed@, t.done@),
        invariant
            unique_ids(graph@),
            t.inv(),
            t.phase@ == Phase::Idle,
            t.start == start,
            t.config == config,
            t.empty_tree == empty_tree,
            plan_pairs(plan@) == t.done@,
            plan@.len() == t.done@.len(),
            forall|i: int|
                0 <= i < plan@.len() ==> entry_correct(
                    #[trigger] plan@[i],
                    graph@,
                    t.done@.take(i),
                    config,
                    empty_tree,
                ),
            forall|i: int|
                0 <= i < plan@.len() ==> (#[trigger] plan@[i]).source == t.done@[i].0
                    && plan@[i].new_id == t.done@[i].1 && plan@[i].new_id == (Oid {
                    hi: i as u64,
                    mid: 0,
                    lo: 0,
                }),
            forall|id: Oid|
                #[trigger] t.parents_seen@.contains_key(id) ==> pm.contains_key(id)
                    && t.parents_seen@[id] == pm[id],
            forall|k: int| 0 <= k < t.stack@.len() ==> reaches(pm, start, #[trigger] t.stack@[k]),
            forall|i: int|
                0 <= i < t.done@.len() ==> reaches(pm, start, (#[trigger] t.done@[i]).0),
            pm == parent_map(graph@),
            acyclic(pm),
        ensures
            t.inv(),
            t.phase@ == Phase::Idle,
            t.stack@.len() == 0,
            plan_pairs(plan@) == t.done@,
            plan@.len() == t.done@.len(),
            forall|i: int|
                0 <= i < plan@.len() ==> entry_correct(
                    #[trigger] plan@[i],
                    graph@,
                    t.done@.take(i),
                    config,
                    empty_tree,
                ),
            forall|i: int|
                0 <= i < plan@.len() ==> (#[trigger] plan@[i]).new_id == (Oid {
                    hi: i as u64,
                    mid: 0,
                    lo: 0,
                }),
            forall|id: Oid|
                #[trigger] t.parents_seen@.contains_key(id) ==> pm.contains_key(id)
                    && t.parents_seen@[id] == pm[id],
            forall|i: int|
                0 <= i < t.done@.len() ==> reaches(pm, start, (#[trigger] t.done@[i]).0),
        decreases t.stack@.len() + b_left(graph@, deferred),
    {
        let ghost stack_before = t.stack@;
        let ghost armed_before = t.armed@;
        let ghost done_top = t.done@;
        let ghost seen_before = t.parents_seen@;
        match t.pop_next() {
            PopStep::Finished => {
                proof {
                    assert forall|id: Oid| #[trigger] t.parents_seen@.contains_key(id) implies pm.contains_key(
                        id,
                    ) && t.parents_seen@[id] == pm[id] by {
                        assert(seen_before.contains_key(id));
                        assert(seen_before[id] == pm[id]);
                    }
                }
                break ;
            },
            PopStep::Skip(skipped) => {
                proof {
                    assert forall|q: Oid| al_contains(done_top, q) implies al_contains(
                        t.done@,
                        q,
                    ) by {
                    }
                    lemma_armed_after_pop(
                        stack_before,
                        armed_before,
                        t.stack@,
                        t.armed@,
                        done_top,
                        t.done@,
                        pm,
                        deferred,
                    );
                    lemma_b_left_nonneg(graph@, deferred);
                }
            },
            PopStep::Visit(id) => {
                proof {
                    assert(stack_before[stack_before.len() - 1] == id);
                    assert(reaches(pm, start, id));
                }
                match find_commit(graph, id) {
                    None => {
                        return Err(RewriteError::MissingCommit(id));
                    },
                    Some(c) => {
                        let ghost done_before = t.done@;
                        match t.process(id, &c.parents, &c.author, &c.committer) {
                            BuildStep::Deferred => {
                                proof {
                                    assert(pm.contains_key(id) && pm[id] == c.parents@);
                                    let ns = t.stack@;
                                    assert(ns == stack_before.drop_last().push(id)
                                        + pending_parents(c.parents@, done_before));
                                    assert forall|k: int| 0 <= k < ns.len() implies reaches(
                                        pm,
                                        start,
                                        #[trigger] ns[k],
                                    ) by {
                                        let base = stack_before.drop_last().push(id);
                                        if k < base.len() {
                                            if k < base.len() - 1 {
                                                assert(ns[k] == stack_before[k]);
                                            } else {
                                                assert(ns[k] == id);
                                            }
                                        } else {
                                            let pp = pending_parents(c.parents@, done_before);
                                            let x = pp[k - base.len()];
                                            assert(ns[k] == x);
                                            assert(pp.contains(x));
                                            crate::traverse::lemma_pending_parents_subset(
                                                c.parents@,
                                                done_before,
                                                x,
                                            );
                                            assert(pm[id].contains(x));
                                            lemma_reaches_step(pm, start, id, x);
                                        }
                                    }
                                    assert(!all_parents_done(c.parents@, done_top));
                                    lemma_defer_is_first(
                                        stack_before,
                                        armed_before,
                                        done_top,
                                        pm,
                                        deferred,
                                        id,
                                        c.parents@,
                                    );
                                    let d0 = deferred;
                                    deferred = deferred.insert(id);
                                    lemma_armed_after_defer(
                                        stack_before,
                                        armed_before,
                                        done_top,
                                        pm,
                                        d0,
                                        id,
                                        c.parents@,
                                        t.stack@,
                                        t.armed@,
                                    );
                                    let w = choose|i: int|
                                        0 <= i < graph@.len() && #[trigger] graph@[i] == *c;
                                    lemma_parent_map_entry(graph@, w);
                                    assert(graph@[w].id == id);
                                    assert(graph@[w].parents@ == c.parents@);
                                    lemma_b_left_insert(graph@, d0, id, w);
                                    crate::traverse::lemma_pending_parents_len(
                                        c.parents@,
                                        done_top,
                                    );
                                    lemma_b_left_nonneg(graph@, deferred);
                                }
                            },
                            BuildStep::Ready(commit) => {
                                let new_id = Oid { hi: plan.len() as u64, mid: 0, lo: 0 };
                                t.record(id, new_id);
                                let ghost plan_before = plan@;
                                let entry = PlanEntry { source: id, new_id, commit };
                                plan.push(entry);
                                proof {
                                    reveal(entry_correct);
                                    let w = choose|i: int|
                                        0 <= i < graph@.len() && #[trigger] graph@[i] == *c;
                                    assert(plan@ == plan_before.push(entry));
                                    assert(t.done@ == done_before.push((id, new_id)));
                                    assert(plan_pairs(plan@) =~= t.done@);
                                    assert forall|i: int| 0 <= i < plan@.len() implies entry_correct(
                                        #[trigger] plan@[i],
                                        graph@,
                                        t.done@.take(i),
                                        config,
                                        empty_tree,
                                    ) by {
                                        if i < plan_before.len() {
                                            assert(plan@[i] == plan_before[i]);
                                            assert(t.done@.take(i) =~= done_before.take(i));
                                        } else {
                                            assert(t.done@.take(i) =~= done_before);
                                            assert(plan@[i] == entry);
                                            assert(graph@[w] == *c);
                                            assert(graph@[w].id == entry.source);
                                            assert(entry.commit.parents@.len()
                                                == graph@[w].parents@.len());
                                            assert(forall|k: int|
                                                0 <= k < graph@[w].parents@.len() ==> al_contains(
                                                    done_before,
                                                    #[trigger] graph@[w].parents@[k],
                                                ) && entry.commit.parents@[k] == al_get(
                                                    done_before,
                                                    graph@[w].parents@[k],
                                                ));
                                            assert(entry_correct(
                                                entry,
                                                graph@,
                                                done_before,
                                                config,
                                                empty_tree,
                                            ));
                                        }
                                    }
                                    assert(t.done@[done_top.len() as int].0 == id);
                                    assert(al_contains(t.done@, id));
                                    assert forall|q: Oid| al_contains(done_top, q) implies al_contains(
                                        t.done@,
                                        q,
                                    ) by {
                                        let v = al_index(done_top, q);
                                        assert(t.done@[v].0 == q);
                                    }
                                    lemma_armed_after_pop(
                                        stack_before,
                                        armed_before,
                                        t.stack@,
                                        t.armed@,
                                        done_top,
                                        t.done@,
                                        pm,
                                        deferred,
                                    );
                                    lemma_b_left_nonneg(graph@, deferred);
                                }
                            },
                        }
                    },
                }
            },
        }
    }
    proof {
        assert(al_contains(t.done@, start));
        let s = Set::new(|id: Oid| al_contains(t.done@, id));
        assert forall|id: Oid, k: int|
            s.contains(id) && pm.contains_key(id) && 0 <= k < pm[id].len() implies s.contains(
            #[trigger] pm[id][k],
        ) by {
            let w = choose|w: int| 0 <= w < t.done@.len() && (#[trigger] t.done@[w]).0 == id;
            assert(t.parents_seen@.contains_key(id));
            assert(t.parents_seen@[id] == pm[id]);
            assert(al_contains(t.done@.take(w), t.parents_seen@[id][k]));
            crate::traverse::lemma_al_take_contains(t.done@, w, pm[id][k]);
        }
        assert(parent_closed(pm, s));
        assert forall|id: Oid| reaches(pm, start, id) implies al_contains(
            plan_pairs(plan@),
            id,
        ) by {
            lemma_reachable_in_closed_set(pm, s, start, id);
        }
        assert forall|id: Oid| al_contains(plan_pairs(plan@), id) implies reaches(
            pm,
            start,
            id,
        ) by {
            let w = al_index(plan_pairs(plan@), id);
            assert(plan_pairs(plan@)[w].0 == id);
            assert(plan@[w].source == id);
            assert(t.done@[w].0 == id);
        }
    }
    Ok(plan)
}

} // verus!
