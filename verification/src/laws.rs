//! Laws of the tree, proved over the model: what insertion and lookup
//! guarantee together, for every tree and every pattern.

use vstd::prelude::*;

use crate::model::NodeModel;
use crate::model::deepest_wild;
use crate::model::empty_node;
use crate::model::lemma_deepest_wild;
use crate::model::insert_model;
use crate::model::is_wildcard_pattern;
use crate::model::lemma_walk_len;
use crate::model::lookup_model;
use crate::model::node_at;
use crate::model::path_exists;
use crate::model::suffix_string;
use crate::model::traverse_model;
use crate::model::walk_len;
use crate::segments::last_dot;
use crate::segments::lemma_last_dot;
use crate::segments::lemma_rsegs_dot;
use crate::segments::lemma_rsegs_len;
use crate::segments::rsegs;

verus! {

/// Inserting a pattern a second time changes nothing: the tree, and with
/// it every lookup, is exactly what one insertion left.
pub proof fn lemma_insert_idempotent(
    m: Map<Seq<char>, NodeModel>,
    segs: Seq<Seq<char>>,
    wildcard: bool,
)
    ensures
        insert_model(insert_model(m, segs, wildcard), segs, wildcard) == insert_model(
            m,
            segs,
            wildcard,
        ),
    decreases segs.len(),
{
    if segs.len() == 0 {
    } else {
        let k = segs[0];
        let m1 = insert_model(m, segs, wildcard);
        let child = if m.contains_key(k) {
            m[k]
        } else {
            empty_node()
        };
        if wildcard && segs.len() == 2 {
            assert(insert_model(m1, segs, wildcard) =~= m1);
        } else if !wildcard && segs.len() == 1 {
            assert(insert_model(m1, segs, wildcard) =~= m1);
        } else {
            lemma_insert_idempotent(child.children, segs.drop_first(), wildcard);
            assert(insert_model(m1, segs, wildcard) =~= m1);
        }
    }
}

/// On an empty tree no domain matches.
pub proof fn lemma_lookup_empty(segs: Seq<Seq<char>>)
    ensures
        lookup_model(Map::<Seq<char>, NodeModel>::empty(), segs) == None::<Seq<char>>,
{
    let m = Map::<Seq<char>, NodeModel>::empty();
    if segs.len() > 0 {
        assert(!m.contains_key(segs[0]));
    }
}

/// The walk consumes every label exactly when the whole sequence is a path
/// of existing nodes.
proof fn lemma_walk_full(m: Map<Seq<char>, NodeModel>, segs: Seq<Seq<char>>)
    requires
        segs.len() >= 1,
    ensures
        walk_len(m, segs) == segs.len() <==> path_exists(m, segs),
    decreases segs.len(),
{
    lemma_walk_len(m, segs);
    if m.contains_key(segs[0]) {
        if segs.len() > 1 {
            lemma_walk_full(m[segs[0]].children, segs.drop_first());
        } else {
            assert(walk_len(m[segs[0]].children, segs.drop_first()) == 0);
        }
    }
}

/// An exact insertion makes its whole label sequence a path of existing
/// nodes and marks the final node as a terminal.
proof fn lemma_exact_insert_at(m: Map<Seq<char>, NodeModel>, segs: Seq<Seq<char>>)
    requires
        segs.len() >= 1,
    ensures
        path_exists(insert_model(m, segs, false), segs),
        node_at(insert_model(m, segs, false), segs).terminal,
    decreases segs.len(),
{
    let k = segs[0];
    let child = if m.contains_key(k) {
        m[k]
    } else {
        empty_node()
    };
    if segs.len() == 1 {
    } else {
        lemma_exact_insert_at(child.children, segs.drop_first());
    }
}

/// The dotted join of a string's own labels is the string again.
proof fn lemma_suffix_prepend(t: Seq<char>, r: Seq<Seq<char>>, d: int)
    requires
        1 <= d <= r.len(),
    ensures
        suffix_string(seq![t] + r, d + 1) == suffix_string(r, d) + seq!['.'] + t,
    decreases d,
{
    let segs2 = seq![t] + r;
    if d == 1 {
        assert(segs2[1] == r[0]);
        assert(segs2[0] == t);
        assert(segs2[1] + seq!['.'] + suffix_string(segs2, 1) =~= suffix_string(r, 1) + seq!['.']
            + t);
    } else {
        lemma_suffix_prepend(t, r, d - 1);
        assert(segs2[d] == r[d - 1]);
        assert(r[d - 1] + seq!['.'] + (suffix_string(r, d - 1) + seq!['.'] + t) =~= (r[d - 1]
            + seq!['.'] + suffix_string(r, d - 1)) + seq!['.'] + t);
    }
}

/// Splitting a string into labels and joining the consumed labels back
/// with dots reconstructs the string.
pub proof fn lemma_suffix_rsegs(s: Seq<char>)
    ensures
        suffix_string(rsegs(s), rsegs(s).len() as int) == s,
    decreases s.len(),
{
    let j = last_dot(s);
    lemma_last_dot(s);
    if 0 <= j < s.len() {
        let t = s.subrange(j + 1, s.len() as int);
        let s0 = s.subrange(0, j);
        let r = rsegs(s0);
        lemma_suffix_rsegs(s0);
        lemma_rsegs_len(s0);
        lemma_suffix_prepend(t, r, r.len() as int);
        assert(s0 + seq!['.'] + t =~= s);
    }
}

/// A dotted join reads only the labels it consumes: two sequences that
/// agree on the first `d` labels join to the same suffix.
proof fn lemma_suffix_agree(a: Seq<Seq<char>>, b: Seq<Seq<char>>, d: int)
    requires
        0 <= d <= a.len(),
        d <= b.len(),
        forall|i: int| 0 <= i < d ==> a[i] == b[i],
    ensures
        suffix_string(a, d) == suffix_string(b, d),
    decreases d,
{
    if d > 1 {
        lemma_suffix_agree(a, b, d - 1);
    }
}

/// A wildcard insertion on an empty tree builds one chain of nodes whose
/// only boundary stands one label short of the end: the walk of any longer
/// sequence that follows the chain stops right there, and that boundary is
/// the deepest one passed.
proof fn lemma_wildcard_insert_walk(segs: Seq<Seq<char>>, extra: Seq<Seq<char>>)
    requires
        segs.len() >= 2,
        extra.len() >= 1,
    ensures
        ({
            let m1 = insert_model(Map::<Seq<char>, NodeModel>::empty(), segs, true);
            let q = segs.take(segs.len() - 1) + extra;
            walk_len(m1, q) == segs.len() - 1 && deepest_wild(m1, q) == segs.len() - 1
        }),
    decreases segs.len(),
{
    let m1 = insert_model(Map::<Seq<char>, NodeModel>::empty(), segs, true);
    let q = segs.take(segs.len() - 1) + extra;
    let k = segs[0];
    assert(q[0] == k);
    assert(m1.contains_key(k));
    if segs.len() == 2 {
        assert(m1[k].wildcard);
        assert(m1[k].children =~= Map::<Seq<char>, NodeModel>::empty());
        assert(q.drop_first() =~= extra);
        assert(!m1[k].children.contains_key(extra[0]));
        assert(walk_len(m1[k].children, q.drop_first()) == 0);
        assert(deepest_wild(m1[k].children, q.drop_first()) == 0);
    } else {
        lemma_wildcard_insert_walk(segs.drop_first(), extra);
        assert(q.drop_first() =~= segs.drop_first().take(segs.drop_first().len() - 1) + extra);
        assert(!m1[k].wildcard);
        assert(m1[k].children == insert_model(
            Map::<Seq<char>, NodeModel>::empty(),
            segs.drop_first(),
            true,
        ));
    }
}

/// The tree only grows: a node that exists before an insertion, at
/// whatever path, still exists after it, and a terminal or boundary mark,
/// once set, is never cleared.
pub proof fn lemma_insert_grows(
    m: Map<Seq<char>, NodeModel>,
    segs: Seq<Seq<char>>,
    wildcard: bool,
    path: Seq<Seq<char>>,
)
    requires
        path_exists(m, path),
    ensures
        path_exists(insert_model(m, segs, wildcard), path),
        node_at(m, path).wildcard ==> node_at(insert_model(m, segs, wildcard), path).wildcard,
        node_at(m, path).terminal ==> node_at(insert_model(m, segs, wildcard), path).terminal,
    decreases path.len(),
{
    let m1 = insert_model(m, segs, wildcard);
    if segs.len() == 0 {
    } else if path[0] != segs[0] {
        assert(m1[path[0]] == m[path[0]]);
    } else if path.len() > 1 {
        let child = m[segs[0]];
        if (wildcard && segs.len() == 2) || (!wildcard && segs.len() == 1) {
            assert(m1[path[0]].children == child.children);
        } else {
            lemma_insert_grows(child.children, segs.drop_first(), wildcard, path.drop_first());
        }
    }
}

/// The walk components that decide a lookup — whether the full walk ends
/// on a terminal, and the depth of the deepest matching boundary — are
/// untouched by inserting a label sequence that is not the query (exact)
/// and whose boundary prefix the query does not properly extend
/// (wildcard).
proof fn lemma_frame_core(
    m: Map<Seq<char>, NodeModel>,
    segs: Seq<Seq<char>>,
    w: bool,
    q: Seq<Seq<char>>,
)
    requires
        w ==> segs.len() >= 2,
        w ==> !(q.len() > segs.len() - 1 && q.take(segs.len() - 1) == segs.take(segs.len() - 1)),
        !w ==> q != segs,
    ensures
        (q.len() > 0 && walk_len(insert_model(m, segs, w), q) == q.len() && node_at(
            insert_model(m, segs, w),
            q,
        ).terminal) <==> (q.len() > 0 && walk_len(m, q) == q.len() && node_at(m, q).terminal),
        deepest_wild(insert_model(m, segs, w), q) == deepest_wild(m, q),
    decreases segs.len(),
{
    let m1 = insert_model(m, segs, w);
    if segs.len() == 0 || q.len() == 0 {
    } else {
        let k = segs[0];
        let child = if m.contains_key(k) {
            m[k]
        } else {
            empty_node()
        };
        let qp = q.drop_first();
        if q[0] != k {
            if m.contains_key(q[0]) {
                assert(m1[q[0]] == m[q[0]]);
                assert(walk_len(m1, q) == 1 + walk_len(m[q[0]].children, qp));
                assert(walk_len(m, q) == 1 + walk_len(m[q[0]].children, qp));
                if q.len() > 1 {
                    assert(node_at(m1, q) == node_at(m[q[0]].children, qp));
                    assert(node_at(m, q) == node_at(m[q[0]].children, qp));
                    assert(deepest_wild(m1, q) == deepest_wild(m, q));
                } else {
                    assert(node_at(m1, q) == m[q[0]]);
                    assert(node_at(m, q) == m[q[0]]);
                }
            } else {
                assert(!m1.contains_key(q[0]));
                assert(walk_len(m1, q) == 0 && walk_len(m, q) == 0);
                assert(deepest_wild(m1, q) == 0 && deepest_wild(m, q) == 0);
            }
        } else if w && segs.len() == 2 {
            assert(q.take(1) =~= segs.take(1));
            assert(q.len() == 1);
            assert(m1[k] == (NodeModel {
                wildcard: true,
                terminal: child.terminal,
                children: child.children,
            }));
            assert(walk_len(child.children, qp) == 0);
            assert(walk_len(m1, q) == 1);
            assert(node_at(m1, q) == m1[k]);
            if m.contains_key(k) {
                assert(walk_len(m, q) == 1 + walk_len(child.children, qp));
                assert(node_at(m, q) == m[k]);
            } else {
                assert(walk_len(m, q) == 0);
            }
        } else if !w && segs.len() == 1 {
            if q.len() == 1 {
                assert(q =~= segs);
            }
            assert(q.len() >= 2);
            assert(m1[k] == (NodeModel {
                wildcard: child.wildcard,
                terminal: true,
                children: child.children,
            }));
            assert(walk_len(m1, q) == 1 + walk_len(child.children, qp));
            assert(node_at(m1, q) == node_at(child.children, qp));
            assert(deepest_wild(m1, q) == (if deepest_wild(child.children, qp) > 0 {
                1 + deepest_wild(child.children, qp)
            } else if child.wildcard {
                1int
            } else {
                0int
            }));
            if m.contains_key(k) {
                assert(walk_len(m, q) == 1 + walk_len(child.children, qp));
                assert(node_at(m, q) == node_at(child.children, qp));
                assert(deepest_wild(m, q) == (if deepest_wild(child.children, qp) > 0 {
                    1 + deepest_wild(child.children, qp)
                } else if child.wildcard {
                    1int
                } else {
                    0int
                }));
            } else {
                assert(walk_len(m, q) == 0);
                assert(deepest_wild(m, q) == 0);
                assert(walk_len(child.children, qp) == 0);
                assert(deepest_wild(child.children, qp) == 0);
            }
        } else {
            let segsp = segs.drop_first();
            if !w {
                if qp == segsp {
                    assert(q =~= seq![q.first()] + qp);
                    assert(segs =~= seq![segs.first()] + segsp);
                    assert(q == segs);
                }
            } else {
                let kk = segs.len() - 1;
                if qp.len() > kk - 1 && qp.take(kk - 1) == segsp.take(kk - 1) {
                    assert(q.take(kk) =~= seq![k] + qp.take(kk - 1));
                    assert(segs.take(kk) =~= seq![k] + segsp.take(kk - 1));
                    assert(false);
                }
            }
            lemma_frame_core(child.children, segsp, w, qp);
            let cp = insert_model(child.children, segsp, w);
            assert(m1[k] == (NodeModel {
                wildcard: child.wildcard,
                terminal: child.terminal,
                children: cp,
            }));
            assert(walk_len(m1, q) == 1 + walk_len(cp, qp));
            if q.len() == 1 {
                assert(walk_len(cp, qp) == 0 && walk_len(child.children, qp) == 0);
                assert(node_at(m1, q) == m1[k]);
                if m.contains_key(k) {
                    assert(walk_len(m, q) == 1 + walk_len(child.children, qp));
                    assert(node_at(m, q) == m[k]);
                } else {
                    assert(walk_len(m, q) == 0);
                }
            } else {
                assert(node_at(m1, q) == node_at(cp, qp));
                assert(deepest_wild(m1, q) == (if deepest_wild(cp, qp) > 0 {
                    1 + deepest_wild(cp, qp)
                } else if child.wildcard {
                    1int
                } else {
                    0int
                }));
                if m.contains_key(k) {
                    assert(walk_len(m, q) == 1 + walk_len(child.children, qp));
                    assert(node_at(m, q) == node_at(child.children, qp));
                    assert(deepest_wild(m, q) == (if deepest_wild(child.children, qp) > 0 {
                        1 + deepest_wild(child.children, qp)
                    } else if child.wildcard {
                        1int
                    } else {
                        0int
                    }));
                } else {
                    assert(walk_len(m, q) == 0);
                    assert(deepest_wild(m, q) == 0);
                    assert(walk_len(child.children, qp) == 0);
                    assert(deepest_wild(child.children, qp) == 0);
                }
            }
        }
    }
}

/// Inserting a pattern never changes the lookup of a domain the pattern
/// does not match: an exact pattern can change only the lookup of its own
/// domain, a wildcard pattern only the lookups of domains whose labels
/// properly extend those of its concrete suffix.
pub proof fn lemma_insert_frame(m: Map<Seq<char>, NodeModel>, p: Seq<char>, d: Seq<char>)
    requires
        !is_wildcard_pattern(p) ==> rsegs(p) != rsegs(d),
        is_wildcard_pattern(p) ==> !(rsegs(d).len() > rsegs(p.drop_first()).len() && rsegs(
            d,
        ).take(rsegs(p.drop_first()).len() as int) == rsegs(p.drop_first())),
    ensures
        lookup_model(insert_model(m, rsegs(p), is_wildcard_pattern(p)), rsegs(d)) == lookup_model(
            m,
            rsegs(d),
        ),
{
    let w = is_wildcard_pattern(p);
    let segs = rsegs(p);
    let q = rsegs(d);
    if w {
        let x = p.drop_first();
        assert(seq!['.'] + x =~= p);
        lemma_rsegs_dot(x);
        lemma_rsegs_len(x);
        assert(segs.take(segs.len() - 1) =~= rsegs(x));
        if q.len() > segs.len() - 1 && q.take(segs.len() - 1) == segs.take(segs.len() - 1) {
            assert(q.take(rsegs(x).len() as int) == rsegs(x));
            assert(false);
        }
    }
    lemma_frame_core(m, segs, w, q);
}

/// Exact beats wildcard: a walk that consumes every label of the query
/// onto a terminal node reports that node and the full suffix, whatever
/// wildcard boundaries it passed on the way down.
pub proof fn lemma_exact_beats_wildcard(m: Map<Seq<char>, NodeModel>, segs: Seq<Seq<char>>)
    requires
        segs.len() >= 1,
        path_exists(m, segs),
        node_at(m, segs).terminal,
    ensures
        traverse_model(m, segs) == Some(
            (suffix_string(segs, segs.len() as int), node_at(m, segs)),
        ),
{
    lemma_walk_full(m, segs);
}

/// The deepest wildcard wins: no matching wildcard boundary stands on the
/// walked path deeper than the one the traversal falls back to (a
/// boundary at the query's own final label matches nothing and is not
/// counted). Together with [`crate::model::lemma_deepest_wild`], which
/// puts a boundary at that depth, this pins the fallback as the deepest
/// matching boundary passed.
pub proof fn lemma_deepest_wild_max(m: Map<Seq<char>, NodeModel>, segs: Seq<Seq<char>>)
    ensures
        forall|e: int|
            deepest_wild(m, segs) < e <= walk_len(m, segs) && e < segs.len() ==> !node_at(
                m,
                #[trigger] segs.take(e),
            ).wildcard,
    decreases segs.len(),
{
    if segs.len() <= 1 || !m.contains_key(segs[0]) {
    } else {
        let child = m[segs[0]];
        lemma_deepest_wild_max(child.children, segs.drop_first());
        lemma_deepest_wild(child.children, segs.drop_first());
        lemma_walk_len(m, segs);
        let dw = deepest_wild(m, segs);
        let rest = deepest_wild(child.children, segs.drop_first());
        assert forall|e: int|
            dw < e <= walk_len(m, segs) && e < segs.len() implies !node_at(
            m,
            #[trigger] segs.take(e),
        ).wildcard by {
            if e == 1 {
                assert(segs.take(1)[0] == segs[0]);
                assert(node_at(m, segs.take(1)) == m[segs[0]]);
            } else {
                assert(segs.take(e)[0] == segs[0]);
                assert(segs.take(e).drop_first() =~= segs.drop_first().take(e - 1));
                assert(rest < e - 1 <= walk_len(child.children, segs.drop_first()));
                assert(!node_at(child.children, segs.drop_first().take(e - 1)).wildcard);
                assert(node_at(m, segs.take(e)) == node_at(
                    child.children,
                    segs.drop_first().take(e - 1),
                ));
            }
        }
    }
}

/// Wildcard match: a wildcard pattern registered on an empty tree is
/// returned, dot and all, for every domain whose labels properly extend
/// the labels of the pattern's concrete suffix.
pub proof fn lemma_wildcard_match(p: Seq<char>, d: Seq<char>)
    requires
        is_wildcard_pattern(p),
        rsegs(d).len() > rsegs(p.drop_first()).len(),
        rsegs(d).take(rsegs(p.drop_first()).len() as int) == rsegs(p.drop_first()),
    ensures
        lookup_model(
            insert_model(Map::<Seq<char>, NodeModel>::empty(), rsegs(p), is_wildcard_pattern(p)),
            rsegs(d),
        ) == Some(p),
{
    let x = p.drop_first();
    assert(seq!['.'] + x =~= p);
    lemma_rsegs_dot(x);
    lemma_rsegs_len(x);
    let n = rsegs(p).len() as int;
    let k = rsegs(x).len() as int;
    assert(k == n - 1);
    let q = rsegs(d);
    let extra = q.skip(k);
    assert(rsegs(p).take(n - 1) =~= rsegs(x));
    assert(q =~= rsegs(p).take(n - 1) + extra);
    lemma_wildcard_insert_walk(rsegs(p), extra);
    let m1 = insert_model(Map::<Seq<char>, NodeModel>::empty(), rsegs(p), true);
    assert(walk_len(m1, q) == n - 1 && deepest_wild(m1, q) == n - 1);
    assert(forall|i: int| 0 <= i < k ==> q[i] == rsegs(x)[i]);
    lemma_suffix_agree(q, rsegs(x), k);
    lemma_suffix_rsegs(x);
    assert(suffix_string(q, n - 1) == x);
    assert(lookup_model(m1, q) == Some(seq!['.'] + x));
}

/// Exact match: after registering an exact pattern (one with no leading
/// dot), on whatever tree, looking the very same string up returns that
/// string, bare.
pub proof fn lemma_exact_match(m: Map<Seq<char>, NodeModel>, s: Seq<char>)
    requires
        !is_wildcard_pattern(s),
    ensures
        lookup_model(insert_model(m, rsegs(s), is_wildcard_pattern(s)), rsegs(s)) == Some(s),
{
    let segs = rsegs(s);
    lemma_rsegs_len(s);
    let m1 = insert_model(m, segs, false);
    lemma_exact_insert_at(m, segs);
    lemma_walk_full(m1, segs);
    lemma_suffix_rsegs(s);
    assert(lookup_model(m1, segs) == Some(suffix_string(segs, segs.len() as int)));
}

} // verus!
