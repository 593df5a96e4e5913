//! The mathematical model of the tree: ghost nodes, and what insertion,
//! traversal and lookup mean over them.
//!
//! Everywhere below, a label sequence is in reverse domain order: the
//! top-level label first, the most specific label last, as
//! [`crate::segments::rsegs`] yields it.

use vstd::prelude::*;

verus! {

/// A node of the model tree: its children, keyed by label, whether it is
/// a wildcard boundary ("any subdomain below here matches"), and whether
/// it is the terminal of a registered exact pattern. A node that is
/// neither — the mere interior of a longer pattern — matches nothing by
/// itself.
pub struct NodeModel {
    pub wildcard: bool,
    pub terminal: bool,
    pub children: Map<Seq<char>, NodeModel>,
}

/// Whether a pattern asks for a wildcard match: it starts with a dot.
pub open spec fn is_wildcard_pattern(s: Seq<char>) -> bool {
    s.len() > 0 && s[0] == '.'
}

/// A fresh node: no children, not a wildcard boundary, not a terminal.
pub open spec fn empty_node() -> NodeModel {
    NodeModel { wildcard: false, terminal: false, children: Map::empty() }
}

/// The tree after inserting the reversed label sequence `segs`: one node
/// walked or created per label. A wildcard insertion marks the node one
/// label short of the full sequence as a boundary and stops there, so the
/// pattern's most specific label is never materialized; an exact insertion
/// walks every label and marks the last node as a terminal. Both marks,
/// once set, are kept by later insertions.
pub open spec fn insert_model(
    m: Map<Seq<char>, NodeModel>,
    segs: Seq<Seq<char>>,
    wildcard: bool,
) -> Map<Seq<char>, NodeModel>
    decreases segs.len(),
{
    if segs.len() == 0 {
        m
    } else {
        let k = segs[0];
        let child = if m.contains_key(k) {
            m[k]
        } else {
            empty_node()
        };
        if wildcard && segs.len() == 2 {
            m.insert(
                k,
                NodeModel { wildcard: true, terminal: child.terminal, children: child.children },
            )
        } else if !wildcard && segs.len() == 1 {
            m.insert(
                k,
                NodeModel { wildcard: child.wildcard, terminal: true, children: child.children },
            )
        } else {
            m.insert(
                k,
                NodeModel {
                    wildcard: child.wildcard,
                    terminal: child.terminal,
                    children: insert_model(child.children, segs.drop_first(), wildcard),
                },
            )
        }
    }
}

/// Whether a node exists at `path`, a nonempty reversed label sequence.
pub open spec fn path_exists(m: Map<Seq<char>, NodeModel>, path: Seq<Seq<char>>) -> bool
    decreases path.len(),
{
    path.len() >= 1 && m.contains_key(path[0]) && (path.len() == 1 || path_exists(
        m[path[0]].children,
        path.drop_first(),
    ))
}

/// The node at `path`; meaningful only where `path_exists` holds.
pub open spec fn node_at(m: Map<Seq<char>, NodeModel>, path: Seq<Seq<char>>) -> NodeModel
    decreases path.len(),
{
    if path.len() <= 1 {
        m[path[0]]
    } else {
        node_at(m[path[0]].children, path.drop_first())
    }
}

/// How many labels of `segs` the strict walk from `m` consumes before a
/// missing child stops it: the longest prefix of `segs` that is a path of
/// existing nodes.
pub open spec fn walk_len(m: Map<Seq<char>, NodeModel>, segs: Seq<Seq<char>>) -> int
    decreases segs.len(),
{
    if segs.len() == 0 || !m.contains_key(segs[0]) {
        0
    } else {
        1 + walk_len(m[segs[0]].children, segs.drop_first())
    }
}

/// The depth of the deepest wildcard boundary that the walk passes and
/// that matches, or 0 where there is none. A boundary at depth `d`
/// matches only queries of strictly more than `d` labels — the boundary
/// node itself, absent a separate exact insertion, is no match — so the
/// query's own final label is never counted.
pub open spec fn deepest_wild(m: Map<Seq<char>, NodeModel>, segs: Seq<Seq<char>>) -> int
    decreases segs.len(),
{
    if segs.len() <= 1 || !m.contains_key(segs[0]) {
        0
    } else {
        let rest = deepest_wild(m[segs[0]].children, segs.drop_first());
        if rest > 0 {
            1 + rest
        } else if m[segs[0]].wildcard {
            1
        } else {
            0
        }
    }
}

/// The dotted domain suffix made of the first `d` labels of the reversed
/// sequence `segs`: label `d - 1` down to the top-level label `segs[0]`,
/// joined by dots.
pub open spec fn suffix_string(segs: Seq<Seq<char>>, d: int) -> Seq<char>
    decreases d,
{
    if d <= 0 {
        Seq::empty()
    } else if d == 1 {
        segs[0]
    } else {
        segs[d - 1] + seq!['.'] + suffix_string(segs, d - 1)
    }
}

/// What a traversal of the tree `m` with the reversed labels `segs`
/// returns: the matched suffix and the matched node. A walk that consumes
/// every label and lands on a terminal node — the end of a registered
/// exact pattern — wins outright; otherwise the deepest matching wildcard
/// boundary it passed is the fallback; otherwise there is no match. In
/// particular a node that is only the interior of a longer pattern, or a
/// wildcard boundary with no query label below it, matches nothing.
pub open spec fn traverse_model(
    m: Map<Seq<char>, NodeModel>,
    segs: Seq<Seq<char>>,
) -> Option<(Seq<char>, NodeModel)> {
    if segs.len() > 0 && walk_len(m, segs) == segs.len() && node_at(m, segs).terminal {
        Some((suffix_string(segs, segs.len() as int), node_at(m, segs)))
    } else if deepest_wild(m, segs) > 0 {
        let d = deepest_wild(m, segs);
        Some((suffix_string(segs, d), node_at(m, segs.take(d))))
    } else {
        None
    }
}

/// What a lookup returns: the matched registered pattern itself. An exact
/// match returns the whole domain bare; a wildcard fallback returns the
/// matched suffix with the pattern's leading dot restored.
pub open spec fn lookup_model(m: Map<Seq<char>, NodeModel>, segs: Seq<Seq<char>>) -> Option<
    Seq<char>,
> {
    if segs.len() > 0 && walk_len(m, segs) == segs.len() && node_at(m, segs).terminal {
        Some(suffix_string(segs, segs.len() as int))
    } else if deepest_wild(m, segs) > 0 {
        Some(seq!['.'] + suffix_string(segs, deepest_wild(m, segs)))
    } else {
        None
    }
}

/// The walk consumes no more labels than there are, and only labels that
/// lie on an existing path: every nonempty prefix of the walked labels is
/// an existing path.
pub proof fn lemma_walk_len(m: Map<Seq<char>, NodeModel>, segs: Seq<Seq<char>>)
    ensures
        0 <= walk_len(m, segs) <= segs.len(),
        forall|d: int| 0 < d <= walk_len(m, segs) ==> path_exists(m, #[trigger] segs.take(d)),
    decreases segs.len(),
{
    if segs.len() == 0 || !m.contains_key(segs[0]) {
    } else {
        let child = m[segs[0]];
        lemma_walk_len(child.children, segs.drop_first());
        assert forall|d: int| 0 < d <= walk_len(m, segs) implies path_exists(
            m,
            #[trigger] segs.take(d),
        ) by {
            let p = segs.take(d);
            assert(p[0] == segs[0]);
            if d > 1 {
                assert(p.drop_first() =~= segs.drop_first().take(d - 1));
                assert(path_exists(child.children, segs.drop_first().take(d - 1)));
            }
        }
    }
}

/// The deepest matching wildcard boundary lies on the walked path, short
/// of the query's final label, and its node is indeed a boundary.
pub proof fn lemma_deepest_wild(m: Map<Seq<char>, NodeModel>, segs: Seq<Seq<char>>)
    ensures
        0 <= deepest_wild(m, segs) <= walk_len(m, segs),
        deepest_wild(m, segs) > 0 ==> deepest_wild(m, segs) < segs.len() && path_exists(
            m,
            segs.take(deepest_wild(m, segs)),
        ) && node_at(m, segs.take(deepest_wild(m, segs))).wildcard,
    decreases segs.len(),
{
    lemma_walk_len(m, segs);
    if segs.len() <= 1 || !m.contains_key(segs[0]) {
    } else {
        let child = m[segs[0]];
        lemma_deepest_wild(child.children, segs.drop_first());
        let d = deepest_wild(m, segs);
        if d > 0 {
            let p = segs.take(d);
            assert(p[0] == segs[0]);
            let rest = deepest_wild(child.children, segs.drop_first());
            if rest > 0 {
                assert(p.drop_first() =~= segs.drop_first().take(rest));
                assert(path_exists(child.children, p.drop_first()));
                assert(node_at(m, p) == node_at(child.children, p.drop_first()));
            } else {
                assert(d == 1);
                assert(p.len() == 1);
            }
        }
    }
}

} // verus!
