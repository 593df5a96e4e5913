//! The lookup tree itself: nodes keyed by label, insertion, traversal and
//! lookup, each verified against the model in [`crate::model`].

use vstd::prelude::*;

use crate::model::NodeModel;
use crate::model::deepest_wild;
use crate::model::empty_node;
use crate::model::insert_model;
use crate::model::is_wildcard_pattern;
use crate::model::lemma_deepest_wild;
use crate::model::lemma_walk_len;
use crate::model::lookup_model;
use crate::model::node_at;
use crate::model::suffix_string;
use crate::model::traverse_model;
use crate::model::walk_len;
use crate::segments::domain_rseg;
use crate::segments::rsegs;

verus! {

/// One node of the tree: whether it is a wildcard boundary, whether it is
/// the terminal of a registered exact pattern, its children (one entry per
/// label, labels unique), and the label it was created for (kept for
/// debugging; the matching logic never reads it back).
#[derive(Debug)]
pub struct Node {
    wildcard: bool,
    terminal: bool,
    nodes: Vec<(String, Node)>,
    data: String,
}

/// The lookup tree. The top level maps top-level-domain labels to nodes;
/// there is no root node object.
#[derive(Debug)]
pub struct DomainLookup {
    nodes: Vec<(String, Node)>,
}

/// The model of a child list: a map from each entry's label to the model
/// of its node. A later entry with the same label would win; the
/// well-formedness invariant rules that out.
pub closed spec fn entries_model(s: Seq<(String, Node)>) -> Map<Seq<char>, NodeModel>
    decreases s,
{
    if s.len() == 0 {
        Map::empty()
    } else {
        entries_model(s.drop_last()).insert(s.last().0@, s.last().1.model())
    }
}

/// Well-formedness of a child list: labels are unique, and every child is
/// itself well-formed.
pub closed spec fn entries_wf(s: Seq<(String, Node)>) -> bool
    decreases s,
{
    s.len() == 0 || (entries_wf(s.drop_last()) && s.last().1.wf() && (forall|t: int|
        0 <= t < s.len() - 1 ==> s[t].0@ != s.last().0@))
}

impl Node {
    /// The model of this node.
    pub closed spec fn model(&self) -> NodeModel
        decreases self,
    {
        NodeModel {
            wildcard: self.wildcard,
            terminal: self.terminal,
            children: entries_model(self.nodes@),
        }
    }

    /// The node's labels are unique at every level below it.
    pub closed spec fn wf(&self) -> bool
        decreases self,
    {
        entries_wf(self.nodes@)
    }

    /// A fresh node for the label `data`: no children, no terminal mark, a
    /// wildcard boundary exactly when `wildcard` is set.
    fn new(wildcard: bool, data: &str) -> (n: Node)
        ensures
            n@ == (NodeModel { wildcard, terminal: false, children: Map::empty() }),
            n.wf(),
    {
        let n = Node { wildcard, terminal: false, nodes: Vec::new(), data: data.to_owned() };
        proof {
            assert(entries_model(n.nodes@) =~= Map::<Seq<char>, NodeModel>::empty());
        }
        n
    }
}

impl View for Node {
    type V = NodeModel;

    closed spec fn view(&self) -> NodeModel {
        self.model()
    }
}

impl View for DomainLookup {
    type V = Map<Seq<char>, NodeModel>;

    closed spec fn view(&self) -> Map<Seq<char>, NodeModel> {
        entries_model(self.nodes@)
    }
}

impl DomainLookup {
    /// Labels are unique at every level of the tree.
    pub closed spec fn wf(&self) -> bool {
        entries_wf(self.nodes@)
    }

    /// An empty tree: no patterns registered, so no lookup matches.
    pub fn new() -> (t: DomainLookup)
        ensures
            t@ == Map::<Seq<char>, NodeModel>::empty(),
            t.wf(),
    {
        let t = DomainLookup { nodes: Vec::new() };
        proof {
            assert(entries_model(t.nodes@) =~= Map::<Seq<char>, NodeModel>::empty());
        }
        t
    }
}

/// What well-formedness of a child list says of each entry: no two share
/// a label, and every node is well-formed.
proof fn lemma_entries_wf_facts(s: Seq<(String, Node)>)
    requires
        entries_wf(s),
    ensures
        forall|i: int, j: int| 0 <= i < j < s.len() ==> s[i].0@ != s[j].0@,
        forall|i: int| 0 <= i < s.len() ==> (#[trigger] s[i].1).wf(),
    decreases s.len(),
{
    if s.len() > 0 {
        lemma_entries_wf_facts(s.drop_last());
        assert(forall|t: int| 0 <= t < s.len() - 1 ==> s.drop_last()[t] == s[t]);
    }
}

/// The converse: a child list whose entries have unique labels and
/// well-formed nodes is well-formed.
proof fn lemma_entries_wf_intro(s: Seq<(String, Node)>)
    requires
        forall|i: int, j: int| 0 <= i < j < s.len() ==> s[i].0@ != s[j].0@,
        forall|i: int| 0 <= i < s.len() ==> (#[trigger] s[i].1).wf(),
    ensures
        entries_wf(s),
    decreases s.len(),
{
    if s.len() > 0 {
        assert(forall|t: int| 0 <= t < s.len() - 1 ==> s.drop_last()[t] == s[t]);
        lemma_entries_wf_intro(s.drop_last());
    }
}

/// In a well-formed child list, the model maps each entry's label to the
/// model of its node.
proof fn lemma_entries_model_index(s: Seq<(String, Node)>, j: int)
    requires
        entries_wf(s),
        0 <= j < s.len(),
    ensures
        entries_model(s).contains_key(s[j].0@),
        entries_model(s)[s[j].0@] == s[j].1@,
    decreases s.len(),
{
    if j == s.len() - 1 {
    } else {
        assert(s.drop_last()[j] == s[j]);
        lemma_entries_model_index(s.drop_last(), j);
        assert(s.last().0@ != s[j].0@);
    }
}

/// A label on no entry is not in the model.
proof fn lemma_entries_model_absent(s: Seq<(String, Node)>, k: Seq<char>)
    requires
        forall|t: int| 0 <= t < s.len() ==> s[t].0@ != k,
    ensures
        !entries_model(s).contains_key(k),
    decreases s.len(),
{
    if s.len() > 0 {
        assert(forall|t: int| 0 <= t < s.drop_last().len() ==> s.drop_last()[t] == s[t]);
        lemma_entries_model_absent(s.drop_last(), k);
    }
}

/// Replacing one entry's node, label kept, is an insert on the model.
proof fn lemma_entries_model_update(s: Seq<(String, Node)>, j: int, e: (String, Node))
    requires
        entries_wf(s),
        0 <= j < s.len(),
        e.0@ == s[j].0@,
        e.1.wf(),
    ensures
        entries_wf(s.update(j, e)),
        entries_model(s.update(j, e)) == entries_model(s).insert(e.0@, e.1@),
    decreases s.len(),
{
    let s2 = s.update(j, e);
    lemma_entries_wf_facts(s);
    assert forall|i1: int, i2: int| 0 <= i1 < i2 < s2.len() implies s2[i1].0@ != s2[i2].0@ by {
        assert(s2[i1].0@ == s[i1].0@ && s2[i2].0@ == s[i2].0@);
    }
    assert forall|i: int| 0 <= i < s2.len() implies (#[trigger] s2[i].1).wf() by {
        if i != j {
            assert(s[i].1.wf());
            assert(s2[i] == s[i]);
        }
    }
    lemma_entries_wf_intro(s2);
    if j == s.len() - 1 {
        assert(s2.drop_last() =~= s.drop_last());
        assert(s2.last() == e);
        assert(entries_model(s.drop_last()).insert(s.last().0@, s.last().1@).insert(e.0@, e.1@)
            =~= entries_model(s.drop_last()).insert(e.0@, e.1@));
    } else {
        assert(s.drop_last()[j] == s[j]);
        lemma_entries_model_update(s.drop_last(), j, e);
        assert(s2.drop_last() =~= s.drop_last().update(j, e));
        assert(s2.last() == s.last());
        assert(s.last().0@ != e.0@);
        assert(entries_model(s.drop_last()).insert(e.0@, e.1@).insert(s.last().0@, s.last().1@)
            =~= entries_model(s.drop_last()).insert(s.last().0@, s.last().1@).insert(
            e.0@,
            e.1@,
        ));
    }
}

/// The index of the entry with label `key`, if the list has one.
fn find_entry(nodes: &Vec<(String, Node)>, key: &String) -> (r: Option<usize>)
    ensures
        match r {
            Some(j) => j < nodes@.len() && nodes@[j as int].0@ == key@,
            None => forall|t: int| 0 <= t < nodes@.len() ==> nodes@[t].0@ != key@,
        },
{
    let n = nodes.len();
    let mut j: usize = 0;
    while j < n
        invariant
            j <= n == nodes@.len(),
            forall|t: int| 0 <= t < j ==> nodes@[t].0@ != key@,
        decreases n - j,
    {
        if nodes[j].0 == *key {
            return Some(j);
        }
        j = j + 1;
    }
    None
}

/// Inserts the labels `segs[i..]` below the child list `nodes`: one node
/// walked or created per label. A wildcard insertion marks the node one
/// label short of the end as a boundary and stops there; an exact
/// insertion marks the node at the last label as a terminal.
fn insert_entries(nodes: &mut Vec<(String, Node)>, segs: &Vec<String>, i: usize, wildcard: bool)
    requires
        entries_wf(old(nodes)@),
        i <= segs@.len(),
    ensures
        entries_wf(final(nodes)@),
        entries_model(final(nodes)@) == insert_model(
            entries_model(old(nodes)@),
            segs.deep_view().skip(i as int),
            wildcard,
        ),
    decreases segs@.len() - i,
{
    if i == segs.len() {
        proof {
            assert(segs.deep_view().skip(i as int) =~= Seq::<Seq<char>>::empty());
        }
        return;
    }
    let ghost m = entries_model(nodes@);
    let ghost rest = segs.deep_view().skip(i as int);
    proof {
        assert(rest[0] == segs@[i as int]@);
        assert(rest.drop_first() =~= segs.deep_view().skip(i as int + 1));
    }
    let boundary = wildcard && segs.len() - i == 2;
    let last = !wildcard && segs.len() - i == 1;
    let seg: &String = &segs[i];
    match find_entry(nodes, seg) {
        Some(j) => {
            proof {
                lemma_entries_model_index(nodes@, j as int);
                lemma_entries_wf_facts(nodes@);
            }
            let ghost s_old = nodes@;
            let (label, mut child) = nodes.remove(j);
            if boundary {
                child.wildcard = true;
            } else if last {
                child.terminal = true;
            } else {
                insert_entries(&mut child.nodes, segs, i + 1, wildcard);
            }
            let ghost e = (label, child);
            nodes.insert(j, (label, child));
            proof {
                assert(nodes@ =~= s_old.update(j as int, e));
                assert(e.0@ == s_old[j as int].0@);
                assert(e.1.wf());
                lemma_entries_model_update(s_old, j as int, e);
                if boundary {
                    assert(e.1@ == (NodeModel {
                        wildcard: true,
                        terminal: m[rest[0]].terminal,
                        children: m[rest[0]].children,
                    }));
                } else if last {
                    assert(e.1@ == (NodeModel {
                        wildcard: m[rest[0]].wildcard,
                        terminal: true,
                        children: m[rest[0]].children,
                    }));
                } else {
                    assert(e.1@ == (NodeModel {
                        wildcard: m[rest[0]].wildcard,
                        terminal: m[rest[0]].terminal,
                        children: insert_model(m[rest[0]].children, rest.drop_first(), wildcard),
                    }));
                }
                assert(entries_model(nodes@) == insert_model(m, rest, wildcard));
            }
        },
        None => {
            proof {
                lemma_entries_model_absent(nodes@, seg@);
                lemma_entries_wf_facts(nodes@);
            }
            let mut node = Node::new(boundary, seg.as_str());
            if last {
                node.terminal = true;
            } else if !boundary {
                insert_entries(&mut node.nodes, segs, i + 1, wildcard);
            }
            let ghost s_old = nodes@;
            let key = seg.clone();
            let ghost e = (key, node);
            nodes.push((key, node));
            proof {
                assert(nodes@.drop_last() =~= s_old);
                assert(nodes@.last() == e);
                assert(entries_model(nodes@) == entries_model(s_old).insert(e.0@, e.1@));
                if boundary {
                    assert(e.1@ == (NodeModel {
                        wildcard: true,
                        terminal: empty_node().terminal,
                        children: empty_node().children,
                    }));
                } else if last {
                    assert(e.1@ == (NodeModel {
                        wildcard: empty_node().wildcard,
                        terminal: true,
                        children: empty_node().children,
                    }));
                } else {
                    assert(e.1@ == (NodeModel {
                        wildcard: empty_node().wildcard,
                        terminal: empty_node().terminal,
                        children: insert_model(empty_node().children, rest.drop_first(), wildcard),
                    }));
                }
                assert(entries_model(nodes@) == insert_model(m, rest, wildcard));
                assert forall|i1: int, i2: int|
                    0 <= i1 < i2 < nodes@.len() implies nodes@[i1].0@ != nodes@[i2].0@ by {
                    if i2 < nodes@.len() - 1 {
                        assert(nodes@[i1] == s_old[i1] && nodes@[i2] == s_old[i2]);
                    } else {
                        assert(nodes@[i1] == s_old[i1]);
                    }
                }
                assert forall|t: int| 0 <= t < nodes@.len() implies (#[trigger] nodes@[t].1).wf() by {
                    if t < nodes@.len() - 1 {
                        assert(nodes@[t] == s_old[t]);
                        assert(s_old[t].1.wf());
                    }
                }
                lemma_entries_wf_intro(nodes@);
            }
        },
    }
}

impl DomainLookup {
    /// Registers a pattern: a wildcard suffix pattern where it starts with
    /// a dot, an exact domain otherwise.
    pub fn insert(&mut self, domain: &str)
        requires
            old(self).wf(),
        ensures
            final(self).wf(),
            final(self)@ == insert_model(
                old(self)@,
                rsegs(domain@),
                is_wildcard_pattern(domain@),
            ),
    {
        let is_wildcard = domain.unicode_len() > 0 && domain.get_char(0) == '.';
        let segments = domain_rseg(domain);
        insert_entries(&mut self.nodes, &segments, 0, is_wildcard);
        proof {
            assert(segments.deep_view().skip(0) =~= rsegs(domain@));
        }
    }
}

/// The walk below `nodes`, standing at label `i` of the reversed sequence
/// `segs`. `fqdn` is the dotted suffix of the labels consumed so far and
/// `best` the deepest matching wildcard boundary passed so far, with its
/// suffix and a mark that it is a fallback. Consuming every label onto a
/// terminal node is an exact match outright; failing that, the deepest
/// matching boundary wins; failing that, the walk hands `best` back.
fn walk<'a>(
    nodes: &'a Vec<(String, Node)>,
    segs: &Vec<String>,
    i: usize,
    fqdn: String,
    best: Option<(String, &'a Node, bool)>,
) -> (r: Option<(String, &'a Node, bool)>)
    requires
        entries_wf(nodes@),
        i < segs@.len(),
        fqdn@ == suffix_string(segs.deep_view(), i as int),
    ensures
        ({
            let full = segs.deep_view();
            let rest = full.skip(i as int);
            let m = entries_model(nodes@);
            let wl = walk_len(m, rest);
            let dw = deepest_wild(m, rest);
            if wl == rest.len() && node_at(m, rest).terminal {
                match r {
                    Some(p) => p.0@ == suffix_string(full, full.len() as int) && p.1@ == node_at(
                        m,
                        rest,
                    ) && !p.2,
                    None => false,
                }
            } else if dw > 0 {
                match r {
                    Some(p) => p.0@ == suffix_string(full, i + dw) && p.1@ == node_at(
                        m,
                        rest.take(dw),
                    ) && p.2,
                    None => false,
                }
            } else {
                r == best
            }
        }),
    decreases segs@.len() - i,
{
    let ghost full = segs.deep_view();
    let ghost rest = full.skip(i as int);
    let ghost m = entries_model(nodes@);
    proof {
        assert(rest[0] == segs@[i as int]@);
        lemma_walk_len(m, rest);
        lemma_deepest_wild(m, rest);
    }
    let seg: &String = &segs[i];
    match find_entry(nodes, seg) {
        None => {
            proof {
                lemma_entries_model_absent(nodes@, seg@);
            }
            best
        },
        Some(j) => {
            proof {
                lemma_entries_model_index(nodes@, j as int);
                lemma_entries_wf_facts(nodes@);
            }
            let child: &Node = &nodes[j].1;
            let mut new_fqdn = seg.clone();
            if i > 0 {
                new_fqdn.append(".");
                new_fqdn.append(fqdn.as_str());
            }
            proof {
                reveal_strlit(".");
                assert("."@ =~= seq!['.']);
                assert(new_fqdn@ == suffix_string(full, i + 1));
            }
            if segs.len() - i == 1 {
                proof {
                    assert(rest.len() == 1);
                    assert(walk_len(m[rest[0]].children, rest.drop_first()) == 0);
                    assert(node_at(m, rest) == m[rest[0]]);
                    assert(child@ == m[rest[0]]);
                    assert(deepest_wild(m, rest) == 0);
                }
                if child.terminal {
                    Some((new_fqdn, child, false))
                } else {
                    best
                }
            } else {
                let new_best: Option<(String, &Node, bool)> = if child.wildcard {
                    Some((new_fqdn.clone(), child, true))
                } else {
                    best
                };
                let r = walk(&child.nodes, segs, i + 1, new_fqdn, new_best);
                proof {
                    let restp = full.skip(i as int + 1);
                    assert(rest.drop_first() =~= restp);
                    let mp = entries_model(child.nodes@);
                    assert(child@ == m[rest[0]]);
                    assert(mp == m[rest[0]].children);
                    assert(walk_len(m, rest) == 1 + walk_len(mp, restp));
                    assert(node_at(m, rest) == node_at(mp, restp));
                    let dwp = deepest_wild(mp, restp);
                    let dw = deepest_wild(m, rest);
                    if dwp > 0 {
                        assert(dw == 1 + dwp);
                        assert(rest.take(dw)[0] == rest[0]);
                        assert(rest.take(dw).drop_first() =~= restp.take(dwp));
                        assert(node_at(m, rest.take(dw)) == node_at(mp, restp.take(dwp)));
                    } else if child.wildcard {
                        assert(dw == 1);
                        assert(rest.take(1)[0] == rest[0]);
                        assert(node_at(m, rest.take(1)) == m[rest[0]]);
                    } else {
                        assert(dw == 0);
                    }
                }
                r
            }
        },
    }
}

impl DomainLookup {
    /// The lower-level lookup: the matched suffix and the matched node, or
    /// nothing where the domain matches no registered pattern.
    pub fn traverse<'a>(&'a self, domain: &str) -> (r: Option<(String, &'a Node)>)
        requires
            self.wf(),
        ensures
            ({
                match (r, traverse_model(self@, rsegs(domain@))) {
                    (Some(p), Some(q)) => p.0@ == q.0 && p.1@ == q.1,
                    (None, None) => true,
                    _ => false,
                }
            }),
    {
        let segments = domain_rseg(domain);
        let r = walk(&self.nodes, &segments, 0, String::new(), None);
        proof {
            let full = segments.deep_view();
            assert(full.skip(0) =~= full);
            assert(suffix_string(full, 0) == Seq::<char>::empty());
        }
        match r {
            None => None,
            Some((suffix, node, _)) => Some((suffix, node)),
        }
    }

    /// Which registered pattern `domain` matches: the domain itself for an
    /// exact match, the matched suffix with its leading dot restored for a
    /// wildcard fallback, or `None` where no pattern matches.
    pub fn lookup(&self, domain: &str) -> (r: Option<String>)
        requires
            self.wf(),
        ensures
            r.deep_view() == lookup_model(self@, rsegs(domain@)),
    {
        let segments = domain_rseg(domain);
        let r = walk(&self.nodes, &segments, 0, String::new(), None);
        proof {
            let full = segments.deep_view();
            assert(full.skip(0) =~= full);
            assert(suffix_string(full, 0) == Seq::<char>::empty());
        }
        match r {
            None => None,
            Some((fqdn, _, fallback)) => {
                if fallback {
                    let mut out = String::from_str(".");
                    out.append(fqdn.as_str());
                    proof {
                        reveal_strlit(".");
                        assert("."@ =~= seq!['.']);
                    }
                    Some(out)
                } else {
                    Some(fqdn)
                }
            },
        }
    }
}

} // verus!
