//! The type hierarchy and its construction.

use crate::digraph::{
    graph_add_edge, graph_add_node, graph_contains_edge, graph_edges, graph_label, graph_labels,
    graph_new, graph_node_count, graph_sources, has_incoming,
};
use crate::index::{index_entries, index_get, index_insert, index_new};
use crate::mime::{fallback, fallback_parent, is_fallback, is_inode, is_text};
use fnv::FnvHashMap;
use petgraph::graph::Graph;
use petgraph::Directed;
use vstd::prelude::*;

verus! {

/// The loaded types and the subclass relations between them.
///
/// `graph` holds one node per type identifier and an edge from a type to
/// each of its direct subclasses; `hash` maps every identifier to the number
/// of its node.
pub struct TypeStruct {
    pub graph: Graph<String, u32, Directed, u32>,
    pub hash: FnvHashMap<String, usize>,
}

/// The identifiers that the strings hold.
pub open spec fn names(v: Seq<String>) -> Seq<Seq<char>> {
    v.map_values(|s: String| s@)
}

/// The (child, parent) pairs that the pairs of strings hold.
pub open spec fn relations(v: Seq<(String, String)>) -> Seq<(Seq<char>, Seq<char>)> {
    v.map_values(|p: (String, String)| (p.0@, p.1@))
}

/// Whether `child` is declared a subclass of `parent` by a relation that
/// counts: one between two supported types.
pub open spec fn declared(
    supported: Seq<Seq<char>>,
    relations: Seq<(Seq<char>, Seq<char>)>,
    child: Seq<char>,
    parent: Seq<char>,
) -> bool {
    relations.contains((child, parent)) && supported.contains(child) && supported.contains(parent)
}

/// Whether some relation that counts gives `child` a parent.
pub open spec fn has_declared_parent(
    supported: Seq<Seq<char>>,
    relations: Seq<(Seq<char>, Seq<char>)>,
    child: Seq<char>,
) -> bool {
    exists|parent: Seq<char>| declared(supported, relations, child, parent)
}

/// `s`, with `x` at its end where `s` does not hold it.
pub open spec fn with_member<A>(s: Seq<A>, x: A) -> Seq<A> {
    if s.contains(x) {
        s
    } else {
        s.push(x)
    }
}

/// The members of `s`, each once, in the order in which they first occur.
pub open spec fn distinct<A>(s: Seq<A>) -> Seq<A>
    decreases s.len(),
{
    if s.len() == 0 {
        Seq::empty()
    } else {
        with_member(distinct(s.drop_last()), s.last())
    }
}

/// The identifiers of the nodes of the hierarchy of the supported types, by
/// node number: the supported types in the order in which they are first
/// listed, then those of the fallback types that are not among them.
pub open spec fn node_names(supported: Seq<Seq<char>>) -> Seq<Seq<char>> {
    with_member(
        with_member(
            with_member(with_member(distinct(supported), "text/plain"@), "application/octet-stream"@),
            "all/all"@,
        ),
        "all/allfiles"@,
    )
}

/// The number of the node of type `t` among `labels`.
pub open spec fn node_of(labels: Seq<Seq<char>>, t: Seq<char>) -> usize {
    choose|n: usize| n < labels.len() && labels[n as int] == t
}

/// The edges that the first `j` relations give: for every relation that
/// counts one edge from the parent to the child, in the order of the
/// relations, and none twice.
pub open spec fn declared_edges(
    labels: Seq<Seq<char>>,
    supported: Seq<Seq<char>>,
    relations: Seq<(Seq<char>, Seq<char>)>,
    j: int,
) -> Seq<(usize, usize)>
    decreases j,
{
    if j <= 0 {
        Seq::empty()
    } else {
        let before = declared_edges(labels, supported, relations, j - 1);
        let child = relations[j - 1].0;
        let parent = relations[j - 1].1;
        if supported.contains(child) && supported.contains(parent) {
            with_member(before, (node_of(labels, parent), node_of(labels, child)))
        } else {
            before
        }
    }
}

/// The edges `declared`, and behind them, for those of the first `n` nodes
/// that no edge of `declared` enters and that are no fallback types, by
/// rising node number, the edge from the fallback parent.
pub open spec fn attached_edges(labels: Seq<Seq<char>>, declared: Seq<(usize, usize)>, n: int) -> Seq<
    (usize, usize),
>
    decreases n,
{
    if n <= 0 {
        declared
    } else {
        let before = attached_edges(labels, declared, n - 1);
        if !has_incoming(declared, (n - 1) as usize) && !is_fallback(labels[n - 1]) {
            with_member(before, (node_of(labels, fallback_parent(labels[n - 1])), (n - 1) as usize))
        } else {
            before
        }
    }
}

/// The edges of the hierarchy of the supported types and the relations,
/// as pairs (parent, child), oldest first.
pub open spec fn edges_of(supported: Seq<Seq<char>>, relations: Seq<(Seq<char>, Seq<char>)>) -> Seq<
    (usize, usize),
> {
    attached_edges(
        node_names(supported),
        declared_edges(node_names(supported), supported, relations, relations.len() as int),
        node_names(supported).len() as int,
    )
}

/// Whether the labels are distinct and `entries` maps each to its place.
pub open spec fn indexed(labels: Seq<Seq<char>>, entries: Map<Seq<char>, usize>) -> bool {
    &&& forall|i: int, j: int| 0 <= i < j < labels.len() ==> labels[i] != labels[j]
    &&& forall|t: Seq<char>|
        #![trigger entries.dom().contains(t)]
        #![trigger labels.contains(t)]
        entries.dom().contains(t) <==> labels.contains(t)
    &&& forall|i: int| 0 <= i < labels.len() ==> (#[trigger] entries[labels[i]]) == i
}

/// Whether every edge joins two of the first `n` nodes and none occurs
/// twice.
pub open spec fn simple_edges(edges: Seq<(usize, usize)>, n: nat) -> bool {
    &&& forall|k: int| 0 <= k < edges.len() ==> (#[trigger] edges[k]).0 < n && edges[k].1 < n
    &&& forall|k: int, l: int| 0 <= k < l < edges.len() ==> edges[k] != edges[l]
}

impl TypeStruct {
    /// The identifier of each node, by node number.
    pub open spec fn labels(&self) -> Seq<Seq<char>> {
        graph_labels(self.graph)
    }

    /// The edges as pairs (parent, child), oldest first.
    pub open spec fn edges(&self) -> Seq<(usize, usize)> {
        graph_edges(self.graph)
    }

    /// Whether node `child` is a direct subclass of node `parent`.
    pub open spec fn is_child(&self, parent: usize, child: usize) -> bool {
        self.edges().contains((parent, child))
    }

    /// The invariant of a hierarchy: the nodes can be counted in 32 bits,
    /// no identifier has two nodes, `hash`
    /// finds the node of every identifier and of nothing else, and between
    /// two nodes there is at most one edge in each direction.
    pub open spec fn wf(&self) -> bool {
        &&& self.labels().len() <= u32::MAX
        &&& indexed(self.labels(), index_entries(self.hash))
        &&& simple_edges(self.edges(), self.labels().len())
    }

    /// Whether this is the hierarchy of the given supported types and
    /// (child, parent) relations: it is well formed, its types are the
    /// supported types and the four fallback types, numbered as
    /// `node_names` says, its edges are those of `edges_of`, and a type
    /// stands directly under another exactly where `attached` says so.
    pub open spec fn is_hierarchy_of(
        &self,
        supported: Seq<Seq<char>>,
        relations: Seq<(Seq<char>, Seq<char>)>,
    ) -> bool {
        &&& self.wf()
        &&& self.labels() == node_names(supported)
        &&& self.edges() == edges_of(supported, relations)
        &&& forall|t: Seq<char>| #[trigger]
            self.labels().contains(t) <==> supported.contains(t) || is_fallback(t)
        &&& forall|p: usize, c: usize|
            p < self.labels().len() && c < self.labels().len() ==> (#[trigger] self.is_child(p, c)
                <==> attached(
                supported,
                relations,
                self.labels()[c as int],
                self.labels()[p as int],
            ))
    }

    /// The number of the node of `mime`, if the hierarchy holds that type.
    pub fn node(&self, mime: &str) -> (r: Option<usize>)
        requires
            self.wf(),
        ensures
            r.is_some() <==> self.labels().contains(mime@),
            r.is_some() ==> r.unwrap() < self.labels().len() && self.labels()[r.unwrap() as int]
                == mime@,
    {
        find_node(&self.graph, &self.hash, mime)
    }

    /// The identifier of node `n`.
    pub fn label(&self, n: usize) -> (r: String)
        requires
            n < self.labels().len(),
        ensures
            r@ == self.labels()[n as int],
    {
        graph_label(&self.graph, n)
    }

    /// The number of nodes.
    pub fn node_count(&self) -> (n: usize)
        ensures
            n == self.labels().len(),
    {
        graph_node_count(&self.graph)
    }
}

/// What `s.push(x)` holds: what `s` holds, and `x`.
proof fn push_contains<A>(s: Seq<A>, x: A)
    ensures
        forall|t: A| #[trigger] s.push(x).contains(t) <==> s.contains(t) || t == x,
{
    assert forall|t: A| #[trigger] s.push(x).contains(t) <==> s.contains(t) || t == x by {
        if s.push(x).contains(t) {
            let i = choose|i: int| 0 <= i < s.push(x).len() && s.push(x)[i] == t;
            if i < s.len() {
                assert(s[i] == t);
            }
        }
        if s.contains(t) {
            let i = choose|i: int| 0 <= i < s.len() && s[i] == t;
            assert(s.push(x)[i] == t);
        }
        assert(s.push(x)[s.len() as int] == x);
    }
}

/// The node of `name`, if the graph holds one.
fn find_node(
    graph: &Graph<String, u32, Directed, u32>,
    hash: &FnvHashMap<String, usize>,
    name: &str,
) -> (r: Option<usize>)
    requires
        indexed(graph_labels(*graph), index_entries(*hash)),
    ensures
        r.is_some() <==> graph_labels(*graph).contains(name@),
        r.is_some() ==> r.unwrap() < graph_labels(*graph).len() && graph_labels(
            *graph,
        )[r.unwrap() as int] == name@,
{
    let r = index_get(hash, name);
    proof {
        let labels = graph_labels(*graph);
        if labels.contains(name@) {
            let i = choose|i: int| 0 <= i < labels.len() && labels[i] == name@;
            assert(index_entries(*hash)[labels[i]] == i);
        }
    }
    r
}

/// Adds the edge from `parent` to `child` unless the graph holds it.
fn link(graph: &mut Graph<String, u32, Directed, u32>, parent: usize, child: usize)
    requires
        parent < graph_labels(*old(graph)).len(),
        child < graph_labels(*old(graph)).len(),
        simple_edges(graph_edges(*old(graph)), graph_labels(*old(graph)).len()),
        graph_edges(*old(graph)).len() < u32::MAX,
    ensures
        graph_labels(*final(graph)) == graph_labels(*old(graph)),
        simple_edges(graph_edges(*final(graph)), graph_labels(*final(graph)).len()),
        graph_edges(*final(graph)).len() <= graph_edges(*old(graph)).len() + 1,
        graph_edges(*final(graph)) == with_member(graph_edges(*old(graph)), (parent, child)),
        forall|e: (usize, usize)| #[trigger]
            graph_edges(*final(graph)).contains(e) <==> graph_edges(*old(graph)).contains(e) || e
                == (parent, child),
{
    let ghost before = graph_edges(*graph);
    if !graph_contains_edge(graph, parent, child) {
        graph_add_edge(graph, parent, child, 0);
        proof {
            push_contains(before, (parent, child));
            let after = before.push((parent, child));
            assert forall|k: int, l: int| 0 <= k < l < after.len() implies after[k] != after[l] by {
                assert(before[k] == after[k]);
                assert(before.contains(before[k]));
            }
        }
    }
}

/// Finds the node of `name`, adding it where the graph does not hold it yet.
fn intern(
    graph: &mut Graph<String, u32, Directed, u32>,
    hash: &mut FnvHashMap<String, usize>,
    name: &str,
) -> (n: usize)
    requires
        indexed(graph_labels(*old(graph)), index_entries(*old(hash))),
        graph_labels(*old(graph)).len() < u32::MAX,
    ensures
        indexed(graph_labels(*final(graph)), index_entries(*final(hash))),
        graph_edges(*final(graph)) == graph_edges(*old(graph)),
        graph_labels(*final(graph)) == (if graph_labels(*old(graph)).contains(name@) {
            graph_labels(*old(graph))
        } else {
            graph_labels(*old(graph)).push(name@)
        }),
        n < graph_labels(*final(graph)).len(),
        graph_labels(*final(graph))[n as int] == name@,
{
    let ghost labels = graph_labels(*graph);
    let ghost entries = index_entries(*hash);
    match index_get(hash, name) {
        Some(n) => {
            proof {
                let i = choose|i: int| 0 <= i < labels.len() && labels[i] == name@;
                assert(entries[labels[i]] == i);
            }
            n
        },
        None => {
            let n = graph_add_node(graph, name.to_owned());
            index_insert(hash, name.to_owned(), n);
            proof {
                let after = labels.push(name@);
                let stored = entries.insert(name@, n);
                assert forall|t: Seq<char>| stored.dom().contains(t) <==> after.contains(t) by {
                    if after.contains(t) {
                        let i = choose|i: int| 0 <= i < after.len() && after[i] == t;
                        if i < labels.len() {
                            assert(labels[i] == t);
                        }
                    }
                    if labels.contains(t) {
                        let i = choose|i: int| 0 <= i < labels.len() && labels[i] == t;
                        assert(after[i] == t);
                    }
                    assert(after[labels.len() as int] == name@);
                }
                assert forall|i: int| 0 <= i < after.len() implies (#[trigger] stored[after[i]])
                    == i by {
                    if i < labels.len() {
                        assert(labels[i] == after[i]);
                        assert(labels.contains(labels[i]));
                        assert(entries[labels[i]] == i);
                    }
                }
                assert forall|i: int, j: int| 0 <= i < j < after.len() implies after[i]
                    != after[j] by {
                    assert(labels[i] == after[i]);
                    assert(labels.contains(labels[i]));
                }
            }
            n
        },
    }
}

/// Whether the hierarchy puts `child` directly under `parent`: by a
/// relation that counts, or, for a type that no such relation gives a
/// parent and that is no fallback type, because `parent` is its fallback
/// parent.
pub open spec fn attached(
    supported: Seq<Seq<char>>,
    relations: Seq<(Seq<char>, Seq<char>)>,
    child: Seq<char>,
    parent: Seq<char>,
) -> bool {
    ||| declared(supported, relations, child, parent)
    ||| (!has_declared_parent(supported, relations, child) && !is_fallback(child) && parent
        == fallback_parent(child))
}

/// Whether one of the first `j` relations is the pair (`child`, `parent`).
spec fn declared_before(
    relations: Seq<(Seq<char>, Seq<char>)>,
    j: int,
    child: Seq<char>,
    parent: Seq<char>,
) -> bool {
    exists|k: int| 0 <= k < j && k < relations.len() && #[trigger] relations[k] == (child, parent)
}

/// Whether `node` is one of the first `k` of `nodes`.
spec fn listed_before(nodes: Seq<usize>, k: int, node: usize) -> bool {
    exists|i: int| 0 <= i < k && i < nodes.len() && #[trigger] nodes[i] == node
}

/// A rising sequence of numbers below `n` has at most `n` members.
proof fn rising_is_short(r: Seq<usize>, n: nat)
    requires
        forall|i: int| 0 <= i < r.len() ==> (#[trigger] r[i]) < n,
        forall|i: int, j: int| 0 <= i < j < r.len() ==> r[i] < r[j],
    ensures
        r.len() <= n,
    decreases r.len(),
{
    if r.len() > 0 {
        let last = r.last();
        assert(last < n);
        assert forall|i: int| 0 <= i < r.drop_last().len() implies (#[trigger] r.drop_last()[i])
            < (n - 1) as nat by {
            assert(r.drop_last()[i] == r[i]);
            assert(r[i] < r[r.len() - 1]);
        }
        assert forall|i: int, j: int| 0 <= i < j < r.drop_last().len() implies r.drop_last()[i]
            < r.drop_last()[j] by {
            assert(r.drop_last()[i] == r[i]);
            assert(r.drop_last()[j] == r[j]);
        }
        rising_is_short(r.drop_last(), (n - 1) as nat);
    }
}

/// Distinct labels stay distinct and keep their places when one is added.
proof fn with_member_extends(s: Seq<Seq<char>>, x: Seq<char>)
    requires
        forall|i: int, j: int| 0 <= i < j < s.len() ==> s[i] != s[j],
    ensures
        s.len() <= with_member(s, x).len() <= s.len() + 1,
        forall|i: int| 0 <= i < s.len() ==> with_member(s, x)[i] == s[i],
        forall|i: int, j: int|
            0 <= i < j < with_member(s, x).len() ==> with_member(s, x)[i] != with_member(s, x)[j],
{
    let t = with_member(s, x);
    assert forall|i: int, j: int| 0 <= i < j < t.len() implies t[i] != t[j] by {
        if !s.contains(x) && j == s.len() {
            assert(s[i] == t[i]);
            assert(s.contains(s[i]));
        }
    }
}

/// Among distinct labels, the node of the label of node `n` is `n`.
proof fn node_of_is(labels: Seq<Seq<char>>, n: usize)
    requires
        forall|i: int, j: int| 0 <= i < j < labels.len() ==> labels[i] != labels[j],
        n < labels.len(),
    ensures
        node_of(labels, labels[n as int]) == n,
{
    let m = node_of(labels, labels[n as int]);
    assert(m < labels.len() && labels[m as int] == labels[n as int]);
    if m < n {
        assert(labels[m as int] != labels[n as int]);
    }
    if n < m {
        assert(labels[n as int] != labels[m as int]);
    }
}

/// Nodes that an edge of `declared` enters get no further edge.
proof fn attached_edges_skip(labels: Seq<Seq<char>>, declared: Seq<(usize, usize)>, n: int, m: int)
    requires
        0 <= n <= m <= usize::MAX,
        forall|b: usize| n <= b < m ==> has_incoming(declared, b),
    ensures
        attached_edges(labels, declared, m) == attached_edges(labels, declared, n),
    decreases m - n,
{
    if n < m {
        attached_edges_skip(labels, declared, n, m - 1);
        assert(has_incoming(declared, (m - 1) as usize));
    }
}

/// Builds the hierarchy of the supported types and the declared (child,
/// parent) relations.
///
/// Every supported type gets one node, however often it is listed. A
/// relation counts where both of its types are supported; the others are
/// dropped. The four fallback types get a node where they have none yet, and
/// every other type that no relation gives a parent is put under its
/// fallback parent. No edge is added twice.
pub fn graph_init(supported: &Vec<String>, subclasses: &Vec<(String, String)>) -> (ts: TypeStruct)
    requires
        supported.len() + subclasses.len() + 4 < u32::MAX,
    ensures
        ts.is_hierarchy_of(names(supported@), relations(subclasses@)),
{
    let mut graph = graph_new();
    let mut hash = index_new();
    let ghost sup = names(supported@);
    let ghost rel = relations(subclasses@);
    let mut i: usize = 0;
    while i < supported.len()
        invariant
            i <= supported.len(),
            sup == names(supported@),
            indexed(graph_labels(graph), index_entries(hash)),
            graph_labels(graph).len() <= i,
            graph_edges(graph).len() == 0,
            supported.len() + subclasses.len() + 4 < u32::MAX,
            graph_labels(graph) == distinct(sup.take(i as int)),
            forall|t: Seq<char>| #[trigger]
                graph_labels(graph).contains(t) <==> sup.take(i as int).contains(t),
        decreases supported.len() - i,
    {
        let ghost before = graph_labels(graph);
        intern(&mut graph, &mut hash, supported[i].as_str());
        proof {
            assert(sup.take(i + 1) == sup.take(i as int).push(sup[i as int]));
            assert(sup.take(i + 1).drop_last() == sup.take(i as int));
            push_contains(sup.take(i as int), sup[i as int]);
            push_contains(before, sup[i as int]);
        }
        i += 1;
    }
    let ghost base = graph_labels(graph);
    let ghost all = node_names(sup);
    proof {
        assert(sup.take(supported.len() as int) == sup);
        let a1 = with_member(base, "text/plain"@);
        let a2 = with_member(a1, "application/octet-stream"@);
        let a3 = with_member(a2, "all/all"@);
        with_member_extends(base, "text/plain"@);
        with_member_extends(a1, "application/octet-stream"@);
        with_member_extends(a2, "all/all"@);
        with_member_extends(a3, "all/allfiles"@);
        assert(all == with_member(a3, "all/allfiles"@));
    }
    let mut j: usize = 0;
    while j < subclasses.len()
        invariant
            j <= subclasses.len(),
            rel == relations(subclasses@),
            graph_labels(graph) == base,
            indexed(base, index_entries(hash)),
            simple_edges(graph_edges(graph), base.len()),
            graph_edges(graph).len() <= j,
            supported.len() + subclasses.len() + 4 < u32::MAX,
            base.len() <= all.len(),
            forall|i: int| 0 <= i < base.len() ==> all[i] == base[i],
            forall|i: int, j: int| 0 <= i < j < all.len() ==> all[i] != all[j],
            forall|t: Seq<char>| #[trigger] base.contains(t) <==> sup.contains(t),
            graph_edges(graph) == declared_edges(all, sup, rel, j as int),
            forall|a: usize, b: usize|
                a < base.len() && b < base.len() ==> (#[trigger] graph_edges(graph).contains(
                    (a, b),
                ) <==> declared_before(rel, j as int, base[b as int], base[a as int])),
        decreases subclasses.len() - j,
    {
        let ghost before = graph_edges(graph);
        let pair = &subclasses[j];
        let parent = find_node(&graph, &hash, pair.1.as_str());
        let child = find_node(&graph, &hash, pair.0.as_str());
        if parent.is_some() && child.is_some() {
            proof {
                node_of_is(all, parent.unwrap());
                node_of_is(all, child.unwrap());
            }
            link(&mut graph, parent.unwrap(), child.unwrap());
        }
        proof {
            let now = graph_edges(graph);
            assert(rel[j as int] == (pair.0@, pair.1@));
            assert(now == declared_edges(all, sup, rel, j + 1));
            assert forall|a: usize, b: usize| a < base.len() && b < base.len() implies (
            #[trigger] now.contains((a, b)) <==> declared_before(
                rel,
                j + 1,
                base[b as int],
                base[a as int],
            )) by {
                let goal = (base[b as int], base[a as int]);
                assert(base.contains(base[a as int]) && base.contains(base[b as int]));
                assert(before.contains((a, b)) <==> declared_before(rel, j as int, goal.0, goal.1));
                if declared_before(rel, j as int, goal.0, goal.1) {
                    let k = choose|k: int|
                        0 <= k < j && k < rel.len() && #[trigger] rel[k] == goal;
                    assert(0 <= k < j + 1 && rel[k] == goal);
                }
                if rel[j as int] == goal {
                    assert(parent.is_some() && child.is_some());
                    assert(base[parent.unwrap() as int] == base[a as int]);
                    assert(base[child.unwrap() as int] == base[b as int]);
                    assert(parent.unwrap() == a && child.unwrap() == b);
                    assert(now.contains((a, b)));
                    assert(declared_before(rel, j + 1, goal.0, goal.1));
                }
                if declared_before(rel, j + 1, goal.0, goal.1) {
                    let k = choose|k: int|
                        0 <= k < j + 1 && k < rel.len() && #[trigger] rel[k] == goal;
                    if k < j {
                        assert(declared_before(rel, j as int, goal.0, goal.1));
                    }
                }
                if now.contains((a, b)) && !before.contains((a, b)) {
                    assert((a, b) == (parent.unwrap(), child.unwrap()));
                    assert(rel[j as int] == goal);
                }
            }
        }
        j += 1;
    }
    let node_text = intern(&mut graph, &mut hash, "text/plain");
    proof {
        push_contains(base, "text/plain"@);
    }
    let ghost l1 = graph_labels(graph);
    let node_octet = intern(&mut graph, &mut hash, "application/octet-stream");
    proof {
        push_contains(l1, "application/octet-stream"@);
    }
    let ghost l2 = graph_labels(graph);
    let node_allall = intern(&mut graph, &mut hash, "all/all");
    proof {
        push_contains(l2, "all/all"@);
    }
    let ghost l3 = graph_labels(graph);
    intern(&mut graph, &mut hash, "all/allfiles");
    proof {
        push_contains(l3, "all/allfiles"@);
    }
    let ghost labels = graph_labels(graph);
    let ghost declared_edges = graph_edges(graph);
    proof {
        assert(labels == node_names(sup));
    }
    let sources = graph_sources(&graph);
    proof {
        assert(labels == all);
        if sources@.len() > 0 {
            assert forall|b: usize| 0 <= b < sources@[0] implies has_incoming(declared_edges, b) by {
                if !has_incoming(declared_edges, b) {
                    assert(sources@.contains(b));
                    let i = choose|i: int| 0 <= i < sources@.len() && sources@[i] == b;
                    assert(i == 0 || sources@[0] < sources@[i]);
                }
            }
            attached_edges_skip(labels, declared_edges, 0, sources@[0] as int);
        }
        rising_is_short(sources@, labels.len());
        assert(labels.len() <= supported.len() + 4);
        assert forall|t: Seq<char>| #[trigger]
            labels.contains(t) <==> sup.contains(t) || is_fallback(t) by {}
    }
    let mut k: usize = 0;
    while k < sources.len()
        invariant
            k <= sources.len(),
            sources.len() <= labels.len(),
            labels.len() <= supported.len() + 4,
            declared_edges.len() <= subclasses.len(),
            supported.len() + subclasses.len() + 4 < u32::MAX,
            graph_labels(graph) == labels,
            indexed(labels, index_entries(hash)),
            simple_edges(graph_edges(graph), labels.len()),
            graph_edges(graph).len() <= declared_edges.len() + k,
            forall|i: int| 0 <= i < sources@.len() ==> (#[trigger] sources@[i]) < labels.len(),
            forall|i: int|
                0 <= i < sources@.len() ==> !has_incoming(declared_edges, #[trigger] sources@[i]),
            forall|i: int, j: int| 0 <= i < j < sources@.len() ==> sources@[i] < sources@[j],
            forall|n: usize|
                n < labels.len() && !has_incoming(declared_edges, n) ==> sources@.contains(n),
            forall|i: int, j: int| 0 <= i < j < labels.len() ==> labels[i] != labels[j],
            k < sources@.len() ==> graph_edges(graph) == attached_edges(
                labels,
                declared_edges,
                sources@[k as int] as int,
            ),
            k == sources@.len() && k > 0 ==> graph_edges(graph) == attached_edges(
                labels,
                declared_edges,
                sources@[k - 1] + 1,
            ),
            k == sources@.len() && k == 0 ==> graph_edges(graph) == declared_edges,
            node_text < labels.len() && labels[node_text as int] == "text/plain"@,
            node_octet < labels.len() && labels[node_octet as int] == "application/octet-stream"@,
            node_allall < labels.len() && labels[node_allall as int] == "all/all"@,
            forall|a: usize, b: usize|
                a < labels.len() && b < labels.len() ==> (#[trigger] graph_edges(graph).contains(
                    (a, b),
                ) <==> declared_edges.contains((a, b)) || (listed_before(sources@, k as int, b)
                    && !is_fallback(labels[b as int]) && labels[a as int] == fallback_parent(
                    labels[b as int],
                ))),
        decreases sources.len() - k,
    {
        let ghost before = graph_edges(graph);
        let node = sources[k];
        let label = graph_label(&graph, node);
        let orphan = !fallback(label.as_str());
        let parent = if is_text(label.as_str()) {
            node_text
        } else if is_inode(label.as_str()) {
            node_allall
        } else {
            node_octet
        };
        if orphan {
            link(&mut graph, parent, node);
        }
        proof {
            let now = graph_edges(graph);
            assert(labels[parent as int] == fallback_parent(labels[node as int]));
            node_of_is(labels, parent);
            assert(now == attached_edges(labels, declared_edges, node + 1));
            if k + 1 < sources@.len() {
                let next = sources@[k + 1];
                assert forall|b: usize| node + 1 <= b < next implies has_incoming(
                    declared_edges,
                    b,
                ) by {
                    if !has_incoming(declared_edges, b) {
                        assert(sources@.contains(b));
                        let i = choose|i: int| 0 <= i < sources@.len() && sources@[i] == b;
                        assert(i <= k ==> i == k || sources@[i] < sources@[k as int]);
                        assert(i >= k + 1 ==> i == k + 1 || sources@[k + 1] < sources@[i]);
                    }
                }
                attached_edges_skip(labels, declared_edges, node + 1, next as int);
            }
            assert forall|a: usize, b: usize| a < labels.len() && b < labels.len() implies (
            #[trigger] now.contains((a, b)) <==> declared_edges.contains((a, b)) || (listed_before(
                sources@,
                k + 1,
                b,
            ) && !is_fallback(labels[b as int]) && labels[a as int] == fallback_parent(
                labels[b as int],
            ))) by {
                if listed_before(sources@, k as int, b) {
                    let i = choose|i: int|
                        0 <= i < k && i < sources@.len() && #[trigger] sources@[i] == b;
                    assert(0 <= i < k + 1 && sources@[i] == b);
                }
                if node == b {
                    assert(sources@[k as int] == b);
                    assert(listed_before(sources@, k + 1, b));
                    if labels[a as int] == fallback_parent(labels[b as int]) {
                        assert(a == parent);
                    }
                }
                if listed_before(sources@, k + 1, b) {
                    let i = choose|i: int|
                        0 <= i < k + 1 && i < sources@.len() && #[trigger] sources@[i] == b;
                    if i < k {
                        assert(listed_before(sources@, k as int, b));
                    }
                }
            }
        }
        k += 1;
    }
    let ts = TypeStruct { graph, hash };
    proof {
        let edges = ts.edges();
        let done: int = if sources@.len() == 0 {
            0
        } else {
            sources@[sources@.len() - 1] + 1
        };
        assert(edges == attached_edges(labels, declared_edges, done));
        assert forall|b: usize| done <= b < labels.len() implies has_incoming(declared_edges, b) by {
            if !has_incoming(declared_edges, b) {
                assert(sources@.contains(b));
                let i = choose|i: int| 0 <= i < sources@.len() && sources@[i] == b;
                assert(i == sources@.len() - 1 || sources@[i] < sources@[sources@.len() - 1]);
            }
        }
        attached_edges_skip(labels, declared_edges, done, labels.len() as int);
        assert(edges == edges_of(sup, rel));
        // A declared edge is a relation that counts, and the reverse.
        assert forall|a: usize, b: usize| a < labels.len() && b < labels.len() implies (
        #[trigger] declared_edges.contains((a, b)) <==> declared(
            sup,
            rel,
            labels[b as int],
            labels[a as int],
        )) by {
            let child = labels[b as int];
            let parent = labels[a as int];
            if declared_edges.contains((a, b)) {
                let e = choose|e: int| 0 <= e < declared_edges.len() && declared_edges[e] == (a, b);
                assert(declared_edges[e].0 < base.len() && declared_edges[e].1 < base.len());
                assert(declared_before(rel, subclasses.len() as int, base[b as int], base[a as int]));
                assert(base.contains(base[a as int]) && base.contains(base[b as int]));
            }
            if declared(sup, rel, child, parent) {
                let x = choose|x: int| 0 <= x < base.len() && base[x] == child;
                let y = choose|y: int| 0 <= y < base.len() && base[y] == parent;
                assert(labels[x] == child && labels[y] == parent);
                assert(x == b && y == a);
                let r = choose|r: int| 0 <= r < rel.len() && rel[r] == (child, parent);
                assert(declared_before(rel, subclasses.len() as int, child, parent));
            }
        }
        // A node is a source exactly where no relation that counts gives it a parent.
        assert forall|b: usize| b < labels.len() implies (listed_before(
            sources@,
            sources.len() as int,
            b,
        ) <==> !has_declared_parent(sup, rel, #[trigger] labels[b as int])) by {
            let child = labels[b as int];
            if has_declared_parent(sup, rel, child) {
                let parent = choose|parent: Seq<char>| declared(sup, rel, child, parent);
                assert(labels.contains(parent));
                let a = choose|a: int| 0 <= a < labels.len() && labels[a] == parent;
                assert(declared_edges.contains((a as usize, b)));
                let e = choose|e: int|
                    0 <= e < declared_edges.len() && declared_edges[e] == (a as usize, b);
                assert(declared_edges[e].1 == b);
                assert(has_incoming(declared_edges, b));
                if listed_before(sources@, sources.len() as int, b) {
                    let i = choose|i: int|
                        0 <= i < sources.len() && i < sources@.len() && #[trigger] sources@[i]
                            == b;
                    assert(!has_incoming(declared_edges, sources@[i]));
                }
            } else {
                if has_incoming(declared_edges, b) {
                    let e = choose|e: int|
                        0 <= e < declared_edges.len() && (#[trigger] declared_edges[e]).1 == b;
                    let a = declared_edges[e].0;
                    assert(declared_edges[e] == (a, b));
                    assert(declared_edges.contains((a, b)));
                    assert(declared(sup, rel, child, labels[a as int]));
                }
                assert(sources@.contains(b));
                let i = choose|i: int| 0 <= i < sources@.len() && sources@[i] == b;
                assert(listed_before(sources@, sources.len() as int, b));
            }
        }
        assert forall|p: usize, c: usize|
            p < ts.labels().len() && c < ts.labels().len() implies (#[trigger] ts.is_child(p, c)
            <==> attached(sup, rel, ts.labels()[c as int], ts.labels()[p as int])) by {
            assert(edges.contains((p, c)) <==> declared_edges.contains((p, c)) || (listed_before(
                sources@,
                sources.len() as int,
                c,
            ) && !is_fallback(labels[c as int]) && labels[p as int] == fallback_parent(
                labels[c as int],
            )));
        }
    }
    ts
}

/// In a hierarchy every type but the four fallback types has a parent.
pub proof fn every_type_has_a_parent(
    ts: &TypeStruct,
    supported: Seq<Seq<char>>,
    relations: Seq<(Seq<char>, Seq<char>)>,
    child: usize,
)
    requires
        ts.is_hierarchy_of(supported, relations),
        child < ts.labels().len(),
        !is_fallback(ts.labels()[child as int]),
    ensures
        exists|parent: usize| parent < ts.labels().len() && ts.is_child(parent, child),
        has_incoming(ts.edges(), child),
{
    let labels = ts.labels();
    let name = labels[child as int];
    let above = if has_declared_parent(supported, relations, name) {
        choose|parent: Seq<char>| declared(supported, relations, name, parent)
    } else {
        fallback_parent(name)
    };
    assert(is_fallback(fallback_parent(name)));
    assert(labels.contains(above));
    let parent = choose|i: int| 0 <= i < labels.len() && labels[i] == above;
    assert(attached(supported, relations, name, labels[parent]));
    assert(ts.is_child(parent as usize, child));
    let e = choose|e: int| 0 <= e < ts.edges().len() && ts.edges()[e] == (parent as usize, child);
    assert(ts.edges()[e].1 == child);
}

/// In a well-formed hierarchy no type has two nodes, and no two edges join
/// the same parent to the same child.
pub proof fn nothing_occurs_twice(ts: &TypeStruct)
    requires
        ts.wf(),
    ensures
        ts.labels().no_duplicates(),
        ts.edges().no_duplicates(),
{
    let labels = ts.labels();
    let edges = ts.edges();
    assert forall|i: int, j: int| 0 <= i < labels.len() && 0 <= j < labels.len() && i
        != j implies labels[i] != labels[j] by {
        if i < j {
            assert(labels[i] != labels[j]);
        } else {
            assert(labels[j] != labels[i]);
        }
    }
    assert forall|i: int, j: int| 0 <= i < edges.len() && 0 <= j < edges.len() && i
        != j implies edges[i] != edges[j] by {
        if i < j {
            assert(edges[i] != edges[j]);
        } else {
            assert(edges[j] != edges[i]);
        }
    }
}

} // verus!
