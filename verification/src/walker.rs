//! The specialization walk: from a type down to the most specific of its
//! subclasses that the candidate matches.

use crate::checker::{match_u8, Registry};
use crate::digraph::{graph_sources, graph_successors, has_incoming, targets_of};
use crate::hierarchy::TypeStruct;
use crate::mime::{rank, rank_of};
use vstd::prelude::*;

verus! {

/// The test "the type of this node has rank `k`".
pub open spec fn has_rank(labels: Seq<Seq<char>>, k: nat) -> spec_fn(usize) -> bool {
    |n: usize| rank_of(labels[n as int]) == k
}

/// The nodes of `kids` whose rank is below `k`: by rising rank, and within
/// one rank in the order of `kids`.
pub open spec fn by_rank(labels: Seq<Seq<char>>, kids: Seq<usize>, k: nat) -> Seq<usize>
    decreases k,
{
    if k == 0 {
        Seq::empty()
    } else {
        by_rank(labels, kids, (k - 1) as nat) + kids.filter(has_rank(labels, (k - 1) as nat))
    }
}

/// A test of a type against a candidate.
pub type Test = spec_fn(Seq<char>) -> bool;

/// The test of a type against `bytes` by the registry's checkers.
pub open spec fn byte_test(registry: &Registry, bytes: Seq<u8>) -> Test {
    |mime: Seq<char>| registry.matches(mime, bytes)
}

/// The sequence of characters of an optional string.
pub open spec fn text(s: Option<String>) -> Option<Seq<char>> {
    match s {
        Some(s) => Some(s@),
        None => None,
    }
}

impl TypeStruct {
    /// The direct subclasses of `node` in the order in which a walk tests
    /// them: first those among the types that are tested first, by their
    /// place among these, then the others, the most recently attached
    /// first.
    pub open spec fn children(&self, node: usize) -> Seq<usize> {
        by_rank(self.labels(), targets_of(self.edges(), node), 7)
    }

    /// The result of testing `kids` from place `pos` on: the first of them
    /// that passes `test` decides. The walk goes on below it, at most
    /// `depth` levels down, and the result is what is found there, or that
    /// node itself where none of its subclasses passes. Later members of
    /// `kids` are not looked at. Where none passes the result is `None`.
    pub open spec fn first_match(
        &self,
        kids: Seq<usize>,
        pos: int,
        depth: nat,
        test: Test,
    ) -> Option<usize>
        decreases depth, kids.len() - pos,
    {
        if pos < 0 || pos >= kids.len() {
            None
        } else if test(self.labels()[kids[pos] as int]) {
            if depth == 0 {
                Some(kids[pos])
            } else {
                match self.first_match(self.children(kids[pos]), 0, (depth - 1) as nat, test) {
                    Some(found) => Some(found),
                    None => Some(kids[pos]),
                }
            }
        } else {
            self.first_match(kids, pos + 1, depth, test)
        }
    }

    /// The most specific type below `node` that a walk of at most `depth`
    /// further levels finds.
    pub open spec fn walk(&self, node: usize, depth: nat, test: Test) -> Option<usize> {
        self.first_match(self.children(node), 0, depth, test)
    }

    /// The identifier of an optional node.
    pub open spec fn label_of(&self, node: Option<usize>) -> Option<Seq<char>> {
        match node {
            Some(n) => Some(self.labels()[n as int]),
            None => None,
        }
    }

    /// Whether `node` is the root: the first node that has no parent.
    pub open spec fn is_root(&self, node: usize) -> bool {
        &&& node < self.labels().len()
        &&& !has_incoming(self.edges(), node)
        &&& forall|m: usize| m < node ==> has_incoming(self.edges(), m)
    }

    /// The root, if there is one.
    pub open spec fn the_root(&self) -> Option<usize> {
        if exists|n: usize| self.is_root(n) {
            Some(choose|n: usize| self.is_root(n))
        } else {
            None
        }
    }

    /// The type of `bytes`: what a walk from the root finds that may
    /// descend as many levels as the hierarchy has types. Without a root
    /// there is none.
    pub open spec fn classification(&self, registry: &Registry, bytes: Seq<u8>) -> Option<
        Seq<char>,
    > {
        match self.the_root() {
            Some(n) => self.label_of(
                self.walk(n, self.labels().len(), byte_test(registry, bytes)),
            ),
            None => None,
        }
    }

    /// The direct subclasses of `node` in the order in which a walk tests
    /// them.
    pub fn children_in_order(&self, node: usize) -> (r: Vec<usize>)
        requires
            self.wf(),
            node < self.labels().len(),
        ensures
            r@ == self.children(node),
            forall|i: int| 0 <= i < r@.len() ==> (#[trigger] r@[i]) < self.labels().len(),
    {
        let kids = graph_successors(&self.graph, node);
        let ghost labels = self.labels();
        proof {
            targets_are_nodes(self.edges(), node, labels.len());
        }
        let mut out: Vec<usize> = Vec::new();
        let mut k: usize = 0;
        while k < 7
            invariant
                k <= 7,
                labels == self.labels(),
                kids@ == targets_of(self.edges(), node),
                forall|i: int| 0 <= i < kids@.len() ==> (#[trigger] kids@[i]) < labels.len(),
                forall|i: int| 0 <= i < out@.len() ==> (#[trigger] out@[i]) < labels.len(),
                out@ == by_rank(labels, kids@, k as nat),
            decreases 7 - k,
        {
            let ghost start = out@;
            let ghost wanted = has_rank(labels, k as nat);
            let mut i: usize = 0;
            proof {
                reveal(Seq::filter);
                assert(kids@.take(0).filter(wanted) == Seq::<usize>::empty());
                assert(start + Seq::<usize>::empty() == start);
            }
            while i < kids.len()
                invariant
                    i <= kids.len(),
                    k < 7,
                    labels == self.labels(),
                    wanted == has_rank(labels, k as nat),
                    forall|i: int| 0 <= i < kids@.len() ==> (#[trigger] kids@[i]) < labels.len(),
                    forall|i: int| 0 <= i < out@.len() ==> (#[trigger] out@[i]) < labels.len(),
                    out@ == start + kids@.take(i as int).filter(wanted),
                decreases kids.len() - i,
            {
                let kid = kids[i];
                let label = self.label(kid);
                proof {
                    reveal(Seq::filter);
                    assert(kids@.take(i + 1).drop_last() == kids@.take(i as int));
                    assert(kids@.take(i + 1).last() == kid);
                    assert(wanted(kid) == (rank_of(label@) == k));
                }
                if rank(label.as_str()) == k {
                    out.push(kid);
                    proof {
                        assert(out@ == start + kids@.take(i + 1).filter(wanted));
                    }
                }
                i += 1;
            }
            proof {
                assert(kids@.take(kids.len() as int) == kids@);
            }
            k += 1;
        }
        out
    }
}

/// Every target of an edge of a graph of `n` nodes is one of these nodes.
proof fn targets_are_nodes(edges: Seq<(usize, usize)>, a: usize, n: nat)
    requires
        forall|k: int| 0 <= k < edges.len() ==> (#[trigger] edges[k]).1 < n,
    ensures
        forall|i: int|
            0 <= i < targets_of(edges, a).len() ==> (#[trigger] targets_of(edges, a)[i]) < n,
    decreases edges.len(),
{
    if edges.len() > 0 {
        assert forall|k: int| 0 <= k < edges.drop_last().len() implies (
        #[trigger] edges.drop_last()[k]).1 < n by {
            assert(edges.drop_last()[k] == edges[k]);
        }
        targets_are_nodes(edges.drop_last(), a, n);
        let rest = targets_of(edges.drop_last(), a);
        assert forall|i: int| 0 <= i < targets_of(edges, a).len() implies (#[trigger] targets_of(
            edges,
            a,
        )[i]) < n by {
            if edges.last().0 == a {
                assert(edges.last() == edges[edges.len() - 1]);
                if i > 0 {
                    assert(targets_of(edges, a)[i] == rest[i - 1]);
                }
            }
        }
    }
}

/// Walks down from `parentnode`, at most `depth` further levels, and
/// returns the node of the most specific type that `bytes` matches.
fn typegraph_walker(
    ts: &TypeStruct,
    registry: &Registry,
    parentnode: usize,
    bytes: &[u8],
    depth: usize,
) -> (r: Option<usize>)
    requires
        ts.wf(),
        registry.wf(),
        parentnode < ts.labels().len(),
    ensures
        r == ts.walk(parentnode, depth as nat, byte_test(registry, bytes@)),
        r.is_some() ==> r.unwrap() < ts.labels().len(),
    decreases depth,
{
    let children = ts.children_in_order(parentnode);
    let ghost test = byte_test(registry, bytes@);
    let mut i: usize = 0;
    while i < children.len()
        invariant
            i <= children.len(),
            ts.wf(),
            registry.wf(),
            test == byte_test(registry, bytes@),
            children@ == ts.children(parentnode),
            forall|i: int| 0 <= i < children@.len() ==> (#[trigger] children@[i]) < ts.labels().len(),
            ts.first_match(children@, i as int, depth as nat, test) == ts.first_match(
                children@,
                0,
                depth as nat,
                test,
            ),
        decreases children.len() - i,
    {
        let childnode = children[i];
        let mimetype = ts.label(childnode);
        if match_u8(registry, mimetype.as_str(), bytes) {
            proof {
                assert(test(ts.labels()[children@[i as int] as int]));
                assert(ts.first_match(children@, i as int, depth as nat, test) == (if depth == 0 {
                    Some(childnode)
                } else {
                    match ts.walk(childnode, (depth - 1) as nat, test) {
                        Some(found) => Some(found),
                        None => Some(childnode),
                    }
                }));
            }
            if depth == 0 {
                return Some(childnode);
            }
            return match typegraph_walker(ts, registry, childnode, bytes, depth - 1) {
                Some(found) => Some(found),
                None => Some(childnode),
            };
        }
        proof {
            assert(!test(ts.labels()[children@[i as int] as int]));
            assert(ts.first_match(children@, i as int, depth as nat, test) == ts.first_match(
                children@,
                i + 1,
                depth as nat,
                test,
            ));
        }
        i += 1;
    }
    None
}

/// Gets the type of a byte stream, starting at a certain node of the
/// hierarchy.
///
/// Returns the most specific type below `parentnode` that the bytes match,
/// or `None` if they match no direct subclass of it. The walk descends at
/// most as many levels as the hierarchy has types.
pub fn from_u8_node(ts: &TypeStruct, registry: &Registry, parentnode: usize, bytes: &[u8]) -> (r:
    Option<String>)
    requires
        ts.wf(),
        registry.wf(),
        parentnode < ts.labels().len(),
    ensures
        text(r) == ts.label_of(
            ts.walk(parentnode, ts.labels().len(), byte_test(registry, bytes@)),
        ),
{
    match typegraph_walker(ts, registry, parentnode, bytes, ts.node_count()) {
        Some(found) => Some(ts.label(found)),
        None => None,
    }
}

/// A hierarchy has at most one root.
pub proof fn root_is_unique(ts: &TypeStruct, n: usize, m: usize)
    requires
        ts.is_root(n),
        ts.is_root(m),
    ensures
        n == m,
{
    if n < m {
        assert(has_incoming(ts.edges(), n));
    }
    if m < n {
        assert(has_incoming(ts.edges(), m));
    }
}

/// The root of the hierarchy, if it has one.
pub fn root(ts: &TypeStruct) -> (r: Option<usize>)
    ensures
        r == ts.the_root(),
        r.is_some() ==> ts.is_root(r.unwrap()),
{
    let sources = graph_sources(&ts.graph);
    if sources.len() == 0 {
        proof {
            assert forall|n: usize| !ts.is_root(n) by {
                if ts.is_root(n) {
                    assert(sources@.contains(n));
                }
            }
        }
        None
    } else {
        let first = sources[0];
        proof {
            assert forall|m: usize| m < first implies has_incoming(ts.edges(), m) by {
                if !has_incoming(ts.edges(), m) {
                    assert(sources@.contains(m));
                    let i = choose|i: int| 0 <= i < sources@.len() && sources@[i] == m;
                    assert(i == 0 || sources@[0] < sources@[i]);
                }
            }
            assert(ts.is_root(first));
            root_is_unique(ts, first, ts.the_root().unwrap());
        }
        Some(first)
    }
}

/// Gets the type of a byte stream.
///
/// The walk starts at the root of the hierarchy, the first type without a
/// parent. Returns `None` if the hierarchy has no root or the bytes match
/// no direct subclass of the root.
pub fn from_u8(ts: &TypeStruct, registry: &Registry, bytes: &[u8]) -> (r: Option<String>)
    requires
        ts.wf(),
        registry.wf(),
    ensures
        text(r) == ts.classification(registry, bytes@),
{
    let node = match root(ts) {
        Some(foundnode) => foundnode,
        None => {
            return None;
        },
    };
    from_u8_node(ts, registry, node, bytes)
}

/// Classification is total on the candidates that a direct subclass of the
/// root accepts: for these a type is found. On every other candidate, and
/// in a hierarchy without a root, none is.
pub proof fn classification_is_total(ts: &TypeStruct, registry: &Registry, bytes: Seq<u8>)
    ensures
        ts.classification(registry, bytes).is_some() <==> ts.the_root().is_some() && some_pass(
            ts,
            ts.children(ts.the_root().unwrap()),
            0,
            byte_test(registry, bytes),
        ),
{
    if ts.the_root().is_some() {
        walk_finds_what_passes(
            ts,
            ts.the_root().unwrap(),
            ts.labels().len(),
            byte_test(registry, bytes),
        );
    }
}

/// The type found depends on the hierarchy, the registry and the bytes
/// alone: equal bytes are of equal type.
pub proof fn equal_bytes_equal_type(
    ts: &TypeStruct,
    registry: &Registry,
    first: Seq<u8>,
    second: Seq<u8>,
)
    requires
        first =~= second,
    ensures
        ts.classification(registry, first) == ts.classification(registry, second),
{
}

/// Whether one of `kids` from place `pos` on passes `test`.
pub open spec fn some_pass(ts: &TypeStruct, kids: Seq<usize>, pos: int, test: Test) -> bool {
    exists|i: int| pos <= i < kids.len() && test(ts.labels()[(#[trigger] kids[i]) as int])
}

/// A search among `kids` finds a type exactly where one of them passes the
/// test, whatever the depth.
pub proof fn first_match_finds_what_passes(
    ts: &TypeStruct,
    kids: Seq<usize>,
    pos: int,
    depth: nat,
    test: Test,
)
    requires
        0 <= pos,
    ensures
        ts.first_match(kids, pos, depth, test).is_some() <==> some_pass(ts, kids, pos, test),
    decreases kids.len() - pos,
{
    if pos < kids.len() {
        first_match_finds_what_passes(ts, kids, pos + 1, depth, test);
        if test(ts.labels()[kids[pos] as int]) {
            assert(some_pass(ts, kids, pos, test));
        } else if some_pass(ts, kids, pos, test) {
            let i = choose|i: int|
                pos <= i < kids.len() && test(ts.labels()[(#[trigger] kids[i]) as int]);
            assert(pos + 1 <= i);
            assert(some_pass(ts, kids, pos + 1, test));
        } else if some_pass(ts, kids, pos + 1, test) {
            let i = choose|i: int|
                pos + 1 <= i < kids.len() && test(ts.labels()[(#[trigger] kids[i]) as int]);
            assert(pos <= i);
        }
    }
}

/// A walk finds a type if and only if the candidate passes the test of a
/// direct subclass of the starting type. So a classification is total
/// exactly on the candidates that some direct subclass of the root accepts.
pub proof fn walk_finds_what_passes(ts: &TypeStruct, node: usize, depth: nat, test: Test)
    ensures
        ts.walk(node, depth, test).is_some() <==> some_pass(ts, ts.children(node), 0, test),
{
    first_match_finds_what_passes(ts, ts.children(node), 0, depth, test);
}

/// The type that a search without descent finds is the first that passes:
/// it passes the test, and every one tested before it fails.
pub proof fn first_match_is_first(ts: &TypeStruct, kids: Seq<usize>, pos: int, test: Test)
    requires
        0 <= pos,
        ts.first_match(kids, pos, 0, test).is_some(),
    ensures
        exists|i: int|
            pos <= i < kids.len() && #[trigger] kids[i] == ts.first_match(
                kids,
                pos,
                0,
                test,
            ).unwrap() && test(ts.labels()[kids[i] as int]) && forall|j: int|
                pos <= j < i ==> !test(ts.labels()[(#[trigger] kids[j]) as int]),
    decreases kids.len() - pos,
{
    if pos < kids.len() {
        if test(ts.labels()[kids[pos] as int]) {
            assert(kids[pos] == ts.first_match(kids, pos, 0, test).unwrap());
        } else {
            first_match_is_first(ts, kids, pos + 1, test);
            let found = ts.first_match(kids, pos, 0, test).unwrap();
            let i = choose|i: int|
                pos + 1 <= i < kids.len() && #[trigger] kids[i] == found && test(
                    ts.labels()[kids[i] as int],
                ) && forall|j: int|
                    pos + 1 <= j < i ==> !test(ts.labels()[(#[trigger] kids[j]) as int]);
            assert forall|j: int| pos <= j < i implies !test(
                ts.labels()[(#[trigger] kids[j]) as int],
            ) by {
                if j > pos {
                    assert(pos + 1 <= j < i);
                }
            }
            assert(pos <= i < kids.len() && kids[i] == found);
        }
    }
}

/// A search that may descend takes the first type that passes, and below
/// it what a walk of one level less finds.
pub proof fn first_match_descends(
    ts: &TypeStruct,
    kids: Seq<usize>,
    pos: int,
    depth: nat,
    test: Test,
)
    requires
        0 <= pos,
    ensures
        ts.first_match(kids, pos, depth + 1, test) == (match ts.first_match(kids, pos, 0, test) {
            None => None,
            Some(child) => match ts.walk(child, depth, test) {
                Some(found) => Some(found),
                None => Some(child),
            },
        }),
    decreases kids.len() - pos,
{
    if pos < kids.len() && !test(ts.labels()[kids[pos] as int]) {
        first_match_descends(ts, kids, pos + 1, depth, test);
    }
}

/// Specialization wins. Let `path` lead from a starting type down to a
/// type `T`, each step going to the first direct subclass that passes the
/// test, and let no direct subclass of `T` pass it. Then a walk from the
/// starting type that may descend as far as the path is long returns `T`.
pub proof fn walk_returns_most_specific(ts: &TypeStruct, path: Seq<usize>, depth: nat, test: Test)
    requires
        path.len() >= 2,
        depth + 2 >= path.len(),
        forall|i: int|
            0 <= i < path.len() - 1 ==> ts.walk(#[trigger] path[i], 0, test) == Some(path[i + 1]),
        ts.walk(path.last(), 0, test).is_none(),
    ensures
        ts.walk(path[0], depth, test) == Some(path.last()),
    decreases path.len(),
{
    assert(ts.walk(path[0], 0, test) == Some(path[1]));
    if depth > 0 {
        let below = (depth - 1) as nat;
        first_match_descends(ts, ts.children(path[0]), 0, below, test);
        if path.len() == 2 {
            walk_finds_what_passes(ts, path[1], 0, test);
            walk_finds_what_passes(ts, path[1], below, test);
        } else {
            let rest = path.drop_first();
            assert forall|i: int| 0 <= i < rest.len() - 1 implies ts.walk(
                #[trigger] rest[i],
                0,
                test,
            ) == Some(rest[i + 1]) by {
                assert(rest[i] == path[i + 1]);
                assert(rest[i + 1] == path[i + 2]);
            }
            assert(rest.last() == path.last());
            walk_returns_most_specific(ts, rest, below, test);
            assert(rest[0] == path[1]);
        }
    }
}

/// The limit on the depth of a walk does not show where the relations have
/// no cycle. Let `height` give every type a number greater than that of
/// each of its direct subclasses. Then two walks from a type whose limits
/// are not below the height of that type find the same.
pub proof fn depth_is_enough(
    ts: &TypeStruct,
    height: spec_fn(usize) -> nat,
    node: usize,
    first: nat,
    second: nat,
    test: Test,
)
    requires
        forall|p: usize, c: usize| ts.is_child(p, c) ==> #[trigger] height(c) < #[trigger] height(p),
        height(node) <= first,
        height(node) <= second,
    ensures
        ts.walk(node, first, test) == ts.walk(node, second, test),
    decreases first,
{
    search_depth_is_enough(ts, height, node, ts.children(node), 0, first, second, test);
}

/// `depth_is_enough`, for the search among the direct subclasses `kids` of
/// `node` from place `pos` on.
proof fn search_depth_is_enough(
    ts: &TypeStruct,
    height: spec_fn(usize) -> nat,
    node: usize,
    kids: Seq<usize>,
    pos: int,
    first: nat,
    second: nat,
    test: Test,
)
    requires
        forall|p: usize, c: usize| ts.is_child(p, c) ==> #[trigger] height(c) < #[trigger] height(p),
        height(node) <= first,
        height(node) <= second,
        kids == ts.children(node),
        0 <= pos,
    ensures
        ts.first_match(kids, pos, first, test) == ts.first_match(kids, pos, second, test),
    decreases first, kids.len() - pos,
{
    if pos < kids.len() {
        let kid = kids[pos];
        if test(ts.labels()[kid as int]) {
            assert(kids.contains(kid));
            children_are_the_subclasses(ts, node, kid);
            assert(height(kid) < height(node));
            depth_is_enough(ts, height, kid, (first - 1) as nat, (second - 1) as nat, test);
        } else {
            search_depth_is_enough(ts, height, node, kids, pos + 1, first, second, test);
        }
    }
}

/// The nodes of `by_rank` have a rank below `k` and stand by rising rank.
proof fn by_rank_is_sorted(labels: Seq<Seq<char>>, kids: Seq<usize>, k: nat)
    ensures
        forall|i: int|
            0 <= i < by_rank(labels, kids, k).len() ==> rank_of(
                labels[(#[trigger] by_rank(labels, kids, k)[i]) as int],
            ) < k,
        forall|i: int, j: int|
            0 <= i < j < by_rank(labels, kids, k).len() ==> rank_of(
                labels[by_rank(labels, kids, k)[i] as int],
            ) <= rank_of(labels[by_rank(labels, kids, k)[j] as int]),
    decreases k,
{
    if k > 0 {
        let low = by_rank(labels, kids, (k - 1) as nat);
        let wanted = has_rank(labels, (k - 1) as nat);
        let top = kids.filter(wanted);
        by_rank_is_sorted(labels, kids, (k - 1) as nat);
        assert forall|i: int| 0 <= i < top.len() implies rank_of(labels[(#[trigger] top[i]) as int])
            == k - 1 by {
            kids.lemma_filter_pred(wanted, i);
        }
        let all = by_rank(labels, kids, k);
        assert(all == low + top);
        assert forall|i: int| 0 <= i < all.len() implies rank_of(labels[(#[trigger] all[i]) as int])
            < k by {
            if i < low.len() {
                assert(all[i] == low[i]);
            } else {
                assert(all[i] == top[i - low.len()]);
            }
        }
        assert forall|i: int, j: int| 0 <= i < j < all.len() implies rank_of(labels[all[i] as int])
            <= rank_of(labels[all[j] as int]) by {
            if i < low.len() {
                assert(all[i] == low[i]);
            } else {
                assert(all[i] == top[i - low.len()]);
            }
            if j < low.len() {
                assert(all[j] == low[j]);
            } else {
                assert(all[j] == top[j - low.len()]);
            }
        }
    }
}

/// The targets of the edges that leave `a` are the nodes that an edge joins
/// `a` to.
proof fn targets_are_the_joined(edges: Seq<(usize, usize)>, a: usize, c: usize)
    ensures
        targets_of(edges, a).contains(c) <==> edges.contains((a, c)),
    decreases edges.len(),
{
    if edges.len() > 0 {
        let front = edges.drop_last();
        let rest = targets_of(front, a);
        targets_are_the_joined(front, a, c);
        if edges.contains((a, c)) {
            let k = choose|k: int| 0 <= k < edges.len() && edges[k] == (a, c);
            if k < edges.len() - 1 {
                assert(front[k] == (a, c));
                let i = choose|i: int| 0 <= i < rest.len() && rest[i] == c;
                if edges.last().0 == a {
                    assert(targets_of(edges, a)[i + 1] == c);
                }
            } else {
                assert(targets_of(edges, a)[0] == c);
            }
        }
        if targets_of(edges, a).contains(c) {
            let i = choose|i: int| 0 <= i < targets_of(edges, a).len() && targets_of(edges, a)[i] == c;
            if edges.last().0 == a && i == 0 {
                assert(edges[edges.len() - 1] == (a, c));
            } else {
                if edges.last().0 == a {
                    assert(rest[i - 1] == c);
                }
                let k = choose|k: int| 0 <= k < front.len() && front[k] == (a, c);
                assert(edges[k] == (a, c));
            }
        }
    }
}

/// `by_rank` holds the nodes of `kids` whose rank is below `k`.
proof fn by_rank_keeps_members(labels: Seq<Seq<char>>, kids: Seq<usize>, k: nat, c: usize)
    ensures
        by_rank(labels, kids, k).contains(c) <==> kids.contains(c) && rank_of(labels[c as int]) < k,
    decreases k,
{
    if k > 0 {
        let low = by_rank(labels, kids, (k - 1) as nat);
        let wanted = has_rank(labels, (k - 1) as nat);
        let top = kids.filter(wanted);
        let all = by_rank(labels, kids, k);
        by_rank_keeps_members(labels, kids, (k - 1) as nat, c);
        assert(all == low + top);
        if all.contains(c) {
            let i = choose|i: int| 0 <= i < all.len() && all[i] == c;
            if i < low.len() {
                assert(low[i] == c);
            } else {
                assert(top[i - low.len()] == c);
                kids.lemma_filter_pred(wanted, i - low.len());
                kids.lemma_filter_contains_rev(wanted, c);
            }
        }
        if kids.contains(c) && rank_of(labels[c as int]) < k {
            if rank_of(labels[c as int]) == k - 1 {
                let i = choose|i: int| 0 <= i < kids.len() && kids[i] == c;
                kids.lemma_filter_contains(wanted, i);
                let j = choose|j: int| 0 <= j < top.len() && top[j] == c;
                assert(all[low.len() + j] == c);
            } else {
                let i = choose|i: int| 0 <= i < low.len() && low[i] == c;
                assert(all[i] == c);
            }
        }
    }
}

/// The types that a walk tests below a type are its direct subclasses, all
/// of them and no others.
pub proof fn children_are_the_subclasses(ts: &TypeStruct, node: usize, child: usize)
    ensures
        ts.children(node).contains(child) <==> ts.is_child(node, child),
{
    targets_are_the_joined(ts.edges(), node, child);
    by_rank_keeps_members(ts.labels(), targets_of(ts.edges(), node), 7, child);
}

/// The direct subclasses of a type are tested by rising rank: those among
/// the types that are tested first come before all others, in the order of
/// that list.
pub proof fn children_stand_by_rank(ts: &TypeStruct, node: usize)
    ensures
        forall|i: int, j: int|
            0 <= i < j < ts.children(node).len() ==> rank_of(
                ts.labels()[ts.children(node)[i] as int],
            ) <= rank_of(ts.labels()[ts.children(node)[j] as int]),
{
    by_rank_is_sorted(ts.labels(), targets_of(ts.edges(), node), 7);
}

/// Priority. Where a direct subclass `a` of lower rank than another, `b`,
/// passes the test, the walk does not go into `b`: it takes `a` or a type
/// that is tested before `a`.
pub proof fn lower_rank_wins(ts: &TypeStruct, node: usize, a: usize, b: usize, test: Test)
    requires
        ts.children(node).contains(a),
        rank_of(ts.labels()[a as int]) < rank_of(ts.labels()[b as int]),
        test(ts.labels()[a as int]),
    ensures
        ts.walk(node, 0, test).is_some(),
        ts.walk(node, 0, test) != Some(b),
{
    let kids = ts.children(node);
    let at = choose|at: int| 0 <= at < kids.len() && kids[at] == a;
    assert(test(ts.labels()[kids[at] as int]));
    assert(some_pass(ts, kids, 0, test));
    walk_finds_what_passes(ts, node, 0, test);
    first_match_is_first(ts, kids, 0, test);
    children_stand_by_rank(ts, node);
    let found = ts.walk(node, 0, test).unwrap();
    let i = choose|i: int|
        0 <= i < kids.len() && #[trigger] kids[i] == found && test(ts.labels()[kids[i] as int])
            && forall|j: int| 0 <= j < i ==> !test(ts.labels()[(#[trigger] kids[j]) as int]);
    if at < i {
        assert(!test(ts.labels()[kids[at] as int]));
    }
    assert(i <= at);
}

/// A walk taken one test at a time, for a candidate that only the caller
/// can test, such as a file. The caller asks which type is pending, tests
/// the candidate against it and hands the answer back, until no type is
/// pending.
pub struct Walker {
    /// The types still to be tested at the present level.
    pub queue: Vec<usize>,
    /// The place in `queue` of the pending type.
    pub pos: usize,
    /// The most specific type that has passed so far.
    pub best: Option<usize>,
    /// The number of levels that the walk may still descend.
    pub depth: usize,
}

impl Walker {
    /// The invariant of a walk in the hierarchy `ts`.
    pub open spec fn wf(&self, ts: &TypeStruct) -> bool {
        &&& self.pos <= self.queue@.len()
        &&& forall|i: int|
            0 <= i < self.queue@.len() ==> (#[trigger] self.queue@[i]) < ts.labels().len()
        &&& self.best.is_some() ==> self.best.unwrap() < ts.labels().len()
    }

    /// What the walk ends with if every answer still to come is that of
    /// `test`.
    pub open spec fn outcome(&self, ts: &TypeStruct, test: Test) -> Option<usize> {
        match ts.first_match(self.queue@, self.pos as int, self.depth as nat, test) {
            Some(found) => Some(found),
            None => self.best,
        }
    }

    /// Whether `other` is nearer to the end of the walk than `self`.
    pub open spec fn is_before(&self, other: &Walker) -> bool {
        other.depth < self.depth || (other.depth == self.depth && other.queue@.len() - other.pos
            < self.queue@.len() - self.pos)
    }

    /// Whether `self` is the walk that follows `before` on the answer
    /// `matched`. After a miss the next type of the level is pending. After
    /// a hit the type that passed is the best so far, and its direct
    /// subclasses make up the new level, unless the walk may descend no
    /// further: then nothing is pending any more.
    pub open spec fn after(&self, ts: &TypeStruct, before: &Walker, matched: bool) -> bool {
        let node = before.queue@[before.pos as int];
        if !matched {
            &&& self.queue@ == before.queue@
            &&& self.pos == before.pos + 1
            &&& self.best == before.best
            &&& self.depth == before.depth
        } else {
            &&& self.queue@ == (if before.depth == 0 {
                Seq::empty()
            } else {
                ts.children(node)
            })
            &&& self.pos == 0
            &&& self.best == Some(node)
            &&& self.depth == (if before.depth == 0 {
                0
            } else {
                before.depth - 1
            })
        }
    }

    /// Begins a walk below `node`. Answered by a test, it ends with what
    /// the walk of that test from `node` finds.
    pub fn start(ts: &TypeStruct, node: usize) -> (w: Walker)
        requires
            ts.wf(),
            node < ts.labels().len(),
        ensures
            w.wf(ts),
            w.queue@ == ts.children(node),
            w.pos == 0,
            w.best.is_none(),
            w.depth == ts.labels().len(),
            forall|test: Test| #[trigger]
                w.outcome(ts, test) == ts.walk(node, ts.labels().len(), test),
    {
        Walker { queue: ts.children_in_order(node), pos: 0, best: None, depth: ts.node_count() }
    }

    /// The type to test next, or `None` where the walk has ended.
    pub fn pending(&self, ts: &TypeStruct) -> (r: Option<String>)
        requires
            self.wf(ts),
        ensures
            r.is_some() <==> self.pos < self.queue@.len(),
            r.is_some() ==> r.unwrap()@ == ts.labels()[self.queue@[self.pos as int] as int],
    {
        if self.pos < self.queue.len() {
            Some(ts.label(self.queue[self.pos]))
        } else {
            None
        }
    }

    /// Takes the answer to the test of the pending type. For every test
    /// that gives this answer on the pending type, the walk still ends
    /// with what it would have ended with before; and it is nearer to its
    /// end.
    pub fn answer(&mut self, ts: &TypeStruct, matched: bool)
        requires
            ts.wf(),
            old(self).wf(ts),
            old(self).pos < old(self).queue@.len(),
        ensures
            final(self).wf(ts),
            old(self).is_before(final(self)),
            final(self).after(ts, old(self), matched),
            forall|test: Test|
                test(ts.labels()[old(self).queue@[old(self).pos as int] as int]) == matched ==> (
                #[trigger] final(self).outcome(ts, test)) == old(self).outcome(ts, test),
    {
        let node = self.queue[self.pos];
        if !matched {
            proof {
                assert(self.queue.len() == self.queue@.len());
            }
            self.pos = self.pos + 1;
        } else if self.depth == 0 {
            self.best = Some(node);
            self.queue = Vec::new();
            self.pos = 0;
        } else {
            self.best = Some(node);
            self.queue = ts.children_in_order(node);
            self.pos = 0;
            self.depth = self.depth - 1;
        }
    }

    /// The type that the walk has ended with.
    pub fn finish(&self, ts: &TypeStruct) -> (r: Option<String>)
        requires
            self.wf(ts),
            self.pos == self.queue@.len(),
        ensures
            text(r) == ts.label_of(self.best),
            forall|test: Test| text(r) == ts.label_of(#[trigger] self.outcome(ts, test)),
    {
        match self.best {
            Some(node) => Some(ts.label(node)),
            None => None,
        }
    }
}

} // verus!
