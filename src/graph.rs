//! Depth-, node- and edge-bounded breadth-first traversal over typed
//! neighbor edges.
use vstd::prelude::*;
use crate::entry::RelationKind;
use crate::index::LexemeIndex;

verus! {

/// Default depth bound.
pub const DEFAULT_MAX_DEPTH: usize = 2;

/// Default bound on the number of nodes.
pub const DEFAULT_MAX_NODES: usize = 128;

/// Default bound on the number of edges.
pub const DEFAULT_MAX_EDGES: usize = 256;

/// Bounds of a traversal. Zero for `max_nodes` or `max_edges` means no
/// bound; no relations means all four.
#[derive(Debug, Clone)]
pub struct GraphOptions {
    pub max_depth: usize,
    pub max_nodes: usize,
    pub max_edges: usize,
    pub relations: Vec<RelationKind>,
}

impl Default for GraphOptions {
    fn default() -> (r: Self)
        ensures
            r.max_depth == DEFAULT_MAX_DEPTH,
            r.max_nodes == DEFAULT_MAX_NODES,
            r.max_edges == DEFAULT_MAX_EDGES,
            r.relations@.len() == 0,
    {
        GraphOptions {
            max_depth: DEFAULT_MAX_DEPTH,
            max_nodes: DEFAULT_MAX_NODES,
            max_edges: DEFAULT_MAX_EDGES,
            relations: Vec::new(),
        }
    }
}

#[derive(Debug, Clone)]
pub struct GraphNode {
    pub lexeme_id: u32,
    pub word: String,
    pub depth: usize,
    pub parent: Option<u32>,
    pub via: Option<RelationKind>,
}

#[derive(Debug, Clone, Copy)]
pub struct GraphEdge {
    pub from: u32,
    pub to: u32,
    pub relation: RelationKind,
}

#[derive(Debug, Clone)]
pub struct GraphTraversal {
    pub root: u32,
    pub nodes: Vec<GraphNode>,
    pub edges: Vec<GraphEdge>,
    pub max_depth_reached: usize,
}

/// A discovered node: id, depth, parent and the relation it was reached by.
pub type Discovery = (u32, usize, Option<u32>, Option<RelationKind>);

pub open spec fn node_view(n: GraphNode) -> Discovery {
    (n.lexeme_id, n.depth, n.parent, n.via)
}

pub open spec fn nodes_view(s: Seq<GraphNode>) -> Seq<Discovery> {
    s.map_values(|n: GraphNode| node_view(n))
}

/// The node bound in force: zero means none.
pub open spec fn node_bound(o: GraphOptions) -> nat {
    if o.max_nodes == 0 {
        usize::MAX as nat
    } else {
        o.max_nodes as nat
    }
}

/// The edge bound in force: zero means none.
pub open spec fn edge_bound(o: GraphOptions) -> nat {
    if o.max_edges == 0 {
        usize::MAX as nat
    } else {
        o.max_edges as nat
    }
}

/// The relations followed: none given means all four, in their fixed order.
pub open spec fn relations_followed(o: GraphOptions) -> Seq<RelationKind> {
    if o.relations@.len() == 0 {
        seq![RelationKind::Synonym, RelationKind::Antonym, RelationKind::Hypernym, RelationKind::Hyponym]
    } else {
        o.relations@
    }
}

/// Depths never decrease in discovery order, and none lies more than one
/// level below the last node taken off the queue.
pub open spec fn bfs_ordered(d: Seq<Discovery>, head: int) -> bool {
    &&& forall|i: int, j: int| 0 <= i < j < d.len() ==> (#[trigger] d[i]).1 <= (#[trigger] d[j]).1
    &&& 1 <= head <= d.len() ==> d[d.len() - 1].1 <= d[head - 1].1 + 1
}

/// Position `a` comes before position `b`: an earlier relation, or the same
/// relation and an earlier place in its neighbor list.
pub open spec fn lex_before(a: (int, int), b: (int, int)) -> bool {
    a.0 < b.0 || (a.0 == b.0 && a.1 < b.1)
}

/// A node or edge bound has been reached.
pub open spec fn saturated(nodes: nat, edges: nat, max_nodes: nat, max_edges: nat) -> bool {
    nodes >= max_nodes || edges >= max_edges
}

/// Edge `k` leaves from a place before place `q` of relation `r` of node `j`.
pub open spec fn edge_before(parents: Seq<int>, tags: Seq<(int, int)>, k: int, j: int, r: int, q: int) -> bool {
    parents[k] < j || (parents[k] == j && lex_before(tags[k], (r, q)))
}

/// Some discovered node carries lexeme `id`.
pub open spec fn discovered(d: Seq<Discovery>, id: u32) -> bool {
    exists|j: int| 0 <= j < d.len() && d[j].0 == id
}

impl LexemeIndex {
    /// Every neighbor of lexeme `id` along the first `upto` relations of
    /// `rels` is marked in `seen`.
    pub open spec fn reached_all(&self, rels: Seq<RelationKind>, id: u32, upto: int, seen: Seq<bool>) -> bool {
        forall|r: int, k: int|
            0 <= r < upto && 0 <= k < self.neighbors(id as int, rels[r]).len() ==> #[trigger] seen[self.neighbors(
                id as int,
                rels[r],
            )[k] as int]
    }

    /// Marks only get added: what was reached stays reached.
    proof fn lemma_reached_grows(
        &self,
        rels: Seq<RelationKind>,
        id: u32,
        upto: int,
        a: Seq<bool>,
        b: Seq<bool>,
    )
        requires
            self.wf(),
            id < self.n(),
            a.len() == self.n(),
            b.len() == self.n(),
            forall|y: int| 0 <= y < a.len() && #[trigger] a[y] ==> b[y],
            self.reached_all(rels, id, upto, a),
        ensures
            self.reached_all(rels, id, upto, b),
    {
        assert forall|r: int, k: int|
            0 <= r < upto && 0 <= k < self.neighbors(id as int, rels[r]).len() implies #[trigger] b[self.neighbors(
            id as int,
            rels[r],
        )[k] as int] by {
            crate::entry::lemma_neighbors_resolve(*self, id as int, rels[r], k);
            assert(a[self.neighbors(id as int, rels[r])[k] as int]);
        }
    }

    /// Lexeme `v` is a neighbor of lexeme `u` along one of the relations `rels`.
    pub open spec fn neighbor_of(&self, rels: Seq<RelationKind>, u: u32, v: u32) -> bool {
        exists|r: int, k: int|
            0 <= r < rels.len() && 0 <= k < self.neighbors(u as int, rels[r]).len() && #[trigger] self.neighbors(
                u as int,
                rels[r],
            )[k] == v
    }

    /// For each of the first `upto` nodes above the depth bound, every node
    /// that is its neighbor lies at most one level below it: no node was
    /// reached by a path longer than one through an expanded node.
    pub open spec fn relaxed(&self, rels: Seq<RelationKind>, max_depth: int, d: Seq<Discovery>, upto: int) -> bool {
        forall|i: int, j: int|
            0 <= j < upto && 0 <= i < d.len() && d[j].1 < max_depth && self.neighbor_of(rels, (#[trigger] d[j]).0, (#[trigger] d[i]).0)
                ==> d[i].1 <= d[j].1 + 1
    }

    /// The edges come in breadth-first order: `parents[k]` is the node that
    /// edge `k` leaves, among the first `upto`, and `tags[k]` the relation
    /// (as a position in `rels`) and the place in that relation's neighbor
    /// list where its target was found. Edges from earlier nodes come first;
    /// edges from one node come in relation order, then in stored order.
    pub open spec fn edges_ordered(
        &self,
        rels: Seq<RelationKind>,
        d: Seq<Discovery>,
        e: Seq<GraphEdge>,
        parents: Seq<int>,
        tags: Seq<(int, int)>,
        upto: int,
    ) -> bool {
        &&& parents.len() == e.len()
        &&& tags.len() == e.len()
        &&& forall|k: int|
            0 <= k < e.len() ==> 0 <= #[trigger] parents[k] < upto && parents[k] < d.len() && d[parents[k]].0
                == e[k].from
        &&& forall|k: int|
            0 <= k < e.len() ==> 0 <= (#[trigger] tags[k]).0 < rels.len() && rels[tags[k].0] == e[k].relation
                && 0 <= tags[k].1 < self.neighbors(e[k].from as int, rels[tags[k].0]).len() && self.neighbors(
                e[k].from as int,
                rels[tags[k].0],
            )[tags[k].1] == e[k].to
        &&& forall|k1: int, k2: int|
            0 <= k1 < k2 < e.len() ==> #[trigger] parents[k1] < #[trigger] parents[k2] || (parents[k1] == parents[k2]
                && lex_before(tags[k1], tags[k2]))
    }

    /// The neighbor at place `q` of relation `r` of node `j` was dealt with:
    /// taken as a child of `j` there, or already found (the root, or reached
    /// by an earlier edge), or skipped because a bound was reached (`sat`)
    /// after which no edge was added.
    pub open spec fn handled(
        &self,
        rels: Seq<RelationKind>,
        d: Seq<Discovery>,
        e: Seq<GraphEdge>,
        parents: Seq<int>,
        tags: Seq<(int, int)>,
        sat: bool,
        j: int,
        r: int,
        q: int,
    ) -> bool {
        let nb = self.neighbors(d[j].0 as int, rels[r])[q];
        ||| exists|k: int| 0 <= k < e.len() && parents[k] == j && tags[k] == (r, q)
        ||| d[0].0 == nb
        ||| exists|k: int| 0 <= k < e.len() && e[k].to == nb && edge_before(parents, tags, k, j, r, q)
        ||| sat && forall|k: int| 0 <= k < e.len() ==> edge_before(parents, tags, k, j, r, q)
    }

    /// Every neighbor of every node before `upto` above the depth bound was dealt with.
    pub open spec fn handled_upto(
        &self,
        rels: Seq<RelationKind>,
        d: Seq<Discovery>,
        e: Seq<GraphEdge>,
        parents: Seq<int>,
        tags: Seq<(int, int)>,
        sat: bool,
        max_depth: int,
        upto: int,
    ) -> bool {
        forall|j: int, r: int, q: int|
            0 <= j < upto && d[j].1 < max_depth && 0 <= r < rels.len() && 0 <= q < self.neighbors(
                d[j].0 as int,
                rels[r],
            ).len() ==> #[trigger] self.handled(rels, d, e, parents, tags, sat, j, r, q)
    }

    /// Every neighbor of node `j` at a place before `(ri, ni)` was dealt with.
    pub open spec fn handled_current(
        &self,
        rels: Seq<RelationKind>,
        d: Seq<Discovery>,
        e: Seq<GraphEdge>,
        parents: Seq<int>,
        tags: Seq<(int, int)>,
        sat: bool,
        j: int,
        ri: int,
        ni: int,
    ) -> bool {
        forall|r: int, q: int|
            0 <= r < rels.len() && 0 <= q < self.neighbors(d[j].0 as int, rels[r]).len() && lex_before(
                (r, q),
                (ri, ni),
            ) ==> #[trigger] self.handled(rels, d, e, parents, tags, sat, j, r, q)
    }

    /// What was dealt with stays dealt with as the traversal grows, when no
    /// bound had been reached.
    proof fn lemma_handled_grows(
        &self,
        rels: Seq<RelationKind>,
        d0: Seq<Discovery>,
        e0: Seq<GraphEdge>,
        p0: Seq<int>,
        t0: Seq<(int, int)>,
        d1: Seq<Discovery>,
        e1: Seq<GraphEdge>,
        p1: Seq<int>,
        t1: Seq<(int, int)>,
        sat: bool,
        j: int,
        r: int,
        q: int,
    )
        requires
            self.handled(rels, d0, e0, p0, t0, false, j, r, q),
            0 <= j < d0.len(),
            d0.len() >= 1,
            d0.len() <= d1.len(),
            e0.len() <= e1.len(),
            p0.len() == e0.len(),
            t0.len() == e0.len(),
            p0.len() <= p1.len(),
            t0.len() <= t1.len(),
            forall|i: int| 0 <= i < d0.len() ==> d1[i] == d0[i],
            forall|k: int| 0 <= k < e0.len() ==> e1[k] == e0[k] && p1[k] == p0[k] && t1[k] == t0[k],
        ensures
            self.handled(rels, d1, e1, p1, t1, sat, j, r, q),
    {
        let nb = self.neighbors(d0[j].0 as int, rels[r])[q];
        assert(d1[j] == d0[j]);
        assert(d1[0] == d0[0]);
        if exists|k: int| 0 <= k < e0.len() && p0[k] == j && t0[k] == (r, q) {
            let k = choose|k: int| 0 <= k < e0.len() && p0[k] == j && t0[k] == (r, q);
            assert(p1[k] == j && t1[k] == (r, q));
        } else if exists|k: int| 0 <= k < e0.len() && e0[k].to == nb && edge_before(p0, t0, k, j, r, q) {
            let k = choose|k: int| 0 <= k < e0.len() && e0[k].to == nb && edge_before(p0, t0, k, j, r, q);
            assert(e1[k].to == nb && edge_before(p1, t1, k, j, r, q));
        }
    }

    /// The traversal was taken breadth first in a fixed order:
    /// edges in order of their nodes, then of relations, then of stored
    /// neighbor order; and each neighbor of an expanded node was taken as a
    /// child, was already found, or was skipped once a bound was reached.
    pub open spec fn breadth_first(&self, o: GraphOptions, d: Seq<Discovery>, e: Seq<GraphEdge>) -> bool {
        exists|parents: Seq<int>, tags: Seq<(int, int)>|
            self.edges_ordered(relations_followed(o), d, e, parents, tags, d.len() as int)
                && #[trigger] self.handled_upto(
                relations_followed(o),
                d,
                e,
                parents,
                tags,
                saturated(d.len(), e.len(), node_bound(o), edge_bound(o)),
                o.max_depth as int,
                d.len() as int,
            )
    }

    /// Every node above the depth bound has all its neighbors, along the
    /// followed relations, among the nodes.
    pub open spec fn complete(&self, o: GraphOptions, d: Seq<Discovery>) -> bool {
        forall|i: int, r: int, k: int|
            0 <= i < d.len() && d[i].1 < o.max_depth && 0 <= r < relations_followed(o).len() && 0 <= k
                < self.neighbors(d[i].0 as int, relations_followed(o)[r]).len() ==> discovered(
                d,
                #[trigger] self.neighbors((#[trigger] d[i]).0 as int, relations_followed(o)[r])[k],
            )
    }

    /// The shape every traversal from `root` has: the root first at depth 0;
    /// no lexeme twice; depths within `max_depth`; within the node and edge
    /// bounds; and each later node reached by the edge of the same position,
    /// from an earlier node one level up, along a followed relation, to one of
    /// that node's neighbors.
    pub open spec fn traversal_ok(
        &self,
        root: u32,
        o: GraphOptions,
        d: Seq<Discovery>,
        e: Seq<GraphEdge>,
    ) -> bool {
        &&& d.len() >= 1
        &&& d[0] == (root, 0usize, None::<u32>, None::<RelationKind>)
        &&& forall|i: int, j: int| 0 <= i < j < d.len() ==> (#[trigger] d[i]).0 != (#[trigger] d[j]).0
        &&& forall|i: int| 0 <= i < d.len() ==> (#[trigger] d[i]).0 < self.n() && d[i].1 <= o.max_depth
        &&& d.len() <= node_bound(o)
        &&& e.len() <= edge_bound(o)
        &&& e.len() + 1 == d.len()
        &&& forall|k: int|
            0 <= k < e.len() ==> {
                let edge = #[trigger] e[k];
                &&& edge.to == d[k + 1].0
                &&& d[k + 1].2 == Some(edge.from)
                &&& d[k + 1].3 == Some(edge.relation)
                &&& relations_followed(o).contains(edge.relation)
                &&& self.neighbors(edge.from as int, edge.relation).contains(edge.to)
                &&& exists|p: int| 0 <= p <= k && d[p].0 == edge.from && d[k + 1].1 == d[p].1 + 1
            }
    }

    /// Breadth-first traversal of the neighbor graph from `lexeme_id`;
    /// `None` when the archive has no such lexeme.
    pub fn traverse_graph(&self, lexeme_id: u32, options: &GraphOptions) -> (r: Option<
        GraphTraversal,
    >)
        requires
            self.wf(),
        ensures
            r is Some <==> lexeme_id < self.n(),
            r matches Some(t) ==> {
                &&& t.root == lexeme_id
                &&& self.traversal_ok(lexeme_id, *options, nodes_view(t.nodes@), t.edges@)
                &&& forall|i: int|
                    0 <= i < t.nodes@.len() ==> (#[trigger] t.nodes@[i]).word@ == self.word_of(
                        t.nodes@[i].lexeme_id as int,
                    )
                &&& forall|i: int| 0 <= i < t.nodes@.len() ==> (#[trigger] t.nodes@[i]).depth <= t.max_depth_reached
                &&& exists|i: int| 0 <= i < t.nodes@.len() && t.nodes@[i].depth == t.max_depth_reached
                &&& (t.nodes@.len() < node_bound(*options) && t.edges@.len() < edge_bound(*options))
                    ==> self.complete(*options, nodes_view(t.nodes@))
                &&& forall|i: int, j: int|
                    0 <= i < j < t.nodes@.len() ==> (#[trigger] t.nodes@[i]).depth <= (#[trigger] t.nodes@[j]).depth
                &&& self.relaxed(
                    relations_followed(*options),
                    options.max_depth as int,
                    nodes_view(t.nodes@),
                    t.nodes@.len() as int,
                )
                &&& self.breadth_first(*options, nodes_view(t.nodes@), t.edges@)
            },
    {
        if lexeme_id as usize >= self.store.entries.len() {
            return None;
        }
        let max_nodes: usize = if options.max_nodes == 0 {
            usize::MAX
        } else {
            options.max_nodes
        };
        let max_edges: usize = if options.max_edges == 0 {
            usize::MAX
        } else {
            options.max_edges
        };
        let relations: Vec<RelationKind> = if options.relations.len() == 0 {
            RelationKind::all()
        } else {
            options.relations.clone()
        };
        let ghost rels = relations_followed(*options);
        assert(relations@ == rels) by {
            if options.relations@.len() != 0 {
                assert(relations@ =~= options.relations@);
            }
        }
        let n: usize = self.store.entries.len();
        let mut visited: Vec<bool> = Vec::new();
        let mut x: usize = 0;
        while x < n
            invariant
                x <= n,
                visited@.len() == x,
                forall|y: int| 0 <= y < x ==> !(#[trigger] visited@[y]),
            decreases n - x,
        {
            visited.push(false);
            x = x + 1;
        }
        let ghost unseen = visited@;
        visited.set(lexeme_id as usize, true);
        let mut found: Vec<Discovery> = Vec::new();
        found.push((lexeme_id, 0usize, None, None));
        proof {
            assert forall|y: u32| y < n implies (visited@[y as int] <==> discovered(found@, y)) by {
                if y == lexeme_id {
                    assert(found@[0].0 == y);
                } else {
                    assert(visited@[y as int] == unseen[y as int]);
                }
            }
        }
        let mut edges: Vec<GraphEdge> = Vec::new();
        let ghost mut parents: Seq<int> = Seq::empty();
        let ghost mut tags: Seq<(int, int)> = Seq::empty();
        let mut nodes: Vec<GraphNode> = Vec::new();
        let mut max_depth_reached: usize = 0;
        let mut head: usize = 0;
        while head < found.len()
            invariant
                self.wf(),
                n == self.n(),
                max_nodes == node_bound(*options),
                max_edges == edge_bound(*options),
                relations@ == rels,
                rels == relations_followed(*options),
                visited@.len() == n,
                forall|y: u32| y < n ==> (visited@[y as int] <==> discovered(found@, y)),
                self.traversal_ok(lexeme_id, *options, found@, edges@),
                head <= found@.len(),
                nodes@.len() == head,
                forall|i: int| 0 <= i < head ==> node_view(#[trigger] nodes@[i]) == found@[i],
                forall|i: int|
                    0 <= i < head ==> (#[trigger] nodes@[i]).word@ == self.word_of(nodes@[i].lexeme_id as int),
                forall|i: int| 0 <= i < head ==> (#[trigger] nodes@[i]).depth <= max_depth_reached,
                head == 0 ==> max_depth_reached == 0,
                head > 0 ==> exists|i: int| 0 <= i < head && nodes@[i].depth == max_depth_reached,
                bfs_ordered(found@, head as int),
                head == 0 ==> found@.len() == 1,
                self.relaxed(rels, options.max_depth as int, found@, head as int),
                self.edges_ordered(rels, found@, edges@, parents, tags, head as int),
                self.handled_upto(rels, found@, edges@, parents, tags, saturated(found@.len(), edges@.len(), max_nodes as nat, max_edges as nat), options.max_depth as int, head as int),
                forall|i: int|
                    0 <= i < head && (#[trigger] found@[i]).1 < options.max_depth ==> self.reached_all(
                        rels,
                        found@[i].0,
                        rels.len() as int,
                        visited@,
                    ) || saturated(found@.len(), edges@.len(), max_nodes as nat, max_edges as nat),
            ensures
                head == found@.len(),
                bfs_ordered(found@, head as int),
                self.relaxed(rels, options.max_depth as int, found@, head as int),
                self.edges_ordered(rels, found@, edges@, parents, tags, head as int),
                self.handled_upto(rels, found@, edges@, parents, tags, saturated(found@.len(), edges@.len(), max_nodes as nat, max_edges as nat), options.max_depth as int, head as int),
                forall|i: int|
                    0 <= i < head && (#[trigger] found@[i]).1 < options.max_depth ==> self.reached_all(
                        rels,
                        found@[i].0,
                        rels.len() as int,
                        visited@,
                    ) || saturated(found@.len(), edges@.len(), max_nodes as nat, max_edges as nat),
            decreases max_nodes - head,
        {
            if nodes.len() >= max_nodes {
                break;
            }
            let (current, depth, parent, via) = found[head];
            let entry = self.entry_by_id(current).unwrap();
            let word = entry.word().to_owned();
            let ghost prev_nodes = nodes@;
            nodes.push(GraphNode { lexeme_id: current, word, depth, parent, via });
            proof {
                assert forall|i: int| 0 <= i < head implies node_view(#[trigger] nodes@[i]) == found@[i] by {
                    assert(nodes@[i] == prev_nodes[i]);
                }
                assert forall|i: int| 0 <= i < head implies (#[trigger] nodes@[i]).word@ == self.word_of(nodes@[i].lexeme_id as int) by {
                    assert(nodes@[i] == prev_nodes[i]);
                }
                assert(node_view(nodes@[head as int]) == found@[head as int]);
            }
            let ghost old_max = max_depth_reached;
            if depth > max_depth_reached {
                max_depth_reached = depth;
            }
            proof {
                assert forall|i: int| 0 <= i <= head implies (#[trigger] nodes@[i]).depth <= max_depth_reached by {
                    if i < head {
                        assert(nodes@[i] == prev_nodes[i]);
                    }
                }
                if depth >= old_max {
                    assert(nodes@[head as int].depth == max_depth_reached);
                } else {
                    let w = choose|i: int| 0 <= i < head && prev_nodes[i].depth == old_max;
                    assert(nodes@[w] == prev_nodes[w]);
                }
            }
            proof {
                assert forall|i: int| 0 <= i < found@.len() implies (#[trigger] found@[i]).1 <= found@[head as int].1
                    + 1 by {
                    if i < found@.len() - 1 {
                        assert(found@[i].1 <= found@[found@.len() - 1].1);
                    }
                    if head > 0 {
                        assert(found@[head - 1].1 <= found@[head as int].1);
                    }
                }
                assert forall|i: int, j: int|
                    0 <= j < head + 1 && 0 <= i < found@.len() && found@[j].1 < options.max_depth
                        && self.neighbor_of(rels, (#[trigger] found@[j]).0, (#[trigger] found@[i]).0) implies found@[i].1
                    <= found@[j].1 + 1 by {
                    if j == head {
                        assert(found@[i].1 <= found@[head as int].1 + 1);
                    }
                }
            }
            head = head + 1;
            if depth < options.max_depth {
                let mut ri: usize = 0;
                while ri < relations.len()
                    invariant
                        self.wf(),
                        n == self.n(),
                        max_nodes == node_bound(*options),
                        max_edges == edge_bound(*options),
                        relations@ == rels,
                        rels == relations_followed(*options),
                        visited@.len() == n,
                        forall|y: u32| y < n ==> (visited@[y as int] <==> discovered(found@, y)),
                        self.traversal_ok(lexeme_id, *options, found@, edges@),
                        1 <= head <= found@.len(),
                        found@[head - 1].0 == current,
                        found@[head - 1].1 == depth,
                        depth < options.max_depth,
                        current < n,
                        forall|i: int| 0 <= i < head ==> node_view(#[trigger] nodes@[i]) == found@[i],
                        forall|i: int|
                            0 <= i < head ==> (#[trigger] nodes@[i]).word@ == self.word_of(nodes@[i].lexeme_id as int),
                        forall|i: int| 0 <= i < head ==> (#[trigger] nodes@[i]).depth <= max_depth_reached,
                        exists|i: int| 0 <= i < head && nodes@[i].depth == max_depth_reached,
                        bfs_ordered(found@, head as int),
                        self.relaxed(rels, options.max_depth as int, found@, head as int),
                        self.edges_ordered(rels, found@, edges@, parents, tags, head as int),
                        self.handled_upto(rels, found@, edges@, parents, tags, saturated(found@.len(), edges@.len(), max_nodes as nat, max_edges as nat), options.max_depth as int, head - 1),
                        self.handled_current(rels, found@, edges@, parents, tags, saturated(found@.len(), edges@.len(), max_nodes as nat, max_edges as nat), head - 1, ri as int, 0),
                        forall|k: int| 0 <= k < edges@.len() && parents[k] == head - 1 ==> (#[trigger] tags[k]).0 < ri,
                        nodes@.len() == head,
                        entry.index == self,
                        entry.id == current,
                        ri <= relations@.len(),
                        forall|i: int|
                            0 <= i < head - 1 && (#[trigger] found@[i]).1 < options.max_depth ==> self.reached_all(
                                rels,
                                found@[i].0,
                                rels.len() as int,
                                visited@,
                            ) || saturated(found@.len(), edges@.len(), max_nodes as nat, max_edges as nat),
                        self.reached_all(rels, current, ri as int, visited@) || saturated(found@.len(), edges@.len(), max_nodes as nat, max_edges as nat),
                    ensures
                        self.wf(),
                        visited@.len() == n,
                        forall|y: u32| y < n ==> (visited@[y as int] <==> discovered(found@, y)),
                        self.traversal_ok(lexeme_id, *options, found@, edges@),
                        1 <= head <= found@.len(),
                        found@[head - 1].0 == current,
                        found@[head - 1].1 == depth,
                        forall|i: int| 0 <= i < head ==> node_view(#[trigger] nodes@[i]) == found@[i],
                        forall|i: int|
                            0 <= i < head ==> (#[trigger] nodes@[i]).word@ == self.word_of(nodes@[i].lexeme_id as int),
                        forall|i: int| 0 <= i < head ==> (#[trigger] nodes@[i]).depth <= max_depth_reached,
                        exists|i: int| 0 <= i < head && nodes@[i].depth == max_depth_reached,
                        bfs_ordered(found@, head as int),
                        self.relaxed(rels, options.max_depth as int, found@, head as int),
                        self.edges_ordered(rels, found@, edges@, parents, tags, head as int),
                        self.handled_upto(rels, found@, edges@, parents, tags, saturated(found@.len(), edges@.len(), max_nodes as nat, max_edges as nat), options.max_depth as int, head - 1),
                        self.handled_current(rels, found@, edges@, parents, tags, saturated(found@.len(), edges@.len(), max_nodes as nat, max_edges as nat), head - 1, rels.len() as int, 0),
                        forall|k: int| 0 <= k < edges@.len() && parents[k] == head - 1 ==> (#[trigger] tags[k]).0 < ri + 1,
                        nodes@.len() == head,
                        forall|i: int|
                            0 <= i < head - 1 && (#[trigger] found@[i]).1 < options.max_depth ==> self.reached_all(
                                rels,
                                found@[i].0,
                                rels.len() as int,
                                visited@,
                            ) || saturated(found@.len(), edges@.len(), max_nodes as nat, max_edges as nat),
                        self.reached_all(rels, current, rels.len() as int, visited@) || saturated(found@.len(), edges@.len(), max_nodes as nat, max_edges as nat),
                    decreases relations@.len() - ri,
                {
                    let relation = relations[ri];
                    let neighbors = entry.neighbor_ids(relation);
                    let mut ni: usize = 0;
                    while ni < neighbors.len()
                        invariant
                            self.wf(),
                            n == self.n(),
                            max_nodes == node_bound(*options),
                            max_edges == edge_bound(*options),
                            relations@ == rels,
                            rels == relations_followed(*options),
                            rels.contains(relation),
                            neighbors@ == self.neighbors(current as int, relation),
                            forall|j: int| 0 <= j < neighbors@.len() ==> #[trigger] neighbors@[j] < n,
                            visited@.len() == n,
                            forall|y: u32| y < n ==> (visited@[y as int] <==> discovered(found@, y)),
                            self.traversal_ok(lexeme_id, *options, found@, edges@),
                            1 <= head <= found@.len(),
                            found@[head - 1].0 == current,
                            found@[head - 1].1 == depth,
                            depth < options.max_depth,
                            current < n,
                            forall|i: int| 0 <= i < head ==> node_view(#[trigger] nodes@[i]) == found@[i],
                            forall|i: int|
                                0 <= i < head ==> (#[trigger] nodes@[i]).word@ == self.word_of(nodes@[i].lexeme_id as int),
                            forall|i: int| 0 <= i < head ==> (#[trigger] nodes@[i]).depth <= max_depth_reached,
                            exists|i: int| 0 <= i < head && nodes@[i].depth == max_depth_reached,
                            bfs_ordered(found@, head as int),
                            self.relaxed(rels, options.max_depth as int, found@, head as int),
                            self.edges_ordered(rels, found@, edges@, parents, tags, head as int),
                            self.handled_upto(rels, found@, edges@, parents, tags, saturated(found@.len(), edges@.len(), max_nodes as nat, max_edges as nat), options.max_depth as int, head - 1),
                            self.handled_current(rels, found@, edges@, parents, tags, saturated(found@.len(), edges@.len(), max_nodes as nat, max_edges as nat), head - 1, ri as int, ni as int),
                            forall|k: int| 0 <= k < edges@.len() && parents[k] == head - 1 ==> lex_before(#[trigger] tags[k], (ri as int, ni as int)),
                            nodes@.len() == head,
                            entry.index == self,
                            entry.id == current,
                            ni <= neighbors@.len(),
                            ri < rels.len(),
                            relation == rels[ri as int],
                            forall|i: int|
                                0 <= i < head - 1 && (#[trigger] found@[i]).1 < options.max_depth ==> self.reached_all(
                                    rels,
                                    found@[i].0,
                                    rels.len() as int,
                                    visited@,
                                ) || saturated(found@.len(), edges@.len(), max_nodes as nat, max_edges as nat),
                            self.reached_all(rels, current, ri as int, visited@) || saturated(found@.len(), edges@.len(), max_nodes as nat, max_edges as nat),
                            forall|k: int| 0 <= k < ni ==> #[trigger] visited@[neighbors@[k] as int] || saturated(found@.len(), edges@.len(), max_nodes as nat, max_edges as nat),
                        ensures
                            self.wf(),
                            visited@.len() == n,
                            forall|y: u32| y < n ==> (visited@[y as int] <==> discovered(found@, y)),
                            self.traversal_ok(lexeme_id, *options, found@, edges@),
                            1 <= head <= found@.len(),
                            found@[head - 1].0 == current,
                            found@[head - 1].1 == depth,
                            forall|i: int| 0 <= i < head ==> node_view(#[trigger] nodes@[i]) == found@[i],
                            forall|i: int|
                                0 <= i < head ==> (#[trigger] nodes@[i]).word@ == self.word_of(nodes@[i].lexeme_id as int),
                            forall|i: int| 0 <= i < head ==> (#[trigger] nodes@[i]).depth <= max_depth_reached,
                            exists|i: int| 0 <= i < head && nodes@[i].depth == max_depth_reached,
                            bfs_ordered(found@, head as int),
                            self.relaxed(rels, options.max_depth as int, found@, head as int),
                            self.edges_ordered(rels, found@, edges@, parents, tags, head as int),
                            self.handled_upto(rels, found@, edges@, parents, tags, saturated(found@.len(), edges@.len(), max_nodes as nat, max_edges as nat), options.max_depth as int, head - 1),
                            self.handled_current(rels, found@, edges@, parents, tags, saturated(found@.len(), edges@.len(), max_nodes as nat, max_edges as nat), head - 1, ri + 1, 0),
                            edges@.len() >= max_edges ==> self.handled_current(rels, found@, edges@, parents, tags, saturated(found@.len(), edges@.len(), max_nodes as nat, max_edges as nat), head - 1, rels.len() as int, 0),
                            forall|k: int| 0 <= k < edges@.len() && parents[k] == head - 1 ==> (#[trigger] tags[k]).0 <= ri,
                            nodes@.len() == head,
                            forall|i: int|
                                0 <= i < head - 1 && (#[trigger] found@[i]).1 < options.max_depth ==> self.reached_all(
                                    rels,
                                    found@[i].0,
                                    rels.len() as int,
                                    visited@,
                                ) || saturated(found@.len(), edges@.len(), max_nodes as nat, max_edges as nat),
                            self.reached_all(rels, current, ri as int, visited@) || saturated(found@.len(), edges@.len(), max_nodes as nat, max_edges as nat),
                            forall|k: int| 0 <= k < neighbors@.len() ==> #[trigger] visited@[neighbors@[k] as int] || saturated(found@.len(), edges@.len(), max_nodes as nat, max_edges as nat),
                        decreases neighbors@.len() - ni,
                    {
                        let nb = neighbors[ni];
                        ni = ni + 1;
                        proof {
                            assert(neighbors@[ni - 1] == nb);
                            assert(nb == self.neighbors(found@[head - 1].0 as int, rels[ri as int])[ni - 1]);
                        }
                        if visited[nb as usize] {
                            proof {
                                let i = choose|i: int| 0 <= i < found@.len() && found@[i].0 == nb;
                                if i > 0 {
                                    assert(edges@[i - 1].to == found@[i].0);
                                    assert(edge_before(parents, tags, i - 1, head - 1, ri as int, ni - 1));
                                }
                                assert(self.handled(rels, found@, edges@, parents, tags, saturated(found@.len(), edges@.len(), max_nodes as nat, max_edges as nat), head - 1, ri as int, ni - 1));
                                assert forall|r: int, q: int|
                                    0 <= r < rels.len() && 0 <= q < self.neighbors(found@[head - 1].0 as int, rels[r]).len()
                                        && lex_before((r, q), (ri as int, ni as int)) implies #[trigger] self.handled(
                                    rels, found@, edges@, parents, tags, saturated(found@.len(), edges@.len(), max_nodes as nat, max_edges as nat), head - 1, r, q) by {
                                    if !lex_before((r, q), (ri as int, ni - 1)) {
                                        assert(r == ri && q == ni - 1);
                                    }
                                }
                            }
                            continue;
                        }
                        if edges.len() >= max_edges {
                            proof {
                                assert forall|r: int, q: int|
                                    0 <= r < rels.len() && 0 <= q < self.neighbors(found@[head - 1].0 as int, rels[r]).len()
                                        && lex_before((r, q), (rels.len() as int, 0)) implies #[trigger] self.handled(
                                    rels, found@, edges@, parents, tags, saturated(found@.len(), edges@.len(), max_nodes as nat, max_edges as nat), head - 1, r, q) by {
                                    if !lex_before((r, q), (ri as int, ni - 1)) {
                                        assert forall|k: int| 0 <= k < edges@.len() implies #[trigger] edge_before(parents, tags, k, head - 1, r, q) by {
                                            assert(0 <= parents[k] < head);
                                            if parents[k] == head - 1 {
                                                assert(lex_before(tags[k], (ri as int, ni - 1)));
                                            }
                                        }
                                    }
                                }
                            }
                            break;
                        }
                        if found.len() >= max_nodes {
                            proof {
                                assert forall|r: int, q: int|
                                    0 <= r < rels.len() && 0 <= q < self.neighbors(found@[head - 1].0 as int, rels[r]).len()
                                        && lex_before((r, q), (ri as int, ni as int)) implies #[trigger] self.handled(
                                    rels, found@, edges@, parents, tags, saturated(found@.len(), edges@.len(), max_nodes as nat, max_edges as nat), head - 1, r, q) by {
                                    if !lex_before((r, q), (ri as int, ni - 1)) {
                                        assert(r == ri && q == ni - 1);
                                        assert forall|k: int| 0 <= k < edges@.len() implies #[trigger] edge_before(parents, tags, k, head - 1, r, q) by {
                                            assert(0 <= parents[k] < head);
                                            if parents[k] == head - 1 {
                                                assert(lex_before(tags[k], (ri as int, ni - 1)));
                                            }
                                        }
                                    }
                                }
                            }
                            continue;
                        }
                        let ghost before_found = found@;
                        let ghost before_edges = edges@;
                        let ghost before_visited = visited@;
                        edges.push(GraphEdge { from: current, to: nb, relation });
                        let ghost before_parents = parents;
                        let ghost before_tags = tags;
                        proof {
                            parents = parents.push(head - 1);
                            tags = tags.push((ri as int, ni - 1));
                        }
                        visited.set(nb as usize, true);
                        found.push((nb, depth + 1, Some(current), Some(relation)));
                        proof {
                            assert(!discovered(before_found, nb));
                            assert forall|y: u32| y < n implies (visited@[y as int] <==> discovered(found@, y)) by {
                                if discovered(before_found, y) {
                                    let j = choose|j: int| 0 <= j < before_found.len() && before_found[j].0 == y;
                                    assert(found@[j].0 == y);
                                }
                                if discovered(found@, y) && y != nb {
                                    let j = choose|j: int| 0 <= j < found@.len() && found@[j].0 == y;
                                    assert(before_found[j].0 == y);
                                }
                                if y == nb {
                                    assert(found@[before_found.len() as int].0 == y);
                                }
                            }
                            assert(self.neighbors(current as int, relation).contains(nb)) by {
                                assert(neighbors@[ni - 1] == nb);
                            }
                            let k = before_edges.len() as int;
                            assert(edges@[k].to == found@[k + 1].0);
                            assert(found@[head - 1].0 == current && found@[k + 1].1 == found@[head - 1].1 + 1);
                            assert forall|kk: int| 0 <= kk < edges@.len() implies {
                                let edge = #[trigger] edges@[kk];
                                &&& edge.to == found@[kk + 1].0
                                &&& found@[kk + 1].2 == Some(edge.from)
                                &&& found@[kk + 1].3 == Some(edge.relation)
                                &&& relations_followed(*options).contains(edge.relation)
                                &&& self.neighbors(edge.from as int, edge.relation).contains(edge.to)
                                &&& exists|p: int|
                                    0 <= p <= kk && found@[p].0 == edge.from && found@[kk + 1].1 == found@[p].1 + 1
                            } by {
                                if kk < k {
                                    assert(edges@[kk] == before_edges[kk]);
                                    assert(found@[kk + 1] == before_found[kk + 1]);
                                    let p = choose|p: int|
                                        0 <= p <= kk && before_found[p].0 == before_edges[kk].from
                                            && before_found[kk + 1].1 == before_found[p].1 + 1;
                                    assert(found@[p] == before_found[p]);
                                } else {
                                    assert(found@[head - 1] == before_found[head - 1]);
                                }
                            }
                            assert forall|i: int, j: int| 0 <= i < j < found@.len() implies (#[trigger] found@[i]).0
                                != (#[trigger] found@[j]).0 by {
                                if j == before_found.len() {
                                    assert(found@[i] == before_found[i]);
                                } else {
                                    assert(found@[i] == before_found[i]);
                                    assert(found@[j] == before_found[j]);
                                }
                            }
                            assert forall|i: int| 0 <= i < found@.len() implies (#[trigger] found@[i]).0 < self.n()
                                && found@[i].1 <= options.max_depth by {
                                if i < before_found.len() {
                                    assert(found@[i] == before_found[i]);
                                }
                            }
                            assert(found@[0] == before_found[0]);
                            assert(!before_visited[nb as int]);
                            assert forall|k: int| 0 <= k < edges@.len() implies 0 <= #[trigger] parents[k] < head
                                && parents[k] < found@.len() && found@[parents[k]].0 == edges@[k].from by {
                                if k < before_edges.len() {
                                    assert(parents[k] == before_parents[k]);
                                    assert(found@[parents[k]] == before_found[parents[k]]);
                                    assert(edges@[k] == before_edges[k]);
                                } else {
                                    assert(found@[head - 1] == before_found[head - 1]);
                                }
                            }
                            assert forall|k: int| 0 <= k < edges@.len() implies 0 <= (#[trigger] tags[k]).0 < rels.len()
                                && rels[tags[k].0] == edges@[k].relation && 0 <= tags[k].1 < self.neighbors(
                                edges@[k].from as int,
                                rels[tags[k].0],
                            ).len() && self.neighbors(edges@[k].from as int, rels[tags[k].0])[tags[k].1] == edges@[k].to by {
                                if k < before_edges.len() {
                                    assert(tags[k] == before_tags[k]);
                                    assert(edges@[k] == before_edges[k]);
                                } else {
                                    assert(neighbors@[ni - 1] == nb);
                                }
                            }
                            assert forall|k1: int, k2: int| 0 <= k1 < k2 < edges@.len() implies #[trigger] parents[k1]
                                < #[trigger] parents[k2] || (parents[k1] == parents[k2] && lex_before(tags[k1], tags[k2])) by {
                                assert(parents[k1] == before_parents[k1]);
                                assert(tags[k1] == before_tags[k1]);
                                if k2 < before_edges.len() {
                                    assert(parents[k2] == before_parents[k2]);
                                    assert(tags[k2] == before_tags[k2]);
                                }
                            }
                            assert forall|k: int| 0 <= k < edges@.len() && parents[k] == head - 1 implies lex_before(
                                #[trigger] tags[k],
                                (ri as int, ni as int),
                            ) by {
                                if k < before_edges.len() {
                                    assert(parents[k] == before_parents[k]);
                                    assert(tags[k] == before_tags[k]);
                                }
                            }
                            assert forall|j: int, r: int, q: int|
                                0 <= j < head - 1 && found@[j].1 < options.max_depth as int && 0 <= r < rels.len() && 0 <= q < self.neighbors(
                                    found@[j].0 as int,
                                    rels[r],
                                ).len() implies #[trigger] self.handled(rels, found@, edges@, parents, tags, saturated(found@.len(), edges@.len(), max_nodes as nat, max_edges as nat), j, r, q) by {
                                assert(found@[j] == before_found[j]);
                                assert(self.handled(rels, before_found, before_edges, before_parents, before_tags, false, j, r, q));
                                self.lemma_handled_grows(rels, before_found, before_edges, before_parents, before_tags, found@, edges@, parents, tags, saturated(found@.len(), edges@.len(), max_nodes as nat, max_edges as nat), j, r, q);
                            }
                            assert forall|r: int, q: int|
                                0 <= r < rels.len() && 0 <= q < self.neighbors(found@[head - 1].0 as int, rels[r]).len()
                                    && lex_before((r, q), (ri as int, ni as int)) implies #[trigger] self.handled(
                                rels, found@, edges@, parents, tags, saturated(found@.len(), edges@.len(), max_nodes as nat, max_edges as nat), head - 1, r, q) by {
                                assert(found@[head - 1] == before_found[head - 1]);
                                if lex_before((r, q), (ri as int, ni - 1)) {
                                    assert(self.handled(rels, before_found, before_edges, before_parents, before_tags, false, head - 1, r, q));
                                    self.lemma_handled_grows(rels, before_found, before_edges, before_parents, before_tags, found@, edges@, parents, tags, saturated(found@.len(), edges@.len(), max_nodes as nat, max_edges as nat), head - 1, r, q);
                                } else {
                                    assert(r == ri && q == ni - 1);
                                    let k = before_edges.len() as int;
                                    assert(parents[k] == head - 1 && tags[k] == (r, q));
                                }
                            }
                            assert(before_found.len() < max_nodes && before_edges.len() < max_edges);
                            assert forall|i: int, j: int| 0 <= i < j < found@.len() implies (#[trigger] found@[i]).1
                                <= (#[trigger] found@[j]).1 by {
                                assert(found@[i] == before_found[i]);
                                if j < before_found.len() {
                                    assert(found@[j] == before_found[j]);
                                } else if i < before_found.len() - 1 {
                                    assert(before_found[i].1 <= before_found[before_found.len() - 1].1);
                                }
                            }
                            assert forall|i: int, j: int|
                                0 <= j < head && 0 <= i < found@.len() && found@[j].1 < options.max_depth
                                    && self.neighbor_of(rels, (#[trigger] found@[j]).0, (#[trigger] found@[i]).0)
                                implies found@[i].1 <= found@[j].1 + 1 by {
                                assert(found@[j] == before_found[j]);
                                if i < before_found.len() {
                                    assert(found@[i] == before_found[i]);
                                } else if j < head - 1 {
                                    let (r, k) = choose|r: int, k: int|
                                        0 <= r < rels.len() && 0 <= k < self.neighbors(found@[j].0 as int, rels[r]).len()
                                            && #[trigger] self.neighbors(found@[j].0 as int, rels[r])[k] == found@[i].0;
                                    assert(self.reached_all(rels, before_found[j].0, rels.len() as int, before_visited));
                                    assert(before_visited[self.neighbors(before_found[j].0 as int, rels[r])[k] as int]);
                                }
                            }
                            assert forall|i: int| 0 <= i < head implies node_view(#[trigger] nodes@[i]) == found@[i] by {
                                assert(found@[i] == before_found[i]);
                            }
                            assert forall|y: int| 0 <= y < before_visited.len() && #[trigger] before_visited[y] implies visited@[y] by {
                            }
                            assert forall|i: int|
                                0 <= i < head - 1 && (#[trigger] found@[i]).1 < options.max_depth implies self.reached_all(
                                    rels,
                                    found@[i].0,
                                    rels.len() as int,
                                    visited@,
                                ) || saturated(found@.len(), edges@.len(), max_nodes as nat, max_edges as nat) by {
                                assert(found@[i] == before_found[i]);
                                if self.reached_all(rels, before_found[i].0, rels.len() as int, before_visited) {
                                    self.lemma_reached_grows(rels, found@[i].0, rels.len() as int, before_visited, visited@);
                                }
                            }
                            if self.reached_all(rels, current, ri as int, before_visited) {
                                self.lemma_reached_grows(rels, current, ri as int, before_visited, visited@);
                            }
                            assert forall|kk: int| 0 <= kk < ni implies #[trigger] visited@[neighbors@[kk] as int] || saturated(found@.len(), edges@.len(), max_nodes as nat, max_edges as nat) by {
                                if kk < ni - 1 {
                                    assert(neighbors@[kk] < n);
                                }
                            }
                        }
                    }
                    ri = ri + 1;
                    if edges.len() >= max_edges {
                        break;
                    }
                }
            }
        }
        assert(head == found@.len());
        assert(nodes_view(nodes@) =~= found@);
        proof {
            if nodes@.len() < node_bound(*options) && edges@.len() < edge_bound(*options) {
                assert forall|i: int, r: int, k: int|
                    0 <= i < found@.len() && found@[i].1 < options.max_depth && 0 <= r < rels.len() && 0 <= k
                        < self.neighbors(found@[i].0 as int, rels[r]).len() implies discovered(
                    found@,
                    #[trigger] self.neighbors((#[trigger] found@[i]).0 as int, rels[r])[k],
                ) by {
                    crate::entry::lemma_neighbors_resolve(*self, found@[i].0 as int, rels[r], k);
                    let nb = self.neighbors(found@[i].0 as int, rels[r])[k];
                    assert(visited@[nb as int]);
                }
            }
        }
        proof {
            assert(self.edges_ordered(rels, nodes_view(nodes@), edges@, parents, tags, nodes@.len() as int));
            assert(saturated(found@.len(), edges@.len(), max_nodes as nat, max_edges as nat) == (nodes@.len()
                >= node_bound(*options) || edges@.len() >= edge_bound(*options)));
            assert(self.handled_upto(
                rels,
                nodes_view(nodes@),
                edges@,
                parents,
                tags,
                saturated(nodes@.len(), edges@.len(), node_bound(*options), edge_bound(*options)),
                options.max_depth as int,
                nodes@.len() as int,
            ));
            assert(rels == relations_followed(*options));
            assert(nodes_view(nodes@).len() == nodes@.len());
            assert(self.edges_ordered(
                relations_followed(*options),
                nodes_view(nodes@),
                edges@,
                parents,
                tags,
                nodes@.len() as int,
            ) && self.handled_upto(
                relations_followed(*options),
                nodes_view(nodes@),
                edges@,
                parents,
                tags,
                saturated(nodes@.len(), edges@.len(), node_bound(*options), edge_bound(*options)),
                options.max_depth as int,
                nodes@.len() as int,
            ));
            assert(self.breadth_first(*options, nodes_view(nodes@), edges@));
        }
        Some(GraphTraversal { root: lexeme_id, nodes, edges, max_depth_reached })
    }
}

/// A traversal holds its root first; both ends of every edge are among its
/// nodes; no lexeme comes twice; no node lies deeper than `max_depth`; and the
/// node and edge bounds hold whenever they are not zero.
pub proof fn lemma_traversal_sound(
    idx: LexemeIndex,
    root: u32,
    o: GraphOptions,
    d: Seq<Discovery>,
    e: Seq<GraphEdge>,
)
    requires
        idx.traversal_ok(root, o, d, e),
    ensures
        d[0].0 == root,
        forall|k: int| 0 <= k < e.len() ==> discovered(d, (#[trigger] e[k]).from) && discovered(d, e[k].to),
        forall|i: int, j: int| 0 <= i < j < d.len() ==> (#[trigger] d[i]).0 != (#[trigger] d[j]).0,
        forall|i: int| 0 <= i < d.len() ==> (#[trigger] d[i]).1 <= o.max_depth,
        o.max_nodes > 0 ==> d.len() <= o.max_nodes,
        o.max_edges > 0 ==> e.len() <= o.max_edges,
{
    assert forall|k: int| 0 <= k < e.len() implies discovered(d, (#[trigger] e[k]).from) && discovered(
        d,
        e[k].to,
    ) by {
        let p = choose|p: int| 0 <= p <= k && d[p].0 == e[k].from && d[k + 1].1 == d[p].1 + 1;
        assert(d[k + 1].0 == e[k].to);
    }
}

impl LexemeIndex {
    /// Each lexeme of `p` is a neighbor, along one of `rels`, of the one before it.
    pub open spec fn is_path(&self, rels: Seq<RelationKind>, p: Seq<u32>) -> bool {
        forall|t: int| 0 <= t < p.len() - 1 ==> self.neighbor_of(rels, p[t], #[trigger] p[t + 1])
    }
}

/// Some node of `d` above the depth bound carries lexeme `v`.
pub open spec fn expanded_in(d: Seq<Discovery>, v: u32, max_depth: int) -> bool {
    exists|j: int| 0 <= j < d.len() && d[j].0 == v && d[j].1 < max_depth
}

/// No node of a traversal lies deeper than a path of followed relations that
/// leads to it from the root through nodes above the depth bound: each
/// node's depth is its shortest distance from the root.
pub proof fn lemma_depth_is_shortest(
    idx: LexemeIndex,
    root: u32,
    o: GraphOptions,
    d: Seq<Discovery>,
    e: Seq<GraphEdge>,
    p: Seq<u32>,
    i: int,
)
    requires
        idx.traversal_ok(root, o, d, e),
        idx.relaxed(relations_followed(o), o.max_depth as int, d, d.len() as int),
        p.len() >= 1,
        p[0] == root,
        idx.is_path(relations_followed(o), p),
        forall|t: int| 0 <= t < p.len() - 1 ==> expanded_in(d, #[trigger] p[t], o.max_depth as int),
        0 <= i < d.len(),
        d[i].0 == p[p.len() - 1],
    ensures
        d[i].1 <= p.len() - 1,
    decreases p.len(),
{
    if p.len() == 1 {
        if i != 0 {
            assert(d[0].0 != d[i].0);
        }
    } else {
        let q = p.drop_last();
        let prev = p[p.len() - 2];
        assert(expanded_in(d, prev, o.max_depth as int));
        let j = choose|j: int| 0 <= j < d.len() && d[j].0 == prev && d[j].1 < o.max_depth;
        assert forall|t: int| 0 <= t < q.len() - 1 implies idx.neighbor_of(relations_followed(o), q[t], #[trigger] q[t + 1]) by {
            assert(q[t] == p[t] && q[t + 1] == p[t + 1]);
        }
        assert forall|t: int| 0 <= t < q.len() - 1 implies expanded_in(d, #[trigger] q[t], o.max_depth as int) by {
            assert(q[t] == p[t]);
        }
        lemma_depth_is_shortest(idx, root, o, d, e, q, j);
        let t = p.len() - 2;
        assert(idx.neighbor_of(relations_followed(o), p[t], p[t + 1]));
        assert(idx.neighbor_of(relations_followed(o), d[j].0, d[i].0));
    }
}

} // verus!
