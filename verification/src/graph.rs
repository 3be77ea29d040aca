//! The graph store: nodes, edges, per-sequence provenance, topological order.
//!
//! Nodes are arena-indexed; index `START` and index `END` are the two
//! sentinel nodes that give every inserted sequence a well-defined first
//! predecessor and last successor. Every node carries a topological rank,
//! and the well-formedness predicate [`wf`] demands that every edge goes
//! from a node of strictly lower rank to one of strictly higher rank, so
//! the graph is acyclic by construction.

use vstd::prelude::*;

verus! {

/// Index of the start sentinel node.
pub const START: usize = 0;

/// Index of the end sentinel node.
pub const END: usize = 1;

/// One symbol instance placed at a point of the graph's partial order.
pub struct Node {
    /// The symbol (e.g. a nucleotide) this node stands for.
    pub symbol: u8,
    /// Topological rank: consistent with all edge directions.
    pub rank: usize,
    /// Provenance: (sequence id, offset in that sequence) for every
    /// inserted sequence that passes through this node.
    pub prov: Vec<(usize, usize)>,
}

/// A directed connection between two nodes, accumulating the weights of
/// all sequences that traverse it.
pub struct Edge {
    pub from: usize,
    pub to: usize,
    pub weight: u64,
}

/// One record per inserted sequence: its path through the graph, one node
/// per base, in base order. The sequence id is the record's index and its
/// length is the path's length.
pub struct SeqRec {
    pub path: Vec<usize>,
}

/// The partial-order alignment graph.
pub struct PoaGraph {
    /// All nodes; indices `START` and `END` are the sentinels.
    pub nodes: Vec<Node>,
    /// Node indices sorted by rank: `order[k]` is the node of rank `k`.
    pub order: Vec<usize>,
    /// All edges, without duplicates of the same ordered node pair.
    pub edges: Vec<Edge>,
    /// One record per inserted sequence.
    pub seqs: Vec<SeqRec>,
}

/// Edge `j` of `g` connects `u` to `v`.
pub open spec fn edge_at(g: PoaGraph, j: int, u: usize, v: usize) -> bool {
    g.edges@[j].from == u && g.edges@[j].to == v
}

/// Some edge of `g` connects `u` to `v`.
pub open spec fn edge_between(g: PoaGraph, u: usize, v: usize) -> bool {
    exists|j: int| 0 <= j < g.edges@.len() && #[trigger] edge_at(g, j, u, v)
}

/// Some edge of `g` enters `v`.
pub open spec fn has_in_edge(g: PoaGraph, v: usize) -> bool {
    exists|j: int| 0 <= j < g.edges@.len() && (#[trigger] g.edges@[j]).to == v
}

/// Ranks are a bijection between nodes and `0 .. nodes.len()`, recorded in
/// both directions (`nodes[v].rank` and `order`), with the start sentinel
/// first and the end sentinel last.
pub open spec fn wf_ranks(g: PoaGraph) -> bool {
    &&& g.nodes@.len() >= 2
    &&& g.order@.len() == g.nodes@.len()
    &&& forall|v: int| 0 <= v < g.nodes@.len() ==> (#[trigger] g.nodes@[v].rank) < g.nodes@.len()
        && g.order@[g.nodes@[v].rank as int] as int == v
    &&& forall|k: int| 0 <= k < g.order@.len() ==> (#[trigger] g.order@[k]) < g.nodes@.len()
        && g.nodes@[g.order@[k] as int].rank as int == k
    &&& g.nodes@[START as int].rank == 0
    &&& g.nodes@[END as int].rank == g.nodes@.len() - 1
}

/// Edge endpoints are in range and every edge goes from a strictly lower
/// rank to a strictly higher rank.
pub open spec fn edge_ok(g: PoaGraph, e: Edge) -> bool {
    &&& e.from < g.nodes@.len()
    &&& e.to < g.nodes@.len()
    &&& g.nodes@[e.from as int].rank < g.nodes@[e.to as int].rank
}

/// All edges are rank-increasing and no ordered node pair appears twice.
pub open spec fn wf_edges(g: PoaGraph) -> bool {
    &&& forall|j: int| 0 <= j < g.edges@.len() ==> edge_ok(g, #[trigger] g.edges@[j])
    &&& forall|j: int, k: int|
        #![trigger g.edges@[j], g.edges@[k]]
        0 <= j < k < g.edges@.len()
            ==> !(g.edges@[j].from == g.edges@[k].from && g.edges@[j].to == g.edges@[k].to)
}

/// No real node is isolated: every node but the sentinels has an in-edge.
pub open spec fn wf_reach(g: PoaGraph) -> bool {
    forall|v: usize| 2 <= v < g.nodes@.len() ==> has_in_edge(g, v)
}

/// A sequence's path: nonempty, over real nodes, entered from the start
/// sentinel, leaving into the end sentinel, with an edge between each
/// consecutive pair.
pub open spec fn path_ok(g: PoaGraph, p: Seq<usize>) -> bool {
    &&& p.len() >= 1
    &&& forall|i: int| 0 <= i < p.len() ==> 2 <= #[trigger] p[i] < g.nodes@.len()
    &&& edge_between(g, START, p[0])
    &&& edge_between(g, p[p.len() - 1], END)
    &&& forall|i: int| 0 <= i < p.len() - 1 ==> #[trigger] edge_between(g, p[i], p[i + 1])
}

/// Every recorded sequence has a well-formed path.
pub open spec fn wf_paths(g: PoaGraph) -> bool {
    forall|s: int| 0 <= s < g.seqs@.len() ==> path_ok(g, (#[trigger] g.seqs@[s]).path@)
}

/// Well-formedness of the whole graph. Constructors establish it and every
/// mutating operation preserves it.
pub open spec fn wf(g: PoaGraph) -> bool {
    &&& wf_ranks(g)
    &&& wf_edges(g)
    &&& wf_reach(g)
    &&& wf_paths(g)
    &&& (g.seqs@.len() == 0 ==> g.nodes@.len() == 2 && g.edges@.len() == 0)
}

/// Errors of the library, one variant per rejected condition.
#[derive(Clone, Copy, PartialEq, Eq, Structural, Debug)]
pub enum PoaError {
    /// The sequence to insert is empty.
    EmptyInput,
    /// The per-base weight array does not match the sequence length.
    LengthMismatch,
}

impl PoaGraph {
    /// An empty graph: the two sentinels, no edges, no sequences.
    pub fn new() -> (g: PoaGraph)
        ensures
            wf(g),
            g.nodes@.len() == 2,
            g.edges@.len() == 0,
            g.seqs@.len() == 0,
    {
        let mut nodes: Vec<Node> = Vec::new();
        nodes.push(Node { symbol: 0u8, rank: 0, prov: Vec::new() });
        nodes.push(Node { symbol: 0u8, rank: 1, prov: Vec::new() });
        let mut order: Vec<usize> = Vec::new();
        order.push(START);
        order.push(END);
        let g = PoaGraph { nodes, order, edges: Vec::new(), seqs: Vec::new() };
        assert(g.order[0int] == 0usize && g.order[1int] == 1usize);
        g
    }

    /// True iff no sequence has been inserted yet.
    pub fn is_empty(&self) -> (r: bool)
        ensures
            r == (self.seqs@.len() == 0),
    {
        self.seqs.len() == 0
    }

    /// The number of nodes, the two sentinels included.
    pub fn node_count(&self) -> (r: usize)
        ensures
            r == self.nodes@.len(),
    {
        self.nodes.len()
    }

    /// The number of edges.
    pub fn edge_count(&self) -> (r: usize)
        ensures
            r == self.edges@.len(),
    {
        self.edges.len()
    }

    /// The number of inserted sequences.
    pub fn sequence_count(&self) -> (r: usize)
        ensures
            r == self.seqs@.len(),
    {
        self.seqs.len()
    }

    /// The nodes in topological order: position `k` holds the node of
    /// rank `k`. Restartable; both extractions and the aligner iterate it.
    pub fn topological_order(&self) -> (r: &Vec<usize>)
        ensures
            r@ == self.order@,
    {
        &self.order
    }

    /// Finds the edge `from -> to` and raises its weight by `w` (saturating),
    /// or appends a fresh edge of weight `w`: a second traversal of a node
    /// pair never creates a parallel edge.
    #[verifier::loop_isolation(false)]
    pub fn add_edge_or_bump(&mut self, from: usize, to: usize, w: u64)
        requires
            wf(*old(self)),
            old(self).seqs@.len() >= 1,
            from < old(self).nodes@.len(),
            to < old(self).nodes@.len(),
            old(self).nodes@[from as int].rank < old(self).nodes@[to as int].rank,
        ensures
            wf(*final(self)),
            final(self).nodes == old(self).nodes,
            final(self).order == old(self).order,
            final(self).seqs == old(self).seqs,
            edge_between(*final(self), from, to),
            keeps_connections(*old(self), *final(self)),
            edge_between(*old(self), from, to) ==> {
                &&& final(self).edges@.len() == old(self).edges@.len()
                &&& forall|j: int| 0 <= j < old(self).edges@.len() ==> {
                    &&& (#[trigger] final(self).edges@[j]).from == old(self).edges@[j].from
                    &&& final(self).edges@[j].to == old(self).edges@[j].to
                    &&& final(self).edges@[j].weight == (
                        if old(self).edges@[j].from == from && old(self).edges@[j].to == to {
                            sat_add(old(self).edges@[j].weight, w)
                        } else {
                            old(self).edges@[j].weight
                        })
                }
            },
            !edge_between(*old(self), from, to) ==> final(self).edges@ == old(self).edges@.push(
                Edge { from, to, weight: w },
            ),
    {
        let n = self.edges.len();
        let mut j: usize = 0;
        while j < n
            invariant
                n == self.edges@.len(),
                j <= n,
                *self == *old(self),
                forall|i: int| 0 <= i < j ==> !edge_at(*old(self), i, from, to),
            decreases n - j,
        {
            if self.edges[j].from == from && self.edges[j].to == to {
                let cur = self.edges[j].weight;
                let bumped = if cur <= u64::MAX - w {
                    cur + w
                } else {
                    u64::MAX
                };
                self.edges[j].weight = bumped;
                proof {
                    let g1 = *old(self);
                    let g2 = *self;
                    assert(edge_at(g1, j as int, from, to));
                    assert(edge_at(g2, j as int, from, to));
                    assert(edge_between(g1, from, to));
                    assert(edge_between(g2, from, to));
                    assert forall|i: int| 0 <= i < g2.edges@.len() implies (g2.edges@[i].from
                        == g1.edges@[i].from && g2.edges@[i].to == g1.edges@[i].to) by {}
                    assert forall|i: int| 0 <= i < g2.edges@.len() implies edge_ok(
                        g2,
                        #[trigger] g2.edges@[i],
                    ) by {
                        assert(edge_ok(g1, g1.edges@[i]));
                    }
                    assert forall|i: int| 0 <= i < g2.edges@.len() && i != j implies !(
                    g2.edges@[i].from == from && g2.edges@[i].to == to) by {
                        if i < j {
                            assert(!edge_at(g1, i, from, to));
                        } else {
                            assert(!(g1.edges@[j as int].from == g1.edges@[i].from
                                && g1.edges@[j as int].to == g1.edges@[i].to));
                        }
                    }
                    assert(keeps_connections(g1, g2)) by {
                        assert forall|u: usize, v: usize| edge_between(g1, u, v) implies #[trigger]
                        edge_between(g2, u, v) by {
                            let j0 = choose|j0: int| 0 <= j0 < g1.edges@.len() && #[trigger] edge_at(
                                g1,
                                j0,
                                u,
                                v,
                            );
                            assert(edge_at(g2, j0, u, v));
                        }
                    }
                    assert forall|v: usize| 2 <= v < g2.nodes@.len() implies has_in_edge(g2, v) by {
                        assert(has_in_edge(g1, v));
                        let j0 = choose|j0: int| 0 <= j0 < g1.edges@.len() && (
                        #[trigger] g1.edges@[j0]).to == v;
                        assert((g2.edges@[j0]).to == v);
                    }
                    assert forall|s: int| 0 <= s < g2.seqs@.len() implies path_ok(
                        g2,
                        (#[trigger] g2.seqs@[s]).path@,
                    ) by {
                        lemma_path_still_ok(g1, g2, g2.seqs@[s].path@);
                    }
                }
                return ;
            }
            j += 1;
        }
        self.edges.push(Edge { from, to, weight: w });
        proof {
            let g1 = *old(self);
            let g2 = *self;
            assert(!edge_between(g1, from, to));
            assert(edge_at(g2, g1.edges@.len() as int, from, to));
            assert(edge_between(g2, from, to));
            assert forall|i: int| 0 <= i < g2.edges@.len() implies edge_ok(
                g2,
                #[trigger] g2.edges@[i],
            ) by {
                if i < g1.edges@.len() {
                    assert(edge_ok(g1, g1.edges@[i]));
                }
            }
            assert forall|i: int, k: int| 0 <= i < k < g2.edges@.len() implies !(g2.edges@[i].from
                == g2.edges@[k].from && g2.edges@[i].to == g2.edges@[k].to) by {
                if k < g1.edges@.len() {
                    assert(!(g1.edges@[i].from == g1.edges@[k].from && g1.edges@[i].to
                        == g1.edges@[k].to));
                } else {
                    assert(!edge_at(g1, i, from, to));
                }
            }
            assert(keeps_connections(g1, g2)) by {
                assert forall|u: usize, v: usize| edge_between(g1, u, v) implies #[trigger]
                edge_between(g2, u, v) by {
                    let j0 = choose|j0: int| 0 <= j0 < g1.edges@.len() && #[trigger] edge_at(
                        g1,
                        j0,
                        u,
                        v,
                    );
                    assert(edge_at(g2, j0, u, v));
                }
            }
            assert forall|v: usize| 2 <= v < g2.nodes@.len() implies has_in_edge(g2, v) by {
                assert(has_in_edge(g1, v));
                let j0 = choose|j0: int| 0 <= j0 < g1.edges@.len() && (#[trigger] g1.edges@[j0]).to
                    == v;
                assert((g2.edges@[j0]).to == v);
            }
            assert forall|s: int| 0 <= s < g2.seqs@.len() implies path_ok(
                g2,
                (#[trigger] g2.seqs@[s]).path@,
            ) by {
                lemma_path_still_ok(g1, g2, g2.seqs@[s].path@);
            }
        }
    }
    /// Creates a new node holding `symbol` directly after node `from` in the
    /// topological order and connects `from` to it with an edge of weight
    /// `w`. Every rank at or above the new node's shifts up by one; relative
    /// order among the existing nodes is untouched.
    #[verifier::loop_isolation(false)]
    pub fn insert_node_after(&mut self, symbol: u8, from: usize, w: u64) -> (id: usize)
        requires
            wf(*old(self)),
            old(self).seqs@.len() >= 1,
            from < old(self).nodes@.len(),
            from != END,
            old(self).nodes@.len() < usize::MAX,
        ensures
            wf(*final(self)),
            id == old(self).nodes@.len(),
            final(self).nodes@.len() == old(self).nodes@.len() + 1,
            final(self).nodes@[id as int].symbol == symbol,
            final(self).nodes@[id as int].rank == old(self).nodes@[from as int].rank + 1,
            final(self).nodes@[id as int].prov@.len() == 0,
            forall|v: int|
                0 <= v < old(self).nodes@.len() ==> {
                    &&& (#[trigger] final(self).nodes@[v]).symbol == old(self).nodes@[v].symbol
                    &&& final(self).nodes@[v].prov == old(self).nodes@[v].prov
                    &&& final(self).nodes@[v].rank == (
                    if old(self).nodes@[v].rank >= old(self).nodes@[from as int].rank + 1 {
                        old(self).nodes@[v].rank + 1
                    } else {
                        old(self).nodes@[v].rank as int
                    })
                },
            final(self).edges@ == old(self).edges@.push(Edge { from, to: id, weight: w }),
            final(self).seqs == old(self).seqs,
            edge_between(*final(self), from, id),
            keeps_connections(*old(self), *final(self)),
    {
        let ghost g1 = *old(self);
        let id = self.nodes.len();
        let rfrom = self.nodes[from].rank;
        proof {
            // `from` is not the end sentinel, so its rank is not the largest.
            if rfrom == g1.nodes@.len() - 1 {
                assert(g1.order@[rfrom as int] as int == from as int);
                assert(g1.nodes@[END as int].rank == g1.nodes@.len() - 1);
                assert(g1.order@[g1.nodes@[END as int].rank as int] as int == END as int);
                assert(false);
            }
        }
        let p = rfrom + 1;
        let mut v: usize = 0;
        while v < id
            invariant
                v <= id,
                self.nodes@.len() == id,
                self.order == g1.order,
                self.edges == g1.edges,
                self.seqs == g1.seqs,
                forall|u: int|
                    0 <= u < id ==> (#[trigger] self.nodes@[u]).symbol == g1.nodes@[u].symbol
                        && self.nodes@[u].prov == g1.nodes@[u].prov,
                forall|u: int|
                    0 <= u < v ==> (#[trigger] self.nodes@[u]).rank == (
                    if g1.nodes@[u].rank >= p {
                        g1.nodes@[u].rank + 1
                    } else {
                        g1.nodes@[u].rank as int
                    }),
                forall|u: int| v <= u < id ==> (#[trigger] self.nodes@[u]).rank == g1.nodes@[u].rank,
            decreases id - v,
        {
            if self.nodes[v].rank >= p {
                let r = self.nodes[v].rank;
                self.nodes[v].rank = r + 1;
            }
            v += 1;
        }
        self.nodes.push(Node { symbol, rank: p, prov: Vec::new() });
        self.order.insert(p, id);
        self.edges.push(Edge { from, to: id, weight: w });
        proof {
            let g2 = *self;
            let n1 = g1.nodes@.len() as int;
            g1.order@.insert_ensures(p as int, id);
            assert(g2.order@ == g1.order@.insert(p as int, id));
            // Rank bijection, node side.
            assert forall|u: int| 0 <= u < g2.nodes@.len() implies (#[trigger] g2.nodes@[u].rank)
                < g2.nodes@.len() && g2.order@[g2.nodes@[u].rank as int] as int == u by {
                if u < n1 {
                    assert(g1.nodes@[u].rank < n1);
                    assert(g1.order@[g1.nodes@[u].rank as int] as int == u);
                    if g1.nodes@[u].rank >= p {
                        assert(g2.order@[g1.nodes@[u].rank + 1] == g1.order@[g1.nodes@[u].rank as int]);
                    }
                } else {
                    assert(g2.nodes@[u].rank == p);
                    assert(g2.order@[p as int] == id);
                }
            }
            // Rank bijection, order side.
            assert forall|k: int| 0 <= k < g2.order@.len() implies (#[trigger] g2.order@[k])
                < g2.nodes@.len() && g2.nodes@[g2.order@[k] as int].rank as int == k by {
                if k < p {
                    assert(g2.order@[k] == g1.order@[k]);
                    assert(g1.nodes@[g1.order@[k] as int].rank as int == k);
                } else if k == p {
                    assert(g2.order@[k] == id);
                } else {
                    assert(g2.order@[k] == g1.order@[k - 1]);
                    assert(g1.nodes@[g1.order@[k - 1] as int].rank as int == k - 1);
                }
            }
            assert(g2.nodes@[START as int].rank == 0);
            assert(g2.nodes@[END as int].rank == g2.nodes@.len() - 1);
            // Edges stay rank-increasing.
            assert forall|j: int| 0 <= j < g2.edges@.len() implies edge_ok(
                g2,
                #[trigger] g2.edges@[j],
            ) by {
                if j < g1.edges@.len() {
                    assert(edge_ok(g1, g1.edges@[j]));
                    assert(g2.edges@[j] == g1.edges@[j]);
                } else {
                    assert(g2.edges@[j] == Edge { from, to: id, weight: w });
                }
            }
            // No parallel edges: the new edge ends in the fresh node.
            assert forall|j: int, k: int|
                #![trigger g2.edges@[j], g2.edges@[k]]
                0 <= j < k < g2.edges@.len() implies !(g2.edges@[j].from == g2.edges@[k].from
                && g2.edges@[j].to == g2.edges@[k].to) by {
                if k < g1.edges@.len() {
                    assert(!(g1.edges@[j].from == g1.edges@[k].from && g1.edges@[j].to
                        == g1.edges@[k].to));
                } else {
                    assert(edge_ok(g1, g1.edges@[j]));
                    assert(g1.edges@[j].to < id);
                }
            }
            assert(keeps_connections(g1, g2)) by {
                assert forall|u: usize, x: usize| edge_between(g1, u, x) implies #[trigger]
                edge_between(g2, u, x) by {
                    let j0 = choose|j0: int| 0 <= j0 < g1.edges@.len() && #[trigger] edge_at(
                        g1,
                        j0,
                        u,
                        x,
                    );
                    assert(edge_at(g2, j0, u, x));
                }
            }
            assert forall|x: usize| 2 <= x < g2.nodes@.len() implies has_in_edge(g2, x) by {
                if x < g1.nodes@.len() {
                    assert(has_in_edge(g1, x));
                    let j0 = choose|j0: int| 0 <= j0 < g1.edges@.len() && (
                    #[trigger] g1.edges@[j0]).to == x;
                    assert((g2.edges@[j0]).to == x);
                } else {
                    assert((g2.edges@[g1.edges@.len() as int]).to == x);
                }
            }
            assert forall|s: int| 0 <= s < g2.seqs@.len() implies path_ok(
                g2,
                (#[trigger] g2.seqs@[s]).path@,
            ) by {
                lemma_path_still_ok(g1, g2, g2.seqs@[s].path@);
            }
            assert(edge_at(g2, g1.edges@.len() as int, from, id));
        }
        id
    }

    /// Seeds an empty graph with its first sequence: a linear chain of one
    /// node per base, connected from the start sentinel to the end sentinel,
    /// with the edge into the node of base `i` weighted `weights[i]` and the
    /// final edge into the end sentinel weighted like the last base.
    /// Inserting a sequence of length `L` creates exactly `L` new nodes and
    /// `L + 1` edges. Fails iff `bases` is empty or the weight array does
    /// not match it in length.
    #[verifier::loop_isolation(false)]
    #[verifier::rlimit(60)]
    pub fn add_first_sequence(&mut self, bases: &Vec<u8>, weights: &Vec<u64>) -> (r: Result<
        (),
        PoaError,
    >)
        requires
            wf(*old(self)),
            old(self).seqs@.len() == 0,
            bases@.len() + 2 <= usize::MAX,
        ensures
            wf(*final(self)),
            bases@.len() == 0 ==> r == Err::<(), PoaError>(PoaError::EmptyInput) && *final(self)
                == *old(self),
            bases@.len() > 0 && weights@.len() != bases@.len() ==> r == Err::<(), PoaError>(
                PoaError::LengthMismatch,
            ) && *final(self) == *old(self),
            bases@.len() > 0 && weights@.len() == bases@.len() ==> r == Ok::<(), PoaError>(())
                && first_chain(*final(self), bases@, weights@),
    {
        let l = bases.len();
        if l == 0 {
            return Err(PoaError::EmptyInput);
        }
        if weights.len() != l {
            return Err(PoaError::LengthMismatch);
        }
        let mut nodes: Vec<Node> = Vec::new();
        nodes.push(Node { symbol: 0u8, rank: 0, prov: Vec::new() });
        nodes.push(Node { symbol: 0u8, rank: l + 1, prov: Vec::new() });
        let mut order: Vec<usize> = Vec::new();
        order.push(START);
        let mut edges: Vec<Edge> = Vec::new();
        let mut path: Vec<usize> = Vec::new();
        let mut i: usize = 0;
        while i < l
            invariant
                i <= l,
                nodes@.len() == i + 2,
                order@.len() == i + 1,
                edges@.len() == i,
                path@.len() == i,
                nodes@[0].symbol == 0 && nodes@[0].rank == 0 && nodes@[0].prov@.len() == 0,
                nodes@[1].symbol == 0 && nodes@[1].rank == l + 1 && nodes@[1].prov@.len() == 0,
                order@[0] == START,
                forall|u: int|
                    0 <= u < i ==> {
                        &&& (#[trigger] nodes@[u + 2]).symbol == bases@[u]
                        &&& nodes@[u + 2].rank == u + 1
                        &&& nodes@[u + 2].prov@ =~= seq![(0usize, u as usize)]
                    },
                forall|k: int| 0 <= k < i ==> #[trigger] order@[k + 1] == k + 2,
                forall|j: int|
                    0 <= j < i ==> {
                        &&& (#[trigger] edges@[j]).from == (if j == 0 {
                            0int
                        } else {
                            j + 1
                        })
                        &&& edges@[j].to == j + 2
                        &&& edges@[j].weight == weights@[j]
                    },
                forall|u: int| 0 <= u < i ==> #[trigger] path@[u] == u + 2,
            decreases l - i,
        {
            let mut prov: Vec<(usize, usize)> = Vec::new();
            prov.push((0usize, i));
            nodes.push(Node { symbol: bases[i], rank: i + 1, prov });
            order.push(i + 2);
            let from = if i == 0 {
                START
            } else {
                i + 1
            };
            edges.push(Edge { from, to: i + 2, weight: weights[i] });
            path.push(i + 2);
            i += 1;
        }
        edges.push(Edge { from: l + 1, to: END, weight: weights[l - 1] });
        order.push(END);
        let mut seqs: Vec<SeqRec> = Vec::new();
        seqs.push(SeqRec { path });
        self.nodes = nodes;
        self.order = order;
        self.edges = edges;
        self.seqs = seqs;
        proof {
            let g2 = *self;
            let n2 = g2.nodes@.len() as int;
            assert(n2 == l + 2);
            assert forall|v: int| 0 <= v < n2 implies (#[trigger] g2.nodes@[v].rank) < n2
                && g2.order@[g2.nodes@[v].rank as int] as int == v by {
                if v >= 2 {
                    assert(g2.nodes@[(v - 2) + 2].rank == v - 1);
                    assert(g2.order@[(v - 2) + 1] == v);
                }
            }
            assert forall|k: int| 0 <= k < g2.order@.len() implies (#[trigger] g2.order@[k]) < n2
                && g2.nodes@[g2.order@[k] as int].rank as int == k by {
                if 1 <= k < l + 1 {
                    assert(g2.order@[(k - 1) + 1] == k + 1);
                    assert(g2.nodes@[(k - 1) + 2].rank == k);
                }
            }
            assert forall|j: int| 0 <= j < g2.edges@.len() implies edge_ok(
                g2,
                #[trigger] g2.edges@[j],
            ) by {
                if j < l {
                    assert(g2.edges@[j].to == j + 2);
                    assert(g2.nodes@[j + 2].rank == j + 1);
                    if j > 0 {
                        assert(g2.nodes@[(j - 1) + 2].rank == j);
                    }
                }
            }
            assert forall|j: int, k: int|
                #![trigger g2.edges@[j], g2.edges@[k]]
                0 <= j < k < g2.edges@.len() implies !(g2.edges@[j].from == g2.edges@[k].from
                && g2.edges@[j].to == g2.edges@[k].to) by {
                assert(g2.edges@[j].to == if j < l {
                    j + 2
                } else {
                    1int
                });
                assert(g2.edges@[k].to == if k < l {
                    k + 2
                } else {
                    1int
                });
            }
            assert forall|x: usize| 2 <= x < n2 implies has_in_edge(g2, x) by {
                assert((g2.edges@[x - 2]).to == x);
            }
            let p = g2.seqs@[0].path@;
            assert(path_ok(g2, p)) by {
                assert(edge_at(g2, 0, START, p[0]));
                assert(edge_between(g2, START, p[0]));
                assert(p[p.len() - 1] == l + 1);
                assert(edge_at(g2, l as int, (l + 1) as usize, END));
                assert(edge_between(g2, p[p.len() - 1], END));
                assert forall|u: int| 0 <= u < p.len() - 1 implies #[trigger] edge_between(
                    g2,
                    p[u],
                    p[u + 1],
                ) by {
                    assert(p[u] == u + 2 && p[u + 1] == u + 3);
                    assert(edge_at(g2, u + 1, p[u], p[u + 1]));
                }
            }
            assert(first_chain(g2, bases@, weights@));
        }
        Ok(())
    }
}

/// The shape of a graph seeded with one sequence: a chain of one node per
/// base between the sentinels, edge `i` entering the node of base `i` with
/// weight `weights[i]`, and a last edge into the end sentinel.
pub open spec fn first_chain(g: PoaGraph, bases: Seq<u8>, weights: Seq<u64>) -> bool {
    let l = bases.len() as int;
    &&& g.nodes@.len() == l + 2
    &&& g.edges@.len() == l + 1
    &&& g.seqs@.len() == 1
    &&& forall|u: int|
        0 <= u < l ==> (#[trigger] g.nodes@[u + 2]).symbol == bases[u] && g.nodes@[u + 2].rank == u
            + 1
    &&& forall|j: int|
        0 <= j < l ==> (#[trigger] g.edges@[j]).from == (if j == 0 {
            0int
        } else {
            j + 1
        }) && g.edges@[j].to == j + 2 && g.edges@[j].weight == weights[j]
    &&& g.edges@[l].from == l + 1 && g.edges@[l].to == END && g.edges@[l].weight == weights[l - 1]
    &&& g.seqs@[0].path@.len() == l
    &&& forall|u: int| 0 <= u < l ==> #[trigger] g.seqs@[0].path@[u] == u + 2
}

/// A sequence of nodes, each in range, with an edge between each
/// consecutive pair.
pub open spec fn is_edge_path(g: PoaGraph, p: Seq<usize>) -> bool {
    &&& forall|i: int| 0 <= i < p.len() ==> (#[trigger] p[i]) < g.nodes@.len()
    &&& forall|i: int| 0 <= i < p.len() - 1 ==> edge_between(g, #[trigger] p[i], p[i + 1])
}

/// Ranks strictly increase between any two positions of an edge path.
pub proof fn lemma_path_rank_mono(g: PoaGraph, p: Seq<usize>, i: int, j: int)
    requires
        wf_edges(g),
        is_edge_path(g, p),
        0 <= i < j < p.len(),
    ensures
        g.nodes@[p[i] as int].rank < g.nodes@[p[j] as int].rank,
    decreases j - i,
{
    if j > i + 1 {
        lemma_path_rank_mono(g, p, i, j - 1);
    }
    assert(edge_between(g, p[j - 1], p[j]));
    let e = choose|e: int| 0 <= e < g.edges@.len() && #[trigger] edge_at(g, e, p[j - 1], p[j]);
    assert(edge_ok(g, g.edges@[e]));
}

/// Acyclicity law: in a well-formed graph every edge goes from lower to
/// higher rank, so ranks strictly increase along any edge path and no path
/// ever returns to its starting node — a topological sort (the `order`
/// field) always exists.
pub proof fn lemma_acyclic(g: PoaGraph, p: Seq<usize>)
    requires
        wf(g),
        is_edge_path(g, p),
        p.len() >= 2,
    ensures
        g.nodes@[p[0] as int].rank < g.nodes@[p[p.len() - 1] as int].rank,
        p[0] != p[p.len() - 1],
{
    lemma_path_rank_mono(g, p, 0, p.len() - 1);
}

/// Saturating addition of edge weights.
pub open spec fn sat_add(a: u64, w: u64) -> u64 {
    if a + w <= u64::MAX {
        (a + w) as u64
    } else {
        u64::MAX
    }
}

/// Reinforcing an edge twice adds exactly the summed weight (saturating):
/// raising a weight by `w1` and then by `w2` lands where raising it once
/// by `w1 + w2` would.
pub proof fn lemma_sat_add_compose(a: u64, w1: u64, w2: u64)
    requires
        w1 + w2 <= u64::MAX,
    ensures
        sat_add(sat_add(a, w1), w2) == sat_add(a, (w1 + w2) as u64),
{
}

/// A graph `g2` keeps every edge connection of `g1` and does not shrink its
/// node arena: every path that was well-formed stays well-formed.
pub open spec fn keeps_connections(g1: PoaGraph, g2: PoaGraph) -> bool {
    &&& g2.nodes@.len() >= g1.nodes@.len()
    &&& forall|u: usize, v: usize| edge_between(g1, u, v) ==> #[trigger] edge_between(g2, u, v)
}

pub proof fn lemma_path_still_ok(g1: PoaGraph, g2: PoaGraph, p: Seq<usize>)
    requires
        path_ok(g1, p),
        keeps_connections(g1, g2),
    ensures
        path_ok(g2, p),
{
}

} // verus!
