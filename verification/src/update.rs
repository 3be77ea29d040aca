//! The graph updater: folds an alignment result back into the graph.
//!
//! One pass over the operation list carries a cursor, starting at the start
//! sentinel: a match adds provenance to the existing node and an edge from
//! the cursor; a substitution or insertion creates a new node directly
//! after the cursor in the topological order; a deletion only moves the
//! walk along the graph. At the end an edge into the end sentinel closes
//! the sequence's path and a new sequence record is appended.

use vstd::prelude::*;

use crate::align::{
    all_match, count_new_from, lemma_count_new_le, op_nodes, valid_alignment, valid_from, AlignOp,
};
use crate::graph::{
    edge_at, edge_between, edge_ok, is_edge_path, keeps_connections, lemma_path_rank_mono, path_ok,
    sat_add, wf, wf_edges, Node, PoaError, PoaGraph, SeqRec, END, START,
};

verus! {

/// `g2` grew out of `g1`: the arena kept every old node's symbol and the
/// relative topological order of the old nodes, and no connection was lost.
pub open spec fn extends_graph(g1: PoaGraph, g2: PoaGraph) -> bool {
    &&& g2.nodes@.len() >= g1.nodes@.len()
    &&& forall|v: int|
        0 <= v < g1.nodes@.len() ==> (#[trigger] g2.nodes@[v]).symbol == g1.nodes@[v].symbol
    &&& forall|u: int, v: int|
        #![trigger g2.nodes@[u].rank, g2.nodes@[v].rank]
        0 <= u < g1.nodes@.len() && 0 <= v < g1.nodes@.len() && g1.nodes@[u].rank
            < g1.nodes@[v].rank ==> g2.nodes@[u].rank < g2.nodes@[v].rank
    &&& keeps_connections(g1, g2)
}

/// The sequence whose path is `p` enters node `to` from node `from` on
/// its way through the graph, the start sentinel excluded at the end:
/// either stepping in from the start sentinel or between two consecutive
/// path nodes.
pub open spec fn walks_pair(p: Seq<usize>, from: usize, to: usize) -> bool {
    ||| (p.len() >= 1 && from == START && to == p[0])
    ||| (exists|i: int| 0 <= i < p.len() - 1 && from == #[trigger] p[i] && to == p[i + 1])
}

/// As [`walks_pair`], with the final step into the end sentinel included.
pub open spec fn walks_edge(p: Seq<usize>, from: usize, to: usize) -> bool {
    walks_pair(p, from, to) || (p.len() >= 1 && from == p[p.len() - 1] && to == END)
}

/// The two graphs have the same shape: the same nodes with the same
/// symbols and ranks in the same order, and the same edges between the
/// same node pairs — only edge weights and provenance may differ. This is
/// what re-inserting an already-present sequence leaves unchanged.
pub open spec fn same_structure(g1: PoaGraph, g2: PoaGraph) -> bool {
    &&& g2.nodes@.len() == g1.nodes@.len()
    &&& forall|v: int|
        0 <= v < g1.nodes@.len() ==> (#[trigger] g2.nodes@[v]).symbol == g1.nodes@[v].symbol
            && g2.nodes@[v].rank == g1.nodes@[v].rank
    &&& g2.order == g1.order
    &&& g2.edges@.len() == g1.edges@.len()
    &&& forall|j: int|
        0 <= j < g1.edges@.len() ==> (#[trigger] g2.edges@[j]).from == g1.edges@[j].from
            && g2.edges@[j].to == g1.edges@[j].to
}

/// Node `b` kept every provenance entry of node `a`, in place, and every
/// entry it gained names the sequence `sid`.
pub open spec fn prov_node_ok(a: Node, b: Node, sid: int) -> bool {
    &&& b.prov@.len() >= a.prov@.len()
    &&& b.prov@.take(a.prov@.len() as int) == a.prov@
    &&& forall|t: int|
        a.prov@.len() <= t < b.prov@.len() ==> (#[trigger] b.prov@[t]).0 == sid
}

/// Every node of `g1` keeps its provenance in `g2`; whatever was added
/// names the sequence `sid`.
pub open spec fn prov_extended(g1: PoaGraph, g2: PoaGraph, sid: int) -> bool {
    forall|v: int|
        0 <= v < g1.nodes@.len() ==> prov_node_ok(g1.nodes@[v], #[trigger] g2.nodes@[v], sid)
}

/// `g2` is `g1` with one traversal of the sequence path `p` folded in at
/// weight `w`: the same structure, every edge the path walks reinforced by
/// `w` (saturating), every other edge untouched.
pub open spec fn reinforces(g1: PoaGraph, g2: PoaGraph, p: Seq<usize>, w: u64) -> bool {
    &&& same_structure(g1, g2)
    &&& forall|j: int|
        0 <= j < g1.edges@.len() ==> (#[trigger] g2.edges@[j]).weight == (if walks_edge(
            p,
            g1.edges@[j].from,
            g1.edges@[j].to,
        ) {
            sat_add(g1.edges@[j].weight, w)
        } else {
            g1.edges@[j].weight
        })
}

/// Weight conservation law: folding an already-present sequence in twice,
/// with weights `w1` and then `w2`, leaves exactly the graph that a single
/// insertion with weight `w1 + w2` leaves — the same nodes and edges, each
/// walked edge reinforced by the summed weight.
pub proof fn lemma_weight_conservation(
    g0: PoaGraph,
    g1: PoaGraph,
    g2: PoaGraph,
    p: Seq<usize>,
    w1: u64,
    w2: u64,
)
    requires
        reinforces(g0, g1, p, w1),
        reinforces(g1, g2, p, w2),
        w1 + w2 <= u64::MAX,
    ensures
        reinforces(g0, g2, p, (w1 + w2) as u64),
{
    assert forall|j: int| 0 <= j < g0.edges@.len() implies (#[trigger] g2.edges@[j]).weight == (
    if walks_edge(p, g0.edges@[j].from, g0.edges@[j].to) {
        sat_add(g0.edges@[j].weight, (w1 + w2) as u64)
    } else {
        g0.edges@[j].weight
    }) by {
        assert(g1.edges@[j].from == g0.edges@[j].from && g1.edges@[j].to == g0.edges@[j].to);
        crate::graph::lemma_sat_add_compose(g0.edges@[j].weight, w1, w2);
    }
}

/// One provenance entry `(sid, off)` landed on `target`; every other node
/// of the old arena kept its provenance unchanged.
proof fn lemma_prov_step(
    g0: PoaGraph,
    gpre: PoaGraph,
    gn: PoaGraph,
    target: int,
    sid: usize,
    off: usize,
)
    requires
        prov_extended(g0, gpre, sid as int),
        gpre.nodes@.len() >= g0.nodes@.len(),
        gn.nodes@.len() >= g0.nodes@.len(),
        forall|u: int|
            0 <= u < g0.nodes@.len() && u != target ==> (#[trigger] gn.nodes@[u]).prov
                == gpre.nodes@[u].prov,
        0 <= target < g0.nodes@.len() ==> gn.nodes@[target].prov@ == gpre.nodes@[target].prov@.push(
            (sid, off),
        ),
    ensures
        prov_extended(g0, gn, sid as int),
{
    assert forall|v: int| 0 <= v < g0.nodes@.len() implies prov_node_ok(
        g0.nodes@[v],
        #[trigger] gn.nodes@[v],
        sid as int,
    ) by {
        assert(prov_node_ok(g0.nodes@[v], gpre.nodes@[v], sid as int));
        let l0 = g0.nodes@[v].prov@.len() as int;
        if v == target {
            assert(gn.nodes@[v].prov@.take(l0) =~= gpre.nodes@[v].prov@.take(l0));
            assert forall|t: int| l0 <= t < gn.nodes@[v].prov@.len() implies (
            #[trigger] gn.nodes@[v].prov@[t]).0 == sid by {
                if t < gpre.nodes@[v].prov@.len() {
                    assert(gn.nodes@[v].prov@[t] == gpre.nodes@[v].prov@[t]);
                } else {
                    assert(gn.nodes@[v].prov@[t] == (sid, off));
                }
            }
        }
    }
}

/// An edge of a well-formed graph goes up in rank.
proof fn lemma_edge_rank(g: PoaGraph, u: usize, v: usize)
    requires
        wf_edges(g),
        edge_between(g, u, v),
    ensures
        u < g.nodes@.len(),
        v < g.nodes@.len(),
        g.nodes@[u as int].rank < g.nodes@[v as int].rank,
{
    let j = choose|j: int| 0 <= j < g.edges@.len() && #[trigger] edge_at(g, j, u, v);
    assert(edge_ok(g, g.edges@[j]));
}

/// Any node but the end sentinel ranks strictly below it.
proof fn lemma_below_end(g: PoaGraph, u: usize)
    requires
        wf(g),
        u < g.nodes@.len(),
        u != END,
    ensures
        g.nodes@[u as int].rank < g.nodes@[END as int].rank,
{
    if g.nodes@[u as int].rank == g.nodes@.len() - 1 {
        assert(g.order@[g.nodes@[u as int].rank as int] as int == u as int);
        assert(g.order@[g.nodes@[END as int].rank as int] as int == END as int);
        assert(false);
    }
}

/// Keeping connections composes.
proof fn lemma_keeps_trans(a: PoaGraph, b: PoaGraph, c: PoaGraph)
    requires
        keeps_connections(a, b),
        keeps_connections(b, c),
    ensures
        keeps_connections(a, c),
{
    assert forall|u: usize, v: usize| edge_between(a, u, v) implies #[trigger] edge_between(
        c,
        u,
        v,
    ) by {
        assert(edge_between(b, u, v));
    }
}

/// Two graphs with the same edge list connect the same nodes.
proof fn lemma_same_edges_keep(g1: PoaGraph, g2: PoaGraph)
    requires
        g2.edges@ == g1.edges@,
        g2.nodes@.len() >= g1.nodes@.len(),
    ensures
        keeps_connections(g1, g2),
{
    assert forall|u: usize, v: usize| edge_between(g1, u, v) implies #[trigger] edge_between(
        g2,
        u,
        v,
    ) by {
        let j0 = choose|j0: int| 0 <= j0 < g1.edges@.len() && #[trigger] edge_at(g1, j0, u, v);
        assert(edge_at(g2, j0, u, v));
    }
}

impl PoaGraph {
    /// Appends `(sid, off)` to the provenance of node `v`; nothing else of
    /// the graph changes.
    #[verifier::loop_isolation(false)]
    pub fn note_provenance(&mut self, v: usize, sid: usize, off: usize)
        requires
            wf(*old(self)),
            v < old(self).nodes@.len(),
        ensures
            wf(*final(self)),
            final(self).nodes@.len() == old(self).nodes@.len(),
            forall|u: int|
                0 <= u < old(self).nodes@.len() ==> (#[trigger] final(self).nodes@[u]).symbol
                    == old(self).nodes@[u].symbol && final(self).nodes@[u].rank
                    == old(self).nodes@[u].rank,
            final(self).nodes@[v as int].prov@ == old(self).nodes@[v as int].prov@.push(
                (sid, off),
            ),
            forall|u: int|
                0 <= u < old(self).nodes@.len() && u != v
                    ==> (#[trigger] final(self).nodes@[u]).prov == old(self).nodes@[u].prov,
            final(self).order == old(self).order,
            final(self).edges == old(self).edges,
            final(self).seqs == old(self).seqs,
            keeps_connections(*old(self), *final(self)),
    {
        self.nodes[v].prov.push((sid, off));
        proof {
            let g1 = *old(self);
            let g2 = *self;
            assert forall|u: int| 0 <= u < g2.nodes@.len() implies (#[trigger] g2.nodes@[u]).rank
                == g1.nodes@[u].rank && g2.nodes@[u].symbol == g1.nodes@[u].symbol by {}
            assert forall|u: int| 0 <= u < g2.nodes@.len() implies (#[trigger] g2.nodes@[u].rank)
                < g2.nodes@.len() && g2.order@[g2.nodes@[u].rank as int] as int == u by {
                assert(g1.nodes@[u].rank < g1.nodes@.len());
                assert(g1.order@[g1.nodes@[u].rank as int] as int == u);
            }
            assert forall|k: int| 0 <= k < g2.order@.len() implies (#[trigger] g2.order@[k])
                < g2.nodes@.len() && g2.nodes@[g2.order@[k] as int].rank as int == k by {
                assert(g1.order@[k] < g1.nodes@.len());
                assert(g1.nodes@[g1.order@[k] as int].rank as int == k);
            }
            assert forall|j: int| 0 <= j < g2.edges@.len() implies edge_ok(
                g2,
                #[trigger] g2.edges@[j],
            ) by {
                assert(edge_ok(g1, g1.edges@[j]));
            }
            lemma_same_edges_keep(g1, g2);
            assert forall|x: usize| 2 <= x < g2.nodes@.len() implies crate::graph::has_in_edge(
                g2,
                x,
            ) by {
                assert(crate::graph::has_in_edge(g1, x));
                let j0 = choose|j0: int| 0 <= j0 < g1.edges@.len() && (#[trigger] g1.edges@[j0]).to
                    == x;
                assert((g2.edges@[j0]).to == x);
            }
            assert forall|s: int| 0 <= s < g2.seqs@.len() implies path_ok(
                g2,
                (#[trigger] g2.seqs@[s]).path@,
            ) by {
                crate::graph::lemma_path_still_ok(g1, g2, g2.seqs@[s].path@);
            }
        }
    }

    /// Folds a valid alignment of `q` into the graph with uniform weight
    /// `w`: matched nodes gain provenance, substitutions and insertions
    /// create one node each, deletions leave the graph alone, every step
    /// adds or reinforces the edge the sequence walks, and a new sequence
    /// record is appended whose path spells `q` exactly.
    #[verifier::loop_isolation(false)]
    #[verifier::rlimit(100)]
    pub fn apply_alignment(&mut self, q: &Vec<u8>, ops: &Vec<AlignOp>, w: u64)
        requires
            wf(*old(self)),
            old(self).seqs@.len() >= 1,
            q@.len() >= 1,
            valid_alignment(*old(self), q@, ops@),
            old(self).nodes@.len() + q@.len() <= usize::MAX,
        ensures
            wf(*final(self)),
            final(self).seqs@.len() == old(self).seqs@.len() + 1,
            forall|s: int|
                0 <= s < old(self).seqs@.len() ==> #[trigger] final(self).seqs@[s] == old(
                    self,
                ).seqs@[s],
            final(self).nodes@.len() == old(self).nodes@.len() + count_new_from(ops@, 0),
            extends_graph(*old(self), *final(self)),
            final(self).seqs@[old(self).seqs@.len() as int].path@.len() == q@.len(),
            forall|i: int|
                0 <= i < q@.len()
                    ==> final(self).nodes@[#[trigger] final(self).seqs@[old(self).seqs@.len() as int].path@[i] as int].symbol
                    == q@[i],
            all_match(ops@) ==> reinforces(
                *old(self),
                *final(self),
                final(self).seqs@[old(self).seqs@.len() as int].path@,
                w,
            ) && final(self).seqs@[old(self).seqs@.len() as int].path@ == op_nodes(ops@),
            prov_extended(*old(self), *final(self), old(self).seqs@.len() as int),
    {
        let ghost g0 = *old(self);
        let sid = self.seqs.len();
        let len = ops.len();
        let mut k: usize = 0;
        let mut qpos: usize = 0;
        let mut cursor: usize = START;
        let ghost mut pprev: usize = START;
        let mut path: Vec<usize> = Vec::new();
        proof {
            lemma_count_new_le(g0, q@, ops@, 0, 0, START);
            assert forall|v: int| 0 <= v < g0.nodes@.len() implies prov_node_ok(
                g0.nodes@[v],
                #[trigger] g0.nodes@[v],
                sid as int,
            ) by {
                assert(g0.nodes@[v].prov@.take(g0.nodes@[v].prov@.len() as int) =~= g0.nodes@[v].prov@);
            }
        }
        while k < len
            invariant
                k <= len,
                qpos <= q@.len(),
                path@.len() == qpos,
                wf(*self),
                self.seqs == g0.seqs,
                extends_graph(g0, *self),
                count_new_from(ops@, 0) <= q@.len(),
                self.nodes@.len() == g0.nodes@.len() + count_new_from(ops@, 0) - count_new_from(
                    ops@,
                    k as int,
                ),
                valid_from(g0, q@, ops@, k as int, qpos as int, pprev),
                pprev == START || 2 <= pprev < g0.nodes@.len(),
                cursor == START || 2 <= cursor < self.nodes@.len(),
                cursor < self.nodes@.len(),
                qpos == 0 ==> cursor == START,
                qpos >= 1 ==> cursor == path@[qpos - 1],
                forall|v: int|
                    #![trigger self.nodes@[v].rank]
                    0 <= v < g0.nodes@.len() && g0.nodes@[pprev as int].rank < g0.nodes@[v].rank
                        ==> self.nodes@[cursor as int].rank < self.nodes@[v].rank,
                forall|i: int| 0 <= i < qpos ==> 2 <= #[trigger] path@[i] < self.nodes@.len(),
                forall|i: int|
                    0 <= i < qpos ==> self.nodes@[#[trigger] path@[i] as int].symbol == q@[i],
                qpos >= 1 ==> edge_between(*self, START, path@[0]),
                forall|i: int|
                    0 <= i < qpos - 1 ==> #[trigger] edge_between(*self, path@[i], path@[i + 1]),
                prov_extended(g0, *self, sid as int),
                all_match(ops@) ==> path@ =~= op_nodes(ops@).take(k as int),
                all_match(ops@) ==> same_structure(g0, *self) && cursor == pprev && (forall|j: int|
                    0 <= j < g0.edges@.len() ==> (#[trigger] self.edges@[j]).weight == (
                    if walks_pair(path@, g0.edges@[j].from, g0.edges@[j].to) {
                        sat_add(g0.edges@[j].weight, w)
                    } else {
                        g0.edges@[j].weight
                    })),
            decreases len - k,
        {
            let ghost gpre = *self;
            proof {
                lemma_count_new_le(g0, q@, ops@, k as int, qpos as int, pprev);
            }
            match ops[k] {
                AlignOp::Match { v } => {
                    let ghost gpre_path = path@;
                    proof {
                        assert(ops@[k as int] == AlignOp::Match { v });
                        assert(valid_from(g0, q@, ops@, k + 1, qpos + 1, v));
                        lemma_edge_rank(g0, pprev, v);
                        assert(gpre.nodes@[cursor as int].rank < gpre.nodes@[v as int].rank);
                    }
                    proof {
                        if all_match(ops@) {
                            assert(edge_between(g0, pprev, v));
                            let j0 = choose|j0: int|
                                0 <= j0 < g0.edges@.len() && #[trigger] edge_at(g0, j0, pprev, v);
                            assert(edge_at(gpre, j0, cursor, v));
                            assert(edge_between(gpre, cursor, v));
                        }
                    }
                    self.add_edge_or_bump(cursor, v, w);
                    let ghost ga = *self;
                    self.note_provenance(v, sid, qpos);
                    path.push(v);
                    proof {
                        let gn = *self;
                        lemma_keeps_trans(gpre, ga, gn);
                        lemma_keeps_trans(g0, gpre, gn);
                        assert(edge_between(ga, cursor, v));
                        assert(edge_between(gn, cursor, v));
                        assert forall|u: int| 0 <= u < gpre.nodes@.len() implies (
                        #[trigger] gn.nodes@[u]).symbol == gpre.nodes@[u].symbol
                            && gn.nodes@[u].rank == gpre.nodes@[u].rank by {}
                        lemma_prov_step(g0, gpre, gn, v as int, sid, qpos);
                        if all_match(ops@) {
                            let op = path@.drop_last();
                            let np = path@;
                            assert(op == gpre_path);
                            assert(np == op.push(v));
                            // The step (cursor, v) is new to the walk: ranks
                            // strictly increase along the walked prefix.
                            assert(!walks_pair(op, cursor, v)) by {
                                if walks_pair(op, cursor, v) {
                                    if op.len() >= 1 && cursor == START && v == op[0] {
                                        assert(qpos >= 1);
                                        assert(cursor == op[qpos - 1] && op[qpos - 1] >= 2);
                                    } else {
                                        let i = choose|i: int|
                                            0 <= i < op.len() - 1 && cursor == #[trigger] op[i] && v
                                                == op[i + 1];
                                        assert(is_edge_path(gpre, op)) by {
                                            assert forall|t: int| 0 <= t < op.len() - 1 implies
                                            #[trigger] edge_between(gpre, op[t], op[t + 1]) by {}
                                        }
                                        if i + 1 < qpos - 1 {
                                            lemma_path_rank_mono(gpre, op, i + 1, qpos - 1);
                                            assert(gpre.nodes@[op[i + 1] as int].rank
                                                < gpre.nodes@[cursor as int].rank);
                                        } else {
                                            assert(op[i + 1] == cursor);
                                        }
                                        assert(gpre.nodes@[cursor as int].rank
                                            < gpre.nodes@[v as int].rank);
                                    }
                                }
                            }
                            assert forall|j: int| 0 <= j < g0.edges@.len() implies (
                            #[trigger] gn.edges@[j]).weight == (if walks_pair(
                                np,
                                g0.edges@[j].from,
                                g0.edges@[j].to,
                            ) {
                                sat_add(g0.edges@[j].weight, w)
                            } else {
                                g0.edges@[j].weight
                            }) by {
                                let f = g0.edges@[j].from;
                                let t = g0.edges@[j].to;
                                assert(gpre.edges@[j].from == f && gpre.edges@[j].to == t);
                                if f == cursor && t == v {
                                    assert(!walks_pair(op, f, t));
                                    assert(gpre.edges@[j].weight == g0.edges@[j].weight);
                                    assert(gn.edges@[j].weight == sat_add(g0.edges@[j].weight, w));
                                    assert(walks_pair(np, f, t)) by {
                                        if qpos >= 1 {
                                            let i0 = qpos - 1;
                                            assert(0 <= i0 < np.len() - 1 && f == np[i0] && t
                                                == np[i0 + 1]);
                                        }
                                    }
                                } else {
                                    assert(gn.edges@[j].weight == gpre.edges@[j].weight);
                                    assert(walks_pair(np, f, t) == walks_pair(op, f, t)) by {
                                        if walks_pair(np, f, t) {
                                            if np.len() >= 1 && f == START && t == np[0] {
                                                if qpos == 0 {
                                                    assert(f == cursor && t == v);
                                                } else {
                                                    assert(np[0] == op[0]);
                                                }
                                            } else {
                                                let i = choose|i: int|
                                                    0 <= i < np.len() - 1 && f == #[trigger] np[i]
                                                        && t == np[i + 1];
                                                if i < qpos - 1 {
                                                    assert(f == op[i] && t == op[i + 1]);
                                                } else {
                                                    assert(f == cursor && t == v);
                                                }
                                            }
                                        }
                                        if walks_pair(op, f, t) {
                                            if op.len() >= 1 && f == START && t == op[0] {
                                                assert(np[0] == op[0]);
                                            } else {
                                                let i = choose|i: int|
                                                    0 <= i < op.len() - 1 && f == #[trigger] op[i]
                                                        && t == op[i + 1];
                                                assert(np[i] == op[i] && np[i + 1] == op[i + 1]);
                                            }
                                        }
                                    }
                                }
                            }
                        }
                        pprev = v;
                    }
                    cursor = v;
                    qpos += 1;
                },
                AlignOp::Subst { v } => {
                    proof {
                        assert(ops@[k as int] == AlignOp::Subst { v });
                        assert(valid_from(g0, q@, ops@, k + 1, qpos + 1, v));
                        lemma_edge_rank(g0, pprev, v);
                        assert(gpre.nodes@[cursor as int].rank < gpre.nodes@[v as int].rank);
                        lemma_count_new_le(g0, q@, ops@, k + 1, qpos + 1, v);
                        assert(count_new_from(ops@, k as int) >= 1);
                        assert(self.nodes@.len() < usize::MAX);
                        assert(!all_match(ops@));
                    }
                    let id = self.insert_node_after(q[qpos], cursor, w);
                    let ghost ga = *self;
                    self.note_provenance(id, sid, qpos);
                    path.push(id);
                    proof {
                        let gn = *self;
                        lemma_keeps_trans(gpre, ga, gn);
                        lemma_keeps_trans(g0, gpre, gn);
                        assert(edge_between(ga, cursor, id));
                        assert(edge_between(gn, cursor, id));
                        assert forall|u: int| 0 <= u < ga.nodes@.len() implies (
                        #[trigger] gn.nodes@[u]).symbol == ga.nodes@[u].symbol && gn.nodes@[u].rank
                            == ga.nodes@[u].rank by {}
                        lemma_prov_step(g0, gpre, gn, id as int, sid, qpos);
                        // The new node sits below every old node that outranks v.
                        assert forall|x: int|
                            #![trigger gn.nodes@[x].rank]
                            0 <= x < g0.nodes@.len() && g0.nodes@[v as int].rank < g0.nodes@[x].rank
                            implies gn.nodes@[id as int].rank < gn.nodes@[x].rank by {
                            assert(gpre.nodes@[cursor as int].rank < gpre.nodes@[x as int].rank);
                            assert(gpre.nodes@[cursor as int].rank < gpre.nodes@[v as int].rank);
                            assert(gpre.nodes@[v as int].rank < gpre.nodes@[x as int].rank);
                            assert(ga.nodes@[id as int].rank == gpre.nodes@[cursor as int].rank
                                + 1);
                            assert(ga.nodes@[x].rank >= gpre.nodes@[x].rank);
                            assert(gpre.nodes@[x].rank >= gpre.nodes@[cursor as int].rank + 2);
                        }
                        pprev = v;
                    }
                    cursor = id;
                    qpos += 1;
                },
                AlignOp::Ins => {
                    proof {
                        assert(ops@[k as int] == AlignOp::Ins);
                        assert(valid_from(g0, q@, ops@, k + 1, qpos + 1, pprev));
                        lemma_count_new_le(g0, q@, ops@, k + 1, qpos + 1, pprev);
                        assert(count_new_from(ops@, k as int) >= 1);
                        assert(self.nodes@.len() < usize::MAX);
                        assert(!all_match(ops@));
                    }
                    let id = self.insert_node_after(q[qpos], cursor, w);
                    let ghost ga = *self;
                    self.note_provenance(id, sid, qpos);
                    path.push(id);
                    proof {
                        let gn = *self;
                        lemma_keeps_trans(gpre, ga, gn);
                        lemma_keeps_trans(g0, gpre, gn);
                        assert(edge_between(ga, cursor, id));
                        assert(edge_between(gn, cursor, id));
                        assert forall|u: int| 0 <= u < ga.nodes@.len() implies (
                        #[trigger] gn.nodes@[u]).symbol == ga.nodes@[u].symbol && gn.nodes@[u].rank
                            == ga.nodes@[u].rank by {}
                        lemma_prov_step(g0, gpre, gn, id as int, sid, qpos);
                        assert forall|x: int|
                            #![trigger gn.nodes@[x].rank]
                            0 <= x < g0.nodes@.len() && g0.nodes@[pprev as int].rank
                                < g0.nodes@[x].rank implies gn.nodes@[id as int].rank
                            < gn.nodes@[x].rank by {
                            assert(gpre.nodes@[cursor as int].rank < gpre.nodes@[x as int].rank);
                            assert(ga.nodes@[id as int].rank == gpre.nodes@[cursor as int].rank
                                + 1);
                            assert(ga.nodes@[x].rank >= gpre.nodes@[x].rank);
                        }
                    }
                    cursor = id;
                    qpos += 1;
                },
                AlignOp::Del { v } => {
                    proof {
                        assert(ops@[k as int] == AlignOp::Del { v });
                        assert(!all_match(ops@));
                        assert(valid_from(g0, q@, ops@, k + 1, qpos as int, v));
                        lemma_edge_rank(g0, pprev, v);
                        pprev = v;
                    }
                },
            }
            k += 1;
        }
        proof {
            assert(qpos == q@.len());
            assert(cursor != END && cursor != START);
            lemma_below_end(*self, cursor);
        }
        let ghost gpre = *self;
        proof {
            if all_match(ops@) {
                assert(edge_between(g0, pprev, END));
                let j0 = choose|j0: int|
                    0 <= j0 < g0.edges@.len() && #[trigger] edge_at(g0, j0, pprev, END);
                assert(edge_at(gpre, j0, cursor, END));
                assert(edge_between(gpre, cursor, END));
            }
        }
        self.add_edge_or_bump(cursor, END, w);
        proof {
            lemma_keeps_trans(g0, gpre, *self);
        }
        let ghost gfin = *self;
        self.seqs.push(SeqRec { path });
        proof {
            let g2 = *self;
            assert forall|j: int| 0 <= j < g2.edges@.len() implies edge_ok(
                g2,
                #[trigger] g2.edges@[j],
            ) by {
                assert(edge_ok(gfin, gfin.edges@[j]));
            }
            lemma_same_edges_keep(gfin, g2);
            lemma_keeps_trans(g0, gfin, g2);
            assert forall|x: usize| 2 <= x < g2.nodes@.len() implies crate::graph::has_in_edge(
                g2,
                x,
            ) by {
                assert(crate::graph::has_in_edge(gfin, x));
                let j0 = choose|j0: int| 0 <= j0 < gfin.edges@.len() && (
                #[trigger] gfin.edges@[j0]).to == x;
                assert((g2.edges@[j0]).to == x);
            }
            assert forall|s: int| 0 <= s < g2.seqs@.len() implies path_ok(
                g2,
                (#[trigger] g2.seqs@[s]).path@,
            ) by {
                if s < g0.seqs@.len() {
                    assert(g2.seqs@[s] == gfin.seqs@[s]);
                    assert(path_ok(gfin, gfin.seqs@[s].path@));
                    crate::graph::lemma_path_still_ok(gfin, g2, g2.seqs@[s].path@);
                } else {
                    let p = g2.seqs@[s].path@;
                    assert(p == path@);
                    assert(p.len() == q@.len());
                    assert(p.len() >= 1);
                    assert(edge_between(gpre, START, p[0]));
                    assert(edge_between(gfin, START, p[0]));
                    assert(edge_between(g2, START, p[0]));
                    assert(p[p.len() - 1] == cursor);
                    assert(edge_between(gfin, cursor, END));
                    assert(edge_between(g2, p[p.len() - 1], END));
                    assert forall|i: int| 0 <= i < p.len() - 1 implies #[trigger] edge_between(
                        g2,
                        p[i],
                        p[i + 1],
                    ) by {
                        assert(edge_between(gpre, p[i], p[i + 1]));
                        assert(edge_between(gfin, p[i], p[i + 1]));
                    }
                }
            }
            assert(wf(g2));
        }
    }

    /// Inserts a sequence with a uniform per-base weight: the first sequence
    /// seeds the graph directly at cost 0; a later one is aligned against
    /// the current graph and folded in, and its alignment cost returned.
    /// An empty sequence is rejected without touching the graph, as is an
    /// alignment the engine could not assemble consistently.
    pub fn add_sequence_with_weight(
        &mut self,
        bases: &Vec<u8>,
        weight: u64,
        mismatch: u8,
        gap_open: u8,
        gap_extend: u8,
    ) -> (r: Result<u64, PoaError>)
        requires
            wf(*old(self)),
            old(self).nodes@.len() + bases@.len() + 2 <= usize::MAX,
            (bases@.len() + 1) * old(self).nodes@.len() <= usize::MAX,
            (bases@.len() + 1) * old(self).nodes@.len() <= 0x100_0000_0000,
        ensures
            wf(*final(self)),
            r is Err <==> bases@.len() == 0,
            bases@.len() == 0 ==> r == Err::<u64, PoaError>(PoaError::EmptyInput),
            r is Err ==> *final(self) == *old(self),
            old(self).seqs@.len() == 0 && bases@.len() > 0 ==> r == Ok::<u64, PoaError>(0)
                && crate::graph::first_chain(
                *final(self),
                bases@,
                Seq::new(bases@.len(), |i: int| weight),
            ),
            old(self).seqs@.len() >= 1 ==> (r matches Ok(c) ==> {
                &&& final(self).seqs@.len() == old(self).seqs@.len() + 1
                &&& forall|s: int|
                    0 <= s < old(self).seqs@.len() ==> #[trigger] final(self).seqs@[s] == old(
                        self,
                    ).seqs@[s]
                &&& extends_graph(*old(self), *final(self))
                &&& prov_extended(*old(self), *final(self), old(self).seqs@.len() as int)
                &&& final(self).seqs@[old(self).seqs@.len() as int].path@.len() == bases@.len()
                &&& forall|i: int|
                    0 <= i < bases@.len()
                        ==> final(self).nodes@[#[trigger] final(self).seqs@[old(self).seqs@.len() as int].path@[i] as int].symbol
                        == bases@[i]
                &&& (c == 0 && mismatch >= 1 && gap_extend >= 1 ==> reinforces(
                    *old(self),
                    *final(self),
                    final(self).seqs@[old(self).seqs@.len() as int].path@,
                    weight,
                ))
                &&& exists|ops: Seq<AlignOp>|
                    valid_alignment(*old(self), bases@, ops) && c == crate::align::alignment_cost(
                        ops,
                        mismatch,
                        gap_open,
                        gap_extend,
                    ) && final(self).nodes@.len() == old(self).nodes@.len() + count_new_from(ops, 0)
            }),
            old(self).seqs@.len() >= 1 && (exists|s: int|
                0 <= s < old(self).seqs@.len() && #[trigger] crate::msa::path_symbols(
                    *old(self),
                    s,
                ) == bases@) ==> r == Ok::<u64, PoaError>(0) && reinforces(
                *old(self),
                *final(self),
                final(self).seqs@[old(self).seqs@.len() as int].path@,
                weight,
            ) && (exists|s: int|
                0 <= s < old(self).seqs@.len() && #[trigger] crate::msa::path_symbols(
                    *old(self),
                    s,
                ) == bases@ && final(self).seqs@[old(self).seqs@.len() as int].path@ == old(
                    self,
                ).seqs@[s].path@),
    {
        let l = bases.len();
        if l == 0 {
            return Err(PoaError::EmptyInput);
        }
        if self.is_empty() {
            let mut ws: Vec<u64> = Vec::new();
            let mut i: usize = 0;
            #[verifier::loop_isolation(false)]
            while i < l
                invariant
                    i <= l,
                    ws@.len() == i,
                    forall|j: int| 0 <= j < i ==> ws@[j] == weight,
                decreases l - i,
            {
                ws.push(weight);
                i += 1;
            }
            proof {
                assert(ws@ =~= Seq::new(bases@.len(), |i: int| weight));
            }
            match self.add_first_sequence(bases, &ws) {
                Ok(()) => Ok(0),
                Err(e) => Err(e),
            }
        } else {
            let ghost g0 = *old(self);
            let al = self.align(bases, mismatch, gap_open, gap_extend);
            let cost = al.cost;
            self.apply_alignment(bases, &al.ops, weight);
            proof {
                let ops0 = al.ops@;
                assert(valid_alignment(g0, bases@, ops0) && cost as u64
                    == crate::align::alignment_cost(ops0, mismatch, gap_open, gap_extend)
                    && final(self).nodes@.len() == g0.nodes@.len() + count_new_from(ops0, 0));
                if cost == 0 && mismatch >= 1 && gap_extend >= 1 {
                    crate::align::lemma_zero_cost_is_all_match(
                        ops0,
                        mismatch,
                        gap_open,
                        gap_extend,
                    );
                }
                if exists|t: int|
                    0 <= t < g0.seqs@.len() && #[trigger] crate::msa::path_symbols(g0, t)
                        == bases@ {
                    assert(cost == 0 && crate::align::all_match(ops0));
                    let t0 = choose|t: int|
                        0 <= t < g0.seqs@.len() && #[trigger] crate::msa::path_symbols(g0, t)
                            == bases@ && op_nodes(ops0) == g0.seqs@[t].path@;
                    assert(final(self).seqs@[g0.seqs@.len() as int].path@ == g0.seqs@[t0].path@);
                }
            }
            Ok(cost)
        }
    }

    /// Inserts a sequence with weight 1 per base: see
    /// [`PoaGraph::add_sequence_with_weight`].
    pub fn add_sequence(
        &mut self,
        bases: &Vec<u8>,
        mismatch: u8,
        gap_open: u8,
        gap_extend: u8,
    ) -> (r: Result<u64, PoaError>)
        requires
            wf(*old(self)),
            old(self).nodes@.len() + bases@.len() + 2 <= usize::MAX,
            (bases@.len() + 1) * old(self).nodes@.len() <= usize::MAX,
            (bases@.len() + 1) * old(self).nodes@.len() <= 0x100_0000_0000,
        ensures
            wf(*final(self)),
            r is Err <==> bases@.len() == 0,
            bases@.len() == 0 ==> r == Err::<u64, PoaError>(PoaError::EmptyInput),
            r is Err ==> *final(self) == *old(self),
            old(self).seqs@.len() == 0 && bases@.len() > 0 ==> r == Ok::<u64, PoaError>(0)
                && crate::graph::first_chain(
                *final(self),
                bases@,
                Seq::new(bases@.len(), |i: int| 1u64),
            ),
            old(self).seqs@.len() >= 1 ==> (r matches Ok(c) ==> {
                &&& final(self).seqs@.len() == old(self).seqs@.len() + 1
                &&& forall|s: int|
                    0 <= s < old(self).seqs@.len() ==> #[trigger] final(self).seqs@[s] == old(
                        self,
                    ).seqs@[s]
                &&& extends_graph(*old(self), *final(self))
                &&& prov_extended(*old(self), *final(self), old(self).seqs@.len() as int)
                &&& final(self).seqs@[old(self).seqs@.len() as int].path@.len() == bases@.len()
                &&& forall|i: int|
                    0 <= i < bases@.len()
                        ==> final(self).nodes@[#[trigger] final(self).seqs@[old(self).seqs@.len() as int].path@[i] as int].symbol
                        == bases@[i]
                &&& (c == 0 && mismatch >= 1 && gap_extend >= 1 ==> reinforces(
                    *old(self),
                    *final(self),
                    final(self).seqs@[old(self).seqs@.len() as int].path@,
                    1,
                ))
                &&& exists|ops: Seq<AlignOp>|
                    valid_alignment(*old(self), bases@, ops) && c == crate::align::alignment_cost(
                        ops,
                        mismatch,
                        gap_open,
                        gap_extend,
                    ) && final(self).nodes@.len() == old(self).nodes@.len() + count_new_from(ops, 0)
            }),
            old(self).seqs@.len() >= 1 && (exists|s: int|
                0 <= s < old(self).seqs@.len() && #[trigger] crate::msa::path_symbols(
                    *old(self),
                    s,
                ) == bases@) ==> r == Ok::<u64, PoaError>(0) && reinforces(
                *old(self),
                *final(self),
                final(self).seqs@[old(self).seqs@.len() as int].path@,
                1,
            ) && (exists|s: int|
                0 <= s < old(self).seqs@.len() && #[trigger] crate::msa::path_symbols(
                    *old(self),
                    s,
                ) == bases@ && final(self).seqs@[old(self).seqs@.len() as int].path@ == old(
                    self,
                ).seqs@[s].path@),
    {
        self.add_sequence_with_weight(bases, 1, mismatch, gap_open, gap_extend)
    }
}

} // verus!
