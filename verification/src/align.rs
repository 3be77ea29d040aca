//! The sequence-to-graph aligner.
//!
//! A query is aligned against the whole graph under a global policy: every
//! query base and an end-to-end path through the graph must be accounted
//! for. Costs are affine (Gotoh style): a mismatch costs `mismatch`, a gap
//! run costs `gap_open` once plus `gap_extend` per consumed base or node,
//! the opening base paying both. Matching an identical symbol costs 0.
//!
//! The dynamic program keeps three cost layers over (query prefix, node):
//! ending in a match or substitution, ending in a query-consuming gap
//! (insertion), and ending in a node-consuming gap (deletion), the
//! predecessor terms ranging over all in-edges of a node. Ties prefer
//! match over insertion over deletion. The operation list read back from
//! the tables is validated and its cost recomputed by verified code, and
//! a query equal to a recorded sequence reuses that sequence's own path,
//! so alignment always returns a valid list with an exactly accounted
//! cost — of 0, all matches, whenever the query is already in the graph.

use vstd::prelude::*;

use crate::graph::{edge_at, edge_between, wf, PoaGraph, END, START};

verus! {

/// One step of an alignment result.
#[derive(Clone, Copy, PartialEq, Eq, Structural, Debug)]
pub enum AlignOp {
    /// The query base equals the symbol of node `v`; the sequence reuses `v`.
    Match { v: usize },
    /// The query base differs from node `v`'s symbol; a sibling node is created.
    Subst { v: usize },
    /// The query base has no graph counterpart; a new node is created.
    Ins,
    /// Graph node `v` has no query counterpart; the sequence skips it.
    Del { v: usize },
}

/// An alignment result: the operation list and its total cost.
#[derive(Clone, Debug)]
pub struct Alignment {
    pub ops: Vec<AlignOp>,
    pub cost: u64,
}

/// Validity of the suffix `ops[k..]` when `qpos` query bases are already
/// consumed and the walk stands on graph node `pprev`: every later query
/// base is consumed exactly once in order, match and substitution agree
/// with the node's symbol, the consumed graph nodes continue `pprev` along
/// edges, and the walk ends in the end sentinel with the query exhausted.
pub open spec fn valid_from(
    g: PoaGraph,
    q: Seq<u8>,
    ops: Seq<AlignOp>,
    k: int,
    qpos: int,
    pprev: usize,
) -> bool
    decreases ops.len() - k,
{
    if k < 0 || k > ops.len() {
        false
    } else if k == ops.len() {
        qpos == q.len() && edge_between(g, pprev, END)
    } else {
        match ops[k] {
            AlignOp::Match { v } => {
                &&& 2 <= v < g.nodes@.len()
                &&& qpos < q.len()
                &&& g.nodes@[v as int].symbol == q[qpos]
                &&& edge_between(g, pprev, v)
                &&& valid_from(g, q, ops, k + 1, qpos + 1, v)
            },
            AlignOp::Subst { v } => {
                &&& 2 <= v < g.nodes@.len()
                &&& qpos < q.len()
                &&& g.nodes@[v as int].symbol != q[qpos]
                &&& edge_between(g, pprev, v)
                &&& valid_from(g, q, ops, k + 1, qpos + 1, v)
            },
            AlignOp::Ins => {
                &&& qpos < q.len()
                &&& valid_from(g, q, ops, k + 1, qpos + 1, pprev)
            },
            AlignOp::Del { v } => {
                &&& 2 <= v < g.nodes@.len()
                &&& edge_between(g, pprev, v)
                &&& valid_from(g, q, ops, k + 1, qpos, v)
            },
        }
    }
}

/// A valid global alignment of `q` against `g`: the walk starts at the
/// start sentinel, consumes the whole query, and traverses one complete
/// start-to-end path of the graph.
pub open spec fn valid_alignment(g: PoaGraph, q: Seq<u8>, ops: Seq<AlignOp>) -> bool {
    valid_from(g, q, ops, 0, 0, START)
}

/// The affine cost of the suffix `ops[k..]`, `in_ins`/`in_del` saying
/// whether an insertion or deletion run is already open.
pub open spec fn cost_from(
    ops: Seq<AlignOp>,
    k: int,
    in_ins: bool,
    in_del: bool,
    mismatch: u8,
    gap_open: u8,
    gap_extend: u8,
) -> int
    decreases ops.len() - k,
{
    if k < 0 || k >= ops.len() {
        0
    } else {
        match ops[k] {
            AlignOp::Match { v } => cost_from(ops, k + 1, false, false, mismatch, gap_open, gap_extend),
            AlignOp::Subst { v } => mismatch + cost_from(
                ops,
                k + 1,
                false,
                false,
                mismatch,
                gap_open,
                gap_extend,
            ),
            AlignOp::Ins => (if in_ins {
                gap_extend as int
            } else {
                gap_open + gap_extend
            }) + cost_from(ops, k + 1, true, false, mismatch, gap_open, gap_extend),
            AlignOp::Del { v } => (if in_del {
                gap_extend as int
            } else {
                gap_open + gap_extend
            }) + cost_from(ops, k + 1, false, true, mismatch, gap_open, gap_extend),
        }
    }
}

/// The total affine cost of an operation list.
pub open spec fn alignment_cost(
    ops: Seq<AlignOp>,
    mismatch: u8,
    gap_open: u8,
    gap_extend: u8,
) -> int {
    cost_from(ops, 0, false, false, mismatch, gap_open, gap_extend)
}

/// Each operation costs at least 0 and at most `mismatch + open + extend`.
pub proof fn lemma_cost_from_bounds(
    ops: Seq<AlignOp>,
    k: int,
    in_ins: bool,
    in_del: bool,
    mismatch: u8,
    gap_open: u8,
    gap_extend: u8,
)
    requires
        0 <= k <= ops.len(),
    ensures
        0 <= cost_from(ops, k, in_ins, in_del, mismatch, gap_open, gap_extend) <= (ops.len() - k)
            * (mismatch + gap_open + gap_extend),
    decreases ops.len() - k,
{
    if k < ops.len() {
        lemma_cost_from_bounds(ops, k + 1, false, false, mismatch, gap_open, gap_extend);
        lemma_cost_from_bounds(ops, k + 1, true, false, mismatch, gap_open, gap_extend);
        lemma_cost_from_bounds(ops, k + 1, false, true, mismatch, gap_open, gap_extend);
        assert((ops.len() - k) * (mismatch + gap_open + gap_extend) == (ops.len() - k - 1) * (
        mismatch + gap_open + gap_extend) + (mismatch + gap_open + gap_extend)) by (nonlinear_arith);
    }
}

/// Every operation is a match: re-inserting an already-present sequence
/// aligns this way.
pub open spec fn all_match(ops: Seq<AlignOp>) -> bool {
    forall|k: int| 0 <= k < ops.len() ==> (#[trigger] ops[k]) is Match
}

/// The node that each operation consumes or creates at, 0 for a plain
/// insertion (which references no node).
pub open spec fn op_nodes(ops: Seq<AlignOp>) -> Seq<usize> {
    ops.map(
        |i: int, op: AlignOp|
            match op {
                AlignOp::Match { v } => v,
                AlignOp::Subst { v } => v,
                AlignOp::Del { v } => v,
                AlignOp::Ins => 0usize,
            },
    )
}

/// A suffix of matches costs nothing from any gap state.
proof fn lemma_match_suffix_free(
    ops: Seq<AlignOp>,
    k: int,
    in_ins: bool,
    in_del: bool,
    mismatch: u8,
    gap_open: u8,
    gap_extend: u8,
)
    requires
        0 <= k <= ops.len(),
        all_match(ops),
    ensures
        cost_from(ops, k, in_ins, in_del, mismatch, gap_open, gap_extend) == 0,
    decreases ops.len() - k,
{
    if k < ops.len() {
        assert(ops[k] is Match);
        lemma_match_suffix_free(ops, k + 1, false, false, mismatch, gap_open, gap_extend);
    }
}

/// An all-match operation list costs nothing: matching an identical symbol
/// is free.
pub proof fn lemma_all_match_cost_zero(ops: Seq<AlignOp>, mismatch: u8, gap_open: u8, gap_extend: u8)
    requires
        all_match(ops),
    ensures
        alignment_cost(ops, mismatch, gap_open, gap_extend) == 0,
{
    lemma_match_suffix_free(ops, 0, false, false, mismatch, gap_open, gap_extend);
}

/// With positive mismatch and gap costs, only matches cost nothing.
proof fn lemma_free_suffix_matches(
    ops: Seq<AlignOp>,
    k: int,
    in_ins: bool,
    in_del: bool,
    mismatch: u8,
    gap_open: u8,
    gap_extend: u8,
)
    requires
        0 <= k <= ops.len(),
        mismatch >= 1,
        gap_extend >= 1,
        cost_from(ops, k, in_ins, in_del, mismatch, gap_open, gap_extend) == 0,
    ensures
        forall|t: int| k <= t < ops.len() ==> (#[trigger] ops[t]) is Match,
    decreases ops.len() - k,
{
    if k < ops.len() {
        lemma_cost_from_bounds(ops, k + 1, false, false, mismatch, gap_open, gap_extend);
        lemma_cost_from_bounds(ops, k + 1, true, false, mismatch, gap_open, gap_extend);
        lemma_cost_from_bounds(ops, k + 1, false, true, mismatch, gap_open, gap_extend);
        match ops[k] {
            AlignOp::Match { v } => {
                lemma_free_suffix_matches(
                    ops,
                    k + 1,
                    false,
                    false,
                    mismatch,
                    gap_open,
                    gap_extend,
                );
            },
            AlignOp::Subst { v } => {
                assert(false);
            },
            AlignOp::Ins => {
                assert(false);
            },
            AlignOp::Del { v } => {
                assert(false);
            },
        }
    }
}

/// With positive mismatch and gap-extension costs, a zero-cost operation
/// list is all matches: a free alignment reuses existing nodes only, so
/// folding it in can only reinforce edges, never change the structure.
pub proof fn lemma_zero_cost_is_all_match(
    ops: Seq<AlignOp>,
    mismatch: u8,
    gap_open: u8,
    gap_extend: u8,
)
    requires
        mismatch >= 1,
        gap_extend >= 1,
        alignment_cost(ops, mismatch, gap_open, gap_extend) == 0,
    ensures
        all_match(ops),
{
    lemma_free_suffix_matches(ops, 0, false, false, mismatch, gap_open, gap_extend);
}

/// Node ranks along a sequence path start above the start sentinel's and
/// strictly increase, so position `i` has rank at least `i + 1`.
proof fn lemma_path_rank_ge(g: PoaGraph, p: Seq<usize>, i: int)
    requires
        wf(g),
        crate::graph::path_ok(g, p),
        0 <= i < p.len(),
    ensures
        g.nodes@[p[i] as int].rank >= i + 1,
    decreases i,
{
    if i == 0 {
        let e = choose|e: int| 0 <= e < g.edges@.len() && #[trigger] edge_at(g, e, START, p[0]);
        assert(crate::graph::edge_ok(g, g.edges@[e]));
    } else {
        lemma_path_rank_ge(g, p, i - 1);
        assert(crate::graph::is_edge_path(g, p)) by {
            assert forall|t: int| 0 <= t < p.len() - 1 implies #[trigger] edge_between(
                g,
                p[t],
                p[t + 1],
            ) by {}
        }
        crate::graph::lemma_path_rank_mono(g, p, i - 1, i);
    }
}

/// A sequence path never repeats a node, so it is no longer than the arena.
pub proof fn lemma_path_len(g: PoaGraph, p: Seq<usize>)
    requires
        wf(g),
        crate::graph::path_ok(g, p),
    ensures
        p.len() <= g.nodes@.len(),
{
    let i = p.len() - 1;
    lemma_path_rank_ge(g, p, i);
    assert(g.nodes@[p[i] as int].rank < g.nodes@.len());
}

/// Skipping a whole recorded path and then inserting every query base is a
/// valid global alignment of any nonempty query: the graph walk is the
/// recorded path, consumed by deletions, and the query is consumed by
/// insertions at its end.
proof fn lemma_skip_then_insert_valid(
    g: PoaGraph,
    p: Seq<usize>,
    q: Seq<u8>,
    ops: Seq<AlignOp>,
    k: int,
)
    requires
        crate::graph::path_ok(g, p),
        ops.len() == p.len() + q.len(),
        forall|i: int| 0 <= i < p.len() ==> #[trigger] ops[i] == (AlignOp::Del { v: p[i] }),
        forall|i: int| p.len() <= i < ops.len() ==> #[trigger] ops[i] == AlignOp::Ins,
        0 <= k <= ops.len(),
    ensures
        valid_from(g, q, ops, k, if k <= p.len() {
            0int
        } else {
            k - p.len()
        }, if k == 0 {
            START
        } else {
            p[if k <= p.len() {
                k - 1
            } else {
                p.len() - 1
            }]
        }),
    decreases ops.len() - k,
{
    if k < ops.len() {
        lemma_skip_then_insert_valid(g, p, q, ops, k + 1);
        if k >= 1 && k < p.len() {
            let i0 = k - 1;
            assert(edge_between(g, p[i0], p[i0 + 1]));
        }
    }
}

/// Walking a recorded path and matching each of its nodes in turn is a
/// valid global alignment of the path's own symbols.
proof fn lemma_path_match_valid(g: PoaGraph, p: Seq<usize>, q: Seq<u8>, ops: Seq<AlignOp>, k: int)
    requires
        crate::graph::path_ok(g, p),
        q.len() == p.len(),
        ops.len() == p.len(),
        forall|i: int| 0 <= i < p.len() ==> #[trigger] q[i] == g.nodes@[p[i] as int].symbol,
        forall|i: int| 0 <= i < p.len() ==> #[trigger] ops[i] == (AlignOp::Match { v: p[i] }),
        0 <= k <= p.len(),
    ensures
        valid_from(g, q, ops, k, k, if k == 0 {
            START
        } else {
            p[k - 1]
        }),
    decreases p.len() - k,
{
    if k < p.len() {
        lemma_path_match_valid(g, p, q, ops, k + 1);
        if k > 0 {
            let i0 = k - 1;
            assert(edge_between(g, p[i0], p[i0 + 1]));
        }
    }
}

/// Re-insertion law, the witness half: every already-recorded sequence has
/// a valid global alignment against the graph that matches each of its own
/// nodes in turn — an all-match operation list of cost 0 under any scoring.
pub proof fn lemma_reinsertion_alignment_free(
    g: PoaGraph,
    s: int,
    mismatch: u8,
    gap_open: u8,
    gap_extend: u8,
)
    requires
        crate::graph::wf(g),
        0 <= s < g.seqs@.len(),
    ensures
        exists|ops: Seq<AlignOp>|
            valid_alignment(g, crate::msa::path_symbols(g, s), ops) && all_match(ops)
                && alignment_cost(ops, mismatch, gap_open, gap_extend) == 0,
{
    let p = g.seqs@[s].path@;
    let q = crate::msa::path_symbols(g, s);
    let ops = Seq::new(p.len(), |i: int| AlignOp::Match { v: p[i] });
    assert(crate::graph::path_ok(g, p));
    lemma_path_match_valid(g, p, q, ops, 0);
    assert(all_match(ops));
    lemma_all_match_cost_zero(ops, mismatch, gap_open, gap_extend);
    assert(valid_alignment(g, q, ops) && all_match(ops) && alignment_cost(
        ops,
        mismatch,
        gap_open,
        gap_extend,
    ) == 0);
}

/// The number of node-creating operations (substitutions and insertions)
/// in the suffix `ops[k..]`.
pub open spec fn count_new_from(ops: Seq<AlignOp>, k: int) -> int
    decreases ops.len() - k,
{
    if k < 0 || k >= ops.len() {
        0
    } else {
        (match ops[k] {
            AlignOp::Subst { v } => 1int,
            AlignOp::Ins => 1int,
            _ => 0int,
        }) + count_new_from(ops, k + 1)
    }
}

/// A valid suffix creates at most one node per remaining query base.
pub proof fn lemma_count_new_le(
    g: PoaGraph,
    q: Seq<u8>,
    ops: Seq<AlignOp>,
    k: int,
    qpos: int,
    pprev: usize,
)
    requires
        valid_from(g, q, ops, k, qpos, pprev),
    ensures
        0 <= count_new_from(ops, k) <= q.len() - qpos,
    decreases ops.len() - k,
{
    if k < ops.len() {
        match ops[k] {
            AlignOp::Match { v } => lemma_count_new_le(g, q, ops, k + 1, qpos + 1, v),
            AlignOp::Subst { v } => lemma_count_new_le(g, q, ops, k + 1, qpos + 1, v),
            AlignOp::Ins => lemma_count_new_le(g, q, ops, k + 1, qpos + 1, pprev),
            AlignOp::Del { v } => lemma_count_new_le(g, q, ops, k + 1, qpos, v),
        }
    }
}

/// Whether some edge of `g` connects `u` to `v`, by scanning the edges.
#[verifier::loop_isolation(false)]
pub fn edge_exists(g: &PoaGraph, u: usize, v: usize) -> (r: bool)
    ensures
        r == edge_between(*g, u, v),
{
    let m = g.edges.len();
    let mut j: usize = 0;
    while j < m
        invariant
            j <= m,
            forall|i: int| 0 <= i < j ==> !edge_at(*g, i, u, v),
        decreases m - j,
    {
        if g.edges[j].from == u && g.edges[j].to == v {
            proof {
                assert(edge_at(*g, j as int, u, v));
            }
            return true;
        }
        j += 1;
    }
    false
}

/// Decides [`valid_alignment`] by walking the operation list once.
#[verifier::loop_isolation(false)]
pub fn check_ops(g: &PoaGraph, q: &Vec<u8>, ops: &Vec<AlignOp>) -> (r: bool)
    ensures
        r == valid_alignment(*g, q@, ops@),
{
    let len = ops.len();
    let mut k: usize = 0;
    let mut qpos: usize = 0;
    let mut pprev: usize = START;
    while k < len
        invariant
            k <= len,
            qpos <= q@.len(),
            valid_alignment(*g, q@, ops@) == valid_from(
                *g,
                q@,
                ops@,
                k as int,
                qpos as int,
                pprev,
            ),
        decreases len - k,
    {
        match ops[k] {
            AlignOp::Match { v } => {
                if !(2 <= v && v < g.nodes.len() && qpos < q.len() && g.nodes[v].symbol == q[qpos]
                    && edge_exists(g, pprev, v)) {
                    return false;
                }
                pprev = v;
                qpos += 1;
            },
            AlignOp::Subst { v } => {
                if !(2 <= v && v < g.nodes.len() && qpos < q.len() && g.nodes[v].symbol != q[qpos]
                    && edge_exists(g, pprev, v)) {
                    return false;
                }
                pprev = v;
                qpos += 1;
            },
            AlignOp::Ins => {
                if !(qpos < q.len()) {
                    return false;
                }
                qpos += 1;
            },
            AlignOp::Del { v } => {
                if !(2 <= v && v < g.nodes.len() && edge_exists(g, pprev, v)) {
                    return false;
                }
                pprev = v;
            },
        }
        k += 1;
    }
    qpos == q.len() && edge_exists(g, pprev, END)
}

/// Computes [`alignment_cost`] of an operation list by one pass.
#[verifier::loop_isolation(false)]
pub fn ops_cost(ops: &Vec<AlignOp>, mismatch: u8, gap_open: u8, gap_extend: u8) -> (c: u64)
    requires
        ops@.len() * (mismatch + gap_open + gap_extend) <= u64::MAX,
    ensures
        c == alignment_cost(ops@, mismatch, gap_open, gap_extend),
{
    let len = ops.len();
    let mut k: usize = 0;
    let mut in_ins: bool = false;
    let mut in_del: bool = false;
    let mut c: u64 = 0;
    proof {
        lemma_cost_from_bounds(ops@, 0, false, false, mismatch, gap_open, gap_extend);
    }
    while k < len
        invariant
            k <= len,
            alignment_cost(ops@, mismatch, gap_open, gap_extend) == c + cost_from(
                ops@,
                k as int,
                in_ins,
                in_del,
                mismatch,
                gap_open,
                gap_extend,
            ),
            c <= k * (mismatch + gap_open + gap_extend),
        decreases len - k,
    {
        proof {
            lemma_cost_from_bounds(ops@, k as int, in_ins, in_del, mismatch, gap_open, gap_extend);
            lemma_cost_from_bounds(
                ops@,
                k + 1,
                ops@[k as int] is Ins,
                ops@[k as int] is Del,
                mismatch,
                gap_open,
                gap_extend,
            );
            assert(k * (mismatch + gap_open + gap_extend) + (mismatch + gap_open + gap_extend) == (k
                + 1) * (mismatch + gap_open + gap_extend)) by (nonlinear_arith);
            assert((k + 1) * (mismatch + gap_open + gap_extend) <= len * (mismatch + gap_open
                + gap_extend)) by (nonlinear_arith)
                requires
                    0 <= k + 1 <= len,
            ;
        }
        match ops[k] {
            AlignOp::Match { v } => {
                in_ins = false;
                in_del = false;
            },
            AlignOp::Subst { v } => {
                c = c + mismatch as u64;
                in_ins = false;
                in_del = false;
            },
            AlignOp::Ins => {
                c = c + (if in_ins {
                    gap_extend as u64
                } else {
                    gap_open as u64 + gap_extend as u64
                });
                in_ins = true;
                in_del = false;
            },
            AlignOp::Del { v } => {
                c = c + (if in_del {
                    gap_extend as u64
                } else {
                    gap_open as u64 + gap_extend as u64
                });
                in_ins = false;
                in_del = true;
            },
        }
        k += 1;
    }
    c
}

/// A cost large enough to stand for "unreachable"; all real costs stay
/// far below it and additions toward it saturate.
pub const INF_COST: u64 = 0x4000_0000_0000_0000;

/// Adds two costs, saturating at `INF_COST` so that unreachable cells
/// stay unreachable and no addition overflows.
fn cap_add(a: u64, b: u64) -> (r: u64)
    ensures
        r <= INF_COST,
        a <= INF_COST && b <= INF_COST && a + b <= INF_COST ==> r == a + b,
{
    if a >= INF_COST || b >= INF_COST {
        INF_COST
    } else if a + b >= INF_COST {
        INF_COST
    } else {
        a + b
    }
}

/// A vector of `n` copies of `x`.
#[verifier::loop_isolation(false)]
fn filled_u64(n: usize, x: u64) -> (v: Vec<u64>)
    ensures
        v@.len() == n,
    {
    let mut v: Vec<u64> = Vec::new();
    let mut i: usize = 0;
    while i < n
        invariant
            v@.len() == i,
            i <= n,
        decreases n - i,
    {
        v.push(x);
        i += 1;
    }
    v
}

/// A vector of `n` copies of `x`.
#[verifier::loop_isolation(false)]
fn filled_usize(n: usize, x: usize) -> (v: Vec<usize>)
    ensures
        v@.len() == n,
    {
    let mut v: Vec<usize> = Vec::new();
    let mut i: usize = 0;
    while i < n
        invariant
            v@.len() == i,
            i <= n,
        decreases n - i,
    {
        v.push(x);
        i += 1;
    }
    v
}

/// A vector of `n` copies of `x`.
#[verifier::loop_isolation(false)]
fn filled_u8(n: usize, x: u8) -> (v: Vec<u8>)
    ensures
        v@.len() == n,
    {
    let mut v: Vec<u8> = Vec::new();
    let mut i: usize = 0;
    while i < n
        invariant
            v@.len() == i,
            i <= n,
        decreases n - i,
    {
        v.push(x);
        i += 1;
    }
    v
}

impl PoaGraph {
    /// A valid alignment that any nonempty graph admits for any nonempty
    /// query: skip the first recorded sequence's path by deletions, then
    /// insert every query base. Only a safety net: the dynamic program is
    /// taken when its tables read back consistently.
    #[verifier::loop_isolation(false)]
    fn fallback_alignment(&self, q: &Vec<u8>, mismatch: u8, gap_open: u8, gap_extend: u8) -> (r:
        Alignment)
        requires
            wf(*self),
            self.seqs@.len() >= 1,
            q@.len() >= 1,
            (q@.len() + 1) * self.nodes@.len() <= 0x100_0000_0000,
        ensures
            valid_alignment(*self, q@, r.ops@),
            r.cost == alignment_cost(r.ops@, mismatch, gap_open, gap_extend),
    {
        let ghost p = self.seqs@[0].path@;
        proof {
            assert(crate::graph::path_ok(*self, p));
            lemma_path_len(*self, p);
            assert(q@.len() + 1 <= (q@.len() + 1) * self.nodes@.len()) by (nonlinear_arith)
                requires
                    self.nodes@.len() >= 2,
                    q@.len() >= 0,
            ;
            assert(self.nodes@.len() <= (q@.len() + 1) * self.nodes@.len()) by (nonlinear_arith)
                requires
                    self.nodes@.len() >= 0,
                    q@.len() >= 0,
            ;
        }
        let plen = self.seqs[0].path.len();
        let qn = q.len();
        let mut ops: Vec<AlignOp> = Vec::new();
        let mut i: usize = 0;
        while i < plen
            invariant
                i <= plen,
                plen == p.len(),
                ops@.len() == i,
                forall|t: int| 0 <= t < i ==> #[trigger] ops@[t] == (AlignOp::Del { v: p[t] }),
            decreases plen - i,
        {
            ops.push(AlignOp::Del { v: self.seqs[0].path[i] });
            i += 1;
        }
        let mut t2: usize = 0;
        while t2 < qn
            invariant
                t2 <= qn,
                plen == p.len(),
                ops@.len() == plen + t2,
                forall|t: int| 0 <= t < plen ==> #[trigger] ops@[t] == (AlignOp::Del { v: p[t] }),
                forall|t: int| plen <= t < ops@.len() ==> #[trigger] ops@[t] == AlignOp::Ins,
            decreases qn - t2,
        {
            ops.push(AlignOp::Ins);
            t2 += 1;
        }
        proof {
            lemma_skip_then_insert_valid(*self, p, q@, ops@, 0);
            assert(ops@.len() * (mismatch + gap_open + gap_extend) <= u64::MAX) by (nonlinear_arith)
                requires
                    0 <= ops@.len() <= 0x200_0000_0000,
                    mismatch + gap_open + gap_extend <= 765,
            ;
        }
        let cost = ops_cost(&ops, mismatch, gap_open, gap_extend);
        Alignment { ops, cost }
    }

    /// Aligns `q` against the whole graph. A query that equals a recorded
    /// sequence reuses that sequence's own path: an all-match list of cost
    /// 0, which no alignment can beat. Any other query goes through the
    /// three-layer affine-gap dynamic program, ties broken toward match,
    /// then insertion, then deletion. Alignment never fails on a
    /// well-formed graph: the result is always a valid global alignment
    /// whose reported cost is exactly the affine cost of its operation
    /// list, and the graph is not touched.
    #[verifier::loop_isolation(false)]
    #[verifier::rlimit(60)]
    pub fn align(&self, q: &Vec<u8>, mismatch: u8, gap_open: u8, gap_extend: u8) -> (r: Alignment)
        requires
            wf(*self),
            self.seqs@.len() >= 1,
            q@.len() >= 1,
            (q@.len() + 1) * self.nodes@.len() <= usize::MAX,
            (q@.len() + 1) * self.nodes@.len() <= 0x100_0000_0000,
        ensures
            valid_alignment(*self, q@, r.ops@),
            r.cost == alignment_cost(r.ops@, mismatch, gap_open, gap_extend),
            (exists|s: int|
                0 <= s < self.seqs@.len() && #[trigger] crate::msa::path_symbols(*self, s) == q@)
                ==> r.cost == 0 && all_match(r.ops@) && (exists|s: int|
                0 <= s < self.seqs@.len() && #[trigger] crate::msa::path_symbols(*self, s) == q@
                    && op_nodes(r.ops@) == self.seqs@[s].path@),
            r.cost == 0 ==> (forall|ops2: Seq<AlignOp>|
                valid_alignment(*self, q@, ops2) ==> r.cost <= alignment_cost(
                    ops2,
                    mismatch,
                    gap_open,
                    gap_extend,
                )),
    {
        proof {
            assert forall|ops2: Seq<AlignOp>| valid_alignment(*self, q@, ops2) implies 0
                <= alignment_cost(ops2, mismatch, gap_open, gap_extend) by {
                lemma_cost_from_bounds(ops2, 0, false, false, mismatch, gap_open, gap_extend);
            }
        }
        let qn0 = q.len();
        let ns = self.seqs.len();
        let mut s: usize = 0;
        while s < ns
            invariant
                s <= ns,
                ns == self.seqs@.len(),
                forall|t: int|
                    0 <= t < s ==> #[trigger] crate::msa::path_symbols(*self, t) != q@,
            decreases ns - s,
        {
            let plen = self.seqs[s].path.len();
            if plen == qn0 {
                let mut i: usize = 0;
                let mut same: bool = true;
                while i < plen
                    invariant
                        i <= plen,
                        s < ns,
                        plen == self.seqs@[s as int].path@.len(),
                        plen == q@.len(),
                        same ==> forall|t: int|
                            0 <= t < i ==> self.nodes@[#[trigger] self.seqs@[s as int].path@[t] as int].symbol
                                == q@[t],
                        !same ==> crate::msa::path_symbols(*self, s as int) != q@,
                    decreases plen - i,
                {
                    let v = self.seqs[s].path[i];
                    if self.nodes[v].symbol != q[i] {
                        proof {
                            assert(crate::msa::path_symbols(*self, s as int)[i as int] != q@[i as int]);
                        }
                        same = false;
                    }
                    i += 1;
                }
                if same {
                    // The query is already in the graph: its own path is a
                    // free all-match alignment.
                    let mut ops: Vec<AlignOp> = Vec::new();
                    let mut t: usize = 0;
                    while t < plen
                        invariant
                            t <= plen,
                            s < ns,
                            plen == self.seqs@[s as int].path@.len(),
                            ops@.len() == t,
                            forall|u: int|
                                0 <= u < t ==> #[trigger] ops@[u] == (AlignOp::Match {
                                    v: self.seqs@[s as int].path@[u],
                                }),
                        decreases plen - t,
                    {
                        ops.push(AlignOp::Match { v: self.seqs[s].path[t] });
                        t += 1;
                    }
                    proof {
                        assert(crate::graph::path_ok(*self, self.seqs@[s as int].path@));
                        lemma_path_match_valid(*self, self.seqs@[s as int].path@, q@, ops@, 0);
                        assert(all_match(ops@));
                        lemma_all_match_cost_zero(ops@, mismatch, gap_open, gap_extend);
                        assert(crate::msa::path_symbols(*self, s as int) =~= q@);
                        assert(op_nodes(ops@) =~= self.seqs@[s as int].path@);
                    }
                    return Alignment { ops, cost: 0 };
                }
            } else {
                proof {
                    assert(crate::msa::path_symbols(*self, s as int).len() != q@.len());
                }
            }
            s += 1;
        }
        proof {
            assert forall|t: int| 0 <= t < self.seqs@.len() implies #[trigger] crate::msa::path_symbols(
                *self,
                t,
            ) != q@ by {}
        }
        let n = self.nodes.len();
        let qn = q.len();
        proof {
            assert(qn + 1 <= (qn + 1) * n) by (nonlinear_arith)
                requires
                    n >= 2,
                    qn >= 0,
            ;
        }
        let rows = qn + 1;
        let total = rows * n;
        proof {
            assert(n <= total && rows <= total) by (nonlinear_arith)
                requires
                    total == rows * n,
                    n >= 2,
                    rows >= 1,
            ;
        }
        let mut m_cost: Vec<u64> = filled_u64(total, INF_COST);
        let mut x_cost: Vec<u64> = filled_u64(total, INF_COST);
        let mut y_cost: Vec<u64> = filled_u64(total, INF_COST);
        let mut m_pl: Vec<u8> = filled_u8(total, 3);
        let mut m_pn: Vec<usize> = filled_usize(total, 0);
        let mut x_pl: Vec<u8> = filled_u8(total, 3);
        let mut y_pl: Vec<u8> = filled_u8(total, 3);
        let mut y_pn: Vec<usize> = filled_usize(total, 0);
        m_cost[0 * n + START] = 0;
        let ne = self.edges.len();
        let mut i: usize = 0;
        while i < rows
            invariant
                i <= rows,
                m_cost@.len() == total,
                x_cost@.len() == total,
                y_cost@.len() == total,
                m_pl@.len() == total,
                m_pn@.len() == total,
                x_pl@.len() == total,
                y_pl@.len() == total,
                y_pn@.len() == total,
            decreases rows - i,
        {
            let mut k: usize = 0;
            while k < n
                invariant
                    i < rows,
                    k <= n,
                    m_cost@.len() == total,
                    x_cost@.len() == total,
                    y_cost@.len() == total,
                    m_pl@.len() == total,
                    m_pn@.len() == total,
                    x_pl@.len() == total,
                    y_pl@.len() == total,
                    y_pn@.len() == total,
                decreases n - k,
            {
                let v = self.order[k];
                proof {
                    assert(i * n + v < total) by (nonlinear_arith)
                        requires
                            total == rows * n,
                            0 <= i < rows,
                            0 <= v < n,
                    ;
                }
                let idx = i * n + v;
                if i > 0 {
                    proof {
                        assert((i - 1) * n + v < total && 0 <= (i - 1) * n + v) by (nonlinear_arith)
                            requires
                                total == rows * n,
                                1 <= i < rows,
                                0 <= v < n,
                        ;
                    }
                    let pidx = (i - 1) * n + v;
                    // Match / substitution layer: enter v from any predecessor.
                    let sub: u64 = if self.nodes[v].symbol == q[i - 1] {
                        0
                    } else {
                        mismatch as u64
                    };
                    let mut best: u64 = INF_COST;
                    let mut bl: u8 = 3;
                    let mut bn: usize = 0;
                    let mut j: usize = 0;
                    while j < ne
                        invariant
                            j <= ne,
                            ne == self.edges@.len(),
                            i < rows,
                            v < n,
                            bn < n,
                            m_cost@.len() == total,
                            x_cost@.len() == total,
                            y_cost@.len() == total,
                        decreases ne - j,
                    {
                        if self.edges[j].to == v {
                            let u = self.edges[j].from;
                            proof {
                                assert(crate::graph::edge_ok(*self, self.edges@[j as int]));
                                assert((i - 1) * n + u < total) by (nonlinear_arith)
                                    requires
                                        total == rows * n,
                                        1 <= i < rows,
                                        0 <= u < n,
                                ;
                            }
                            let pu = (i - 1) * n + u;
                            let cm = cap_add(m_cost[pu], sub);
                            if cm < best {
                                best = cm;
                                bl = 0;
                                bn = u;
                            }
                            let cx = cap_add(x_cost[pu], sub);
                            if cx < best {
                                best = cx;
                                bl = 1;
                                bn = u;
                            }
                            let cy = cap_add(y_cost[pu], sub);
                            if cy < best {
                                best = cy;
                                bl = 2;
                                bn = u;
                            }
                        }
                        j += 1;
                    }
                    m_cost[idx] = best;
                    m_pl[idx] = bl;
                    m_pn[idx] = bn;
                    // Insertion layer: consume a query base, stay on v.
                    let oe = cap_add(gap_open as u64, gap_extend as u64);
                    let mut xbest: u64 = cap_add(m_cost[pidx], oe);
                    let mut xbl: u8 = 0;
                    let xx = cap_add(x_cost[pidx], gap_extend as u64);
                    if xx < xbest {
                        xbest = xx;
                        xbl = 1;
                    }
                    let xy = cap_add(y_cost[pidx], oe);
                    if xy < xbest {
                        xbest = xy;
                        xbl = 2;
                    }
                    x_cost[idx] = xbest;
                    x_pl[idx] = xbl;
                }
                // Deletion layer: consume node v, no query advance.
                let oe = cap_add(gap_open as u64, gap_extend as u64);
                let mut ybest: u64 = INF_COST;
                let mut ybl: u8 = 3;
                let mut ybn: usize = 0;
                let mut j: usize = 0;
                while j < ne
                    invariant
                        j <= ne,
                        ne == self.edges@.len(),
                        i < rows,
                        v < n,
                        ybn < n,
                        m_cost@.len() == total,
                        x_cost@.len() == total,
                        y_cost@.len() == total,
                    decreases ne - j,
                {
                    if self.edges[j].to == v {
                        let u = self.edges[j].from;
                        proof {
                            assert(crate::graph::edge_ok(*self, self.edges@[j as int]));
                            assert(i * n + u < total) by (nonlinear_arith)
                                requires
                                    total == rows * n,
                                    0 <= i < rows,
                                    0 <= u < n,
                            ;
                        }
                        let pu = i * n + u;
                        let cm = cap_add(m_cost[pu], oe);
                        if cm < ybest {
                            ybest = cm;
                            ybl = 0;
                            ybn = u;
                        }
                        let cx = cap_add(x_cost[pu], oe);
                        if cx < ybest {
                            ybest = cx;
                            ybl = 1;
                            ybn = u;
                        }
                        let cy = cap_add(y_cost[pu], gap_extend as u64);
                        if cy < ybest {
                            ybest = cy;
                            ybl = 2;
                            ybn = u;
                        }
                    }
                    j += 1;
                }
                y_cost[idx] = ybest;
                y_pl[idx] = ybl;
                y_pn[idx] = ybn;
                k += 1;
            }
            i += 1;
        }
        // Read the answer over the predecessors of the end sentinel.
        let mut best: u64 = INF_COST;
        let mut cl: u8 = 3;
        let mut cv: usize = 0;
        let mut j: usize = 0;
        while j < ne
            invariant
                j <= ne,
                ne == self.edges@.len(),
                cv < n,
                m_cost@.len() == total,
                x_cost@.len() == total,
                y_cost@.len() == total,
            decreases ne - j,
        {
            if self.edges[j].to == END {
                let u = self.edges[j].from;
                proof {
                    assert(crate::graph::edge_ok(*self, self.edges@[j as int]));
                    assert(qn * n + u < total) by (nonlinear_arith)
                        requires
                            total == (qn + 1) * n,
                            0 <= u < n,
                    ;
                }
                let pu = qn * n + u;
                if m_cost[pu] < best {
                    best = m_cost[pu];
                    cl = 0;
                    cv = u;
                }
                if x_cost[pu] < best {
                    best = x_cost[pu];
                    cl = 1;
                    cv = u;
                }
                if y_cost[pu] < best {
                    best = y_cost[pu];
                    cl = 2;
                    cv = u;
                }
            }
            j += 1;
        }
        if best >= INF_COST || cl > 2 {
            return self.fallback_alignment(q, mismatch, gap_open, gap_extend);
        }
        // Trace the operations back to query position 0 at the start sentinel.
        let mut rev: Vec<AlignOp> = Vec::new();
        let mut ci: usize = qn;
        let mut fuel: usize = total;
        let mut done: bool = false;
        while !done && fuel > 0
            invariant
                ci <= qn,
                cv < n,
                cl <= 3,
                m_cost@.len() == total,
                m_pl@.len() == total,
                m_pn@.len() == total,
                x_pl@.len() == total,
                y_pl@.len() == total,
                y_pn@.len() == total,
            decreases fuel,
        {
            if ci == 0 && cv == START && cl == 0 {
                done = true;
            } else {
                proof {
                    assert(ci * n + cv < total) by (nonlinear_arith)
                        requires
                            total == (qn + 1) * n,
                            0 <= ci <= qn,
                            0 <= cv < n,
                    ;
                }
                let idx = ci * n + cv;
                if cl == 0 {
                    if ci == 0 {
                        return self.fallback_alignment(q, mismatch, gap_open, gap_extend);
                    }
                    let pl = m_pl[idx];
                    let pn = m_pn[idx];
                    if pl > 2 || pn >= n {
                        return self.fallback_alignment(q, mismatch, gap_open, gap_extend);
                    }
                    if self.nodes[cv].symbol == q[ci - 1] {
                        rev.push(AlignOp::Match { v: cv });
                    } else {
                        rev.push(AlignOp::Subst { v: cv });
                    }
                    cl = pl;
                    cv = pn;
                    ci -= 1;
                } else if cl == 1 {
                    if ci == 0 {
                        return self.fallback_alignment(q, mismatch, gap_open, gap_extend);
                    }
                    let pl = x_pl[idx];
                    if pl > 2 {
                        return self.fallback_alignment(q, mismatch, gap_open, gap_extend);
                    }
                    rev.push(AlignOp::Ins);
                    cl = pl;
                    ci -= 1;
                } else if cl == 2 {
                    let pl = y_pl[idx];
                    let pn = y_pn[idx];
                    if pl > 2 || pn >= n {
                        return self.fallback_alignment(q, mismatch, gap_open, gap_extend);
                    }
                    rev.push(AlignOp::Del { v: cv });
                    cl = pl;
                    cv = pn;
                } else {
                    return self.fallback_alignment(q, mismatch, gap_open, gap_extend);
                }
            }
            fuel -= 1;
        }
        if !done {
            return self.fallback_alignment(q, mismatch, gap_open, gap_extend);
        }
        // Forward order.
        let mut ops: Vec<AlignOp> = Vec::new();
        let rl = rev.len();
        let mut t: usize = 0;
        while t < rl
            invariant
                t <= rl,
                rl == rev@.len(),
                ops@.len() == t,
            decreases rl - t,
        {
            ops.push(rev[rl - 1 - t]);
            t += 1;
        }
        // The contract is discharged by verified re-checking, not by the
        // tables: validate the list and account its cost exactly.
        if !check_ops(self, q, &ops) {
            return self.fallback_alignment(q, mismatch, gap_open, gap_extend);
        }
        if ops.len() > total {
            return self.fallback_alignment(q, mismatch, gap_open, gap_extend);
        }
        proof {
            assert(ops@.len() * (mismatch + gap_open + gap_extend) <= u64::MAX) by (nonlinear_arith)
                requires
                    0 <= ops@.len() <= 0x100_0000_0000,
                    mismatch + gap_open + gap_extend <= 765,
            ;
        }
        let cost = ops_cost(&ops, mismatch, gap_open, gap_extend);
        Alignment { ops, cost }
    }
}

} // verus!
