//! Consensus/MSA extraction.
//!
//! Every node is assigned an alignment column: the start sentinel sits at
//! column 0 and every other node one past the highest column among its
//! predecessors, so no two nodes connected by a path share a column and
//! column order respects topological rank. Each inserted sequence is then
//! rendered as one row of equal width, its symbol standing in the column
//! of each node of its path and a gap marker everywhere else. Removing the
//! gap markers from a row yields exactly the symbols along the sequence's
//! path — the original sequence.

use vstd::prelude::*;

use crate::graph::{edge_at, edge_between, path_ok, wf, PoaGraph, END};

verus! {

/// The gap marker used in MSA rows.
pub const GAP: u8 = 45;

/// `s` with every gap marker removed.
pub open spec fn degap(s: Seq<u8>) -> Seq<u8>
    decreases s.len(),
{
    if s.len() == 0 {
        Seq::empty()
    } else if s.last() == GAP {
        degap(s.drop_last())
    } else {
        degap(s.drop_last()).push(s.last())
    }
}

/// The symbols along the path of sequence `s` of `g`, in base order.
pub open spec fn path_symbols(g: PoaGraph, s: int) -> Seq<u8> {
    g.seqs@[s].path@.map(|i: int, v: usize| g.nodes@[v as int].symbol)
}

/// The highest column among the sources of the in-edges of `v` within the
/// first `k` edges, or -1 where none of them enters `v`.
pub open spec fn col_max(g: PoaGraph, v: int, k: int) -> int
    decreases g.nodes@[v].rank, k,
    when wf(g) && 0 <= v < g.nodes@.len() && k <= g.edges@.len()
{
    if k <= 0 {
        -1
    } else {
        let m = col_max(g, v, k - 1);
        if g.edges@[k - 1].to == v {
            let c = col(g, g.edges@[k - 1].from as int);
            if c > m {
                c
            } else {
                m
            }
        } else {
            m
        }
    }
}

/// The alignment column of node `v`: 0 for a node no edge enters (the
/// start sentinel), one past the highest predecessor column otherwise.
pub open spec fn col(g: PoaGraph, v: int) -> int
    decreases g.nodes@[v].rank, g.edges@.len() + 1,
    when wf(g) && 0 <= v < g.nodes@.len()
{
    1 + col_max(g, v, g.edges@.len() as int)
}

/// The width of the MSA: the columns strictly between the sentinels.
pub open spec fn msa_width(g: PoaGraph) -> int {
    col(g, END as int) - 1
}

/// The character of an MSA row at column `c` for a sequence whose path is
/// `p`: the symbol of the path node assigned to that column, or the gap
/// marker where the path has none.
pub open spec fn row_char(g: PoaGraph, p: Seq<usize>, c: int) -> u8 {
    if exists|t: int| 0 <= t < p.len() && #[trigger] col(g, p[t] as int) == c + 1 {
        g.nodes@[p[choose|t: int| 0 <= t < p.len() && #[trigger] col(g, p[t] as int) == c + 1] as int].symbol
    } else {
        GAP
    }
}

/// A column assignment respecting every edge of `g`.
pub open spec fn cols_ok(g: PoaGraph, cs: Seq<usize>) -> bool {
    &&& cs.len() == g.nodes@.len()
    &&& forall|j: int|
        0 <= j < g.edges@.len() ==> cs[(#[trigger] g.edges@[j]).from as int] < cs[g.edges@[j].to as int]
}

/// Columns strictly increase between any two positions of a sequence path.
proof fn lemma_path_cols_mono(g: PoaGraph, cs: Seq<usize>, p: Seq<usize>, i: int, j: int)
    requires
        cols_ok(g, cs),
        path_ok(g, p),
        0 <= i < j < p.len(),
    ensures
        cs[p[i] as int] < cs[p[j] as int],
    decreases j - i,
{
    if j > i + 1 {
        lemma_path_cols_mono(g, cs, p, i, j - 1);
    }
    let i0 = j - 1;
    assert(edge_between(g, p[i0], p[i0 + 1]));
    let e = choose|e: int| 0 <= e < g.edges@.len() && #[trigger] edge_at(g, e, p[j - 1], p[j]);
    assert(cs[g.edges@[e].from as int] < cs[g.edges@[e].to as int]);
}

/// Every node of a sequence path sits in a column before the end
/// sentinel's.
proof fn lemma_path_cols_below_end(g: PoaGraph, cs: Seq<usize>, p: Seq<usize>, t: int)
    requires
        cols_ok(g, cs),
        path_ok(g, p),
        0 <= t < p.len(),
    ensures
        cs[p[t] as int] < cs[END as int],
{
    if t < p.len() - 1 {
        lemma_path_cols_mono(g, cs, p, t, p.len() - 1);
    }
    assert(edge_between(g, p[p.len() - 1], END));
    let e = choose|e: int|
        0 <= e < g.edges@.len() && #[trigger] edge_at(g, e, p[p.len() - 1], END);
    assert(cs[g.edges@[e].from as int] < cs[g.edges@[e].to as int]);
}

impl PoaGraph {
    /// Assigns every node its alignment column: 0 for the start sentinel,
    /// otherwise one past the highest column among its predecessors. The
    /// assignment respects every edge and never exceeds the node's rank.
    #[verifier::loop_isolation(false)]
    #[verifier::rlimit(60)]
    pub fn msa_columns(&self) -> (cols: Vec<usize>)
        requires
            wf(*self),
        ensures
            cols_ok(*self, cols@),
            forall|v: int| 0 <= v < self.nodes@.len() ==> #[trigger] cols@[v] <= self.nodes@[v].rank,
            forall|v: int| 0 <= v < self.nodes@.len() ==> #[trigger] cols@[v] as int == col(*self, v),
    {
        let n = self.nodes.len();
        let ne = self.edges.len();
        let mut cols: Vec<usize> = Vec::new();
        let mut t: usize = 0;
        while t < n
            invariant
                t <= n,
                cols@.len() == t,
                forall|v: int| 0 <= v < t ==> cols@[v] == 0,
            decreases n - t,
        {
            cols.push(0);
            t += 1;
        }
        let mut k: usize = 0;
        while k < n
            invariant
                k <= n,
                cols@.len() == n,
                forall|j: int|
                    0 <= j < self.edges@.len() && self.nodes@[(#[trigger] self.edges@[j]).to as int].rank
                        < k ==> cols@[self.edges@[j].from as int] < cols@[self.edges@[j].to as int],
                forall|v: int|
                    0 <= v < n && self.nodes@[v].rank < k ==> #[trigger] cols@[v]
                        <= self.nodes@[v].rank,
                forall|v: int|
                    0 <= v < n && self.nodes@[v].rank < k ==> #[trigger] cols@[v] as int == col(
                        *self,
                        v,
                    ),
                forall|v: int|
                    0 <= v < n && self.nodes@[v].rank >= k ==> #[trigger] cols@[v] == 0,
            decreases n - k,
        {
            let v = self.order[k];
            proof {
                assert(self.nodes@[v as int].rank as int == k);
            }
            let mut mx: usize = 0;
            let mut found: bool = false;
            let mut j: usize = 0;
            while j < ne
                invariant
                    j <= ne,
                    k < n,
                    v < n,
                    self.nodes@[v as int].rank as int == k,
                    cols@.len() == n,
                    found ==> mx < k,
                    forall|i: int|
                        0 <= i < j && (#[trigger] self.edges@[i]).to == v
                            ==> cols@[self.edges@[i].from as int] <= mx && found,
                    found ==> mx as int == col_max(*self, v as int, j as int),
                    !found ==> col_max(*self, v as int, j as int) == -1,
                    forall|u: int|
                        0 <= u < n && self.nodes@[u].rank < k ==> #[trigger] cols@[u] as int == col(
                            *self,
                            u,
                        ),
                decreases ne - j,
            {
                if self.edges[j].to == v {
                    let u = self.edges[j].from;
                    proof {
                        assert(crate::graph::edge_ok(*self, self.edges@[j as int]));
                        assert(self.nodes@[u as int].rank < k);
                        assert(cols@[u as int] <= self.nodes@[u as int].rank);
                        assert(cols@[u as int] as int == col(*self, u as int));
                    }
                    if !found || cols[u] > mx {
                        mx = cols[u];
                    }
                    found = true;
                }
                j += 1;
            }
            let val = if found {
                mx + 1
            } else {
                0
            };
            proof {
                assert(val as int == col(*self, v as int));
            }
            cols[v] = val;
            proof {
                assert forall|u: int|
                    0 <= u < n && self.nodes@[u].rank < k + 1 implies #[trigger] cols@[u] as int
                    == col(*self, u) by {
                    if self.nodes@[u].rank < k {
                        assert(u != v as int);
                    }
                }
                assert forall|j2: int|
                    0 <= j2 < self.edges@.len() && self.nodes@[(#[trigger] self.edges@[j2]).to as int].rank
                        < k + 1 implies cols@[self.edges@[j2].from as int] < cols@[self.edges@[j2].to as int] by {
                    let e = self.edges@[j2];
                    assert(crate::graph::edge_ok(*self, e));
                    if self.nodes@[e.to as int].rank < k {
                        assert(e.from as int != v as int && e.to as int != v as int);
                    } else {
                        assert(self.nodes@[e.to as int].rank as int == k);
                        assert(self.order@[self.nodes@[e.to as int].rank as int] as int
                            == e.to as int);
                        assert(e.to == v);
                        assert(e.from as int != v as int);
                    }
                }
            }
            k += 1;
        }
        cols
    }

    /// Renders the graph as a column-aligned MSA: one row of equal width
    /// per inserted sequence, over the sequence's symbols and the gap
    /// marker. For a sequence free of the gap marker itself, removing all
    /// gap markers from its row restores exactly the symbols along its
    /// path — the bases it was inserted with, in order.
    #[verifier::loop_isolation(false)]
    #[verifier::rlimit(60)]
    pub fn get_msa(&self) -> (rows: Vec<Vec<u8>>)
        requires
            wf(*self),
        ensures
            rows@.len() == self.seqs@.len(),
            forall|s: int| 0 <= s < rows@.len() ==> (#[trigger] rows@[s])@.len() == msa_width(*self),
            forall|s: int, c: int|
                0 <= s < rows@.len() && 0 <= c < msa_width(*self) ==> (#[trigger] rows@[s]@[c])
                    == row_char(*self, self.seqs@[s].path@, c),
            forall|s: int|
                0 <= s < rows@.len() && (forall|i: int|
                    0 <= i < path_symbols(*self, s).len() ==> path_symbols(*self, s)[i] != GAP)
                    ==> degap((#[trigger] rows@[s])@) == path_symbols(*self, s),
    {
        let ns = self.seqs.len();
        let mut rows: Vec<Vec<u8>> = Vec::new();
        if ns == 0 {
            return rows;
        }
        let cols = self.msa_columns();
        proof {
            assert(path_ok(*self, self.seqs@[0].path@));
            lemma_path_cols_below_end(*self, cols@, self.seqs@[0].path@, 0);
        }
        let width = cols[END] - 1;
        proof {
            assert(width as int == msa_width(*self));
        }
        let mut s: usize = 0;
        while s < ns
            invariant
                s <= ns,
                ns == self.seqs@.len(),
                rows@.len() == s,
                cols_ok(*self, cols@),
                width + 1 == cols@[END as int],
                width as int == msa_width(*self),
                forall|v: int|
                    0 <= v < self.nodes@.len() ==> #[trigger] cols@[v] as int == col(*self, v),
                forall|t: int| 0 <= t < s ==> (#[trigger] rows@[t])@.len() == width,
                forall|t: int, c: int|
                    0 <= t < s && 0 <= c < width ==> (#[trigger] rows@[t]@[c]) == row_char(
                        *self,
                        self.seqs@[t].path@,
                        c,
                    ),
                forall|t: int|
                    0 <= t < s && (forall|i: int|
                        0 <= i < path_symbols(*self, t).len() ==> path_symbols(*self, t)[i] != GAP)
                        ==> degap((#[trigger] rows@[t])@) == path_symbols(*self, t),
            decreases ns - s,
        {
            let ghost syms = path_symbols(*self, s as int);
            let ghost p = self.seqs@[s as int].path@;
            proof {
                assert(path_ok(*self, p));
                assert forall|t1: int, t2: int| 0 <= t1 < t2 < p.len() implies cols@[#[trigger] p[t1] as int]
                    < cols@[#[trigger] p[t2] as int] by {
                    lemma_path_cols_mono(*self, cols@, p, t1, t2);
                }
                assert forall|t: int| 0 <= t < p.len() implies cols@[#[trigger] p[t] as int]
                    < width + 1 by {
                    lemma_path_cols_below_end(*self, cols@, p, t);
                }
            }
            let plen = self.seqs[s].path.len();
            let mut row: Vec<u8> = Vec::new();
            let mut j: usize = 0;
            let mut c: usize = 0;
            while c < width
                invariant
                    c <= width,
                    j <= plen,
                    plen == p.len(),
                    row@.len() == c,
                    s < ns,
                    cols_ok(*self, cols@),
                    width + 1 == cols@[END as int],
                    forall|t1: int, t2: int|
                        0 <= t1 < t2 < p.len() ==> cols@[#[trigger] p[t1] as int] < cols@[
                            #[trigger] p[t2] as int],
                    forall|t: int| 0 <= t < p.len() ==> cols@[#[trigger] p[t] as int] < width + 1,
                    forall|t: int| j <= t < p.len() ==> cols@[#[trigger] p[t] as int] >= c + 1,
                    forall|t: int| 0 <= t < j ==> cols@[#[trigger] p[t] as int] <= c,
                    forall|v: int|
                        0 <= v < self.nodes@.len() ==> #[trigger] cols@[v] as int == col(*self, v),
                    forall|c2: int| 0 <= c2 < c ==> #[trigger] row@[c2] == row_char(*self, p, c2),
                    (forall|i: int| 0 <= i < syms.len() ==> syms[i] != GAP) ==> degap(row@)
                        == syms.take(j as int),
                decreases width - c,
            {
                let ghost row0 = row@;
                if j < plen && cols[self.seqs[s].path[j]] == c + 1 {
                    let v = self.seqs[s].path[j];
                    row.push(self.nodes[v].symbol);
                    proof {
                        assert(row@.drop_last() =~= row0);
                        assert(row@.last() == syms[j as int]);
                        if forall|i: int| 0 <= i < syms.len() ==> syms[i] != GAP {
                            assert(syms[j as int] != GAP);
                            assert(degap(row@) == degap(row0).push(syms[j as int]));
                            assert(syms.take(j + 1) =~= syms.take(j as int).push(syms[j as int]));
                        }
                        assert forall|t: int| j + 1 <= t < p.len() implies cols@[
                            #[trigger] p[t] as int] >= c + 2 by {
                            assert(cols@[p[j as int] as int] < cols@[p[t] as int]);
                        }
                        // This column holds exactly the path node `j`.
                        assert(col(*self, p[j as int] as int) == c + 1);
                        assert(row_char(*self, p, c as int) == syms[j as int]) by {
                            let t0 = choose|t: int|
                                0 <= t < p.len() && #[trigger] col(*self, p[t] as int) == c + 1;
                            if t0 < j {
                                assert(cols@[p[t0] as int] <= c);
                            }
                            if t0 > j {
                                assert(cols@[p[j as int] as int] < cols@[p[t0] as int]);
                            }
                            assert(t0 == j);
                        }
                        assert forall|c2: int| 0 <= c2 < c + 1 implies #[trigger] row@[c2]
                            == row_char(*self, p, c2) by {
                            if c2 < c {
                                assert(row0[c2] == row_char(*self, p, c2));
                            }
                        }
                    }
                    j += 1;
                } else {
                    row.push(GAP);
                    proof {
                        assert(row@.drop_last() =~= row0);
                        assert(row@.last() == GAP);
                        assert forall|t: int| j <= t < p.len() implies cols@[
                            #[trigger] p[t] as int] >= c + 2 by {
                            if t == j {
                                assert(cols@[p[t] as int] != c + 1);
                            } else {
                                assert(cols@[p[j as int] as int] < cols@[p[t] as int]);
                            }
                        }
                        // No path node sits in this column.
                        assert(row_char(*self, p, c as int) == GAP) by {
                            if exists|t: int|
                                0 <= t < p.len() && #[trigger] col(*self, p[t] as int) == c + 1 {
                                let t0 = choose|t: int|
                                    0 <= t < p.len() && #[trigger] col(*self, p[t] as int) == c
                                        + 1;
                                if t0 < j {
                                    assert(cols@[p[t0] as int] <= c);
                                }
                                if t0 == j {
                                    assert(cols@[p[t0] as int] != c + 1);
                                }
                                if t0 > j {
                                    assert(cols@[p[j as int] as int] < cols@[p[t0] as int]);
                                    assert(cols@[p[t0] as int] >= c + 2);
                                }
                                assert(false);
                            }
                        }
                        assert forall|c2: int| 0 <= c2 < c + 1 implies #[trigger] row@[c2]
                            == row_char(*self, p, c2) by {
                            if c2 < c {
                                assert(row0[c2] == row_char(*self, p, c2));
                            }
                        }
                    }
                }
                c += 1;
            }
            proof {
                if j < plen {
                    assert(cols@[p[j as int] as int] >= width + 1);
                    assert(cols@[p[j as int] as int] < width + 1);
                }
                assert(j == plen);
                if forall|i: int| 0 <= i < syms.len() ==> syms[i] != GAP {
                    assert(syms.take(j as int) =~= syms);
                }
            }
            rows.push(row);
            s += 1;
        }
        rows
    }
}

} // verus!
