//! Variation-graph serialization.
//!
//! The graph is rendered as text, one line per element: an `S` line per
//! real node (a segment labeled with its symbol), an `L` line per edge
//! between real nodes (a directed link annotated with its accumulated
//! weight), and a `P` line per inserted sequence (its path through the
//! segments, each visited in forward orientation). The output is pinned
//! byte for byte by a specification function.

use vstd::prelude::*;

use crate::graph::{wf, PoaGraph};

verus! {

/// The decimal digits of `x`, most significant first.
pub open spec fn dec_spec(x: int) -> Seq<u8>
    decreases x,
{
    if x < 0 {
        Seq::empty()
    } else if x < 10 {
        seq![(48 + x) as u8]
    } else {
        dec_spec(x / 10).push((48 + x % 10) as u8)
    }
}

/// The `S` line of real node `v`: `S <id> <symbol>`.
pub open spec fn seg_line(g: PoaGraph, v: int) -> Seq<u8> {
    seq![83u8, 9u8] + dec_spec(v) + seq![9u8, g.nodes@[v].symbol, 10u8]
}

/// All `S` lines of the real nodes below `v`.
pub open spec fn seg_lines_upto(g: PoaGraph, v: int) -> Seq<u8>
    decreases v,
{
    if v <= 2 {
        Seq::empty()
    } else {
        seg_lines_upto(g, v - 1) + seg_line(g, v - 1)
    }
}

/// Whether edge `j` connects two real nodes.
pub open spec fn real_edge(g: PoaGraph, j: int) -> bool {
    g.edges@[j].from >= 2 && g.edges@[j].to >= 2
}

/// The `L` line of edge `j`: `L <from> + <to> + <weight>`.
pub open spec fn link_line(g: PoaGraph, j: int) -> Seq<u8> {
    seq![76u8, 9u8] + dec_spec(g.edges@[j].from as int) + seq![9u8, 43u8, 9u8] + dec_spec(
        g.edges@[j].to as int,
    ) + seq![9u8, 43u8, 9u8] + dec_spec(g.edges@[j].weight as int) + seq![10u8]
}

/// All `L` lines of the real-to-real edges below `j`.
pub open spec fn link_lines_upto(g: PoaGraph, j: int) -> Seq<u8>
    decreases j,
{
    if j <= 0 {
        Seq::empty()
    } else {
        link_lines_upto(g, j - 1) + (if real_edge(g, j - 1) {
            link_line(g, j - 1)
        } else {
            Seq::empty()
        })
    }
}

/// The comma-separated body of a path: each visited segment id with a
/// forward orientation mark.
pub open spec fn path_body_upto(p: Seq<usize>, i: int) -> Seq<u8>
    decreases i,
{
    if i <= 0 {
        Seq::empty()
    } else if i == 1 {
        dec_spec(p[0] as int).push(43u8)
    } else {
        path_body_upto(p, i - 1).push(44u8) + dec_spec(p[i - 1] as int).push(43u8)
    }
}

/// The `P` line of sequence `s`: `P seq_<s> <id>+,<id>+,...`.
pub open spec fn path_line(g: PoaGraph, s: int) -> Seq<u8> {
    seq![80u8, 9u8, 115u8, 101u8, 113u8, 95u8] + dec_spec(s) + seq![9u8] + path_body_upto(
        g.seqs@[s].path@,
        g.seqs@[s].path@.len() as int,
    ) + seq![10u8]
}

/// All `P` lines of the sequences below `s`.
pub open spec fn path_lines_upto(g: PoaGraph, s: int) -> Seq<u8>
    decreases s,
{
    if s <= 0 {
        Seq::empty()
    } else {
        path_lines_upto(g, s - 1) + path_line(g, s - 1)
    }
}

/// The whole serialization: segments, then links, then paths.
pub open spec fn gfa_spec(g: PoaGraph) -> Seq<u8> {
    seg_lines_upto(g, g.nodes@.len() as int) + link_lines_upto(g, g.edges@.len() as int)
        + path_lines_upto(g, g.seqs@.len() as int)
}

/// The decimal digits of `x`, most significant first.
fn dec(x: u64) -> (v: Vec<u8>)
    ensures
        v@ == dec_spec(x as int),
    decreases x,
{
    if x < 10 {
        let mut v: Vec<u8> = Vec::new();
        v.push(48 + (x as u8));
        proof {
            assert(v@ =~= dec_spec(x as int));
        }
        v
    } else {
        let mut v = dec(x / 10);
        v.push(48 + ((x % 10) as u8));
        v
    }
}

/// Appends the decimal digits of `x` to `out`.
fn push_dec(out: &mut Vec<u8>, x: u64)
    ensures
        final(out)@ == old(out)@ + dec_spec(x as int),
{
    let mut d = dec(x);
    out.append(&mut d);
}

impl PoaGraph {
    /// Serializes the graph: one labeled segment per real node, one
    /// weighted link per edge between real nodes, one explicit path per
    /// inserted sequence. The result equals [`gfa_spec`] byte for byte.
    #[verifier::loop_isolation(false)]
    #[verifier::rlimit(60)]
    pub fn get_variation_graph(&self) -> (out: Vec<u8>)
        requires
            wf(*self),
        ensures
            out@ == gfa_spec(*self),
    {
        let n = self.nodes.len();
        let ne = self.edges.len();
        let ns = self.seqs.len();
        let mut out: Vec<u8> = Vec::new();
        let mut v: usize = 2;
        proof {
            assert(out@ =~= seg_lines_upto(*self, 2));
        }
        while v < n
            invariant
                2 <= v <= n || (n < 2 && v == 2),
                out@ == seg_lines_upto(*self, v as int),
            decreases n - v,
        {
            let ghost before = out@;
            out.push(83);
            out.push(9);
            push_dec(&mut out, v as u64);
            out.push(9);
            out.push(self.nodes[v].symbol);
            out.push(10);
            proof {
                assert(out@ =~= before + seg_line(*self, v as int));
            }
            v += 1;
        }
        let ghost segs = out@;
        let mut j: usize = 0;
        while j < ne
            invariant
                j <= ne,
                out@ == segs + link_lines_upto(*self, j as int),
            decreases ne - j,
        {
            let ghost before = out@;
            let e_from = self.edges[j].from;
            let e_to = self.edges[j].to;
            let e_w = self.edges[j].weight;
            if e_from >= 2 && e_to >= 2 {
                out.push(76);
                out.push(9);
                push_dec(&mut out, e_from as u64);
                out.push(9);
                out.push(43);
                out.push(9);
                push_dec(&mut out, e_to as u64);
                out.push(9);
                out.push(43);
                out.push(9);
                push_dec(&mut out, e_w);
                out.push(10);
                proof {
                    assert(out@ =~= before + link_line(*self, j as int));
                    assert(out@ =~= segs + link_lines_upto(*self, j + 1));
                }
            } else {
                proof {
                    assert(out@ =~= segs + link_lines_upto(*self, j + 1));
                }
            }
            j += 1;
        }
        let ghost links = out@;
        let mut s: usize = 0;
        while s < ns
            invariant
                s <= ns,
                out@ == links + path_lines_upto(*self, s as int),
            decreases ns - s,
        {
            let ghost before = out@;
            out.push(80);
            out.push(9);
            out.push(115);
            out.push(101);
            out.push(113);
            out.push(95);
            push_dec(&mut out, s as u64);
            out.push(9);
            let ghost p = self.seqs@[s as int].path@;
            let plen = self.seqs[s].path.len();
            let ghost mid = out@;
            let mut i: usize = 0;
            proof {
                assert(out@ =~= mid + path_body_upto(p, 0));
            }
            while i < plen
                invariant
                    i <= plen,
                    plen == p.len(),
                    s < ns,
                    p == self.seqs@[s as int].path@,
                    out@ == mid + path_body_upto(p, i as int),
                decreases plen - i,
            {
                let ghost before2 = out@;
                if i > 0 {
                    out.push(44);
                }
                push_dec(&mut out, self.seqs[s].path[i] as u64);
                out.push(43);
                proof {
                    if i == 0 {
                        assert(out@ =~= mid + dec_spec(p[0] as int).push(43u8));
                        assert(path_body_upto(p, 1) =~= dec_spec(p[0] as int).push(43u8));
                    } else {
                        assert(out@ =~= before2.push(44u8) + dec_spec(p[i as int] as int).push(
                            43u8,
                        ));
                        assert(out@ =~= mid + (path_body_upto(p, i as int).push(44u8) + dec_spec(
                            p[i as int] as int,
                        ).push(43u8)));
                    }
                }
                i += 1;
            }
            out.push(10);
            proof {
                assert(out@ =~= before + path_line(*self, s as int));
                assert(out@ =~= links + path_lines_upto(*self, s + 1));
            }
            s += 1;
        }
        proof {
            assert(n >= 2);
            assert(out@ =~= gfa_spec(*self));
        }
        out
    }
}

} // verus!
