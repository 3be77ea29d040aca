//! End-to-end tests of the POA graph engine: seeding, re-alignment,
//! weight accumulation, branching, MSA extraction and serialization.

use poagraph::align::AlignOp;
use poagraph::graph::{PoaError, PoaGraph};

fn degap(row: &[u8]) -> Vec<u8> {
    row.iter().copied().filter(|&b| b != b'-').collect()
}

#[test]
fn first_insertion_counts() {
    let mut g = PoaGraph::new();
    assert!(g.is_empty());
    let r = g.add_sequence(&b"ACGT".to_vec(), 4, 6, 2);
    assert_eq!(r, Ok(0));
    assert!(!g.is_empty());
    // 4 real nodes plus the two sentinels; a chain has 5 edges counting
    // the two sentinel edges, each carrying the per-base weight 1.
    assert_eq!(g.node_count(), 6);
    assert_eq!(g.edge_count(), 5);
    for e in &g.edges {
        assert_eq!(e.weight, 1);
    }
    assert_eq!(g.sequence_count(), 1);
    let symbols: Vec<u8> = (2..6).map(|v| g.nodes[v].symbol).collect();
    assert_eq!(symbols, b"ACGT".to_vec());
}

#[test]
fn realign_identical_is_free() {
    let mut g = PoaGraph::new();
    g.add_sequence(&b"ACGT".to_vec(), 4, 6, 2).unwrap();
    let al = g.align(&b"ACGT".to_vec(), 4, 6, 2);
    assert_eq!(al.cost, 0);
    assert_eq!(al.ops.len(), 4);
    for op in &al.ops {
        assert!(matches!(op, AlignOp::Match { .. }));
    }
}

#[test]
fn weight_conservation() {
    let mut a = PoaGraph::new();
    a.add_sequence(&b"ACGT".to_vec(), 4, 6, 2).unwrap();
    let c = a.add_sequence(&b"ACGT".to_vec(), 4, 6, 2).unwrap();
    assert_eq!(c, 0);

    let mut b = PoaGraph::new();
    b.add_sequence_with_weight(&b"ACGT".to_vec(), 2, 4, 6, 2).unwrap();

    // Same nodes (symbols and ranks), same order, same edges; only the
    // second graph reached each weight in one step instead of two.
    assert_eq!(a.node_count(), b.node_count());
    for v in 0..a.node_count() {
        assert_eq!(a.nodes[v].symbol, b.nodes[v].symbol);
        assert_eq!(a.nodes[v].rank, b.nodes[v].rank);
    }
    assert_eq!(a.order, b.order);
    assert_eq!(a.edge_count(), b.edge_count());
    for j in 0..a.edge_count() {
        assert_eq!(a.edges[j].from, b.edges[j].from);
        assert_eq!(a.edges[j].to, b.edges[j].to);
        assert_eq!(a.edges[j].weight, b.edges[j].weight);
        assert_eq!(a.edges[j].weight, 2);
    }
}

#[test]
fn msa_round_trip() {
    let mut g = PoaGraph::new();
    let inputs: Vec<&[u8]> = vec![b"ACGT", b"ACTT", b"AGT", b"ACGGT"];
    for s in &inputs {
        g.add_sequence(&s.to_vec(), 4, 6, 2).unwrap();
    }
    let rows = g.get_msa();
    assert_eq!(rows.len(), inputs.len());
    for t in 1..rows.len() {
        assert_eq!(rows[t].len(), rows[0].len());
    }
    for (i, s) in inputs.iter().enumerate() {
        assert_eq!(degap(&rows[i]), s.to_vec());
    }
}

#[test]
fn acyclicity_after_insertions() {
    let mut g = PoaGraph::new();
    for s in [&b"ACGT"[..], b"AGGT", b"ACT", b"TACGT", b"ACGTT"] {
        g.add_sequence(&s.to_vec(), 4, 6, 2).unwrap();
    }
    let n = g.node_count();
    let order = g.topological_order().clone();
    assert_eq!(order.len(), n);
    // `order` is the rank-sorted permutation of the nodes...
    for k in 0..n {
        assert_eq!(g.nodes[order[k]].rank, k);
    }
    // ...and every edge goes from lower to higher rank: no cycle.
    for e in &g.edges {
        assert!(g.nodes[e.from].rank < g.nodes[e.to].rank);
    }
}

#[test]
fn scenario_two_identical_then_substitution() {
    let mut g = PoaGraph::new();
    let c1 = g.add_sequence(&b"ACGT".to_vec(), 4, 6, 2).unwrap();
    assert_eq!(c1, 0);
    assert_eq!(g.node_count() - 2, 4);
    for e in &g.edges {
        assert_eq!(e.weight, 1);
    }

    let c2 = g.add_sequence(&b"ACGT".to_vec(), 4, 6, 2).unwrap();
    assert_eq!(c2, 0);
    assert_eq!(g.node_count() - 2, 4);
    assert_eq!(g.edge_count(), 5);
    for e in &g.edges {
        assert_eq!(e.weight, 2);
    }

    let al = g.align(&b"ACTT".to_vec(), 4, 6, 2);
    assert_eq!(al.cost, 4);
    let substs: Vec<usize> = al
        .ops
        .iter()
        .enumerate()
        .filter(|(_, op)| matches!(op, AlignOp::Subst { .. }))
        .map(|(i, _)| i)
        .collect();
    assert_eq!(substs, vec![2]);

    let c3 = g.add_sequence(&b"ACTT".to_vec(), 4, 6, 2).unwrap();
    assert_eq!(c3, 4);
    assert_eq!(g.node_count() - 2, 5);

    let rows = g.get_msa();
    assert_eq!(rows.len(), 3);
    assert_eq!(rows[0], b"ACGT".to_vec());
    assert_eq!(rows[1], b"ACGT".to_vec());
    assert_eq!(rows[2], b"ACTT".to_vec());
}

#[test]
fn empty_sequence_rejected() {
    let mut g = PoaGraph::new();
    assert_eq!(g.add_sequence(&Vec::new(), 4, 6, 2), Err(PoaError::EmptyInput));
    assert!(g.is_empty());
    g.add_sequence(&b"AC".to_vec(), 4, 6, 2).unwrap();
    assert_eq!(g.add_sequence(&Vec::new(), 4, 6, 2), Err(PoaError::EmptyInput));
}

#[test]
fn first_sequence_weight_checks() {
    let mut g = PoaGraph::new();
    assert_eq!(
        g.add_first_sequence(&b"AC".to_vec(), &vec![1]),
        Err(PoaError::LengthMismatch)
    );
    assert_eq!(
        g.add_first_sequence(&Vec::new(), &Vec::new()),
        Err(PoaError::EmptyInput)
    );
    assert_eq!(g.add_first_sequence(&b"AC".to_vec(), &vec![3, 5]), Ok(()));
    assert_eq!(g.edges[0].weight, 3);
    assert_eq!(g.edges[1].weight, 5);
    assert_eq!(g.edges[2].weight, 5);
}

#[test]
fn insertion_pays_affine_gap() {
    let mut g = PoaGraph::new();
    g.add_sequence(&b"ACGT".to_vec(), 4, 6, 2).unwrap();
    // One extra base: a gap of length 1 costs open + extend.
    let c = g.add_sequence(&b"ACGGT".to_vec(), 4, 6, 2).unwrap();
    assert_eq!(c, 8);
    assert_eq!(g.node_count() - 2, 5);
    let rows = g.get_msa();
    assert_eq!(rows[0].len(), 5);
    assert_eq!(degap(&rows[0]), b"ACGT".to_vec());
    assert_eq!(rows[1], b"ACGGT".to_vec());
}

#[test]
fn deletion_pays_affine_gap() {
    let mut g = PoaGraph::new();
    g.add_sequence(&b"ACGT".to_vec(), 4, 6, 2).unwrap();
    let c = g.add_sequence(&b"ACT".to_vec(), 4, 6, 2).unwrap();
    assert_eq!(c, 8);
    // A deletion creates no node.
    assert_eq!(g.node_count() - 2, 4);
    let rows = g.get_msa();
    assert_eq!(rows[0], b"ACGT".to_vec());
    assert_eq!(degap(&rows[1]), b"ACT".to_vec());
}

#[test]
fn longer_gaps_pay_extension() {
    let mut g = PoaGraph::new();
    g.add_sequence(&b"ACGT".to_vec(), 4, 6, 2).unwrap();
    // Two extra bases in one run: open once, extend twice.
    let c = g.add_sequence(&b"ACGGGT".to_vec(), 4, 6, 2).unwrap();
    assert_eq!(c, 10);
}

#[test]
fn branching_node_with_two_predecessors() {
    let mut g = PoaGraph::new();
    g.add_sequence(&b"ACGT".to_vec(), 4, 6, 2).unwrap();
    let c = g.add_sequence(&b"AGGT".to_vec(), 4, 6, 2).unwrap();
    assert_eq!(c, 4);
    // The substitution created a sibling branch: the node after the
    // branch point now has two predecessors.
    let branch = (2..g.node_count())
        .find(|&v| g.edges.iter().filter(|e| e.to == v).count() == 2)
        .unwrap();
    assert_eq!(g.nodes[branch].symbol, b'G');
    // Re-aligning either sequence over the branch is free.
    assert_eq!(g.align(&b"ACGT".to_vec(), 4, 6, 2).cost, 0);
    assert_eq!(g.align(&b"AGGT".to_vec(), 4, 6, 2).cost, 0);
    let rows = g.get_msa();
    assert_eq!(degap(&rows[0]), b"ACGT".to_vec());
    assert_eq!(degap(&rows[1]), b"AGGT".to_vec());
}

#[test]
fn serialization_lists_segments_links_paths() {
    let mut g = PoaGraph::new();
    g.add_sequence(&b"AC".to_vec(), 4, 6, 2).unwrap();
    let out = g.get_variation_graph();
    let expected = b"S\t2\tA\nS\t3\tC\nL\t2\t+\t3\t+\t1\nP\tseq_0\t2+,3+\n".to_vec();
    assert_eq!(out, expected);
}

#[test]
fn serialization_weights_and_paths_accumulate() {
    let mut g = PoaGraph::new();
    g.add_sequence(&b"AC".to_vec(), 4, 6, 2).unwrap();
    g.add_sequence(&b"AC".to_vec(), 4, 6, 2).unwrap();
    let out = g.get_variation_graph();
    let expected =
        b"S\t2\tA\nS\t3\tC\nL\t2\t+\t3\t+\t2\nP\tseq_0\t2+,3+\nP\tseq_1\t2+,3+\n".to_vec();
    assert_eq!(out, expected);
}

#[test]
fn msa_of_empty_graph_is_empty() {
    let g = PoaGraph::new();
    let rows = g.get_msa();
    assert!(rows.is_empty());
}

#[test]
fn provenance_records_sequence_offsets() {
    let mut g = PoaGraph::new();
    g.add_sequence(&b"ACGT".to_vec(), 4, 6, 2).unwrap();
    g.add_sequence(&b"ACGT".to_vec(), 4, 6, 2).unwrap();
    // Each chain node carries both traversals at the same offset.
    for (off, v) in (2..6).enumerate() {
        assert_eq!(g.nodes[v].prov, vec![(0, off), (1, off)]);
    }
    // The recorded paths walk the same chain.
    assert_eq!(g.seqs[0].path, vec![2, 3, 4, 5]);
    assert_eq!(g.seqs[1].path, vec![2, 3, 4, 5]);
}
