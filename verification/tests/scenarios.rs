use bvgraph::graph::BVGraphSeq;
use bvgraph::record::{DecodeError, Phase, ReadError};
use bvgraph::sequential::{BitPosition, NodeLabelsLender, SeqIter};
use bvgraph::tape::{FieldTape, FieldTapeFactory, TapeEnd};

fn pull_all(it: &mut SeqIter<FieldTape>) -> Vec<(usize, Vec<usize>)> {
    let mut out = Vec::new();
    while let Some(r) = it.next() {
        out.push(r.unwrap());
    }
    out
}

fn bad(node: usize, phase: Phase) -> ReadError<TapeEnd> {
    ReadError::Record(DecodeError { node, phase })
}

/// Records for window 4 and minimum interval length 2:
/// node 0 has the residuals 1, 3, 6; node 1 the residuals 2, 5, 7, 9, 11;
/// node 2 one interval and two residuals; node 3 copies node 1 whole;
/// node 4 copies two blocks of node 1 and adds one residual; seven nodes
/// without successors follow.
fn five_nodes() -> Vec<u64> {
    vec![
        3, 0, 0, 2, 1, 2, // node 0
        5, 0, 0, 2, 2, 1, 1, 1, // node 1
        4, 0, 1, 1, 0, 4, 3, // node 2
        5, 2, 0, // node 3
        5, 3, 3, 2, 0, 1, 0, 6, // node 4
        0, 0, 0, 0, 0, 0, 0, // nodes 5 to 11
    ]
}

#[test]
fn empty_degrees() {
    let mut it = SeqIter::new(FieldTape::new(vec![0, 0, 0, 0, 0]), 4, 2, 5);
    for n in 0..5 {
        assert_eq!(it.next(), Some(Ok((n, vec![]))));
    }
    assert!(it.is_exhausted());
    assert_eq!(it.next(), None);
    assert_eq!(it.next(), None);
}

#[test]
fn pure_residuals_no_reference() {
    let mut it = SeqIter::new(FieldTape::new(five_nodes()), 4, 2, 12);
    assert_eq!(it.next(), Some(Ok((0, vec![1, 3, 6]))));
}

#[test]
fn interval_only() {
    let tape = vec![0, 0, 4, 0, 1, 1, 0, 4, 3];
    let mut it = SeqIter::new(FieldTape::new(tape), 4, 2, 12);
    assert_eq!(it.next(), Some(Ok((0, vec![]))));
    assert_eq!(it.next(), Some(Ok((1, vec![]))));
    assert_eq!(it.next(), Some(Ok((2, vec![1, 2, 4, 8]))));
}

#[test]
fn reference_copy_all_blocks() {
    let mut it = SeqIter::new(FieldTape::new(five_nodes()), 4, 2, 12);
    let all = pull_all(&mut it);
    assert_eq!(all[1], (1, vec![2, 5, 7, 9, 11]));
    assert_eq!(all[3], (3, vec![2, 5, 7, 9, 11]));
    assert_eq!(all[3].1, all[1].1);
}

#[test]
fn reference_copy_alternating_blocks() {
    let mut it = SeqIter::new(FieldTape::new(five_nodes()), 4, 2, 12);
    let all = pull_all(&mut it);
    // blocks 2, 0, 1: copy [2, 5], skip [7], copy [9, 11]; the residual 7
    // is read last and sorted into its place
    assert_eq!(all[4], (4, vec![2, 5, 7, 9, 11]));
    assert!(all[5..].iter().all(|(_, s)| s.is_empty()));
}

#[test]
fn alternating_blocks_without_residual() {
    let mut tape = vec![0, 5, 0, 0, 2, 2, 1, 1, 1, 0, 0, 4, 3, 3, 2, 0, 1];
    tape.extend(vec![0; 7]);
    let mut it = SeqIter::new(FieldTape::new(tape), 4, 2, 12);
    let all = pull_all(&mut it);
    assert_eq!(all[1].1, vec![2, 5, 7, 9, 11]);
    assert_eq!(all[4], (4, vec![2, 5, 9, 11]));
}

#[test]
fn empty_window_reads_no_reference() {
    // with a window the second word would be a reference offset
    let mut it = SeqIter::new(FieldTape::new(vec![1, 0, 2]), 0, 2, 5);
    assert_eq!(it.next(), Some(Ok((0, vec![1]))));
    assert_eq!(it.get_bit_pos(), Ok(3));
    let mut with_window = SeqIter::new(FieldTape::new(vec![1, 0, 2]), 4, 2, 5);
    // the reference offset 0, the interval count 2, and no interval to read
    assert_eq!(with_window.next(), Some(Err(ReadError::Source(TapeEnd { len: 3 }))));
}

#[test]
fn empty_window_and_no_intervals() {
    // degree, first residual, gap: nothing else is read
    let mut it = SeqIter::new(FieldTape::new(vec![2, 0, 0, 1, 1]), 0, 0, 3);
    assert_eq!(it.next(), Some(Ok((0, vec![0, 1]))));
    assert_eq!(it.next(), Some(Ok((1, vec![0]))));
    assert_eq!(it.get_bit_pos(), Ok(5));
}

#[test]
fn ids_are_held_to_the_number_of_nodes() {
    // the residuals 1, 3, 6 in a graph of five nodes
    let mut it = SeqIter::new(FieldTape::new(five_nodes()), 4, 2, 5);
    assert_eq!(it.next(), Some(Err(bad(0, Phase::Residuals))));
}

#[test]
fn node_ids_come_in_order() {
    let mut it = SeqIter::new(FieldTape::new(five_nodes()), 4, 2, 12);
    let mut expected = 0;
    while let Some(r) = it.next() {
        let (node, succ) = r.unwrap();
        assert_eq!(node, expected);
        assert_eq!(it.current_node(), expected + 1);
        assert!(succ.windows(2).all(|p| p[0] < p[1]));
        assert!(succ.iter().all(|&s| s < 12));
        expected += 1;
    }
    // the tape ends after five records: the nodes behind them have degree zero
    assert_eq!(expected, 12);
}

#[test]
fn two_iterators_agree() {
    let g = BVGraphSeq::new(FieldTapeFactory::new(five_nodes()), 4, 2, 5 + 7, Some(22));
    let mut a = g.iter();
    let mut b = g.iter();
    for _ in 0..13 {
        assert_eq!(a.next(), b.next());
    }
}

#[test]
fn iter_from_is_iter_after_pulls() {
    let g = BVGraphSeq::new(FieldTapeFactory::new(five_nodes()), 4, 2, 12, None);
    for k in 0..14 {
        let mut skipped = g.iter_from(k).unwrap();
        let mut pulled = g.iter();
        for _ in 0..k {
            pulled.next();
        }
        assert_eq!(skipped.current_node(), k.min(12));
        loop {
            let x = skipped.next();
            assert_eq!(x, pulled.next());
            if x.is_none() {
                break;
            }
        }
    }
}

#[test]
fn iter_from_reports_the_first_error() {
    let g = BVGraphSeq::new(FieldTapeFactory::new(five_nodes()), 4, 2, 5, None);
    assert!(g.iter_from(0).is_ok());
    assert_eq!(g.iter_from(3).err(), Some(bad(0, Phase::Residuals)));
}

#[test]
fn graph_accessors() {
    let g = BVGraphSeq::new(FieldTapeFactory::new(vec![0, 0]), 4, 2, 2, Some(0));
    assert_eq!(g.num_nodes(), 2);
    assert_eq!(g.num_arcs_hint(), Some(0));
    let h = BVGraphSeq::new(FieldTapeFactory::new(vec![0, 0]), 4, 2, 2, None);
    assert_eq!(h.num_arcs_hint(), None);
    let mapped = g.map_factory(|_| FieldTapeFactory::new(vec![1, 0, 0, 2, 0]));
    assert_eq!(mapped.num_nodes(), 2);
    assert_eq!(mapped.num_arcs_hint(), Some(0));
    let mut it = mapped.iter();
    assert_eq!(it.next(), Some(Ok((0, vec![1]))));
    assert_eq!(it.next(), Some(Ok((1, vec![]))));
    assert_eq!(it.next(), None);
    assert_eq!(mapped.into_lender().next(), Some(Ok((0, vec![1]))));
    let factory = mapped.into_inner();
    let again = BVGraphSeq::new(factory, 4, 2, 2, None);
    assert_eq!(again.iter().next(), Some(Ok((0, vec![1]))));
}

#[test]
fn next_successors_lends_the_list() {
    let mut it = SeqIter::new(FieldTape::new(five_nodes()), 4, 2, 12);
    assert_eq!(it.next_successors().unwrap(), &vec![1, 3, 6]);
    assert_eq!(it.successors(0), &vec![1, 3, 6]);
    assert_eq!(it.next_successors().unwrap(), &vec![2, 5, 7, 9, 11]);
    assert_eq!(it.current_node(), 2);
    // slot 0 is recycled by node 5
    for _ in 2..6 {
        it.next_successors().unwrap();
    }
    assert_eq!(it.successors(0), &Vec::<usize>::new());
    assert_eq!(it.successors(1), &vec![2, 5, 7, 9, 11]);
}

#[test]
fn decoding_into_a_buffer() {
    let mut it = SeqIter::new(FieldTape::new(vec![3, 0, 1, 3, 1]), 4, 2, 10);
    let mut out = Vec::new();
    // interval start -2 from node 5, length 1 + 2
    assert_eq!(it.get_successors_iter_priv(5, &mut out), Ok(()));
    assert_eq!(out, vec![3, 4, 5]);
    assert_eq!(it.current_node(), 0);
}

#[test]
fn bit_position_follows_the_reads() {
    let mut tape = FieldTape::new(vec![7, 8]);
    assert_eq!(tape.get_bit_pos(), Ok(0));
    assert_eq!(tape.position(), 0);
    let mut it = SeqIter::new(FieldTape::new(five_nodes()), 4, 2, 12);
    assert_eq!(it.get_bit_pos(), Ok(0));
    it.next();
    assert_eq!(it.get_bit_pos(), Ok(6));
    it.next();
    assert_eq!(it.get_bit_pos(), Ok(14));
}

#[test]
fn a_failed_read_is_handed_on() {
    // the record of node 1 breaks off behind its first residual
    let mut it = SeqIter::new(FieldTape::new(vec![0, 2, 0, 0, 2]), 4, 2, 5);
    assert_eq!(it.next(), Some(Ok((0, vec![]))));
    assert_eq!(it.next(), Some(Err(ReadError::Source(TapeEnd { len: 5 }))));
    // an empty stream
    let mut it = SeqIter::new(FieldTape::new(vec![]), 4, 2, 5);
    assert_eq!(it.next(), Some(Err(ReadError::Source(TapeEnd { len: 0 }))));
    let g = BVGraphSeq::new(FieldTapeFactory::new(vec![0, 0, 3]), 4, 2, 5, None);
    assert!(g.iter_from(2).is_ok());
    assert_eq!(g.iter_from(3).err(), Some(ReadError::Source(TapeEnd { len: 3 })));
    assert_eq!(g.iter_from(5).err(), Some(ReadError::Source(TapeEnd { len: 3 })));
}
