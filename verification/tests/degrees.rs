use bvgraph::codes::Decoder;
use bvgraph::degrees::{skip_blocks, skip_intervals, skip_residuals, DegreesIter};
use bvgraph::graph::BVGraphSeq;
use bvgraph::record::{DecodeError, Phase, ReadError};
use bvgraph::sequential::NodeLabelsLender;
use bvgraph::tape::{FieldTape, FieldTapeFactory, TapeEnd};

fn bad(node: usize, phase: Phase) -> ReadError<TapeEnd> {
    ReadError::Record(DecodeError { node, phase })
}

fn records() -> Vec<u64> {
    vec![
        3, 0, 0, 2, 1, 2, // node 0: residuals 1, 3, 6
        5, 0, 0, 2, 2, 1, 1, 1, // node 1: residuals 2, 5, 7, 9, 11
        4, 0, 1, 1, 0, 4, 3, // node 2: interval 1, 2 and residuals 4, 8
        5, 2, 0, // node 3: all of node 1
        5, 3, 3, 2, 0, 1, 0, 6, // node 4: two blocks of node 1 and residual 7
        2, 0, 0, 0, 0, // node 5: residuals 5, 6
        0, 0, 0, 0, 0, 0, // nodes 6 to 11
    ]
}

#[test]
fn degrees_of_the_records() {
    let g = BVGraphSeq::new(FieldTapeFactory::new(records()), 4, 2, 6 + 6, None);
    let mut it = g.iter_degrees();
    let mut seen = Vec::new();
    while let Some(r) = it.next() {
        seen.push(r.unwrap());
    }
    let expected: Vec<(usize, usize)> =
        vec![3, 5, 4, 5, 5, 2, 0, 0, 0, 0, 0, 0].into_iter().enumerate().collect();
    assert_eq!(seen, expected);
    assert!(it.is_exhausted());
    assert_eq!(it.next(), None);
}

#[test]
fn degrees_are_the_lengths_of_the_lists() {
    let g = BVGraphSeq::new(FieldTapeFactory::new(records()), 4, 2, 12, None);
    let mut lists = g.iter();
    let mut degrees = g.iter_degrees();
    loop {
        match (lists.next(), degrees.next()) {
            (None, None) => break,
            (Some(Ok((n, s))), Some(Ok((m, d)))) => {
                assert_eq!(n, m);
                assert_eq!(s.len(), d);
            }
            other => panic!("the iterators part ways: {:?}", other),
        }
    }
}

#[test]
fn next_degree_one_by_one() {
    let mut it = DegreesIter::new(FieldTape::new(records()), 2, 4, 12);
    assert_eq!(it.next_degree(), Ok(3));
    assert_eq!(it.next_degree(), Ok(5));
    assert_eq!(it.next_degree(), Ok(4));
    assert!(!it.is_exhausted());
}

#[test]
fn degree_errors() {
    let mut it = DegreesIter::new(FieldTape::new(vec![13]), 2, 4, 12);
    assert_eq!(it.next(), Some(Err(bad(0, Phase::Degree))));
    let mut it = DegreesIter::new(FieldTape::new(vec![1, 1, 0]), 2, 4, 12);
    assert_eq!(it.next(), Some(Err(bad(0, Phase::Reference))));
    // node 1 copies the three ids of node 0 for a degree of two
    let mut it = DegreesIter::new(FieldTape::new(vec![3, 0, 0, 2, 0, 0, 2, 1, 0]), 2, 4, 12);
    assert_eq!(it.next(), Some(Ok((0, 3))));
    assert_eq!(it.next(), Some(Err(bad(1, Phase::Reference))));
    // an interval of three ids for a degree of two
    let mut it = DegreesIter::new(FieldTape::new(vec![2, 0, 1, 0, 1]), 2, 4, 12);
    assert_eq!(it.next(), Some(Err(bad(0, Phase::Intervals))));
}

#[test]
fn counting_blocks() {
    // all of the list
    assert_eq!(skip_blocks(&mut FieldTape::new(vec![0]), 6), Ok(Some(6)));
    // copy 1, skip 2, copy the tail of 3
    assert_eq!(skip_blocks(&mut FieldTape::new(vec![2, 1, 1]), 6), Ok(Some(4)));
    // copy 2, skip 1, copy 2, no tail
    assert_eq!(skip_blocks(&mut FieldTape::new(vec![3, 2, 0, 1]), 5), Ok(Some(4)));
    assert_eq!(skip_blocks(&mut FieldTape::new(vec![3, 2, 0, 2]), 5), Ok(None));
    assert_eq!(skip_blocks(&mut FieldTape::new(vec![1, 0]), 5), Ok(Some(0)));
    assert_eq!(skip_blocks(&mut FieldTape::new(vec![3, 2, 0]), 5), Err(TapeEnd { len: 3 }));
    let mut dec = FieldTape::new(vec![3, 2, 0, 1, 9]);
    assert_eq!(skip_blocks(&mut dec, 5), Ok(Some(4)));
    assert_eq!(dec.read_interval_count(), Ok(9));
}

#[test]
fn counting_intervals_and_residuals() {
    let mut dec = FieldTape::new(vec![2, 5, 0, 1, 1, 9]);
    assert_eq!(skip_intervals(&mut dec, 2, 5), Ok(Some(5)));
    assert_eq!(dec.position(), 5);
    assert_eq!(skip_intervals(&mut FieldTape::new(vec![2, 5, 0, 1, 1]), 2, 4), Ok(None));
    assert_eq!(skip_intervals(&mut FieldTape::new(vec![0]), 2, 4), Ok(Some(0)));
    assert_eq!(skip_intervals(&mut FieldTape::new(vec![2, 5, 0, 1]), 2, 9), Err(TapeEnd { len: 4 }));
    let mut dec = FieldTape::new(vec![1, 2, 3, 4]);
    assert_eq!(skip_residuals(&mut dec, 0), Ok(()));
    assert_eq!(dec.position(), 0);
    assert_eq!(skip_residuals(&mut dec, 3), Ok(()));
    assert_eq!(dec.position(), 3);
    assert_eq!(dec.read_outdegree(), Ok(4));
    assert_eq!(skip_residuals(&mut dec, 1), Err(TapeEnd { len: 4 }));
}

#[test]
fn a_failed_read_ends_the_degrees() {
    let mut it = DegreesIter::new(FieldTape::new(vec![0, 2, 0, 0, 2]), 2, 4, 5);
    assert_eq!(it.next(), Some(Ok((0, 0))));
    assert_eq!(it.next(), Some(Err(ReadError::Source(TapeEnd { len: 5 }))));
}
