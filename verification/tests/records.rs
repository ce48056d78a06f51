use bvgraph::codes::{nat2int, Decoder};
use bvgraph::record::{is_valid_list, sort_successors, DecodeError, Phase, ReadError};
use bvgraph::sequential::{NodeLabelsLender, SeqIter};
use bvgraph::successors::{
    append_range, append_run, copy_reference, read_intervals, read_residuals,
};
use bvgraph::tape::{FieldTape, TapeEnd};
use bvgraph::window::CircularBufferVec;

fn bad(node: usize, phase: Phase) -> Option<ReadError<TapeEnd>> {
    Some(ReadError::Record(DecodeError { node, phase }))
}

fn first_error(tape: Vec<u64>, w: usize, l: usize, n: usize) -> Option<ReadError<TapeEnd>> {
    let mut it = SeqIter::new(FieldTape::new(tape), w, l, n);
    while let Some(r) = it.next() {
        if let Err(e) = r {
            return Some(e);
        }
    }
    None
}

#[test]
fn nat2int_values() {
    assert_eq!(nat2int(0), 0);
    assert_eq!(nat2int(1), -1);
    assert_eq!(nat2int(2), 1);
    assert_eq!(nat2int(3), -2);
    assert_eq!(nat2int(4), 2);
    assert_eq!(nat2int(u64::MAX), i64::MIN);
    assert_eq!(nat2int(u64::MAX - 1), i64::MAX);
}

#[test]
fn tape_reads_in_order_and_then_fails() {
    let mut t = FieldTape::new(vec![5, 6, 7]);
    assert_eq!(t.read_outdegree(), Ok(5));
    assert_eq!(t.read_block(), Ok(6));
    assert_eq!(t.read_residual(), Ok(7));
    assert_eq!(t.read_interval_len(), Err(TapeEnd { len: 3 }));
    assert_eq!(t.read_outdegree(), Err(TapeEnd { len: 3 }));
    assert_eq!(t.position(), 3);
}

#[test]
fn window_take_push_get() {
    let mut w = CircularBufferVec::new(3);
    assert_eq!(w.len(), 3);
    w.push(4, vec![1, 2]);
    assert_eq!(w.get(1), &vec![1, 2]);
    assert_eq!(w.get(4), &vec![1, 2]);
    assert_eq!(w.get(0), &Vec::<usize>::new());
    let taken = w.take(7);
    assert!(taken.is_empty());
    assert_eq!(w.get(1), &Vec::<usize>::new());
}

#[test]
fn sorting_orders_the_ids() {
    let mut v = vec![9, 11, 2, 5, 7];
    sort_successors(&mut v);
    assert_eq!(v, vec![2, 5, 7, 9, 11]);
    let mut dup = vec![3, 1, 3];
    sort_successors(&mut dup);
    assert_eq!(dup, vec![1, 3, 3]);
}

#[test]
fn valid_lists() {
    assert!(is_valid_list(&vec![], 0));
    assert!(is_valid_list(&vec![0, 1, 4], 5));
    assert!(!is_valid_list(&vec![0, 1, 5], 5));
    assert!(!is_valid_list(&vec![0, 1, 1], 5));
}

#[test]
fn appending() {
    let mut out = vec![9];
    append_range(&vec![1, 2, 3, 4], 1, 3, &mut out);
    assert_eq!(out, vec![9, 2, 3]);
    append_run(5, 3, &mut out);
    assert_eq!(out, vec![9, 2, 3, 5, 6, 7]);
    append_run(5, 0, &mut out);
    assert_eq!(out.len(), 6);
}

#[test]
fn blocks_even_count_copies_the_tail() {
    let s = vec![10, 20, 30, 40, 50, 60];
    // two blocks: copy [0, 1), skip [1, 3), then the tail
    let mut dec = FieldTape::new(vec![2, 1, 1]);
    let mut out = Vec::new();
    assert_eq!(copy_reference(&mut dec, &s, &mut out), Ok(true));
    assert_eq!(out, vec![10, 40, 50, 60]);
}

#[test]
fn blocks_with_empty_first_block() {
    let s = vec![10, 20, 30];
    // an empty copy block, a skip block of one, then the tail
    let mut dec = FieldTape::new(vec![2, 0, 0]);
    let mut out = Vec::new();
    assert_eq!(copy_reference(&mut dec, &s, &mut out), Ok(true));
    assert_eq!(out, vec![20, 30]);
    // one empty block, no tail: nothing is copied
    let mut dec = FieldTape::new(vec![1, 0]);
    let mut out = Vec::new();
    assert_eq!(copy_reference(&mut dec, &s, &mut out), Ok(true));
    assert!(out.is_empty());
}

#[test]
fn blocks_behind_the_end_are_refused() {
    let s = vec![10, 20, 30];
    let mut out = Vec::new();
    assert_eq!(copy_reference(&mut FieldTape::new(vec![1, 4]), &s, &mut out), Ok(false));
    let mut out = Vec::new();
    assert_eq!(copy_reference(&mut FieldTape::new(vec![2, 2, 1]), &s, &mut out), Ok(false));
    let mut out = Vec::new();
    assert_eq!(copy_reference(&mut FieldTape::new(vec![2, 2, 0]), &s, &mut out), Ok(true));
    assert_eq!(out, vec![10, 20]);
    let mut out = Vec::new();
    // nine blocks are announced and one is there
    assert_eq!(
        copy_reference(&mut FieldTape::new(vec![9, 0]), &s, &mut out),
        Err(TapeEnd { len: 2 })
    );
}

#[test]
fn intervals_follow_each_other() {
    // two intervals from node 10, minimum length 2:
    // start 10 - 3 = 7, length 0 + 2; gap 1, length 1 + 2
    let mut dec = FieldTape::new(vec![2, 5, 0, 1, 1]);
    let mut out = vec![1];
    assert_eq!(read_intervals(&mut dec, 10, 2, 100, 5, &mut out), Ok(true));
    assert_eq!(out, vec![1, 7, 8, 11, 12, 13]);
    assert_eq!(dec.position(), 5);
}

#[test]
fn intervals_out_of_place_are_refused() {
    let mut out = Vec::new();
    // start at 1 - 2
    assert_eq!(read_intervals(&mut FieldTape::new(vec![1, 3, 0]), 1, 2, 100, 5, &mut out), Ok(false));
    let mut out = Vec::new();
    // ends at 100, one behind the last node
    assert_eq!(read_intervals(&mut FieldTape::new(vec![1, 0, 0]), 98, 3, 100, 5, &mut out), Ok(false));
    let mut out = Vec::new();
    assert_eq!(read_intervals(&mut FieldTape::new(vec![1, 0, 0]), 98, 2, 100, 5, &mut out), Ok(true));
    assert_eq!(out, vec![98, 99]);
    let mut out = Vec::new();
    // three ids where two have room
    assert_eq!(read_intervals(&mut FieldTape::new(vec![1, 0, 1]), 5, 2, 100, 2, &mut out), Ok(false));
    let mut out = Vec::new();
    // length field near the largest word
    assert_eq!(read_intervals(&mut FieldTape::new(vec![1, 0, u64::MAX]), 5, 2, 100, 2, &mut out), Ok(false));
}

#[test]
fn residuals_follow_each_other() {
    let mut dec = FieldTape::new(vec![3, 0, 2]);
    let mut out = vec![50];
    // first 10 - 2 = 8, then 9, then 12
    assert_eq!(read_residuals(&mut dec, 10, 13, 3, &mut out), Ok(true));
    assert_eq!(out, vec![50, 8, 9, 12]);
    let mut out = Vec::new();
    assert_eq!(read_residuals(&mut FieldTape::new(vec![3, 0, 2]), 10, 12, 3, &mut out), Ok(false));
    let mut out = Vec::new();
    assert_eq!(read_residuals(&mut FieldTape::new(vec![3]), 1, 12, 1, &mut out), Ok(false));
    let mut out = Vec::new();
    assert_eq!(read_residuals(&mut FieldTape::new(vec![0, u64::MAX]), 1, 12, 2, &mut out), Ok(false));
}

#[test]
fn degree_above_the_number_of_nodes() {
    assert_eq!(first_error(vec![6], 4, 2, 5), bad(0, Phase::Degree));
    assert_eq!(first_error(vec![0, u64::MAX], 4, 2, 5), bad(1, Phase::Degree));
    assert_eq!(first_error(vec![0, 0, 0, 0, 0], 4, 2, 5), None);
}

#[test]
fn reference_errors() {
    let e = |node| bad(node, Phase::Reference);
    // node 0 has nothing to refer to
    assert_eq!(first_error(vec![1, 1, 0], 4, 2, 9), e(0));
    // distance 3 with a window of 2
    assert_eq!(first_error(vec![0, 0, 0, 0, 1, 3, 0], 2, 2, 9), e(4));
    // a block behind the end of the list of node 0
    assert_eq!(first_error(vec![1, 0, 0, 4, 1, 1, 1, 2], 4, 2, 9), e(1));
    // two ids copied for a degree of one
    assert_eq!(first_error(vec![2, 0, 0, 4, 0, 1, 1, 0], 4, 2, 9), e(1));
    // the same distance inside the window is accepted: node 4 copies the
    // one id of node 1
    assert_eq!(first_error(vec![0, 1, 0, 0, 2, 0, 0, 1, 3, 0], 3, 2, 5), None);
    // node 1 has no id to copy, and the stream ends before the intervals
    assert_eq!(
        first_error(vec![0, 0, 0, 0, 1, 3, 0], 3, 2, 9),
        Some(ReadError::Source(TapeEnd { len: 7 }))
    );
}

#[test]
fn interval_and_residual_errors() {
    assert_eq!(first_error(vec![2, 0, 1, 1, 0], 4, 2, 9), bad(0, Phase::Intervals));
    assert_eq!(first_error(vec![1, 0, 0, 1], 4, 2, 9), bad(0, Phase::Residuals));
    assert_eq!(first_error(vec![1, 0, 0, 18], 4, 2, 9), bad(0, Phase::Residuals));
    assert_eq!(first_error(vec![1, 0, 0, 16, 0, 0, 0, 0, 0, 0, 0, 0], 4, 2, 9), None);
}

#[test]
fn an_id_twice_is_refused() {
    // node 1 copies [4] from node 0 and adds the residual 4
    assert_eq!(first_error(vec![1, 0, 0, 8, 2, 1, 0, 0, 6], 4, 2, 9), bad(1, Phase::Merge));
    // with the residual 5 the list is [4, 5]
    let mut it = SeqIter::new(FieldTape::new(vec![1, 0, 0, 8, 2, 1, 0, 0, 8]), 4, 2, 9);
    assert_eq!(it.next(), Some(Ok((0, vec![4]))));
    assert_eq!(it.next(), Some(Ok((1, vec![4, 5]))));
}

#[test]
fn residual_before_the_copy_is_sorted_in() {
    // node 1 copies [4, 6] and adds the residual 0
    let mut it = SeqIter::new(FieldTape::new(vec![2, 0, 0, 8, 1, 3, 1, 0, 0, 1]), 4, 2, 9);
    assert_eq!(it.next(), Some(Ok((0, vec![4, 6]))));
    assert_eq!(it.next(), Some(Ok((1, vec![0, 4, 6]))));
}

#[test]
fn valid_list_of_any_order() {
    assert!(!is_valid_list(&vec![3, 1, 2], 5));
    assert!(!is_valid_list(&vec![7, 1], 5));
    assert!(is_valid_list(&vec![4], 5));
}

#[test]
fn copying_appends() {
    let s = vec![10, 20, 30];
    let mut out = vec![1, 2];
    assert_eq!(copy_reference(&mut FieldTape::new(vec![0]), &s, &mut out), Ok(true));
    assert_eq!(out, vec![1, 2, 10, 20, 30]);
    assert_eq!(copy_reference(&mut FieldTape::new(vec![3, 1, 0, 0]), &s, &mut out), Ok(true));
    assert_eq!(out, vec![1, 2, 10, 20, 30, 10, 30]);
}

#[test]
fn no_residuals_reads_nothing() {
    let mut dec = FieldTape::new(vec![4, 4]);
    let mut out = vec![1];
    assert_eq!(read_residuals(&mut dec, 0, 9, 0, &mut out), Ok(true));
    assert_eq!(out, vec![1]);
    assert_eq!(dec.position(), 0);
}

#[test]
fn a_failed_read_ends_a_part() {
    let s = vec![10, 20, 30];
    let mut out = Vec::new();
    assert_eq!(copy_reference(&mut FieldTape::new(vec![]), &s, &mut out), Err(TapeEnd { len: 0 }));
    // the second block does not fit, and is found before the stream ends
    assert_eq!(copy_reference(&mut FieldTape::new(vec![3, 1, 5]), &s, &mut out), Ok(false));
    // the second block fits, and the third cannot be read
    assert_eq!(
        copy_reference(&mut FieldTape::new(vec![3, 1, 0]), &s, &mut out),
        Err(TapeEnd { len: 3 })
    );
    let mut out = Vec::new();
    assert_eq!(
        read_intervals(&mut FieldTape::new(vec![1, 0]), 5, 2, 100, 5, &mut out),
        Err(TapeEnd { len: 2 })
    );
    assert_eq!(
        read_intervals(&mut FieldTape::new(vec![2, 0, 0]), 5, 2, 100, 5, &mut out),
        Err(TapeEnd { len: 3 })
    );
    // the first interval has no room, and is found before the stream ends
    assert_eq!(
        read_intervals(&mut FieldTape::new(vec![2, 0, 9]), 5, 2, 100, 5, &mut out),
        Ok(false)
    );
    let mut out = Vec::new();
    assert_eq!(
        read_residuals(&mut FieldTape::new(vec![]), 5, 100, 1, &mut out),
        Err(TapeEnd { len: 0 })
    );
    assert_eq!(
        read_residuals(&mut FieldTape::new(vec![0, 1]), 5, 100, 3, &mut out),
        Err(TapeEnd { len: 2 })
    );
    assert_eq!(read_residuals(&mut FieldTape::new(vec![1]), 0, 100, 3, &mut out), Ok(false));
}
