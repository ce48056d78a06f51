//! Iteration over the outdegrees alone: the records are read field by
//! field, and nothing is copied or sorted.

use vstd::prelude::*;
use crate::codes::{
    first_failure, first_pair_failure, lemma_first_failure, lemma_first_pair_failure,
    lemma_read_pairs, lemma_read_values, read_pairs, read_values, skip_pairs, skip_reads, Decoder,
    Field,
};
use crate::record::{
    decode_spec, impossible, part_ids, reference_phase, DecodeError, Phase, ReadError,
};
use crate::successors::{
    block_end, block_start, blocks_fit, blocks_outcome, copied_blocks, interval_ids, interval_len,
    interval_start, reference_copy, skip_residual_fields,
};

verus! {

/// How many ids the first `k` blocks copy.
pub open spec fn copied_count(blocks: Seq<u64>, k: nat) -> int
    decreases k,
{
    if k == 0 {
        0
    } else if (k - 1) % 2 == 0 {
        copied_count(blocks, (k - 1) as nat) + block_end(blocks, k - 1) - block_start(
            blocks,
            k - 1,
        )
    } else {
        copied_count(blocks, (k - 1) as nat)
    }
}

/// How many ids a record with these blocks copies from a reference list
/// of `len` ids.
pub open spec fn reference_count(blocks: Seq<u64>, len: nat) -> int {
    if blocks.len() == 0 {
        len as int
    } else if blocks.len() % 2 == 0 {
        copied_count(blocks, blocks.len()) + len - block_end(blocks, blocks.len() - 1)
    } else {
        copied_count(blocks, blocks.len())
    }
}

/// How many ids the first `k` intervals hold.
pub open spec fn interval_total(pairs: Seq<(u64, u64)>, l: usize, k: nat) -> int
    decreases k,
{
    if k == 0 {
        0
    } else {
        interval_total(pairs, l, (k - 1) as nat) + interval_len(pairs, l, k - 1)
    }
}

/// The first `n` intervals hold at most `room` ids together.
pub open spec fn intervals_fit_upto(pairs: Seq<(u64, u64)>, l: usize, room: usize, n: nat) -> bool {
    forall|k: nat| 1 <= k <= n ==> #[trigger] interval_total(pairs, l, k) <= room
}

/// The intervals hold at most `room` ids together.
pub open spec fn intervals_fit(pairs: Seq<(u64, u64)>, l: usize, room: usize) -> bool {
    intervals_fit_upto(pairs, l, room, pairs.len())
}

/// How counting the ids of the intervals ends: with the error of the first
/// read that fails, or else with whether the ids have room. An interval
/// that has none ends the reading.
pub open spec fn count_outcome<D: Decoder>(a: D::Abs, l: usize, room: usize) -> Result<
    bool,
    D::Error,
> {
    let count = D::peek(a, Field::IntervalCount);
    let a1 = D::advance(a, Field::IntervalCount);
    let pairs = read_pairs::<D>(a1, count as nat);
    match D::failure(a, Field::IntervalCount) {
        Some(e) => Err(e),
        None => match first_pair_failure::<D>(a1, count as nat) {
            None => Ok(intervals_fit(pairs, l, room)),
            Some(x) => if intervals_fit_upto(pairs, l, room, x.0) {
                Err(x.1)
            } else {
                Ok(false)
            },
        },
    }
}

/// The error of the first read that fails while `count` residuals are
/// read.
pub open spec fn residual_failure<D: Decoder>(a: D::Abs, count: nat) -> Option<D::Error> {
    if count == 0 {
        None
    } else {
        match D::failure(a, Field::FirstResidual) {
            Some(e) => Some(e),
            None => match first_failure::<D>(
                D::advance(a, Field::FirstResidual),
                Field::Residual,
                (count - 1) as nat,
            ) {
                Some(x) => Some(x.1),
                None => None,
            },
        }
    }
}

/// The outdegree that the record of `node` declares, or the error, and the
/// reader state behind the record. `degrees` is the window of the
/// outdegrees of the nodes before. Only counts are held against each
/// other: where the ids lie is not looked at.
pub open spec fn scan_spec<D: Decoder>(
    a: D::Abs,
    node: usize,
    w: usize,
    l: usize,
    num_nodes: usize,
    degrees: Seq<usize>,
) -> (Result<usize, ReadError<D::Error>>, D::Abs) {
    let d = D::peek(a, Field::Outdegree);
    let a1 = D::advance(a, Field::Outdegree);
    let r = D::peek(a1, Field::ReferenceOffset);
    let a2 = D::advance(a1, Field::ReferenceOffset);
    let count = D::peek(a2, Field::BlockCount);
    let a3 = D::advance(a2, Field::BlockCount);
    let blocks = read_values::<D>(a3, Field::Block, count as nat);
    let len = degrees[(node - r) % (degrees.len() as int)];
    let referenced = w != 0 && r != 0;
    let copied = if referenced {
        reference_count(blocks, len as nat)
    } else {
        0
    };
    let b = if w == 0 {
        a1
    } else if r == 0 {
        a2
    } else {
        skip_reads::<D>(a3, Field::Block, count as nat)
    };
    let room = (d - copied) as usize;
    let counted = room != 0 && l != 0;
    let icount = D::peek(b, Field::IntervalCount);
    let b1 = D::advance(b, Field::IntervalCount);
    let pairs = read_pairs::<D>(b1, icount as nat);
    let total = if counted {
        interval_total(pairs, l, icount as nat)
    } else {
        0
    };
    let c = if counted {
        skip_pairs::<D>(b1, icount as nat)
    } else {
        b
    };
    let rest = (room - total) as usize;
    if D::failure(a, Field::Outdegree) is Some {
        (Err(ReadError::Source(D::failure(a, Field::Outdegree)->0)), a1)
    } else if d > num_nodes {
        (Err(ReadError::Record(DecodeError { node, phase: Phase::Degree })), a1)
    } else if d == 0 {
        (Ok(0), a1)
    } else if w != 0 && D::failure(a1, Field::ReferenceOffset) is Some {
        (Err(ReadError::Source(D::failure(a1, Field::ReferenceOffset)->0)), a1)
    } else if referenced && (r > w || r > node) {
        (Err(ReadError::Record(DecodeError { node, phase: Phase::Reference })), a1)
    } else if referenced && blocks_outcome::<D>(a2, len as nat) is Err {
        (Err(ReadError::Source(blocks_outcome::<D>(a2, len as nat)->Err_0)), a1)
    } else if referenced && blocks_outcome::<D>(a2, len as nat) == Ok::<bool, D::Error>(false)
        || copied > d {
        (Err(ReadError::Record(DecodeError { node, phase: Phase::Reference })), a1)
    } else if counted && count_outcome::<D>(b, l, room) is Err {
        (Err(ReadError::Source(count_outcome::<D>(b, l, room)->Err_0)), a1)
    } else if counted && count_outcome::<D>(b, l, room) == Ok::<bool, D::Error>(false) {
        (Err(ReadError::Record(DecodeError { node, phase: Phase::Intervals })), a1)
    } else if residual_failure::<D>(c, rest as nat) is Some {
        (Err(ReadError::Source(residual_failure::<D>(c, rest as nat)->0)), a1)
    } else {
        (Ok(d as usize), skip_residual_fields::<D>(c, rest as nat))
    }
}

/// Every block ends at or behind its start, and the blocks of even index
/// hold no more ids than lie before the end of the last block.
pub proof fn lemma_copied_count(blocks: Seq<u64>, k: nat)
    requires
        1 <= k <= blocks.len(),
    ensures
        0 <= block_start(blocks, k - 1) <= block_end(blocks, k - 1),
        0 <= copied_count(blocks, k) <= block_end(blocks, k - 1),
    decreases k,
{
    if k > 1 {
        lemma_copied_count(blocks, (k - 1) as nat);
    } else {
        assert(copied_count(blocks, 0) == 0);
    }
}

/// Blocks that fit copy as many ids as `reference_count` says.
pub proof fn lemma_reference_count(blocks: Seq<u64>, s: Seq<usize>)
    requires
        blocks_fit(blocks, s.len()),
    ensures
        reference_copy(blocks, s).len() == reference_count(blocks, s.len()),
{
    if blocks.len() > 0 {
        lemma_copied_len(blocks, s, blocks.len());
        lemma_copied_count(blocks, blocks.len());
        assert(block_end(blocks, blocks.len() - 1) <= s.len());
    }
}

/// The first `k` blocks, where they fit, copy `copied_count` ids.
pub proof fn lemma_copied_len(blocks: Seq<u64>, s: Seq<usize>, k: nat)
    requires
        blocks_fit(blocks, s.len()),
        k <= blocks.len(),
    ensures
        copied_blocks(blocks, s, k).len() == copied_count(blocks, k),
    decreases k,
{
    if k > 0 {
        lemma_copied_len(blocks, s, (k - 1) as nat);
        lemma_copied_count(blocks, k);
        assert(block_end(blocks, k - 1) <= s.len());
    }
}

/// The first `k` intervals hold `interval_total` ids.
pub proof fn lemma_interval_total(pairs: Seq<(u64, u64)>, node: usize, l: usize, k: nat)
    ensures
        interval_ids(pairs, node, l, k).len() == interval_total(pairs, l, k),
        interval_total(pairs, l, k) >= 0,
    decreases k,
{
    if k > 0 {
        lemma_interval_total(pairs, node, l, (k - 1) as nat);
    }
}

/// Reads the block count and the blocks of a record whose reference list
/// has `len` ids, and returns how many ids they copy; `None` when a block
/// ends behind the end of the list.
pub fn skip_blocks<D: Decoder>(dec: &mut D, len: usize) -> (r: Result<Option<usize>, D::Error>)
    ensures
        ({
            let a1 = D::advance(old(dec).abs(), Field::BlockCount);
            let count = D::peek(old(dec).abs(), Field::BlockCount);
            let blocks = read_values::<D>(a1, Field::Block, count as nat);
            let outcome = blocks_outcome::<D>(old(dec).abs(), len as nat);
            match r {
                Err(e) => outcome == Err::<bool, D::Error>(e),
                Ok(None) => outcome == Ok::<bool, D::Error>(false),
                Ok(Some(c)) => outcome == Ok::<bool, D::Error>(true) && c == reference_count(
                    blocks,
                    len as nat,
                ) && final(dec).abs() == skip_reads::<D>(a1, Field::Block, count as nat),
            }
        }),
{
    let count: u64 = match dec.read_block_count() {
        Ok(v) => v,
        Err(e) => {
            return Err(e);
        },
    };
    let ghost a1 = dec.abs();
    let ghost blocks = read_values::<D>(a1, Field::Block, count as nat);
    proof {
        lemma_read_values::<D>(a1, Field::Block, count as nat);
    }
    if count == 0 {
        return Ok(Some(len));
    }
    proof {
        assert(skip_reads::<D>(a1, Field::Block, 0) == a1);
        assert(first_failure::<D>(a1, Field::Block, 0) is None);
        lemma_first_failure::<D>(a1, Field::Block, 1, count as nat);
    }
    let first: u64 = match dec.read_block() {
        Ok(v) => v,
        Err(e) => {
            return Err(e);
        },
    };
    assert(first == blocks[0]);
    if first > len as u64 {
        assert(block_end(blocks, 0) > len);
        return Ok(None);
    }
    let mut idx: usize = first as usize;
    let mut copied: usize = idx;
    let mut i: u64 = 1;
    proof {
        assert(copied_count(blocks, 0) == 0);
    }
    while i < count
        invariant
            1 <= i <= count,
            D::failure(old(dec).abs(), Field::BlockCount) is None,
            count == D::peek(old(dec).abs(), Field::BlockCount),
            a1 == D::advance(old(dec).abs(), Field::BlockCount),
            blocks == read_values::<D>(a1, Field::Block, count as nat),
            first_failure::<D>(a1, Field::Block, i as nat) is None,
            copied <= idx <= len,
            idx == block_end(blocks, i - 1),
            blocks.len() == count,
            forall|j: int|
                0 <= j < count ==> #[trigger] blocks[j] == D::peek(
                    skip_reads::<D>(a1, Field::Block, j as nat),
                    Field::Block,
                ),
            forall|j: int| 0 <= j < i ==> #[trigger] block_end(blocks, j) <= len,
            copied == copied_count(blocks, i as nat),
            dec.abs() == skip_reads::<D>(a1, Field::Block, i as nat),
        decreases count - i,
    {
        proof {
            lemma_first_failure::<D>(a1, Field::Block, (i + 1) as nat, count as nat);
        }
        let block: u64 = match dec.read_block() {
            Ok(v) => v,
            Err(e) => {
                return Err(e);
            },
        };
        assert(block == blocks[i as int]);
        if block >= (len - idx) as u64 {
            assert(block_end(blocks, i as int) > len);
            return Ok(None);
        }
        let end: usize = idx + block as usize + 1;
        assert(end == block_end(blocks, i as int));
        if i % 2 == 0 {
            copied = copied + (end - idx);
        }
        idx = end;
        i += 1;
    }
    if count % 2 == 0 {
        copied = copied + (len - idx);
    }
    Ok(Some(copied))
}

/// Reads the interval count and the intervals, and returns how many ids
/// they hold; `None` when these are more than `room`.
pub fn skip_intervals<D: Decoder>(dec: &mut D, l: usize, room: usize) -> (r: Result<
    Option<usize>,
    D::Error,
>)
    ensures
        ({
            let a1 = D::advance(old(dec).abs(), Field::IntervalCount);
            let count = D::peek(old(dec).abs(), Field::IntervalCount);
            let pairs = read_pairs::<D>(a1, count as nat);
            let outcome = count_outcome::<D>(old(dec).abs(), l, room);
            match r {
                Err(e) => outcome == Err::<bool, D::Error>(e),
                Ok(None) => outcome == Ok::<bool, D::Error>(false),
                Ok(Some(t)) => outcome == Ok::<bool, D::Error>(true) && t <= room && t
                    == interval_total(pairs, l, count as nat) && final(dec).abs() == skip_pairs::<D>(a1, count as nat),
            }
        }),
{
    let count: u64 = match dec.read_interval_count() {
        Ok(v) => v,
        Err(e) => {
            return Err(e);
        },
    };
    let ghost a1 = dec.abs();
    let ghost pairs = read_pairs::<D>(a1, count as nat);
    proof {
        lemma_read_pairs::<D>(a1, count as nat);
    }
    let mut i: u64 = 0;
    let mut total: usize = 0;
    while i < count
        invariant
            i <= count,
            D::failure(old(dec).abs(), Field::IntervalCount) is None,
            count == D::peek(old(dec).abs(), Field::IntervalCount),
            a1 == D::advance(old(dec).abs(), Field::IntervalCount),
            pairs == read_pairs::<D>(a1, count as nat),
            first_pair_failure::<D>(a1, i as nat) is None,
            pairs.len() == count,
            forall|j: int|
                0 <= j < count ==> #[trigger] pairs[j] == (
                    D::peek(skip_pairs::<D>(a1, j as nat), Field::IntervalStart),
                    D::peek(
                        D::advance(skip_pairs::<D>(a1, j as nat), Field::IntervalStart),
                        Field::IntervalLen,
                    ),
                ),
            total <= room,
            total == interval_total(pairs, l, i as nat),
            forall|k: nat| 1 <= k <= i ==> #[trigger] interval_total(pairs, l, k) <= room,
            dec.abs() == skip_pairs::<D>(a1, i as nat),
        decreases count - i,
    {
        proof {
            lemma_first_pair_failure::<D>(a1, (i + 1) as nat, count as nat);
        }
        let s: u64 = match dec.read_interval_start() {
            Ok(v) => v,
            Err(e) => {
                return Err(e);
            },
        };
        let e: u64 = match dec.read_interval_len() {
            Ok(v) => v,
            Err(e) => {
                return Err(e);
            },
        };
        assert(pairs[i as int] == (s, e));
        let delta: u128 = e as u128 + l as u128;
        assert(interval_total(pairs, l, (i + 1) as nat) == total + delta);
        if delta > (room - total) as u128 {
            return Ok(None);
        }
        total = total + delta as usize;
        i += 1;
    }
    Ok(Some(total))
}

/// Reads `count` residuals and drops them.
pub fn skip_residuals<D: Decoder>(dec: &mut D, count: usize) -> (r: Result<(), D::Error>)
    ensures
        match r {
            Ok(()) => residual_failure::<D>(old(dec).abs(), count as nat) is None && final(dec).abs() == skip_residual_fields::<D>(old(dec).abs(), count as nat),
            Err(e) => residual_failure::<D>(old(dec).abs(), count as nat) == Some(e),
        },
{
    if count == 0 {
        return Ok(());
    }
    match dec.read_first_residual() {
        Ok(_) => {},
        Err(e) => {
            return Err(e);
        },
    }
    let ghost a1 = dec.abs();
    let mut j: usize = 1;
    proof {
        assert(first_failure::<D>(a1, Field::Residual, 0) is None);
    }
    while j < count
        invariant
            1 <= j <= count,
            D::failure(old(dec).abs(), Field::FirstResidual) is None,
            a1 == D::advance(old(dec).abs(), Field::FirstResidual),
            first_failure::<D>(a1, Field::Residual, (j - 1) as nat) is None,
            dec.abs() == skip_reads::<D>(a1, Field::Residual, (j - 1) as nat),
        decreases count - j,
    {
        proof {
            lemma_first_failure::<D>(a1, Field::Residual, j as nat, (count - 1) as nat);
        }
        match dec.read_residual() {
            Ok(_) => {},
            Err(e) => {
                return Err(e);
            },
        }
        j += 1;
    }
    Ok(())
}

/// An iterator over the outdegrees of the nodes of a graph.
pub struct DegreesIter<D: Decoder> {
    codes_reader: D,
    backrefs: Vec<usize>,
    min_interval_length: usize,
    compression_window: usize,
    number_of_nodes: usize,
    current_node: usize,
}

impl<D: Decoder> DegreesIter<D> {
    /// The state of the reader.
    pub closed spec fn reader(&self) -> D::Abs {
        self.codes_reader.abs()
    }

    /// The window of outdegrees, by slot.
    pub closed spec fn degrees(&self) -> Seq<usize> {
        self.backrefs@
    }

    /// The node whose outdegree the next pull gives.
    pub closed spec fn current(&self) -> usize {
        self.current_node
    }

    /// The largest distance of a back-reference.
    pub closed spec fn window_size(&self) -> usize {
        self.compression_window
    }

    /// The least length of an interval.
    pub closed spec fn min_interval(&self) -> usize {
        self.min_interval_length
    }

    /// The number of nodes of the graph.
    pub closed spec fn num_nodes(&self) -> usize {
        self.number_of_nodes
    }

    /// The window has one slot more than the largest reference distance.
    pub open spec fn wf(&self) -> bool {
        self.degrees().len() == self.window_size() + 1
    }

    /// Creates an iterator at node zero from a reader at the start of the
    /// stream.
    pub fn new(
        codes_reader: D,
        min_interval_length: usize,
        compression_window: usize,
        number_of_nodes: usize,
    ) -> (r: Self)
        requires
            compression_window < usize::MAX,
        ensures
            r.wf(),
            r.reader() == codes_reader.abs(),
            r.degrees() == Seq::new((compression_window + 1) as nat, |i: int| 0usize),
            r.current() == 0,
            r.window_size() == compression_window,
            r.min_interval() == min_interval_length,
            r.num_nodes() == number_of_nodes,
    {
        let mut backrefs: Vec<usize> = Vec::new();
        let mut i: usize = 0;
        while i < compression_window + 1
            invariant
                compression_window < usize::MAX,
                i <= compression_window + 1,
                backrefs@ == Seq::new(i as nat, |i: int| 0usize),
            decreases compression_window + 1 - i,
        {
            backrefs.push(0);
            proof {
                assert(backrefs@ =~= Seq::new((i + 1) as nat, |i: int| 0usize));
            }
            i += 1;
        }
        DegreesIter {
            codes_reader,
            backrefs,
            min_interval_length,
            compression_window,
            number_of_nodes,
            current_node: 0,
        }
    }

    /// Whether every node has been handed out.
    pub fn is_exhausted(&self) -> (r: bool)
        ensures
            r == (self.current() >= self.num_nodes()),
    {
        self.current_node >= self.number_of_nodes
    }

    /// Reads the record of the next node and returns its outdegree.
    pub fn next_degree(&mut self) -> (res: Result<usize, ReadError<D::Error>>)
        requires
            old(self).wf(),
            old(self).current() < old(self).num_nodes(),
        ensures
            ({
                let scan = scan_spec::<D>(
                    old(self).reader(),
                    old(self).current(),
                    old(self).window_size(),
                    old(self).min_interval(),
                    old(self).num_nodes(),
                    old(self).degrees(),
                );
                match res {
                    Ok(d) => scan.0 == Ok::<usize, ReadError<D::Error>>(d) && final(self).reader()
                        == scan.1 && final(self).degrees() == old(self).degrees().update(
                        old(self).current() as int % old(self).degrees().len() as int,
                        d,
                    ) && final(self).current() == old(self).current() + 1,
                    Err(e) => scan.0 == Err::<usize, ReadError<D::Error>>(e),
                }
            }),
            final(self).wf(),
            final(self).window_size() == old(self).window_size(),
            final(self).min_interval() == old(self).min_interval(),
            final(self).num_nodes() == old(self).num_nodes(),
    {
        let node_id: usize = self.current_node;
        let slots: usize = self.backrefs.len();
        let degree: u64 = match self.codes_reader.read_outdegree() {
            Ok(v) => v,
            Err(e) => {
                return Err(ReadError::Source(e));
            },
        };
        if degree > self.number_of_nodes as u64 {
            return Err(impossible(node_id, Phase::Degree));
        }
        let degree: usize = degree as usize;
        if degree == 0 {
            self.backrefs[node_id % slots] = 0;
            self.current_node = node_id + 1;
            return Ok(0);
        }
        let mut nodes_left_to_decode: usize = degree;
        if self.compression_window != 0 {
            let ref_delta: u64 = match self.codes_reader.read_reference_offset() {
                Ok(v) => v,
                Err(e) => {
                    return Err(ReadError::Source(e));
                },
            };
            if ref_delta != 0 {
                if ref_delta > self.compression_window as u64 || ref_delta > node_id as u64 {
                    return Err(impossible(node_id, Phase::Reference));
                }
                let reference_node_id: usize = node_id - ref_delta as usize;
                let neighbours: usize = self.backrefs[reference_node_id % slots];
                match skip_blocks(&mut self.codes_reader, neighbours) {
                    Err(e) => {
                        return Err(ReadError::Source(e));
                    },
                    Ok(None) => {
                        return Err(impossible(node_id, Phase::Reference));
                    },
                    Ok(Some(copied)) => {
                        if copied > degree {
                            return Err(impossible(node_id, Phase::Reference));
                        }
                        nodes_left_to_decode = degree - copied;
                    },
                }
            }
        }
        if nodes_left_to_decode != 0 && self.min_interval_length != 0 {
            match skip_intervals(
                &mut self.codes_reader,
                self.min_interval_length,
                nodes_left_to_decode,
            ) {
                Err(e) => {
                    return Err(ReadError::Source(e));
                },
                Ok(None) => {
                    return Err(impossible(node_id, Phase::Intervals));
                },
                Ok(Some(total)) => {
                    nodes_left_to_decode = nodes_left_to_decode - total;
                },
            }
        }
        match skip_residuals(&mut self.codes_reader, nodes_left_to_decode) {
            Err(e) => {
                return Err(ReadError::Source(e));
            },
            Ok(()) => {},
        }
        self.backrefs[node_id % slots] = degree;
        self.current_node = node_id + 1;
        Ok(degree)
    }

    /// Pulls the next node: its id and its outdegree.
    pub fn next(&mut self) -> (res: Option<Result<(usize, usize), ReadError<D::Error>>>)
        requires
            old(self).wf(),
        ensures
            ({
                let cur = old(self).current();
                let n = old(self).num_nodes();
                let before = old(self).degrees();
                let scan = scan_spec::<D>(
                    old(self).reader(),
                    cur,
                    old(self).window_size(),
                    old(self).min_interval(),
                    n,
                    before,
                );
                match res {
                    None => cur >= n && final(self).reader() == old(self).reader() && final(self).degrees() == before && final(self).current() == cur,
                    Some(Ok(pair)) => cur < n && pair.0 == cur && scan.0 == Ok::<
                        usize,
                        ReadError<D::Error>,
                    >(pair.1) && final(self).reader() == scan.1 && final(self).degrees()
                        == before.update(cur as int % before.len() as int, pair.1) && final(self).current() == cur + 1,
                    Some(Err(e)) => cur < n && scan.0 == Err::<usize, ReadError<D::Error>>(e),
                }
            }),
            final(self).wf(),
            final(self).window_size() == old(self).window_size(),
            final(self).min_interval() == old(self).min_interval(),
            final(self).num_nodes() == old(self).num_nodes(),
    {
        if self.current_node >= self.number_of_nodes {
            return None;
        }
        let node_id: usize = self.current_node;
        match self.next_degree() {
            Ok(d) => Some(Ok((node_id, d))),
            Err(e) => Some(Err(e)),
        }
    }
}

/// Where a record decodes to a successor list, reading it for its
/// outdegree alone gives the length of that list and leaves the reader in
/// the same state. `degrees` holds the lengths of the lists in `slots`.
pub proof fn lemma_scan_agrees<D: Decoder>(
    a: D::Abs,
    node: usize,
    w: usize,
    l: usize,
    num_nodes: usize,
    slots: Seq<Seq<usize>>,
    degrees: Seq<usize>,
)
    requires
        decode_spec::<D>(a, node, w, l, num_nodes, slots).0 is Ok,
        slots.len() > 0,
        degrees.len() == slots.len(),
        forall|i: int| 0 <= i < slots.len() ==> #[trigger] degrees[i] == slots[i].len(),
    ensures
        scan_spec::<D>(a, node, w, l, num_nodes, degrees).0 == Ok::<usize, ReadError<D::Error>>(
            decode_spec::<D>(a, node, w, l, num_nodes, slots).0->Ok_0.len() as usize,
        ),
        scan_spec::<D>(a, node, w, l, num_nodes, degrees).1 == decode_spec::<D>(
            a,
            node,
            w,
            l,
            num_nodes,
            slots,
        ).1,
{
    let d = D::peek(a, Field::Outdegree);
    let a1 = D::advance(a, Field::Outdegree);
    if d != 0 {
        crate::record::lemma_parts_fill_degree::<D>(a, node, w, l, num_nodes, slots);
        let copied = reference_phase::<D>(a1, node, w, slots);
        let r = D::peek(a1, Field::ReferenceOffset);
        if w != 0 && r != 0 {
            let a3 = D::advance(D::advance(a1, Field::ReferenceOffset), Field::BlockCount);
            let count = D::peek(D::advance(a1, Field::ReferenceOffset), Field::BlockCount);
            let blocks = read_values::<D>(a3, Field::Block, count as nat);
            let slot = (node - r) % (slots.len() as int);
            assert(0 <= slot < slots.len());
            assert(degrees[slot] == slots[slot].len());
            lemma_reference_count(blocks, slots[slot]);
        }
        let room = (d - part_ids(copied.0).len()) as usize;
        if room != 0 && l != 0 {
            let icount = D::peek(copied.1, Field::IntervalCount);
            let b1 = D::advance(copied.1, Field::IntervalCount);
            let pairs = read_pairs::<D>(b1, icount as nat);
            lemma_read_pairs::<D>(b1, icount as nat);
            lemma_interval_total(pairs, node, l, icount as nat);
            assert forall|k: nat| 1 <= k <= pairs.len() implies #[trigger] interval_total(
                pairs,
                l,
                k,
            ) <= room by {
                lemma_interval_total(pairs, node, l, k);
                assert(interval_start(pairs, node, l, k - 1) + interval_len(pairs, l, k - 1)
                    <= num_nodes);
            }
        }
    }
}

} // verus!
