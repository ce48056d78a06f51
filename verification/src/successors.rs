//! The three parts of a node record: the copy from a reference list, the
//! intervals and the residuals.

use vstd::prelude::*;
use crate::codes::{
    first_failure, first_pair_failure, lemma_first_failure, lemma_first_pair_failure,
    lemma_read_pairs, lemma_read_values, nat2int, nat2int_spec, read_pairs, read_values,
    skip_pairs, skip_reads, Decoder, Field,
};

verus! {

/// End of block `i` in the reference list, exclusive. The first block is
/// stored as it is; each later one is stored one shorter than it is.
pub open spec fn block_end(blocks: Seq<u64>, i: int) -> int
    decreases i,
{
    if i <= 0 {
        blocks[0] as int
    } else {
        block_end(blocks, i - 1) + blocks[i] + 1
    }
}

/// Start of block `i` in the reference list.
pub open spec fn block_start(blocks: Seq<u64>, i: int) -> int {
    if i <= 0 {
        0
    } else {
        block_end(blocks, i - 1)
    }
}

/// Each of the first `k` blocks ends inside a reference list of `len` ids.
pub open spec fn fit_upto(blocks: Seq<u64>, len: nat, k: nat) -> bool {
    forall|i: int| 0 <= i < k ==> #[trigger] block_end(blocks, i) <= len
}

/// Every block ends inside a reference list of `len` ids.
pub open spec fn blocks_fit(blocks: Seq<u64>, len: nat) -> bool {
    fit_upto(blocks, len, blocks.len())
}

/// How reading the block count and the blocks ends, over a reference list
/// of `len` ids: with the error of the first read that fails, or else with
/// whether the blocks fit. A block that does not fit ends the reading.
pub open spec fn blocks_outcome<D: Decoder>(a: D::Abs, len: nat) -> Result<bool, D::Error> {
    let count = D::peek(a, Field::BlockCount);
    let a1 = D::advance(a, Field::BlockCount);
    let blocks = read_values::<D>(a1, Field::Block, count as nat);
    match D::failure(a, Field::BlockCount) {
        Some(e) => Err(e),
        None => match first_failure::<D>(a1, Field::Block, count as nat) {
            None => Ok(blocks_fit(blocks, len)),
            Some(x) => if fit_upto(blocks, len, x.0) {
                Err(x.1)
            } else {
                Ok(false)
            },
        },
    }
}

/// What the first `k` blocks copy from `s`: the blocks of even index.
pub open spec fn copied_blocks(blocks: Seq<u64>, s: Seq<usize>, k: nat) -> Seq<usize>
    decreases k,
{
    if k == 0 {
        Seq::empty()
    } else if (k - 1) % 2 == 0 {
        copied_blocks(blocks, s, (k - 1) as nat) + s.subrange(
            block_start(blocks, k - 1),
            block_end(blocks, k - 1),
        )
    } else {
        copied_blocks(blocks, s, (k - 1) as nat)
    }
}

/// What a record with these blocks copies from the reference list `s`:
/// all of it without blocks, else the blocks of even index, and what
/// follows the last block when their number is even.
pub open spec fn reference_copy(blocks: Seq<u64>, s: Seq<usize>) -> Seq<usize> {
    if blocks.len() == 0 {
        s
    } else if blocks.len() % 2 == 0 {
        copied_blocks(blocks, s, blocks.len()) + s.subrange(
            block_end(blocks, blocks.len() - 1),
            s.len() as int,
        )
    } else {
        copied_blocks(blocks, s, blocks.len())
    }
}

/// Length of interval `i`: its length field and the minimum length `l`.
pub open spec fn interval_len(pairs: Seq<(u64, u64)>, l: usize, i: int) -> int {
    pairs[i].1 + l
}

/// First id of interval `i`. The first interval starts at a signed offset
/// from the node; each later one after a gap behind the one before.
pub open spec fn interval_start(pairs: Seq<(u64, u64)>, node: usize, l: usize, i: int) -> int
    decreases i,
{
    if i <= 0 {
        node + nat2int_spec(pairs[0].0)
    } else {
        interval_start(pairs, node, l, i - 1) + interval_len(pairs, l, i - 1) + pairs[i].0 + 1
    }
}

/// The ids `start, start + 1, ..., start + len - 1`.
pub open spec fn run(start: int, len: int) -> Seq<usize> {
    Seq::new(len as nat, |j: int| (start + j) as usize)
}

/// The ids of the first `k` intervals, in order.
pub open spec fn interval_ids(pairs: Seq<(u64, u64)>, node: usize, l: usize, k: nat) -> Seq<
    usize,
>
    decreases k,
{
    if k == 0 {
        Seq::empty()
    } else {
        interval_ids(pairs, node, l, (k - 1) as nat) + run(
            interval_start(pairs, node, l, k - 1),
            interval_len(pairs, l, k - 1),
        )
    }
}

/// The first `k` intervals start at a node id, end at or below
/// `num_nodes`, and hold at most `room` ids together.
pub open spec fn intervals_ok_upto(
    pairs: Seq<(u64, u64)>,
    node: usize,
    l: usize,
    num_nodes: usize,
    room: usize,
    k: nat,
) -> bool {
    &&& k > 0 ==> interval_start(pairs, node, l, 0) >= 0
    &&& forall|i: int|
        0 <= i < k ==> #[trigger] interval_start(pairs, node, l, i) + interval_len(pairs, l, i)
            <= num_nodes && interval_ids(pairs, node, l, (i + 1) as nat).len() <= room
}

/// The intervals start at a node id, end at or below `num_nodes`, and hold
/// at most `room` ids together.
pub open spec fn intervals_ok(
    pairs: Seq<(u64, u64)>,
    node: usize,
    l: usize,
    num_nodes: usize,
    room: usize,
) -> bool {
    intervals_ok_upto(pairs, node, l, num_nodes, room, pairs.len())
}

/// How reading the interval count and the intervals ends: with the error
/// of the first read that fails, or else with whether the intervals are in
/// order. An interval that is not ends the reading.
pub open spec fn intervals_outcome<D: Decoder>(
    a: D::Abs,
    node: usize,
    l: usize,
    num_nodes: usize,
    room: usize,
) -> Result<bool, D::Error> {
    let count = D::peek(a, Field::IntervalCount);
    let a1 = D::advance(a, Field::IntervalCount);
    let pairs = read_pairs::<D>(a1, count as nat);
    match D::failure(a, Field::IntervalCount) {
        Some(e) => Err(e),
        None => match first_pair_failure::<D>(a1, count as nat) {
            None => Ok(intervals_ok(pairs, node, l, num_nodes, room)),
            Some(x) => if intervals_ok_upto(pairs, node, l, num_nodes, room, x.0) {
                Err(x.1)
            } else {
                Ok(false)
            },
        },
    }
}

/// Residual `j`. The first lies at a signed offset from the node; each
/// later one after a gap behind the one before.
pub open spec fn residual_at(xs: Seq<u64>, node: usize, j: int) -> int
    decreases j,
{
    if j <= 0 {
        node + nat2int_spec(xs[0])
    } else {
        residual_at(xs, node, j - 1) + xs[j] + 1
    }
}

/// The residual ids that the fields `xs` encode for `node`.
pub open spec fn residual_ids(xs: Seq<u64>, node: usize) -> Seq<usize> {
    Seq::new(xs.len(), |j: int| residual_at(xs, node, j) as usize)
}

/// Each of the first `k` residuals is a node id.
pub open spec fn residuals_ok_upto(xs: Seq<u64>, node: usize, num_nodes: usize, k: nat) -> bool {
    forall|j: int| 0 <= j < k ==> 0 <= #[trigger] residual_at(xs, node, j) < num_nodes
}

/// Every residual is a node id.
pub open spec fn residuals_ok(xs: Seq<u64>, node: usize, num_nodes: usize) -> bool {
    residuals_ok_upto(xs, node, num_nodes, xs.len())
}

/// The fields of `count` residuals: the first residual, then the gaps.
pub open spec fn residual_fields<D: Decoder>(a: D::Abs, count: nat) -> Seq<u64> {
    if count == 0 {
        Seq::empty()
    } else {
        seq![D::peek(a, Field::FirstResidual)] + read_values::<D>(
            D::advance(a, Field::FirstResidual),
            Field::Residual,
            (count - 1) as nat,
        )
    }
}

/// The state after `count` residuals have been read.
pub open spec fn skip_residual_fields<D: Decoder>(a: D::Abs, count: nat) -> D::Abs {
    if count == 0 {
        a
    } else {
        skip_reads::<D>(D::advance(a, Field::FirstResidual), Field::Residual, (count - 1) as nat)
    }
}

/// How reading `count` residuals ends: with the error of the first read
/// that fails, or else with whether every residual is a node id. A residual
/// that is none ends the reading.
pub open spec fn residuals_outcome<D: Decoder>(
    a: D::Abs,
    node: usize,
    num_nodes: usize,
    count: nat,
) -> Result<bool, D::Error> {
    let xs = residual_fields::<D>(a, count);
    let a1 = D::advance(a, Field::FirstResidual);
    if count == 0 {
        Ok(true)
    } else {
        match D::failure(a, Field::FirstResidual) {
            Some(e) => Err(e),
            None => match first_failure::<D>(a1, Field::Residual, (count - 1) as nat) {
                None => Ok(residuals_ok(xs, node, num_nodes)),
                Some(x) => if residuals_ok_upto(xs, node, num_nodes, x.0 + 1) {
                    Err(x.1)
                } else {
                    Ok(false)
                },
            },
        }
    }
}

/// Appends `src[from..to]` to `out`.
pub fn append_range(src: &Vec<usize>, from: usize, to: usize, out: &mut Vec<usize>)
    requires
        from <= to <= src@.len(),
    ensures
        final(out)@ == old(out)@ + src@.subrange(from as int, to as int),
{
    let mut i: usize = from;
    while i < to
        invariant
            from <= i <= to <= src@.len(),
            out@ == old(out)@ + src@.subrange(from as int, i as int),
        decreases to - i,
    {
        out.push(src[i]);
        proof {
            assert(out@ =~= old(out)@ + src@.subrange(from as int, i + 1));
        }
        i += 1;
    }
    proof {
        assert(out@ =~= old(out)@ + src@.subrange(from as int, to as int));
    }
}

/// Appends the ids `start, ..., start + len - 1` to `out`.
pub fn append_run(start: usize, len: usize, out: &mut Vec<usize>)
    requires
        start + len <= usize::MAX,
    ensures
        final(out)@ == old(out)@ + run(start as int, len as int),
{
    let mut j: usize = 0;
    while j < len
        invariant
            j <= len,
            start + len <= usize::MAX,
            out@ == old(out)@ + run(start as int, j as int),
        decreases len - j,
    {
        out.push(start + j);
        proof {
            assert(out@ =~= old(out)@ + run(start as int, j + 1));
        }
        j += 1;
    }
    proof {
        assert(out@ =~= old(out)@ + run(start as int, len as int));
    }
}

/// Reads the block count and the blocks, and appends to `out` what they
/// select from `reference`. Where the result is not `Ok(true)`, `out` and
/// the reader are left without meaning.
pub fn copy_reference<D: Decoder>(dec: &mut D, reference: &Vec<usize>, out: &mut Vec<usize>) -> (r:
    Result<bool, D::Error>)
    ensures
        r == blocks_outcome::<D>(old(dec).abs(), reference@.len()),
        ({
            let a1 = D::advance(old(dec).abs(), Field::BlockCount);
            let count = D::peek(old(dec).abs(), Field::BlockCount);
            let blocks = read_values::<D>(a1, Field::Block, count as nat);
            r == Ok::<bool, D::Error>(true) ==> final(out)@ == old(out)@ + reference_copy(
                blocks,
                reference@,
            ) && final(dec).abs() == skip_reads::<D>(a1, Field::Block, count as nat)
        }),
{
    let count: u64 = match dec.read_block_count() {
        Ok(v) => v,
        Err(e) => {
            return Err(e);
        },
    };
    let ghost a1 = dec.abs();
    let ghost blocks = read_values::<D>(a1, Field::Block, count as nat);
    proof {
        lemma_read_values::<D>(a1, Field::Block, count as nat);
    }
    let len: usize = reference.len();
    if count == 0 {
        append_range(reference, 0, len, out);
        proof {
            assert(reference@.subrange(0, len as int) =~= reference@);
        }
        return Ok(true);
    }
    proof {
        assert(skip_reads::<D>(a1, Field::Block, 0) == a1);
        assert(first_failure::<D>(a1, Field::Block, 0) is None);
        lemma_first_failure::<D>(a1, Field::Block, 1, count as nat);
    }
    let first: u64 = match dec.read_block() {
        Ok(v) => v,
        Err(e) => {
            return Err(e);
        },
    };
    assert(first == blocks[0]);
    if first > len as u64 {
        assert(block_end(blocks, 0) > len);
        return Ok(false);
    }
    let mut idx: usize = first as usize;
    append_range(reference, 0, idx, out);
    let mut i: u64 = 1;
    proof {
        assert(copied_blocks(blocks, reference@, 0) =~= Seq::<usize>::empty());
        assert(out@ =~= old(out)@ + copied_blocks(blocks, reference@, 1));
    }
    while i < count
        invariant
            1 <= i <= count,
            D::failure(old(dec).abs(), Field::BlockCount) is None,
            count == D::peek(old(dec).abs(), Field::BlockCount),
            a1 == D::advance(old(dec).abs(), Field::BlockCount),
            blocks == read_values::<D>(a1, Field::Block, count as nat),
            first_failure::<D>(a1, Field::Block, i as nat) is None,
            len == reference@.len(),
            idx <= len,
            idx == block_end(blocks, i - 1),
            blocks.len() == count,
            forall|j: int|
                0 <= j < count ==> #[trigger] blocks[j] == D::peek(
                    skip_reads::<D>(a1, Field::Block, j as nat),
                    Field::Block,
                ),
            forall|j: int| 0 <= j < i ==> #[trigger] block_end(blocks, j) <= len,
            out@ == old(out)@ + copied_blocks(blocks, reference@, i as nat),
            dec.abs() == skip_reads::<D>(a1, Field::Block, i as nat),
        decreases count - i,
    {
        proof {
            lemma_first_failure::<D>(a1, Field::Block, (i + 1) as nat, count as nat);
        }
        let block: u64 = match dec.read_block() {
            Ok(v) => v,
            Err(e) => {
                return Err(e);
            },
        };
        assert(block == blocks[i as int]);
        if block >= (len - idx) as u64 {
            assert(block_end(blocks, i as int) > len);
            return Ok(false);
        }
        let end: usize = idx + block as usize + 1;
        assert(end == block_end(blocks, i as int));
        if i % 2 == 0 {
            append_range(reference, idx, end, out);
        }
        proof {
            assert(out@ =~= old(out)@ + copied_blocks(blocks, reference@, (i + 1) as nat));
        }
        idx = end;
        i += 1;
    }
    if count % 2 == 0 {
        append_range(reference, idx, len, out);
    }
    proof {
        assert(out@ =~= old(out)@ + reference_copy(blocks, reference@));
    }
    Ok(true)
}

/// Reads the interval count and the intervals, and appends their ids to
/// `out`. Where the result is not `Ok(true)`, `out` and the reader are left
/// without meaning.
pub fn read_intervals<D: Decoder>(
    dec: &mut D,
    node: usize,
    l: usize,
    num_nodes: usize,
    room: usize,
    out: &mut Vec<usize>,
) -> (r: Result<bool, D::Error>)
    ensures
        r == intervals_outcome::<D>(old(dec).abs(), node, l, num_nodes, room),
        ({
            let a1 = D::advance(old(dec).abs(), Field::IntervalCount);
            let count = D::peek(old(dec).abs(), Field::IntervalCount);
            let pairs = read_pairs::<D>(a1, count as nat);
            r == Ok::<bool, D::Error>(true) ==> final(out)@ == old(out)@ + interval_ids(
                pairs,
                node,
                l,
                count as nat,
            ) && final(dec).abs() == skip_pairs::<D>(a1, count as nat)
        }),
{
    let count: u64 = match dec.read_interval_count() {
        Ok(v) => v,
        Err(e) => {
            return Err(e);
        },
    };
    let ghost a1 = dec.abs();
    let ghost pairs = read_pairs::<D>(a1, count as nat);
    proof {
        lemma_read_pairs::<D>(a1, count as nat);
        assert(out@ =~= old(out)@ + interval_ids(pairs, node, l, 0));
    }
    let mut i: u64 = 0;
    let mut start: u128 = 0;
    let mut used: usize = 0;
    while i < count
        invariant
            i <= count,
            D::failure(old(dec).abs(), Field::IntervalCount) is None,
            count == D::peek(old(dec).abs(), Field::IntervalCount),
            a1 == D::advance(old(dec).abs(), Field::IntervalCount),
            pairs == read_pairs::<D>(a1, count as nat),
            first_pair_failure::<D>(a1, i as nat) is None,
            used <= room,
            used == interval_ids(pairs, node, l, i as nat).len(),
            pairs.len() == count,
            forall|j: int|
                0 <= j < count ==> #[trigger] pairs[j] == (
                    D::peek(skip_pairs::<D>(a1, j as nat), Field::IntervalStart),
                    D::peek(
                        D::advance(skip_pairs::<D>(a1, j as nat), Field::IntervalStart),
                        Field::IntervalLen,
                    ),
                ),
            out@ == old(out)@ + interval_ids(pairs, node, l, i as nat),
            i > 0 ==> start == interval_start(pairs, node, l, i - 1) + interval_len(
                pairs,
                l,
                i - 1,
            ) && start <= num_nodes && interval_start(pairs, node, l, 0) >= 0,
            forall|j: int|
                0 <= j < i ==> #[trigger] interval_start(pairs, node, l, j) + interval_len(
                    pairs,
                    l,
                    j,
                ) <= num_nodes && interval_ids(pairs, node, l, (j + 1) as nat).len() <= room,
            dec.abs() == skip_pairs::<D>(a1, i as nat),
        decreases count - i,
    {
        proof {
            lemma_first_pair_failure::<D>(a1, (i + 1) as nat, count as nat);
        }
        let s: u64 = match dec.read_interval_start() {
            Ok(v) => v,
            Err(e) => {
                return Err(e);
            },
        };
        let e: u64 = match dec.read_interval_len() {
            Ok(v) => v,
            Err(e) => {
                return Err(e);
            },
        };
        assert(pairs[i as int] == (s, e));
        let begin: u128;
        if i == 0 {
            let first: i128 = node as i128 + nat2int(s) as i128;
            if first < 0 {
                assert(interval_start(pairs, node, l, 0) < 0);
                return Ok(false);
            }
            begin = first as u128;
        } else {
            begin = start + s as u128 + 1;
        }
        assert(begin == interval_start(pairs, node, l, i as int));
        let delta: u128 = e as u128 + l as u128;
        assert(delta == interval_len(pairs, l, i as int));
        if begin + delta > num_nodes as u128 || delta > (room - used) as u128 {
            assert(interval_ids(pairs, node, l, (i + 1) as nat).len() == used + delta);
            assert(!(interval_start(pairs, node, l, i as int) + interval_len(pairs, l, i as int)
                <= num_nodes && interval_ids(pairs, node, l, (i + 1) as nat).len() <= room));
            return Ok(false);
        }
        append_run(begin as usize, delta as usize, out);
        proof {
            assert(out@ =~= old(out)@ + interval_ids(pairs, node, l, (i + 1) as nat));
        }
        used += delta as usize;
        start = begin + delta;
        i += 1;
    }
    Ok(true)
}

/// Reads `count` residuals and appends them to `out`. Where the result is
/// not `Ok(true)`, `out` and the reader are left without meaning.
pub fn read_residuals<D: Decoder>(
    dec: &mut D,
    node: usize,
    num_nodes: usize,
    count: usize,
    out: &mut Vec<usize>,
) -> (r: Result<bool, D::Error>)
    ensures
        r == residuals_outcome::<D>(old(dec).abs(), node, num_nodes, count as nat),
        ({
            let xs = residual_fields::<D>(old(dec).abs(), count as nat);
            r == Ok::<bool, D::Error>(true) ==> final(out)@ == old(out)@ + residual_ids(xs, node)
                && final(dec).abs() == skip_residual_fields::<D>(old(dec).abs(), count as nat)
        }),
{
    if count == 0 {
        proof {
            assert(out@ =~= old(out)@ + residual_ids(Seq::<u64>::empty(), node));
        }
        return Ok(true);
    }
    let ghost xs = residual_fields::<D>(dec.abs(), count as nat);
    let x0: u64 = match dec.read_first_residual() {
        Ok(v) => v,
        Err(e) => {
            return Err(e);
        },
    };
    let ghost a1 = dec.abs();
    proof {
        lemma_read_values::<D>(a1, Field::Residual, (count - 1) as nat);
        assert(xs.len() == count);
        assert(xs[0] == x0);
        assert(first_failure::<D>(a1, Field::Residual, 0) is None);
        lemma_first_failure::<D>(a1, Field::Residual, 0, (count - 1) as nat);
    }
    let first: i128 = node as i128 + nat2int(x0) as i128;
    if first < 0 || first >= num_nodes as i128 {
        assert(!(0 <= residual_at(xs, node, 0) < num_nodes));
        return Ok(false);
    }
    let mut extra: usize = first as usize;
    out.push(extra);
    let mut j: usize = 1;
    proof {
        assert(out@ =~= old(out)@ + Seq::new(1, |k: int| residual_at(xs, node, k) as usize));
    }
    while j < count
        invariant
            1 <= j <= count,
            D::failure(old(dec).abs(), Field::FirstResidual) is None,
            xs == residual_fields::<D>(old(dec).abs(), count as nat),
            a1 == D::advance(old(dec).abs(), Field::FirstResidual),
            first_failure::<D>(a1, Field::Residual, (j - 1) as nat) is None,
            xs.len() == count,
            forall|k: int|
                1 <= k < count ==> #[trigger] xs[k] == D::peek(
                    skip_reads::<D>(a1, Field::Residual, (k - 1) as nat),
                    Field::Residual,
                ),
            extra == residual_at(xs, node, j - 1),
            extra < num_nodes,
            forall|k: int| 0 <= k < j ==> 0 <= #[trigger] residual_at(xs, node, k) < num_nodes,
            out@ == old(out)@ + Seq::new(j as nat, |k: int| residual_at(xs, node, k) as usize),
            dec.abs() == skip_reads::<D>(a1, Field::Residual, (j - 1) as nat),
        decreases count - j,
    {
        proof {
            lemma_first_failure::<D>(a1, Field::Residual, j as nat, (count - 1) as nat);
        }
        let gap: u64 = match dec.read_residual() {
            Ok(v) => v,
            Err(e) => {
                return Err(e);
            },
        };
        assert(gap == xs[j as int]);
        if gap >= (num_nodes - 1 - extra) as u64 {
            assert(!(0 <= residual_at(xs, node, j as int) < num_nodes));
            return Ok(false);
        }
        extra = extra + gap as usize + 1;
        out.push(extra);
        proof {
            assert(out@ =~= old(out)@ + Seq::new(
                (j + 1) as nat,
                |k: int| residual_at(xs, node, k) as usize,
            ));
        }
        j += 1;
    }
    proof {
        assert(out@ =~= old(out)@ + residual_ids(xs, node));
    }
    Ok(true)
}

} // verus!
