//! The field reader that the successor decoder drives.

use vstd::prelude::*;

verus! {

/// The kinds of field that a node record is made of, in stream order.
#[derive(Clone, Copy, Debug, PartialEq, Eq)]
pub enum Field {
    Outdegree,
    ReferenceOffset,
    BlockCount,
    Block,
    IntervalCount,
    IntervalStart,
    IntervalLen,
    FirstResidual,
    Residual,
}

/// The signed value that a natural number stands for on the wire:
/// `0, 1, 2, 3, 4, ...` stand for `0, -1, 1, -2, 2, ...`.
pub open spec fn nat2int_spec(x: u64) -> int {
    if x % 2 == 0 {
        (x / 2) as int
    } else {
        -((x / 2) as int) - 1
    }
}

/// Maps a natural number read from the stream to the signed offset it encodes.
pub fn nat2int(x: u64) -> (r: i64)
    ensures
        r == nat2int_spec(x),
{
    let half: u64 = x / 2;
    if x % 2 == 0 {
        half as i64
    } else {
        -(half as i64) - 1
    }
}

/// A reader of the fields of BV node records.
///
/// A reader is deterministic: what a read returns, and the state it leaves,
/// depend only on the state before the read and on the kind of field asked
/// for. `abs` is that state. `failure` is the error with which the next
/// read of a field fails, if it fails; where it does not, `peek` is the
/// value it returns and `advance` the state after it. After a failed read
/// the state is without meaning.
pub trait Decoder {
    type Abs;

    /// What a read fails with: an error of the source of the stream.
    type Error;

    spec fn abs(&self) -> Self::Abs;

    spec fn peek(a: Self::Abs, f: Field) -> u64;

    spec fn failure(a: Self::Abs, f: Field) -> Option<Self::Error>;

    spec fn advance(a: Self::Abs, f: Field) -> Self::Abs;

    /// Reads the outdegree of the current node.
    fn read_outdegree(&mut self) -> (r: Result<u64, Self::Error>)
        ensures
            match r {
                Ok(v) => Self::failure(old(self).abs(), Field::Outdegree) is None && v == Self::peek(
                    old(self).abs(),
                    Field::Outdegree,
                ) && final(self).abs() == Self::advance(old(self).abs(), Field::Outdegree),
                Err(e) => Self::failure(old(self).abs(), Field::Outdegree) == Some(e),
            },
    ;

    /// Reads the distance to the referenced node; zero means no reference.
    fn read_reference_offset(&mut self) -> (r: Result<u64, Self::Error>)
        ensures
            match r {
                Ok(v) => Self::failure(old(self).abs(), Field::ReferenceOffset) is None && v == Self::peek(
                    old(self).abs(),
                    Field::ReferenceOffset,
                ) && final(self).abs() == Self::advance(old(self).abs(), Field::ReferenceOffset),
                Err(e) => Self::failure(old(self).abs(), Field::ReferenceOffset) == Some(e),
            },
    ;

    /// Reads the number of copy blocks.
    fn read_block_count(&mut self) -> (r: Result<u64, Self::Error>)
        ensures
            match r {
                Ok(v) => Self::failure(old(self).abs(), Field::BlockCount) is None && v == Self::peek(
                    old(self).abs(),
                    Field::BlockCount,
                ) && final(self).abs() == Self::advance(old(self).abs(), Field::BlockCount),
                Err(e) => Self::failure(old(self).abs(), Field::BlockCount) == Some(e),
            },
    ;

    /// Reads the length of one copy block.
    fn read_block(&mut self) -> (r: Result<u64, Self::Error>)
        ensures
            match r {
                Ok(v) => Self::failure(old(self).abs(), Field::Block) is None && v == Self::peek(
                    old(self).abs(),
                    Field::Block,
                ) && final(self).abs() == Self::advance(old(self).abs(), Field::Block),
                Err(e) => Self::failure(old(self).abs(), Field::Block) == Some(e),
            },
    ;

    /// Reads the number of intervals.
    fn read_interval_count(&mut self) -> (r: Result<u64, Self::Error>)
        ensures
            match r {
                Ok(v) => Self::failure(old(self).abs(), Field::IntervalCount) is None && v == Self::peek(
                    old(self).abs(),
                    Field::IntervalCount,
                ) && final(self).abs() == Self::advance(old(self).abs(), Field::IntervalCount),
                Err(e) => Self::failure(old(self).abs(), Field::IntervalCount) == Some(e),
            },
    ;

    /// Reads the start of an interval, as an offset or a gap.
    fn read_interval_start(&mut self) -> (r: Result<u64, Self::Error>)
        ensures
            match r {
                Ok(v) => Self::failure(old(self).abs(), Field::IntervalStart) is None && v == Self::peek(
                    old(self).abs(),
                    Field::IntervalStart,
                ) && final(self).abs() == Self::advance(old(self).abs(), Field::IntervalStart),
                Err(e) => Self::failure(old(self).abs(), Field::IntervalStart) == Some(e),
            },
    ;

    /// Reads by how much an interval is longer than the minimum length.
    fn read_interval_len(&mut self) -> (r: Result<u64, Self::Error>)
        ensures
            match r {
                Ok(v) => Self::failure(old(self).abs(), Field::IntervalLen) is None && v == Self::peek(
                    old(self).abs(),
                    Field::IntervalLen,
                ) && final(self).abs() == Self::advance(old(self).abs(), Field::IntervalLen),
                Err(e) => Self::failure(old(self).abs(), Field::IntervalLen) == Some(e),
            },
    ;

    /// Reads the first residual, as an offset from the current node.
    fn read_first_residual(&mut self) -> (r: Result<u64, Self::Error>)
        ensures
            match r {
                Ok(v) => Self::failure(old(self).abs(), Field::FirstResidual) is None && v == Self::peek(
                    old(self).abs(),
                    Field::FirstResidual,
                ) && final(self).abs() == Self::advance(old(self).abs(), Field::FirstResidual),
                Err(e) => Self::failure(old(self).abs(), Field::FirstResidual) == Some(e),
            },
    ;

    /// Reads the gap between two residuals.
    fn read_residual(&mut self) -> (r: Result<u64, Self::Error>)
        ensures
            match r {
                Ok(v) => Self::failure(old(self).abs(), Field::Residual) is None && v == Self::peek(
                    old(self).abs(),
                    Field::Residual,
                ) && final(self).abs() == Self::advance(old(self).abs(), Field::Residual),
                Err(e) => Self::failure(old(self).abs(), Field::Residual) == Some(e),
            },
    ;
}

/// The state after `k` successive reads of field `f`.
pub open spec fn skip_reads<D: Decoder>(a: D::Abs, f: Field, k: nat) -> D::Abs
    decreases k,
{
    if k == 0 {
        a
    } else {
        D::advance(skip_reads::<D>(a, f, (k - 1) as nat), f)
    }
}

/// The values of `k` successive reads of field `f`.
pub open spec fn read_values<D: Decoder>(a: D::Abs, f: Field, k: nat) -> Seq<u64>
    decreases k,
{
    if k == 0 {
        Seq::empty()
    } else {
        read_values::<D>(a, f, (k - 1) as nat).push(
            D::peek(skip_reads::<D>(a, f, (k - 1) as nat), f),
        )
    }
}

/// Among `k` successive reads of field `f`, the first that fails: its
/// index and its error.
pub open spec fn first_failure<D: Decoder>(a: D::Abs, f: Field, k: nat) -> Option<(nat, D::Error)>
    decreases k,
{
    if k == 0 {
        None
    } else {
        let before = first_failure::<D>(a, f, (k - 1) as nat);
        if before is Some {
            before
        } else {
            match D::failure(skip_reads::<D>(a, f, (k - 1) as nat), f) {
                Some(e) => Some(((k - 1) as nat, e)),
                None => None,
            }
        }
    }
}

/// The error with which reading one interval fails, at its start or at
/// its length.
pub open spec fn pair_failure<D: Decoder>(a: D::Abs) -> Option<D::Error> {
    match D::failure(a, Field::IntervalStart) {
        Some(e) => Some(e),
        None => D::failure(D::advance(a, Field::IntervalStart), Field::IntervalLen),
    }
}

/// Among the next `k` intervals, the first that cannot be read: its index
/// and the error.
pub open spec fn first_pair_failure<D: Decoder>(a: D::Abs, k: nat) -> Option<(nat, D::Error)>
    decreases k,
{
    if k == 0 {
        None
    } else {
        let before = first_pair_failure::<D>(a, (k - 1) as nat);
        if before is Some {
            before
        } else {
            match pair_failure::<D>(skip_pairs::<D>(a, (k - 1) as nat)) {
                Some(e) => Some(((k - 1) as nat, e)),
                None => None,
            }
        }
    }
}

/// A first failure among `k` reads is the first among more reads too, and
/// where `k` reads do not fail, a later failure has an index of `k` or more.
pub proof fn lemma_first_failure<D: Decoder>(a: D::Abs, f: Field, k: nat, m: nat)
    requires
        k <= m,
    ensures
        first_failure::<D>(a, f, k) is Some ==> first_failure::<D>(a, f, m) == first_failure::<D>(
            a,
            f,
            k,
        ),
        first_failure::<D>(a, f, k) is None && first_failure::<D>(a, f, m) is Some
            ==> (first_failure::<D>(a, f, m)->0).0 >= k,
    decreases m,
{
    if k < m {
        lemma_first_failure::<D>(a, f, k, (m - 1) as nat);
    }
}

/// The same of intervals.
pub proof fn lemma_first_pair_failure<D: Decoder>(a: D::Abs, k: nat, m: nat)
    requires
        k <= m,
    ensures
        first_pair_failure::<D>(a, k) is Some ==> first_pair_failure::<D>(a, m)
            == first_pair_failure::<D>(a, k),
        first_pair_failure::<D>(a, k) is None && first_pair_failure::<D>(a, m) is Some
            ==> (first_pair_failure::<D>(a, m)->0).0 >= k,
    decreases m,
{
    if k < m {
        lemma_first_pair_failure::<D>(a, k, (m - 1) as nat);
    }
}

/// The state after `k` intervals, each a start and a length, have been read.
pub open spec fn skip_pairs<D: Decoder>(a: D::Abs, k: nat) -> D::Abs
    decreases k,
{
    if k == 0 {
        a
    } else {
        D::advance(
            D::advance(skip_pairs::<D>(a, (k - 1) as nat), Field::IntervalStart),
            Field::IntervalLen,
        )
    }
}

/// The start and length fields of the next `k` intervals.
pub open spec fn read_pairs<D: Decoder>(a: D::Abs, k: nat) -> Seq<(u64, u64)>
    decreases k,
{
    if k == 0 {
        Seq::empty()
    } else {
        let s = skip_pairs::<D>(a, (k - 1) as nat);
        read_pairs::<D>(a, (k - 1) as nat).push(
            (
                D::peek(s, Field::IntervalStart),
                D::peek(D::advance(s, Field::IntervalStart), Field::IntervalLen),
            ),
        )
    }
}

/// `read_values` has one entry per read, and a longer run of reads begins
/// with the values of a shorter one.
pub proof fn lemma_read_values<D: Decoder>(a: D::Abs, f: Field, k: nat)
    ensures
        read_values::<D>(a, f, k).len() == k,
        forall|j: int|
            0 <= j < k ==> #[trigger] read_values::<D>(a, f, k)[j] == D::peek(
                skip_reads::<D>(a, f, j as nat),
                f,
            ),
    decreases k,
{
    if k > 0 {
        lemma_read_values::<D>(a, f, (k - 1) as nat);
    }
}

/// `read_pairs` has one entry per interval, and a longer run begins with the
/// entries of a shorter one.
pub proof fn lemma_read_pairs<D: Decoder>(a: D::Abs, k: nat)
    ensures
        read_pairs::<D>(a, k).len() == k,
        forall|j: int|
            0 <= j < k ==> #[trigger] read_pairs::<D>(a, k)[j] == (
                D::peek(skip_pairs::<D>(a, j as nat), Field::IntervalStart),
                D::peek(
                    D::advance(skip_pairs::<D>(a, j as nat), Field::IntervalStart),
                    Field::IntervalLen,
                ),
            ),
    decreases k,
{
    if k > 0 {
        lemma_read_pairs::<D>(a, (k - 1) as nat);
    }
}

} // verus!
