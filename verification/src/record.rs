//! What one node record decodes to.

use vstd::prelude::*;
use vstd::relations::{sorted_by, total_ordering};
use vstd::seq_lib::lemma_sorted_unique;
use crate::codes::{
    lemma_read_pairs, lemma_read_values, read_pairs, read_values, skip_pairs, skip_reads, Decoder,
    Field,
};
use crate::successors::{
    blocks_outcome, interval_ids, interval_len, interval_start, intervals_outcome,
    reference_copy, residual_fields, residual_ids, residuals_outcome, skip_residual_fields,
};

verus! {

/// The part of a node record in which decoding failed.
#[derive(Clone, Copy, Debug, PartialEq, Eq, Structural)]
pub enum Phase {
    /// The outdegree is larger than the number of nodes.
    Degree,
    /// The reference lies outside the window or before node zero, a block
    /// ends behind the reference list, or more ids were copied than the
    /// outdegree allows.
    Reference,
    /// An interval leaves the range of node ids, or the intervals hold more
    /// ids than the outdegree leaves room for.
    Intervals,
    /// A residual leaves the range of node ids.
    Residuals,
    /// The three parts together hold an id twice, or an id that is no node.
    Merge,
}

/// A record that the format does not allow.
#[derive(Clone, Copy, Debug, PartialEq, Eq, Structural)]
pub struct DecodeError {
    /// The node whose record it is.
    pub node: usize,
    /// Where in the record the impossible value stands.
    pub phase: Phase,
}

/// Why a record could not be decoded.
#[derive(Debug, PartialEq, Eq)]
pub enum ReadError<E> {
    /// A read failed: the error is that of the reader, as it gave it.
    Source(E),
    /// The fields were read, and hold what the format does not allow.
    Record(DecodeError),
}

/// The error of an impossible record of `node` in `phase`.
pub fn impossible<E>(node: usize, phase: Phase) -> (r: ReadError<E>)
    ensures
        r == ReadError::<E>::Record(DecodeError { node, phase }),
{
    ReadError::Record(DecodeError { node, phase })
}

/// What a part of a record holds: its ids, `None` where the part is
/// impossible, or the error of a read that failed.
pub type Part<E> = Result<Option<Seq<usize>>, E>;

/// The ids of a part that was decoded.
pub open spec fn part_ids<E>(p: Part<E>) -> Seq<usize> {
    match p {
        Ok(Some(s)) => s,
        _ => Seq::empty(),
    }
}

/// The part was decoded.
pub open spec fn part_done<E>(p: Part<E>) -> bool {
    p is Ok && p->Ok_0 is Some
}

/// The order of node ids.
pub open spec fn id_leq() -> spec_fn(usize, usize) -> bool {
    |a: usize, b: usize| a <= b
}

/// `s` is strictly increasing.
pub open spec fn strictly_increasing(s: Seq<usize>) -> bool {
    forall|i: int, j: int| 0 <= i < j < s.len() ==> s[i] < s[j]
}

/// `s` is a successor list of a graph of `num_nodes` nodes: strictly
/// increasing, and every id below `num_nodes`.
pub open spec fn valid_list(s: Seq<usize>, num_nodes: usize) -> bool {
    &&& strictly_increasing(s)
    &&& forall|i: int| 0 <= i < s.len() ==> s[i] < num_nodes
}

/// The reference part of the record of `node` and the reader state behind
/// it. `slots` is the window.
pub open spec fn reference_phase<D: Decoder>(
    a: D::Abs,
    node: usize,
    w: usize,
    slots: Seq<Seq<usize>>,
) -> (Part<D::Error>, D::Abs) {
    let r = D::peek(a, Field::ReferenceOffset);
    let a1 = D::advance(a, Field::ReferenceOffset);
    let s = slots[(node - r) % (slots.len() as int)];
    let count = D::peek(a1, Field::BlockCount);
    let a2 = D::advance(a1, Field::BlockCount);
    let blocks = read_values::<D>(a2, Field::Block, count as nat);
    if w == 0 {
        (Ok(Some(Seq::empty())), a)
    } else if D::failure(a, Field::ReferenceOffset) is Some {
        (Err(D::failure(a, Field::ReferenceOffset)->0), a)
    } else if r == 0 {
        (Ok(Some(Seq::empty())), a1)
    } else if r > w || r > node {
        (Ok(None), a1)
    } else {
        match blocks_outcome::<D>(a1, s.len()) {
            Err(e) => (Err(e), a1),
            Ok(false) => (Ok(None), a1),
            Ok(true) => (
                Ok(Some(reference_copy(blocks, s))),
                skip_reads::<D>(a2, Field::Block, count as nat),
            ),
        }
    }
}

/// The interval part, for a record with `room` ids still to come.
pub open spec fn interval_phase<D: Decoder>(
    a: D::Abs,
    node: usize,
    l: usize,
    num_nodes: usize,
    room: usize,
) -> (Part<D::Error>, D::Abs) {
    let count = D::peek(a, Field::IntervalCount);
    let a1 = D::advance(a, Field::IntervalCount);
    let pairs = read_pairs::<D>(a1, count as nat);
    if room == 0 || l == 0 {
        (Ok(Some(Seq::empty())), a)
    } else {
        match intervals_outcome::<D>(a, node, l, num_nodes, room) {
            Err(e) => (Err(e), a),
            Ok(false) => (Ok(None), a),
            Ok(true) => (
                Ok(Some(interval_ids(pairs, node, l, count as nat))),
                skip_pairs::<D>(a1, count as nat),
            ),
        }
    }
}

/// The residual part, for a record with `room` ids still to come.
pub open spec fn residual_phase<D: Decoder>(a: D::Abs, node: usize, num_nodes: usize, room: usize) -> (
    Part<D::Error>,
    D::Abs,
) {
    let xs = residual_fields::<D>(a, room as nat);
    match residuals_outcome::<D>(a, node, num_nodes, room as nat) {
        Err(e) => (Err(e), a),
        Ok(false) => (Ok(None), a),
        Ok(true) => (Ok(Some(residual_ids(xs, node))), skip_residual_fields::<D>(a, room as nat)),
    }
}

/// The error of a part that was not decoded: that of the read that failed,
/// or an impossible record of `node` in `phase`.
pub open spec fn part_error<E>(p: Part<E>, node: usize, phase: Phase) -> ReadError<E> {
    match p {
        Err(e) => ReadError::Source(e),
        _ => ReadError::Record(DecodeError { node, phase }),
    }
}

/// The successor list that the record of `node` decodes to, or the error,
/// and the reader state behind the record. After an error the state is
/// without meaning.
pub open spec fn decode_spec<D: Decoder>(
    a: D::Abs,
    node: usize,
    w: usize,
    l: usize,
    num_nodes: usize,
    slots: Seq<Seq<usize>>,
) -> (Result<Seq<usize>, ReadError<D::Error>>, D::Abs) {
    let d = D::peek(a, Field::Outdegree);
    let a1 = D::advance(a, Field::Outdegree);
    let copied = reference_phase::<D>(a1, node, w, slots);
    let room = (d - part_ids(copied.0).len()) as usize;
    let runs = interval_phase::<D>(copied.1, node, l, num_nodes, room);
    let rest = (room - part_ids(runs.0).len()) as usize;
    let extra = residual_phase::<D>(runs.1, node, num_nodes, rest);
    let ids = (part_ids(copied.0) + part_ids(runs.0) + part_ids(extra.0)).sort_by(id_leq());
    if D::failure(a, Field::Outdegree) is Some {
        (Err(ReadError::Source(D::failure(a, Field::Outdegree)->0)), a1)
    } else if d == 0 {
        (Ok(Seq::empty()), a1)
    } else if d > num_nodes {
        (Err(ReadError::Record(DecodeError { node, phase: Phase::Degree })), a1)
    } else if !part_done(copied.0) {
        (Err(part_error(copied.0, node, Phase::Reference)), a1)
    } else if part_ids(copied.0).len() > d {
        (Err(ReadError::Record(DecodeError { node, phase: Phase::Reference })), a1)
    } else if !part_done(runs.0) {
        (Err(part_error(runs.0, node, Phase::Intervals)), a1)
    } else if !part_done(extra.0) {
        (Err(part_error(extra.0, node, Phase::Residuals)), a1)
    } else if !valid_list(ids, num_nodes) {
        (Err(ReadError::Record(DecodeError { node, phase: Phase::Merge })), a1)
    } else {
        (Ok(ids), extra.1)
    }
}

/// Sorts `v` with `slice::sort` of the standard library. Its contract is
/// taken from the documentation of that function and is not proved here:
/// afterwards `v` holds the same ids, each as often as before, in
/// ascending order.
#[verifier::external_body]
fn sort_ids(v: &mut Vec<usize>)
    ensures
        final(v)@.to_multiset() == old(v)@.to_multiset(),
        forall|i: int, j: int| 0 <= i < j < final(v)@.len() ==> final(v)@[i] <= final(v)@[j],
{
    v.sort();
}

/// Sorts the ids gathered from the three parts of a record.
pub fn sort_successors(v: &mut Vec<usize>)
    ensures
        final(v)@ == old(v)@.sort_by(id_leq()),
        forall|i: int, j: int| 0 <= i < j < final(v)@.len() ==> final(v)@[i] <= final(v)@[j],
{
    sort_ids(v);
    proof {
        let leq = id_leq();
        assert(total_ordering(leq));
        old(v)@.lemma_sort_by_ensures(leq);
        assert(sorted_by(v@, leq));
        lemma_sorted_unique(v@, old(v)@.sort_by(leq), leq);
    }
}

/// Tells whether `v` is a successor list of a graph of `num_nodes` nodes.
pub fn is_valid_list(v: &Vec<usize>, num_nodes: usize) -> (r: bool)
    ensures
        r == valid_list(v@, num_nodes),
{
    let n: usize = v.len();
    let mut i: usize = 0;
    while i < n
        invariant
            i <= n,
            n == v@.len(),
            forall|a: int, b: int| 0 <= a < b < i ==> v@[a] < v@[b],
            forall|a: int| 0 <= a < i ==> v@[a] < num_nodes,
        decreases n - i,
    {
        if v[i] >= num_nodes {
            return false;
        }
        if i > 0 && v[i - 1] >= v[i] {
            return false;
        }
        i += 1;
    }
    true
}

/// A record that decodes and names a reference names a node inside the
/// window: its distance is at least one and at most `w`, and does not
/// reach before node zero.
pub proof fn lemma_reference_in_window<D: Decoder>(
    a: D::Abs,
    node: usize,
    w: usize,
    l: usize,
    num_nodes: usize,
    slots: Seq<Seq<usize>>,
)
    requires
        decode_spec::<D>(a, node, w, l, num_nodes, slots).0 is Ok,
        D::peek(a, Field::Outdegree) != 0,
        w != 0,
        D::peek(D::advance(a, Field::Outdegree), Field::ReferenceOffset) != 0,
    ensures
        1 <= D::peek(D::advance(a, Field::Outdegree), Field::ReferenceOffset) <= w,
        D::peek(D::advance(a, Field::Outdegree), Field::ReferenceOffset) <= node,
{
}

/// In a record that decodes, the ids copied from the reference, those of
/// the intervals and the residuals number as many as the outdegree, and so
/// does the list.
pub proof fn lemma_parts_fill_degree<D: Decoder>(
    a: D::Abs,
    node: usize,
    w: usize,
    l: usize,
    num_nodes: usize,
    slots: Seq<Seq<usize>>,
)
    requires
        decode_spec::<D>(a, node, w, l, num_nodes, slots).0 is Ok,
        D::peek(a, Field::Outdegree) != 0,
    ensures
        ({
            let d = D::peek(a, Field::Outdegree);
            let copied = reference_phase::<D>(D::advance(a, Field::Outdegree), node, w, slots);
            let room = (d - part_ids(copied.0).len()) as usize;
            let runs = interval_phase::<D>(copied.1, node, l, num_nodes, room);
            let rest = (room - part_ids(runs.0).len()) as usize;
            let extra = residual_phase::<D>(runs.1, node, num_nodes, rest);
            &&& part_done(copied.0) && part_done(runs.0) && part_done(extra.0)
            &&& part_ids(copied.0).len() + part_ids(runs.0).len() + part_ids(extra.0).len() == d
            &&& decode_spec::<D>(a, node, w, l, num_nodes, slots).0->Ok_0.len() == d
        }),
{
    let d = D::peek(a, Field::Outdegree);
    let copied = reference_phase::<D>(D::advance(a, Field::Outdegree), node, w, slots);
    let room = (d - part_ids(copied.0).len()) as usize;
    let runs = interval_phase::<D>(copied.1, node, l, num_nodes, room);
    if room != 0 && l != 0 {
        let count = D::peek(copied.1, Field::IntervalCount);
        let a1 = D::advance(copied.1, Field::IntervalCount);
        let pairs = read_pairs::<D>(a1, count as nat);
        lemma_read_pairs::<D>(a1, count as nat);
        if count > 0 {
            assert(interval_start(pairs, node, l, count - 1) + interval_len(pairs, l, count - 1)
                <= num_nodes);
        }
    }
    let rest = (room - part_ids(runs.0).len()) as usize;
    let extra = residual_phase::<D>(runs.1, node, num_nodes, rest);
    if rest != 0 {
        lemma_read_values::<D>(
            D::advance(runs.1, Field::FirstResidual),
            Field::Residual,
            (rest - 1) as nat,
        );
    }
    let gathered = part_ids(copied.0) + part_ids(runs.0) + part_ids(extra.0);
    gathered.lemma_sort_by_ensures(id_leq());
    gathered.to_multiset_ensures();
    gathered.sort_by(id_leq()).to_multiset_ensures();
}

} // verus!
