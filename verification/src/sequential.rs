//! Sequential iteration over the nodes of a BV graph.

use vstd::prelude::*;
use crate::codes::{lemma_read_pairs, lemma_read_values, read_pairs, Decoder, Field};
use crate::record::{
    decode_spec, id_leq, impossible, is_valid_list, sort_successors, valid_list, Phase, ReadError,
};
use crate::successors::{
    append_range, copy_reference, interval_ids, interval_len, interval_start, read_intervals,
    read_residuals,
};
use crate::window::CircularBufferVec;

verus! {

/// A source of readers, each placed at the start of the stream.
pub trait SequentialDecoderFactory {
    type Decoder: Decoder;

    /// The state of a reader at the start of the stream.
    spec fn fresh(&self) -> <Self::Decoder as Decoder>::Abs;

    /// Builds a reader placed at the start of the stream.
    fn new_decoder(&self) -> (d: Self::Decoder)
        ensures
            d.abs() == self.fresh(),
    ;
}

/// Iteration on nodes and the labels of each.
///
/// A pull hands out the next node with a copy of its labels, an error where
/// its record cannot be decoded, and `None` behind the last node.
pub trait NodeLabelsLender {
    type Label;

    /// Why a pull fails.
    type Error;

    /// What the lender needs to hold between two pulls.
    spec fn valid(&self) -> bool;

    fn next(&mut self) -> (res: Option<Result<(usize, Vec<Self::Label>), Self::Error>>)
        requires
            old(self).valid(),
        ensures
            res is Some && res->0 is Ok ==> final(self).valid(),
    ;
}

/// A reader that can tell where in the stream it stands.
///
/// Where a reader stands depends on its state alone: `position` is the
/// offset of the next field in a state, or the error with which asking
/// for it fails.
pub trait BitPosition: Decoder {
    /// Why the offset cannot be told.
    type PositionError;

    spec fn position(a: Self::Abs) -> Result<u64, Self::PositionError>;

    /// The offset of the next field. Asking leaves the reader where it is.
    fn get_bit_pos(&mut self) -> (r: Result<u64, Self::PositionError>)
        ensures
            r == Self::position(old(self).abs()),
            final(self).abs() == old(self).abs(),
    ;
}

/// What an iterator is, to its contracts: the state of its reader, the
/// lists in its window, and the node that the next pull decodes.
pub struct IterState<A> {
    pub reader: A,
    pub window: Seq<Seq<usize>>,
    pub current: usize,
}

/// An empty window for back-references of distance up to `w`.
pub open spec fn empty_window(w: usize) -> Seq<Seq<usize>> {
    Seq::new((w + 1) as nat, |i: int| Seq::<usize>::empty())
}

/// The window in which the record of `s.current` is decoded: its own slot
/// is emptied first.
pub open spec fn cleared<A>(s: IterState<A>) -> Seq<Seq<usize>> {
    s.window.update(s.current as int % s.window.len() as int, Seq::<usize>::empty())
}

/// The successor list that a pull in state `s` hands out, or the error.
/// Meant for `s.current < num_nodes`.
pub open spec fn pull_result<D: Decoder>(
    s: IterState<D::Abs>,
    w: usize,
    l: usize,
    num_nodes: usize,
) -> Result<Seq<usize>, ReadError<D::Error>> {
    decode_spec::<D>(s.reader, s.current, w, l, num_nodes, cleared(s)).0
}

/// The state after a pull in state `s`: unchanged behind the last node,
/// the error where the record cannot be decoded.
pub open spec fn next_state<D: Decoder>(
    s: IterState<D::Abs>,
    w: usize,
    l: usize,
    num_nodes: usize,
) -> Result<IterState<D::Abs>, ReadError<D::Error>> {
    if s.current >= num_nodes {
        Ok(s)
    } else {
        let d = decode_spec::<D>(s.reader, s.current, w, l, num_nodes, cleared(s));
        match d.0 {
            Ok(ids) => Ok(
                IterState {
                    reader: d.1,
                    window: s.window.update(s.current as int % s.window.len() as int, ids),
                    current: (s.current + 1) as usize,
                },
            ),
            Err(e) => Err(e),
        }
    }
}

/// The state after `k` pulls from state `s`, or the error of the first
/// pull that fails.
pub open spec fn after_pulls<D: Decoder>(
    s: IterState<D::Abs>,
    w: usize,
    l: usize,
    num_nodes: usize,
    k: nat,
) -> Result<IterState<D::Abs>, ReadError<D::Error>>
    decreases k,
{
    if k == 0 {
        Ok(s)
    } else {
        match after_pulls::<D>(s, w, l, num_nodes, (k - 1) as nat) {
            Ok(t) => next_state::<D>(t, w, l, num_nodes),
            Err(e) => Err(e),
        }
    }
}

/// A sequential iterator over the nodes of a graph and their successors.
/// It reads the stream front to back and needs no offsets.
pub struct SeqIter<D: Decoder> {
    codes_reader: D,
    backrefs: CircularBufferVec,
    compression_window: usize,
    min_interval_length: usize,
    number_of_nodes: usize,
    current_node: usize,
}

impl<D: Decoder> SeqIter<D> {
    /// The iterator's state.
    pub closed spec fn state(&self) -> IterState<D::Abs> {
        IterState {
            reader: self.codes_reader.abs(),
            window: self.backrefs@,
            current: self.current_node,
        }
    }

    /// The largest distance of a back-reference.
    pub closed spec fn window_size(&self) -> usize {
        self.compression_window
    }

    /// The least length of an interval; zero where the stream has none.
    pub closed spec fn min_interval(&self) -> usize {
        self.min_interval_length
    }

    /// The number of nodes of the graph.
    pub closed spec fn num_nodes(&self) -> usize {
        self.number_of_nodes
    }

    /// The window has one slot more than the largest reference distance.
    pub open spec fn wf(&self) -> bool {
        self.state().window.len() == self.window_size() + 1
    }

    /// Creates an iterator at node zero from a reader at the start of the
    /// stream.
    pub fn new(
        codes_reader: D,
        compression_window: usize,
        min_interval_length: usize,
        number_of_nodes: usize,
    ) -> (r: Self)
        requires
            compression_window < usize::MAX,
        ensures
            r.wf(),
            r.window_size() == compression_window,
            r.min_interval() == min_interval_length,
            r.num_nodes() == number_of_nodes,
            r.state() == (IterState {
                reader: codes_reader.abs(),
                window: empty_window(compression_window),
                current: 0,
            }),
    {
        let backrefs = CircularBufferVec::new(compression_window + 1);
        proof {
            assert(backrefs@ =~= empty_window(compression_window));
        }
        SeqIter {
            codes_reader,
            backrefs,
            compression_window,
            min_interval_length,
            number_of_nodes,
            current_node: 0,
        }
    }

    /// The node that the next pull decodes.
    pub fn current_node(&self) -> (r: usize)
        ensures
            r == self.state().current,
    {
        self.current_node
    }

    /// Whether every node has been handed out.
    pub fn is_exhausted(&self) -> (r: bool)
        ensures
            r == (self.state().current >= self.num_nodes()),
    {
        self.current_node >= self.number_of_nodes
    }

    /// The list in the window slot of `node_id`: the successors of
    /// `node_id` while it is among the last nodes decoded.
    pub fn successors(&self, node_id: usize) -> (r: &Vec<usize>)
        requires
            self.wf(),
        ensures
            r@ == self.state().window[node_id as int % self.state().window.len() as int],
    {
        self.backrefs.get(node_id)
    }

    /// Decodes the record of `node_id` from the stream into `results`.
    ///
    /// The fields are read in the order of the format: outdegree; reference
    /// offset, block count and blocks; interval count, starts and lengths;
    /// first residual and residual gaps. The three parts are gathered in
    /// `results` and sorted.
    pub fn get_successors_iter_priv(&mut self, node_id: usize, results: &mut Vec<usize>) -> (res:
        Result<(), ReadError<D::Error>>)
        requires
            old(self).wf(),
            old(results)@.len() == 0,
        ensures
            ({
                let d = decode_spec::<D>(
                    old(self).state().reader,
                    node_id,
                    old(self).window_size(),
                    old(self).min_interval(),
                    old(self).num_nodes(),
                    old(self).state().window,
                );
                match res {
                    Ok(()) => d.0 == Ok::<Seq<usize>, ReadError<D::Error>>(final(results)@)
                        && final(self).state().reader == d.1,
                    Err(e) => d.0 == Err::<Seq<usize>, ReadError<D::Error>>(e),
                }
            }),
            res is Ok ==> final(results)@.len() == D::peek(
                old(self).state().reader,
                Field::Outdegree,
            ),
            res is Ok ==> valid_list(final(results)@, old(self).num_nodes()),
            final(self).state().window == old(self).state().window,
            final(self).state().current == old(self).state().current,
            final(self).window_size() == old(self).window_size(),
            final(self).min_interval() == old(self).min_interval(),
            final(self).num_nodes() == old(self).num_nodes(),
    {
        broadcast use vstd::seq_lib::group_to_multiset_ensures;

        let degree: u64 = match self.codes_reader.read_outdegree() {
            Ok(v) => v,
            Err(e) => {
                return Err(ReadError::Source(e));
            },
        };
        if degree == 0 {
            proof {
                assert(results@ =~= Seq::<usize>::empty());
            }
            return Ok(());
        }
        if degree > self.number_of_nodes as u64 {
            return Err(impossible(node_id, Phase::Degree));
        }
        let degree: usize = degree as usize;
        results.reserve(degree);
        if self.compression_window != 0 {
            let ref_delta: u64 = match self.codes_reader.read_reference_offset() {
                Ok(v) => v,
                Err(e) => {
                    return Err(ReadError::Source(e));
                },
            };
            if ref_delta != 0 {
                if ref_delta > self.compression_window as u64 || ref_delta > node_id as u64 {
                    return Err(impossible(node_id, Phase::Reference));
                }
                let reference_node_id: usize = node_id - ref_delta as usize;
                let neighbours = self.backrefs.get(reference_node_id);
                match copy_reference(&mut self.codes_reader, neighbours, results) {
                    Err(e) => {
                        return Err(ReadError::Source(e));
                    },
                    Ok(false) => {
                        return Err(impossible(node_id, Phase::Reference));
                    },
                    Ok(true) => {},
                }
            }
        }
        if results.len() > degree {
            return Err(impossible(node_id, Phase::Reference));
        }
        let ghost copied = results@;
        let nodes_left_to_decode: usize = degree - results.len();
        let ghost before_runs = self.codes_reader.abs();
        if nodes_left_to_decode != 0 && self.min_interval_length != 0 {
            match read_intervals(
                &mut self.codes_reader,
                node_id,
                self.min_interval_length,
                self.number_of_nodes,
                nodes_left_to_decode,
                results,
            ) {
                Err(e) => {
                    return Err(ReadError::Source(e));
                },
                Ok(false) => {
                    return Err(impossible(node_id, Phase::Intervals));
                },
                Ok(true) => {},
            }
        }
        let ghost runs = results@.subrange(copied.len() as int, results@.len() as int);
        proof {
            assert(results@ =~= copied + runs);
            if nodes_left_to_decode != 0 && self.min_interval_length != 0 {
                let count = D::peek(before_runs, Field::IntervalCount);
                let pairs = read_pairs::<D>(
                    D::advance(before_runs, Field::IntervalCount),
                    count as nat,
                );
                lemma_read_pairs::<D>(D::advance(before_runs, Field::IntervalCount), count as nat);
                if count > 0 {
                    assert(interval_start(pairs, node_id, self.min_interval_length, count - 1)
                        + interval_len(pairs, self.min_interval_length, count - 1)
                        <= self.number_of_nodes);
                }
                assert(runs =~= interval_ids(
                    pairs,
                    node_id,
                    self.min_interval_length,
                    count as nat,
                ));
            } else {
                assert(runs =~= Seq::<usize>::empty());
            }
        }
        let nodes_left_to_decode: usize = degree - results.len();
        proof {
            lemma_read_values::<D>(
                D::advance(self.codes_reader.abs(), Field::FirstResidual),
                Field::Residual,
                (nodes_left_to_decode - 1) as nat,
            );
        }
        match read_residuals(
            &mut self.codes_reader,
            node_id,
            self.number_of_nodes,
            nodes_left_to_decode,
            results,
        ) {
            Err(e) => {
                return Err(ReadError::Source(e));
            },
            Ok(false) => {
                return Err(impossible(node_id, Phase::Residuals));
            },
            Ok(true) => {},
        }
        let ghost gathered = results@;
        sort_successors(results);
        proof {
            gathered.lemma_sort_by_ensures(id_leq());
            gathered.to_multiset_ensures();
            results@.to_multiset_ensures();
            assert(results@.len() == gathered.len());
        }
        if !is_valid_list(results, self.number_of_nodes) {
            return Err(impossible(node_id, Phase::Merge));
        }
        Ok(())
    }

    /// Decodes the successors of the next node and moves on to the node
    /// behind it. The list stays readable until the next pull.
    pub fn next_successors(&mut self) -> (res: Result<&Vec<usize>, ReadError<D::Error>>)
        requires
            old(self).wf(),
            old(self).state().current < old(self).num_nodes(),
        ensures
            ({
                let s = old(self).state();
                let w = old(self).window_size();
                let l = old(self).min_interval();
                let n = old(self).num_nodes();
                match res {
                    Ok(list) => next_state::<D>(s, w, l, n) == Ok::<
                        IterState<D::Abs>,
                        ReadError<D::Error>,
                    >(final(self).state()) && pull_result::<D>(s, w, l, n) == Ok::<
                        Seq<usize>,
                        ReadError<D::Error>,
                    >(list@) && valid_list(list@, n),
                    Err(e) => pull_result::<D>(s, w, l, n) == Err::<Seq<usize>, ReadError<D::Error>>(e),
                }
            }),
            final(self).wf(),
            final(self).window_size() == old(self).window_size(),
            final(self).min_interval() == old(self).min_interval(),
            final(self).num_nodes() == old(self).num_nodes(),
    {
        let node_id: usize = self.current_node;
        let mut res: Vec<usize> = self.backrefs.take(node_id);
        match self.get_successors_iter_priv(node_id, &mut res) {
            Err(e) => Err(e),
            Ok(()) => {
                self.backrefs.push(node_id, res);
                self.current_node = node_id + 1;
                proof {
                    let slot = node_id as int % old(self).backrefs@.len() as int;
                    assert(self.backrefs@ =~= old(self).backrefs@.update(slot, res@));
                    assert(self.backrefs@[slot] == res@);
                }
                Ok(self.backrefs.get(node_id))
            },
        }
    }
}

impl<D: BitPosition> SeqIter<D> {
    /// The offset in the stream of the record of the next node, as the
    /// reader tells it.
    pub fn get_bit_pos(&mut self) -> (r: Result<u64, D::PositionError>)
        ensures
            r == D::position(old(self).state().reader),
            final(self).state() == old(self).state(),
            final(self).wf() == old(self).wf(),
            final(self).window_size() == old(self).window_size(),
            final(self).min_interval() == old(self).min_interval(),
            final(self).num_nodes() == old(self).num_nodes(),
    {
        self.codes_reader.get_bit_pos()
    }
}

impl<D: Decoder> NodeLabelsLender for SeqIter<D> {
    type Label = usize;

    type Error = ReadError<D::Error>;

    open spec fn valid(&self) -> bool {
        self.wf()
    }

    /// Pulls the next node: its id and a copy of its successors.
    fn next(&mut self) -> (res: Option<Result<(usize, Vec<usize>), ReadError<D::Error>>>)
        ensures
            ({
                let s = old(self).state();
                let w = old(self).window_size();
                let l = old(self).min_interval();
                let n = old(self).num_nodes();
                match res {
                    None => s.current >= n && final(self).state() == s,
                    Some(Ok(pair)) => s.current < n && pair.0 == s.current && next_state::<D>(
                        s,
                        w,
                        l,
                        n,
                    ) == Ok::<IterState<D::Abs>, ReadError<D::Error>>(final(self).state())
                        && final(self).state().current == s.current + 1 && pull_result::<D>(
                        s,
                        w,
                        l,
                        n,
                    ) == Ok::<Seq<usize>, ReadError<D::Error>>(pair.1@) && valid_list(pair.1@, n),
                    Some(Err(e)) => s.current < n && next_state::<D>(s, w, l, n) == Err::<
                        IterState<D::Abs>,
                        ReadError<D::Error>,
                    >(e),
                }
            }),
            res is None ==> final(self).wf(),
            final(self).window_size() == old(self).window_size(),
            final(self).min_interval() == old(self).min_interval(),
            final(self).num_nodes() == old(self).num_nodes(),
    {
        if self.current_node >= self.number_of_nodes {
            return None;
        }
        let node_id: usize = self.current_node;
        match self.next_successors() {
            Err(e) => Some(Err(e)),
            Ok(list) => {
                let mut copy: Vec<usize> = Vec::new();
                append_range(list, 0, list.len(), &mut copy);
                proof {
                    assert(copy@ =~= list@);
                }
                Some(Ok((node_id, copy)))
            },
        }
    }
}

/// Every list of the window is a successor list of the graph.
pub open spec fn window_valid(window: Seq<Seq<usize>>, num_nodes: usize) -> bool {
    forall|i: int| 0 <= i < window.len() ==> valid_list(#[trigger] window[i], num_nodes)
}

/// Every list that a pull hands out is strictly increasing and holds ids
/// of nodes of the graph only.
pub proof fn lemma_pulled_list_valid<D: Decoder>(
    s: IterState<D::Abs>,
    w: usize,
    l: usize,
    num_nodes: usize,
)
    requires
        pull_result::<D>(s, w, l, num_nodes) is Ok,
    ensures
        valid_list(pull_result::<D>(s, w, l, num_nodes)->Ok_0, num_nodes),
{
}

/// Pulls keep the number of slots of the window, and leave in it successor
/// lists of the graph only.
pub proof fn lemma_window_stays_valid<D: Decoder>(
    s: IterState<D::Abs>,
    w: usize,
    l: usize,
    num_nodes: usize,
    k: nat,
)
    requires
        s.window.len() > 0,
        window_valid(s.window, num_nodes),
        after_pulls::<D>(s, w, l, num_nodes, k) is Ok,
    ensures
        after_pulls::<D>(s, w, l, num_nodes, k)->Ok_0.window.len() == s.window.len(),
        window_valid(after_pulls::<D>(s, w, l, num_nodes, k)->Ok_0.window, num_nodes),
    decreases k,
{
    if k > 0 {
        lemma_window_stays_valid::<D>(s, w, l, num_nodes, (k - 1) as nat);
        let t = after_pulls::<D>(s, w, l, num_nodes, (k - 1) as nat)->Ok_0;
        if t.current < num_nodes {
            lemma_pulled_list_valid::<D>(t, w, l, num_nodes);
        }
    }
}

} // verus!
