//! The description of a graph that is read front to back.

use vstd::prelude::*;
use crate::codes::Decoder;
use crate::degrees::DegreesIter;
use crate::record::ReadError;
use crate::sequential::{
    after_pulls, empty_window, pull_result, IterState, NodeLabelsLender, SeqIter,
    SequentialDecoderFactory,
};

verus! {

/// A BV graph that is read sequentially: a source of readers and the
/// parameters of the format. Every iterator gets a reader of its own.
pub struct BVGraphSeq<F: SequentialDecoderFactory> {
    factory: F,
    number_of_nodes: usize,
    number_of_arcs: Option<u64>,
    compression_window: usize,
    min_interval_length: usize,
}

impl<F: SequentialDecoderFactory> BVGraphSeq<F> {
    /// The source of readers.
    pub closed spec fn factory(&self) -> F {
        self.factory
    }

    /// The number of nodes.
    pub closed spec fn nodes(&self) -> usize {
        self.number_of_nodes
    }

    /// The number of arcs, where it is known.
    pub closed spec fn arcs(&self) -> Option<u64> {
        self.number_of_arcs
    }

    /// The largest distance of a back-reference.
    pub closed spec fn window_size(&self) -> usize {
        self.compression_window
    }

    /// The least length of an interval.
    pub closed spec fn min_interval(&self) -> usize {
        self.min_interval_length
    }

    /// The state in which every iterator over this graph starts.
    pub open spec fn start(&self) -> IterState<<F::Decoder as Decoder>::Abs> {
        IterState {
            reader: self.factory().fresh(),
            window: empty_window(self.window_size()),
            current: 0,
        }
    }

    /// Creates a graph from a source of readers and the parameters of the
    /// format. The number of arcs is kept as given and never checked.
    pub fn new(
        codes_reader_builder: F,
        compression_window: usize,
        min_interval_length: usize,
        number_of_nodes: usize,
        number_of_arcs: Option<u64>,
    ) -> (r: Self)
        ensures
            r.factory() == codes_reader_builder,
            r.window_size() == compression_window,
            r.min_interval() == min_interval_length,
            r.nodes() == number_of_nodes,
            r.arcs() == number_of_arcs,
    {
        BVGraphSeq {
            factory: codes_reader_builder,
            number_of_nodes,
            number_of_arcs,
            compression_window,
            min_interval_length,
        }
    }

    /// Replaces the source of readers by what `map_func` makes of it.
    pub fn map_factory<F2: SequentialDecoderFactory, M: FnOnce(F) -> F2>(self, map_func: M) -> (r:
        BVGraphSeq<F2>)
        requires
            map_func.requires((self.factory(),)),
        ensures
            map_func.ensures((self.factory(),), r.factory()),
            r.window_size() == self.window_size(),
            r.min_interval() == self.min_interval(),
            r.nodes() == self.nodes(),
            r.arcs() == self.arcs(),
    {
        BVGraphSeq {
            factory: map_func(self.factory),
            number_of_nodes: self.number_of_nodes,
            number_of_arcs: self.number_of_arcs,
            compression_window: self.compression_window,
            min_interval_length: self.min_interval_length,
        }
    }

    /// Gives the source of readers back.
    pub fn into_inner(self) -> (r: F)
        ensures
            r == self.factory(),
    {
        self.factory
    }

    /// The number of nodes of the graph.
    pub fn num_nodes(&self) -> (r: usize)
        ensures
            r == self.nodes(),
    {
        self.number_of_nodes
    }

    /// The number of arcs, where the graph was built with one.
    pub fn num_arcs_hint(&self) -> (r: Option<u64>)
        ensures
            r == self.arcs(),
    {
        self.number_of_arcs
    }

    /// An iterator at node zero, with a fresh reader.
    pub fn iter(&self) -> (it: SeqIter<F::Decoder>)
        requires
            self.window_size() < usize::MAX,
        ensures
            it.wf(),
            it.state() == self.start(),
            it.window_size() == self.window_size(),
            it.min_interval() == self.min_interval(),
            it.num_nodes() == self.nodes(),
    {
        SeqIter::new(
            self.factory.new_decoder(),
            self.compression_window,
            self.min_interval_length,
            self.number_of_nodes,
        )
    }

    /// The lender over the nodes of the graph: an iterator at node zero.
    pub fn into_lender(&self) -> (it: SeqIter<F::Decoder>)
        requires
            self.window_size() < usize::MAX,
        ensures
            it.wf(),
            it.state() == self.start(),
            it.window_size() == self.window_size(),
            it.min_interval() == self.min_interval(),
            it.num_nodes() == self.nodes(),
    {
        self.iter()
    }

    /// An iterator over the outdegrees alone, at node zero, with a fresh
    /// reader.
    pub fn iter_degrees(&self) -> (it: DegreesIter<F::Decoder>)
        requires
            self.window_size() < usize::MAX,
        ensures
            it.wf(),
            it.reader() == self.factory().fresh(),
            it.degrees() == Seq::new((self.window_size() + 1) as nat, |i: int| 0usize),
            it.current() == 0,
            it.window_size() == self.window_size(),
            it.min_interval() == self.min_interval(),
            it.num_nodes() == self.nodes(),
    {
        DegreesIter::new(
            self.factory.new_decoder(),
            self.min_interval_length,
            self.compression_window,
            self.number_of_nodes,
        )
    }

    /// An iterator that has pulled `from` times: it stands at node `from`,
    /// or behind the last node. Fails with the error of the first of these
    /// pulls that fails.
    pub fn iter_from(&self, from: usize) -> (res: Result<
        SeqIter<F::Decoder>,
        ReadError<<F::Decoder as Decoder>::Error>,
    >)
        requires
            self.window_size() < usize::MAX,
        ensures
            ({
                let end = after_pulls::<F::Decoder>(
                    self.start(),
                    self.window_size(),
                    self.min_interval(),
                    self.nodes(),
                    from as nat,
                );
                match res {
                    Ok(it) => end == Ok::<IterState<<F::Decoder as Decoder>::Abs>, ReadError<<F::Decoder as Decoder>::Error>>(
                        it.state(),
                    ) && it.wf() && it.window_size() == self.window_size() && it.min_interval()
                        == self.min_interval() && it.num_nodes() == self.nodes(),
                    Err(e) => end == Err::<IterState<<F::Decoder as Decoder>::Abs>, ReadError<<F::Decoder as Decoder>::Error>>(
                        e,
                    ),
                }
            }),
    {
        let mut iter = self.iter();
        let mut i: usize = 0;
        while i < from
            invariant
                i <= from,
                iter.wf(),
                iter.window_size() == self.window_size(),
                iter.min_interval() == self.min_interval(),
                iter.num_nodes() == self.nodes(),
                after_pulls::<F::Decoder>(
                    self.start(),
                    self.window_size(),
                    self.min_interval(),
                    self.nodes(),
                    i as nat,
                ) == Ok::<IterState<<F::Decoder as Decoder>::Abs>, ReadError<<F::Decoder as Decoder>::Error>>(iter.state()),
            decreases from - i,
        {
            match iter.next() {
                Some(Err(e)) => {
                    proof {
                        lemma_error_stays::<F::Decoder>(
                            self.start(),
                            self.window_size(),
                            self.min_interval(),
                            self.nodes(),
                            (i + 1) as nat,
                            from as nat,
                        );
                    }
                    return Err(e);
                },
                _ => {},
            }
            i += 1;
        }
        Ok(iter)
    }
}

/// Once a pull has failed, every longer run of pulls fails with its error.
pub proof fn lemma_error_stays<D: Decoder>(
    s: IterState<D::Abs>,
    w: usize,
    l: usize,
    num_nodes: usize,
    k: nat,
    m: nat,
)
    requires
        k <= m,
        after_pulls::<D>(s, w, l, num_nodes, k) is Err,
    ensures
        after_pulls::<D>(s, w, l, num_nodes, m) == after_pulls::<D>(s, w, l, num_nodes, k),
    decreases m,
{
    if k < m {
        lemma_error_stays::<D>(s, w, l, num_nodes, k, (m - 1) as nat);
    }
}

/// Pulling `k` times and then `j` times is pulling `k + j` times: an
/// iterator started at node `k` hands out what one started at node zero
/// hands out after its first `k` pulls.
pub proof fn lemma_pulls_compose<D: Decoder>(
    s: IterState<D::Abs>,
    w: usize,
    l: usize,
    num_nodes: usize,
    k: nat,
    j: nat,
)
    requires
        after_pulls::<D>(s, w, l, num_nodes, k) is Ok,
    ensures
        after_pulls::<D>(after_pulls::<D>(s, w, l, num_nodes, k)->Ok_0, w, l, num_nodes, j)
            == after_pulls::<D>(s, w, l, num_nodes, k + j),
    decreases j,
{
    if j > 0 {
        lemma_pulls_compose::<D>(s, w, l, num_nodes, k, (j - 1) as nat);
    }
}

/// Pulls hand out the nodes in order, none twice and none left out: after
/// `k` pulls that did not fail the iterator stands `k` nodes further, or
/// behind the last node.
pub proof fn lemma_pulls_count<D: Decoder>(
    s: IterState<D::Abs>,
    w: usize,
    l: usize,
    num_nodes: usize,
    k: nat,
)
    requires
        s.current <= num_nodes,
        after_pulls::<D>(s, w, l, num_nodes, k) is Ok,
    ensures
        after_pulls::<D>(s, w, l, num_nodes, k)->Ok_0.current == if s.current + k <= num_nodes {
            s.current + k
        } else {
            num_nodes as int
        },
    decreases k,
{
    if k > 0 {
        lemma_pulls_count::<D>(s, w, l, num_nodes, (k - 1) as nat);
    }
}

/// Two iterators over one graph hand out the same: from the same state
/// with the same parameters, the same number of pulls leads to the same
/// state, and the next pull hands out the same list or the same error.
pub proof fn lemma_same_graph_same_output<F: SequentialDecoderFactory>(
    g: BVGraphSeq<F>,
    first: SeqIter<F::Decoder>,
    second: SeqIter<F::Decoder>,
    k: nat,
)
    requires
        first.state() == g.start(),
        second.state() == g.start(),
    ensures
        after_pulls::<F::Decoder>(
            first.state(),
            g.window_size(),
            g.min_interval(),
            g.nodes(),
            k,
        ) == after_pulls::<F::Decoder>(
            second.state(),
            g.window_size(),
            g.min_interval(),
            g.nodes(),
            k,
        ),
{
}

/// Two node ids less than `c` apart fall into different slots of a ring
/// of `c` slots.
pub proof fn lemma_distinct_slots(a: int, b: int, c: int)
    requires
        0 <= a < b,
        b - a < c,
    ensures
        a % c != b % c,
{
    vstd::arithmetic::div_mod::lemma_fundamental_div_mod(a, c);
    vstd::arithmetic::div_mod::lemma_fundamental_div_mod(b, c);
    let qa = a / c;
    let qb = b / c;
    if a % c == b % c {
        assert(b - a == c * (qb - qa)) by (nonlinear_arith)
            requires
                a == c * qa + (a % c),
                b == c * qb + (b % c),
                a % c == b % c,
        ;
        assert(false) by (nonlinear_arith)
            requires
                b - a == c * (qb - qa),
                0 < b - a < c,
        ;
    }
}

/// While a node is among the last `w + 1` that were pulled, the window
/// holds its successor list in its slot: after `k` pulls from node zero,
/// the slot of node `j` holds what the pull of node `j` handed out.
pub proof fn lemma_window_holds_recent<D: Decoder>(
    s: IterState<D::Abs>,
    w: usize,
    l: usize,
    num_nodes: usize,
    k: nat,
    j: nat,
)
    requires
        s.current == 0,
        s.window.len() == w + 1,
        k <= num_nodes,
        after_pulls::<D>(s, w, l, num_nodes, k) is Ok,
        j < k <= j + w + 1,
    ensures
        after_pulls::<D>(s, w, l, num_nodes, j) is Ok,
        after_pulls::<D>(s, w, l, num_nodes, k)->Ok_0.window.len() == w + 1,
        pull_result::<D>(after_pulls::<D>(s, w, l, num_nodes, j)->Ok_0, w, l, num_nodes) == Ok::<
            Seq<usize>,
            ReadError<D::Error>,
        >(after_pulls::<D>(s, w, l, num_nodes, k)->Ok_0.window[j as int % (w + 1)]),
    decreases k,
{
    let before = after_pulls::<D>(s, w, l, num_nodes, (k - 1) as nat);
    let t = before->Ok_0;
    lemma_pulls_count::<D>(s, w, l, num_nodes, (k - 1) as nat);
    lemma_window_len::<D>(s, w, l, num_nodes, (k - 1) as nat);
    lemma_window_len::<D>(s, w, l, num_nodes, k);
    assert(t.current == k - 1);
    assert(0 <= (k - 1) % (w + 1) < w + 1);
    assert(0 <= (j as int) % (w + 1) < w + 1);
    if j < k - 1 {
        lemma_window_holds_recent::<D>(s, w, l, num_nodes, (k - 1) as nat, j);
        lemma_distinct_slots(j as int, k - 1, w + 1);
    }
}

/// Pulls keep the number of slots of the window.
pub proof fn lemma_window_len<D: Decoder>(
    s: IterState<D::Abs>,
    w: usize,
    l: usize,
    num_nodes: usize,
    k: nat,
)
    requires
        s.window.len() > 0,
        after_pulls::<D>(s, w, l, num_nodes, k) is Ok,
    ensures
        after_pulls::<D>(s, w, l, num_nodes, k)->Ok_0.window.len() == s.window.len(),
    decreases k,
{
    if k > 0 {
        lemma_window_len::<D>(s, w, l, num_nodes, (k - 1) as nat);
        let t = after_pulls::<D>(s, w, l, num_nodes, (k - 1) as nat)->Ok_0;
        assert(0 <= (t.current as int) % (t.window.len() as int) < t.window.len());
    }
}

} // verus!
