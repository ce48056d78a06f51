//! The window of recent successor lists that reference copies read from.

use vstd::prelude::*;

verus! {

/// A ring of successor lists, one slot per residue of the node id.
///
/// With `w + 1` slots the lists of the last `w` nodes stay readable while
/// the list of the current node is being built.
pub struct CircularBufferVec {
    data: Vec<Vec<usize>>,
}

impl CircularBufferVec {
    /// The lists held, by slot.
    pub closed spec fn view(&self) -> Seq<Seq<usize>> {
        Seq::new(self.data@.len(), |i: int| self.data@[i]@)
    }

    /// Creates a ring of `len` empty lists.
    pub fn new(len: usize) -> (r: Self)
        ensures
            r@.len() == len,
            forall|i: int| 0 <= i < len ==> #[trigger] r@[i] == Seq::<usize>::empty(),
    {
        let mut data: Vec<Vec<usize>> = Vec::new();
        let mut i: usize = 0;
        while i < len
            invariant
                i <= len,
                data@.len() == i,
                forall|j: int| 0 <= j < i ==> #[trigger] data@[j]@ == Seq::<usize>::empty(),
            decreases len - i,
        {
            data.push(Vec::new());
            i += 1;
        }
        CircularBufferVec { data }
    }

    /// The number of slots.
    pub fn len(&self) -> (r: usize)
        ensures
            r == self@.len(),
    {
        self.data.len()
    }

    /// Detaches the storage of the slot of `node_id` and hands it back
    /// emptied, so that the list of `node_id` can be built in it.
    pub fn take(&mut self, node_id: usize) -> (r: Vec<usize>)
        requires
            old(self)@.len() > 0,
        ensures
            r@ == Seq::<usize>::empty(),
            final(self)@ == old(self)@.update(
                node_id as int % old(self)@.len() as int,
                Seq::<usize>::empty(),
            ),
    {
        let idx: usize = node_id % self.data.len();
        let mut res: Vec<usize> = Vec::new();
        std::mem::swap(&mut self.data[idx], &mut res);
        res.clear();
        proof {
            assert(self@ =~= old(self)@.update(idx as int, Seq::<usize>::empty()));
        }
        res
    }

    /// Installs `data` as the list of `node_id`.
    pub fn push(&mut self, node_id: usize, data: Vec<usize>)
        requires
            old(self)@.len() > 0,
        ensures
            final(self)@ == old(self)@.update(node_id as int % old(self)@.len() as int, data@),
    {
        let idx: usize = node_id % self.data.len();
        self.data[idx] = data;
        proof {
            assert(self@ =~= old(self)@.update(idx as int, data@));
        }
    }

    /// The list in the slot of `node_id`.
    pub fn get(&self, node_id: usize) -> (r: &Vec<usize>)
        requires
            self@.len() > 0,
        ensures
            r@ == self@[node_id as int % self@.len() as int],
    {
        let idx: usize = node_id % self.data.len();
        &self.data[idx]
    }
}

} // verus!
