use vstd::prelude::*;
use std::collections::BTreeMap;

verus! {

broadcast use vstd::std_specs::btree::group_btree_axioms;

/// The coordinate list of a sparse matrix under assembly, one slot per distinct
/// (row, column) position, in order of first insertion. Contributions to a position
/// that already has a slot go to that slot, so that duplicate entries add up
/// instead of overwriting each other.
pub struct SparsePattern {
    rows: Vec<usize>,
    cols: Vec<usize>,
    slots: BTreeMap<(usize, usize), usize>,
}

impl View for SparsePattern {
    type V = Seq<(usize, usize)>;

    /// The positions, slot by slot.
    closed spec fn view(&self) -> Seq<(usize, usize)> {
        Seq::new(self.rows@.len(), |k: int| (self.rows@[k], self.cols@[k]))
    }
}

impl SparsePattern {
    /// The index finds each position's slot, and each slot's position is in the index.
    pub closed spec fn wf(&self) -> bool {
        &&& self.rows@.len() == self.cols@.len()
        &&& forall|k: int|
            0 <= k < self.rows@.len() ==> #[trigger] self.slots@.contains_key(
                (self.rows@[k], self.cols@[k]),
            ) && self.slots@[(self.rows@[k], self.cols@[k])] == k
        &&& forall|p: (usize, usize)| #[trigger]
            self.slots@.contains_key(p) ==> self.slots@[p] < self.rows@.len() && self.rows@[
                self.slots@[p] as int] == p.0 && self.cols@[self.slots@[p] as int] == p.1
    }

    /// No position has two slots.
    proof fn lemma_distinct(&self)
        requires
            self.wf(),
        ensures
            self@.no_duplicates(),
    {
        assert forall|a: int, b: int|
            0 <= a < self@.len() && 0 <= b < self@.len() && a != b implies self@[a] != self@[b] by {
            assert(self.slots@.contains_key((self.rows@[a], self.cols@[a])));
            assert(self.slots@.contains_key((self.rows@[b], self.cols@[b])));
        }
    }

    /// An empty pattern.
    pub fn new() -> (r: SparsePattern)
        ensures
            r.wf(),
            r@ == Seq::<(usize, usize)>::empty(),
            r@.no_duplicates(),
    {
        let r = SparsePattern { rows: Vec::new(), cols: Vec::new(), slots: BTreeMap::new() };
        assert(r@ =~= Seq::<(usize, usize)>::empty());
        r
    }

    /// The slot of position (`row`, `col`), and whether it was made by this call: the
    /// slot it already had, or a new one at the end.
    pub fn slot(&mut self, row: usize, col: usize) -> (r: (usize, bool))
        requires
            old(self).wf(),
        ensures
            final(self).wf(),
            old(self)@.contains((row, col)) ==> !r.1 && r.0 < old(self)@.len() && final(self)@
                == old(self)@ && old(self)@[r.0 as int] == (row, col),
            !old(self)@.contains((row, col)) ==> r.1 && r.0 == old(self)@.len() && final(self)@
                == old(self)@.push((row, col)),
            final(self)@.no_duplicates(),
    {
        let ghost before = self@;
        match self.slots.get(&(row, col)) {
            Some(k) => {
                let k = *k;
                assert(before[k as int] == (row, col));
                proof {
                    self.lemma_distinct();
                }
                (k, false)
            },
            None => {
                assert(!before.contains((row, col))) by {
                    if before.contains((row, col)) {
                        let j = choose|j: int| 0 <= j < before.len() && before[j] == (row, col);
                        assert(self.slots@.contains_key((self.rows@[j], self.cols@[j])));
                    }
                };
                let k = self.rows.len();
                self.slots.insert((row, col), k);
                self.rows.push(row);
                self.cols.push(col);
                assert(self@ =~= before.push((row, col)));
                proof {
                    self.lemma_distinct();
                }
                (k, true)
            },
        }
    }

    /// The number of slots.
    pub fn len(&self) -> (r: usize)
        requires
            self.wf(),
        ensures
            r == self@.len(),
    {
        self.rows.len()
    }

    /// The row of each slot.
    pub fn rows(&self) -> (r: &Vec<usize>)
        requires
            self.wf(),
        ensures
            r@.len() == self@.len(),
            forall|k: int| 0 <= k < r@.len() ==> r@[k] == #[trigger] self@[k].0,
    {
        &self.rows
    }

    /// The column of each slot.
    pub fn cols(&self) -> (r: &Vec<usize>)
        requires
            self.wf(),
        ensures
            r@.len() == self@.len(),
            forall|k: int| 0 <= k < r@.len() ==> r@[k] == #[trigger] self@[k].1,
    {
        &self.cols
    }
}

} // verus!
