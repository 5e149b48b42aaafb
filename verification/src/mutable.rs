//! The posting list that grows while the index is built.

use crate::sorted::{
    binary_search, count_below, inserted, lemma_count_below_at, lemma_rank_splits,
    lemma_search_decides_membership, lemma_strict_is_nondecreasing, removed, strictly_increasing,
};
use vstd::layout::{layout_for_type_is_valid, size_of};
use vstd::prelude::*;

verus! {

/// Identifier of a document within a segment.
pub type PointOffsetType = u32;

/// A set of document ids, kept as a strictly increasing vector.
#[derive(Debug)]
pub struct PostingList {
    list: Vec<PointOffsetType>,
}

impl View for PostingList {
    type V = Seq<u32>;

    closed spec fn view(&self) -> Seq<u32> {
        self.list@
    }
}

/// Calls `Vec::capacity`. The number depends on the allocator. Claimed of
/// std: a vector has room for at least the elements it holds, and never
/// for more than `isize::MAX` bytes.
#[verifier::external_body]
fn vec_capacity(list: &Vec<PointOffsetType>) -> (capacity: usize)
    ensures
        capacity >= list@.len(),
        capacity * size_of::<PointOffsetType>() <= isize::MAX,
{
    list.capacity()
}

impl Clone for PostingList {
    /// A list of the same ids.
    fn clone(&self) -> (r: Self)
        ensures
            r@ == self@,
    {
        proof {
            use_type_invariant(self);
        }
        let list = self.list.clone();
        assert(list@ =~= self.list@);
        PostingList { list }
    }
}

impl Default for PostingList {
    /// The empty list.
    fn default() -> (r: Self)
        ensures
            r@ == Seq::<u32>::empty(),
    {
        PostingList { list: Vec::new() }
    }
}

impl PostingList {
    /// The ids are in strictly increasing order, so none occurs twice.
    #[verifier::type_invariant]
    pub open spec fn wf(&self) -> bool {
        strictly_increasing(self@)
    }

    /// A list that holds `idx` alone.
    pub fn new(idx: PointOffsetType) -> (r: Self)
        ensures
            r@ == seq![idx],
            strictly_increasing(r@),
    {
        let list: Vec<PointOffsetType> = vec![idx];
        assert(list@ =~= seq![idx]);
        PostingList { list }
    }

    /// Gives up the list for its vector.
    pub(crate) fn into_vec(self) -> (list: Vec<PointOffsetType>)
        ensures
            list@ == self@,
            strictly_increasing(list@),
    {
        proof {
            use_type_invariant(&self);
        }
        self.list
    }

    /// Bytes that the list occupies: four for each id that its vector has
    /// room for, and the vector's own three words.
    pub fn size(&self) -> (bytes: usize)
        ensures
            bytes >= self@.len() * size_of::<PointOffsetType>() + size_of::<Vec<PointOffsetType>>(),
            (bytes - size_of::<Vec<PointOffsetType>>()) % (size_of::<PointOffsetType>() as int) == 0,
    {
        Self::size_with_capacity(vec_capacity(&self.list))
    }

    /// Bytes that a list occupies whose vector has room for `capacity` ids.
    pub fn size_with_capacity(capacity: usize) -> (bytes: usize)
        requires
            capacity * size_of::<PointOffsetType>() <= isize::MAX,
        ensures
            bytes == capacity * size_of::<PointOffsetType>() + size_of::<Vec<PointOffsetType>>(),
    {
        layout_for_type_is_valid::<Vec<PointOffsetType>>();
        capacity * std::mem::size_of::<PointOffsetType>() + std::mem::size_of::<
            Vec<PointOffsetType>,
        >()
    }

    /// Number of ids in the list.
    pub fn len(&self) -> (n: usize)
        ensures
            n == self@.len(),
    {
        self.list.len()
    }

    /// Whether `val` is in the list.
    pub fn contains(&self, val: &PointOffsetType) -> (found: bool)
        ensures
            found == self@.contains(*val),
    {
        proof {
            use_type_invariant(self);
            lemma_strict_is_nondecreasing(self.list@);
        }
        match binary_search(self.list.as_slice(), *val) {
            Ok(_) => true,
            Err(at) => {
                proof {
                    lemma_search_decides_membership(self.list@, *val, at as int);
                }
                false
            },
        }
    }

    /// Adds `idx` at its place in the order, unless it is there already.
    pub fn insert(&mut self, idx: PointOffsetType)
        ensures
            final(self)@ == inserted(old(self)@, idx),
            strictly_increasing(final(self)@),
            forall|v: u32| final(self)@.contains(v) <==> old(self)@.contains(v) || v == idx,
    {
        proof {
            use_type_invariant(&*self);
            lemma_strict_is_nondecreasing(self.list@);
            lemma_inserted_keeps_order(self.list@, idx);
        }
        if let Err(insertion_idx) = binary_search(self.list.as_slice(), idx) {
            proof {
                lemma_search_decides_membership(self.list@, idx, insertion_idx as int);
                lemma_count_below_at(self.list@, idx, insertion_idx as int);
            }
            // Yes, this is O(n) but:
            // 1. That would give us maximal search performance with minimal memory usage
            // 2. Documents are inserted mostly sequentially, especially in large segments
            // 3. Vector indexing is more expensive anyway
            let mut list: Vec<PointOffsetType> = Vec::new();
            std::mem::swap(&mut list, &mut self.list);
            list.insert(insertion_idx, idx);
            self.list = list;
        }
    }

    /// Takes `idx` out of the list, if it is there.
    pub fn remove(&mut self, idx: PointOffsetType)
        ensures
            final(self)@ == removed(old(self)@, idx),
            strictly_increasing(final(self)@),
            forall|v: u32| final(self)@.contains(v) <==> old(self)@.contains(v) && v != idx,
    {
        proof {
            use_type_invariant(&*self);
            lemma_strict_is_nondecreasing(self.list@);
            lemma_removed_keeps_order(self.list@, idx);
        }
        match binary_search(self.list.as_slice(), idx) {
            Ok(removal_idx) => {
                proof {
                    lemma_count_below_at(self.list@, idx, removal_idx as int);
                }
                let mut list: Vec<PointOffsetType> = Vec::new();
                std::mem::swap(&mut list, &mut self.list);
                let _removed: PointOffsetType = list.remove(removal_idx);
                self.list = list;
            },
            Err(insertion_idx) => {
                proof {
                    lemma_search_decides_membership(self.list@, idx, insertion_idx as int);
                }
            },
        }
    }

    /// The ids in ascending order.
    pub fn iter(&self) -> (ids: Vec<PointOffsetType>)
        ensures
            ids@ == self@,
    {
        let mut ids: Vec<PointOffsetType> = Vec::with_capacity(self.list.len());
        let mut i: usize = 0;
        while i < self.list.len()
            invariant
                i <= self.list@.len(),
                ids@ == self.list@.take(i as int),
            decreases self.list@.len() - i,
        {
            ids.push(self.list[i]);
            i += 1;
            assert(ids@ =~= self.list@.take(i as int));
        }
        assert(self.list@.take(i as int) =~= self.list@);
        ids
    }
}

/// One change of a posting list.
pub enum Edit {
    /// `insert` of an id.
    Insert(PointOffsetType),
    /// `remove` of an id.
    Remove(PointOffsetType),
}

/// The ids of a list that was empty and then went through `edits` in order.
pub open spec fn edited(edits: Seq<Edit>) -> Seq<u32>
    decreases edits.len(),
{
    if edits.len() == 0 {
        Seq::empty()
    } else {
        let before = edited(edits.drop_last());
        match edits.last() {
            Edit::Insert(idx) => inserted(before, idx),
            Edit::Remove(idx) => removed(before, idx),
        }
    }
}

/// Putting an id in keeps the order strict.
pub proof fn lemma_inserted_keeps_order(s: Seq<u32>, idx: u32)
    requires
        strictly_increasing(s),
    ensures
        strictly_increasing(inserted(s, idx)),
        forall|v: u32| inserted(s, idx).contains(v) <==> s.contains(v) || v == idx,
{
    lemma_rank_splits(s, idx);
    if !s.contains(idx) {
        let at = count_below(s, idx) as int;
        let after = s.insert(at, idx);
        assert(after[at] == idx);
        assert forall|v: u32| after.contains(v) <==> s.contains(v) || v == idx by {
            if s.contains(v) {
                let k = choose|k: int| 0 <= k < s.len() && s[k] == v;
                if k < at {
                    assert(after[k] == v);
                } else {
                    assert(after[k + 1] == v);
                }
            }
            if after.contains(v) && v != idx {
                let k = choose|k: int| 0 <= k < after.len() && after[k] == v;
                if k < at {
                    assert(s[k] == v);
                } else {
                    assert(s[k - 1] == v);
                }
            }
        }
    }
}

/// Taking an id out keeps the order strict.
pub proof fn lemma_removed_keeps_order(s: Seq<u32>, idx: u32)
    requires
        strictly_increasing(s),
    ensures
        strictly_increasing(removed(s, idx)),
        forall|v: u32| removed(s, idx).contains(v) <==> s.contains(v) && v != idx,
{
    lemma_rank_splits(s, idx);
    if s.contains(idx) {
        let at = count_below(s, idx) as int;
        let k0 = choose|k: int| 0 <= k < s.len() && s[k] == idx;
        assert(k0 == at) by {
            if k0 < at {
                assert(s[k0] < idx);
            } else if at < k0 {
                assert(s[at] >= idx);
                assert(s[at] < s[k0]);
            }
        }
        let after = s.remove(at);
        assert forall|v: u32| after.contains(v) <==> s.contains(v) && v != idx by {
            if s.contains(v) && v != idx {
                let k = choose|k: int| 0 <= k < s.len() && s[k] == v;
                if k < at {
                    assert(after[k] == v);
                } else {
                    assert(after[k - 1] == v);
                }
            }
            if after.contains(v) {
                let k = choose|k: int| 0 <= k < after.len() && after[k] == v;
                if k < at {
                    assert(s[k] == v);
                } else {
                    assert(s[k + 1] == v);
                }
            }
        }
    }
}

/// Whatever inserts and removes an empty list goes through, its ids stay
/// in strictly increasing order, so that none occurs twice.
pub proof fn lemma_edits_keep_order(edits: Seq<Edit>)
    ensures
        strictly_increasing(edited(edits)),
        edited(edits).no_duplicates(),
    decreases edits.len(),
{
    if edits.len() > 0 {
        lemma_edits_keep_order(edits.drop_last());
        let before = edited(edits.drop_last());
        match edits.last() {
            Edit::Insert(idx) => lemma_inserted_keeps_order(before, idx),
            Edit::Remove(idx) => lemma_removed_keeps_order(before, idx),
        }
    }
    let ids = edited(edits);
    assert forall|i: int, j: int| 0 <= i < ids.len() && 0 <= j < ids.len() && i != j implies ids[i]
        != ids[j] by {
        if i < j {
            assert(ids[i] < ids[j]);
        } else {
            assert(ids[j] < ids[i]);
        }
    }
}

} // verus!
