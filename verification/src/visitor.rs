//! A cursor over a compressed posting list for probes that come in
//! strictly ascending order, as they do when several lists are intersected.
//! It keeps the block it decoded last and answers from it while it can.

use crate::codec::{new_bitpacker, BLOCK_LEN};
use crate::compressed::{lemma_compress_keeps_ids, CompressedPostingList};
use crate::layout::{decoded_chunk, is_candidate};
use crate::mutable::{PointOffsetType, PostingList};
use crate::sorted::{binary_search, lemma_search_decides_membership, strictly_increasing};
use bitpacking::BitPacker4x;
use vstd::prelude::*;

verus! {

/// The chunk that alone can hold `val`, where `val` is in the range of the list.
pub open spec fn candidate_of(postings: &CompressedPostingList, val: u32) -> int {
    choose|k: int| is_candidate(postings.directory(), k, val)
}

/// Whether a probe for `val` is answered from the cached block: one is
/// cached and `val` is not above its last id.
pub open spec fn stays_in_block(
    postings: &CompressedPostingList,
    cached: Option<usize>,
    val: u32,
) -> bool {
    match cached {
        Some(i) => val <= decoded_chunk(postings.directory(), postings.arena(), i as int)[BLOCK_LEN
            - 1],
        None => false,
    }
}

/// The answer that a cursor with chunk `cached` in its buffer gives to a
/// probe for `val`.
pub open spec fn probe_answer(
    postings: &CompressedPostingList,
    cached: Option<usize>,
    val: u32,
) -> bool {
    let dir = postings.directory();
    let arena = postings.arena();
    if !postings.in_range(val) {
        false
    } else if stays_in_block(postings, cached, val) {
        decoded_chunk(dir, arena, cached.unwrap() as int).contains(val)
    } else {
        let k = candidate_of(postings, val);
        dir[k].initial == val || decoded_chunk(dir, arena, k).contains(val)
    }
}

/// The chunk that the cursor has in its buffer after a probe for `val`: the
/// candidate chunk if it had to be decoded, else the one it had before.
pub open spec fn probe_next(
    postings: &CompressedPostingList,
    cached: Option<usize>,
    val: u32,
) -> Option<usize> {
    let dir = postings.directory();
    if !postings.in_range(val) || stays_in_block(postings, cached, val) {
        cached
    } else {
        let k = candidate_of(postings, val);
        if dir[k].initial == val {
            cached
        } else {
            Some(k as usize)
        }
    }
}

/// A cursor that has chunk `cached` in its buffer after a last probe for
/// `last` can go on: the cached chunk exists and begins at or below `last`.
pub open spec fn cursor_valid(
    postings: &CompressedPostingList,
    cached: Option<usize>,
    last: Option<u32>,
) -> bool {
    match cached {
        Some(i) => {
            &&& i < postings.directory().len()
            &&& last matches Some(prev) && postings.directory()[i as int].initial <= prev
        },
        None => true,
    }
}

/// The answers of a cursor that starts with `cached` in its buffer to the
/// probes of `probes`, in their order.
pub open spec fn probe_all(
    postings: &CompressedPostingList,
    cached: Option<usize>,
    probes: Seq<u32>,
) -> Seq<bool>
    decreases probes.len(),
{
    if probes.len() == 0 {
        Seq::empty()
    } else {
        seq![probe_answer(postings, cached, probes[0])] + probe_all(
            postings,
            probe_next(postings, cached, probes[0]),
            probes.drop_first(),
        )
    }
}

/// The cursor: the list it reads, the block it decoded last and the
/// number of that block's chunk.
pub struct CompressedPostingVisitor<'a> {
    bitpacker: BitPacker4x,
    postings: &'a CompressedPostingList,
    decompressed_chunk: [PointOffsetType; 128],
    decompressed_chunk_idx: Option<usize>,
    last_checked: Ghost<Option<PointOffsetType>>,
}

impl<'a> CompressedPostingVisitor<'a> {
    /// The list that the cursor reads.
    pub closed spec fn postings(&self) -> &CompressedPostingList {
        self.postings
    }

    /// The chunk whose block is in the buffer, if any.
    pub closed spec fn cached(&self) -> Option<usize> {
        self.decompressed_chunk_idx
    }

    /// The id of the last probe, if there was one.
    pub closed spec fn last_checked(&self) -> Option<u32> {
        self.last_checked@
    }

    /// The buffer holds the block of the cached chunk, and the cursor can go on.
    #[verifier::type_invariant]
    closed spec fn wf(&self) -> bool {
        &&& cursor_valid(self.postings, self.decompressed_chunk_idx, self.last_checked@)
        &&& self.decompressed_chunk_idx matches Some(i) ==> self.decompressed_chunk@
            == decoded_chunk(self.postings.directory(), self.postings.arena(), i as int)
    }

    /// A fresh cursor over `postings`: nothing decoded, nothing probed.
    pub fn new(postings: &'a CompressedPostingList) -> (visitor: CompressedPostingVisitor<'a>)
        ensures
            visitor.postings() == postings,
            visitor.cached() is None,
            visitor.last_checked() is None,
    {
        CompressedPostingVisitor {
            bitpacker: new_bitpacker(),
            postings,
            decompressed_chunk: [0u32; 128],
            decompressed_chunk_idx: None,
            last_checked: Ghost(None),
        }
    }

    /// The chunk whose block is in the buffer, if any.
    pub fn decompressed_chunk_idx(&self) -> (idx: Option<usize>)
        ensures
            idx == self.cached(),
    {
        self.decompressed_chunk_idx
    }

    /// Whether `val` is in the list. Probes come in strictly ascending
    /// order: `val` is above the id of the probe before.
    pub fn contains(&mut self, val: &PointOffsetType) -> (found: bool)
        requires
            old(self).last_checked() matches Some(prev) ==> prev < *val,
        ensures
            found == final(self).postings()@.contains(*val),
            found == probe_answer(old(self).postings(), old(self).cached(), *val),
            final(self).cached() == probe_next(old(self).postings(), old(self).cached(), *val),
            final(self).last_checked() == Some(*val),
            final(self).postings() == old(self).postings(),
    {
        proof {
            use_type_invariant(&*self);
            use_type_invariant(self.postings);
            lemma_probe(self.postings, self.decompressed_chunk_idx, self.last_checked@, *val);
        }
        let ghost before = self.decompressed_chunk_idx;
        self.last_checked = Ghost(Some(*val));

        if !self.postings.is_in_postings_range(*val) {
            return false;
        }
        // check if current decompressed chunks range contains the value

        if let Some(cached_idx) = self.decompressed_chunk_idx {
            // check for max value in the chunk only because we already checked for min value while decompression
            let last_decompressed: PointOffsetType = self.decompressed_chunk[BLOCK_LEN - 1];
            if *val <= last_decompressed {
                proof {
                    self.postings.lemma_chunk_sorted(cached_idx as int);
                }
                if *val == last_decompressed {
                    // value is equal to the last decompressed value
                    assert(self.decompressed_chunk@[BLOCK_LEN - 1] == *val);
                    return true;
                }
                // value is less than the last decompressed value
                return match binary_search(self.decompressed_chunk.as_slice(), *val) {
                    Ok(_) => true,
                    Err(at) => {
                        proof {
                            lemma_search_decides_membership(
                                self.decompressed_chunk@,
                                *val,
                                at as int,
                            );
                        }
                        false
                    },
                };
            }
        }
        // decompressed chunk is not in the range, so we need to decompress another chunk
        // first, check if there is a chunk that contains the value

        proof {
            lemma_candidate_exists(self.postings, *val, 0);
        }
        let chunk_index: usize = match self.postings.find_chunk(val, self.decompressed_chunk_idx) {
            Some(idx) => idx,
            None => {
                proof {
                    match before {
                        Some(i) => {
                            self.postings.lemma_padded_index(i as int, BLOCK_LEN - 1);
                            self.postings.lemma_chunk_sorted(i as int);
                        },
                        None => {},
                    }
                }
                return false;
            },
        };
        proof {
            lemma_candidate_unique(self.postings, chunk_index as int, *val);
        }
        // if the value is the initial value of the chunk, we don't need to decompress the chunk
        if self.postings.chunks()[chunk_index].initial == *val {
            return true;
        }
        // second, decompress the chunk and check if the value is in the decompressed chunk

        let mut decompressed: [PointOffsetType; 128] = [0u32; 128];
        self.postings.decompress_chunk(&self.bitpacker, chunk_index, &mut decompressed);
        self.decompressed_chunk_idx = None;
        self.decompressed_chunk = decompressed;
        self.decompressed_chunk_idx = Some(chunk_index);

        // check if the value is in the decompressed chunk
        proof {
            self.postings.lemma_chunk_sorted(chunk_index as int);
        }
        match binary_search(self.decompressed_chunk.as_slice(), *val) {
            Ok(_) => true,
            Err(at) => {
                proof {
                    lemma_search_decides_membership(self.decompressed_chunk@, *val, at as int);
                }
                false
            },
        }
    }
}

/// Only one chunk is the candidate for an id.
pub proof fn lemma_candidate_unique(postings: &CompressedPostingList, k: int, val: u32)
    requires
        postings.wf(),
        is_candidate(postings.directory(), k, val),
    ensures
        candidate_of(postings, val) == k,
{
    postings.lemma_initials_increase();
    let c = candidate_of(postings, val);
    assert(is_candidate(postings.directory(), c, val));
    if c < k {
        assert(c + 1 <= k);
        if c + 1 < k {
            assert(postings.directory()[c + 1].initial < postings.directory()[k].initial);
        }
    } else if k < c {
        if k + 1 < c {
            assert(postings.directory()[k + 1].initial < postings.directory()[c].initial);
        }
    }
}

/// Within the range of the list some chunk is the candidate.
pub proof fn lemma_candidate_exists(postings: &CompressedPostingList, val: u32, upto: int)
    requires
        postings.wf(),
        postings.in_range(val),
        0 <= upto < postings.directory().len(),
        postings.directory()[upto].initial <= val,
    ensures
        is_candidate(postings.directory(), candidate_of(postings, val), val),
        upto <= candidate_of(postings, val),
    decreases postings.directory().len() - upto,
{
    let dir = postings.directory();
    if upto + 1 < dir.len() && dir[upto + 1].initial <= val {
        lemma_candidate_exists(postings, val, upto + 1);
    } else {
        assert(is_candidate(dir, upto, val));
        lemma_candidate_unique(postings, upto, val);
    }
}

/// A cached chunk that begins at or below `val` and ends at or above it is
/// the candidate for `val`.
pub proof fn lemma_cached_is_candidate(postings: &CompressedPostingList, i: int, val: u32)
    requires
        postings.wf(),
        0 <= i < postings.directory().len(),
        postings.directory()[i].initial <= val,
        val <= decoded_chunk(postings.directory(), postings.arena(), i)[BLOCK_LEN - 1],
    ensures
        is_candidate(postings.directory(), i, val),
        postings.in_range(val),
{
    let dir = postings.directory();
    let n = postings.spec_len() as int;
    postings.lemma_padded_len();
    postings.lemma_padded_index(i, BLOCK_LEN - 1);
    postings.lemma_initials_increase();
    let end = 128 * i + 127;
    if i + 1 < dir.len() {
        postings.lemma_padded_index(i + 1, 0);
        assert(postings@[end] == postings.padded()[end]);
        assert(postings@[end + 1] == postings.padded()[end + 1]);
    }
    if end < n {
        assert(postings@[end] == postings.padded()[end]);
        assert(postings@[end] <= postings@[n - 1]);
        assert(postings@[n - 1] == postings.padded()[n - 1]);
    }
}

/// One probe: a cursor in a valid state that is probed for an id above its
/// last probe answers whether the id is in the list, and is left in a valid state.
pub proof fn lemma_probe(
    postings: &CompressedPostingList,
    cached: Option<usize>,
    last: Option<u32>,
    val: u32,
)
    requires
        postings.wf(),
        cursor_valid(postings, cached, last),
        last matches Some(prev) ==> prev < val,
    ensures
        probe_answer(postings, cached, val) == postings@.contains(val),
        cursor_valid(postings, probe_next(postings, cached, val), Some(val)),
{
    let dir = postings.directory();
    if !postings.in_range(val) {
        postings.lemma_outside_range(val);
    } else if stays_in_block(postings, cached, val) {
        let i = cached.unwrap() as int;
        lemma_cached_is_candidate(postings, i, val);
        postings.lemma_candidate_decides(i, val);
    } else {
        lemma_candidate_exists(postings, val, 0);
        let k = candidate_of(postings, val);
        postings.lemma_candidate_decides(k, val);
    }
}

/// A fresh cursor that is probed with ids in strictly ascending order
/// answers for each whether it is in the list.
pub proof fn lemma_probes_agree(postings: &CompressedPostingList, probes: Seq<u32>)
    requires
        postings.wf(),
        strictly_increasing(probes),
    ensures
        probe_all(postings, None, probes).len() == probes.len(),
        forall|i: int|
            0 <= i < probes.len() ==> probe_all(postings, None, probes)[i] == postings@.contains(
                #[trigger] probes[i],
            ),
{
    lemma_probes_agree_from(postings, None, None, probes);
}

/// A fresh cursor over the compression of a posting list, probed with ids
/// in strictly ascending order, answers for each whether the posting list
/// holds it.
pub proof fn lemma_probes_agree_with_list(
    list: PostingList,
    compressed: &CompressedPostingList,
    probes: Seq<u32>,
)
    requires
        list.wf(),
        compressed.wf(),
        compressed.is_compression_of(list@),
        strictly_increasing(probes),
    ensures
        probe_all(compressed, None, probes).len() == probes.len(),
        forall|i: int|
            0 <= i < probes.len() ==> probe_all(compressed, None, probes)[i] == list@.contains(
                #[trigger] probes[i],
            ),
{
    lemma_probes_agree(compressed, probes);
    lemma_compress_keeps_ids(list, *compressed);
}

proof fn lemma_probes_agree_from(
    postings: &CompressedPostingList,
    cached: Option<usize>,
    last: Option<u32>,
    probes: Seq<u32>,
)
    requires
        postings.wf(),
        cursor_valid(postings, cached, last),
        strictly_increasing(probes),
        last matches Some(prev) ==> probes.len() > 0 ==> prev < probes[0],
    ensures
        probe_all(postings, cached, probes).len() == probes.len(),
        forall|i: int|
            0 <= i < probes.len() ==> probe_all(postings, cached, probes)[i]
                == postings@.contains(#[trigger] probes[i]),
    decreases probes.len(),
{
    if probes.len() > 0 {
        let rest = probes.drop_first();
        lemma_probe(postings, cached, last, probes[0]);
        assert forall|i: int, j: int| 0 <= i < j < rest.len() implies rest[i] < rest[j] by {
            assert(rest[i] == probes[i + 1] && rest[j] == probes[j + 1]);
        }
        if rest.len() > 0 {
            assert(rest[0] == probes[1]);
        }
        let next = probe_next(postings, cached, probes[0]);
        lemma_probes_agree_from(postings, next, Some(probes[0]), rest);
        let all = probe_all(postings, cached, probes);
        assert forall|i: int| 0 <= i < probes.len() implies all[i] == postings@.contains(
            #[trigger] probes[i],
        ) by {
            if i > 0 {
                assert(all[i] == probe_all(postings, next, rest)[i - 1]);
                assert(rest[i - 1] == probes[i]);
            }
        }
    }
}

} // verus!
