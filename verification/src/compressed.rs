//! The read-only posting list: blocks of 128 ids, bit-packed one after the
//! other into a byte arena, and a directory that gives each block's first id
//! and the place of its bytes.

use crate::codec::{decompress_sorted, new_bitpacker, BLOCK_LEN};
use crate::layout::{
    chunk_end, chunk_size, decoded, decoded_chunk, initials_increase, is_candidate, layout_fits,
    lemma_layout_offsets, well_formed, CompressedPostingChunk,
};
use crate::mutable::{PointOffsetType, PostingList};
use crate::packing::{
    arena_of, block_count, chunk_directory, directory_of, lemma_compression_well_formed,
    lemma_pad_len, lemma_pad_step, lemma_padded_list, pack_chunks, packs_back, pad_len,
    padded_list,
};
use crate::sorted::{binary_search, lemma_search_decides_membership, nondecreasing};
use bitpacking::BitPacker4x;
use vstd::layout::size_of;
use vstd::prelude::*;
use vstd::slice::slice_subrange;

verus! {

/// A posting list in its packed form.
#[derive(Debug)]
pub struct CompressedPostingList {
    len: usize,
    last_doc_id: PointOffsetType,
    data: Vec<u8>,
    chunks: Vec<CompressedPostingChunk>,
}

impl Clone for CompressedPostingList {
    /// A list of the same parts.
    fn clone(&self) -> (r: Self)
        ensures
            r@ == self@,
            r.spec_len() == self.spec_len(),
            r.directory() == self.directory(),
            r.arena() == self.arena(),
            r.spec_last_doc_id() == self.spec_last_doc_id(),
    {
        proof {
            use_type_invariant(self);
        }
        let data = self.data.clone();
        let chunks = self.chunks.clone();
        assert(data@ =~= self.data@);
        assert(chunks@ =~= self.chunks@);
        CompressedPostingList { len: self.len, last_doc_id: self.last_doc_id, data, chunks }
    }
}

impl Default for CompressedPostingList {
    /// The empty list: no chunk and no byte.
    fn default() -> (r: Self)
        ensures
            r@ == Seq::<u32>::empty(),
            r.spec_len() == 0,
            r.directory() == Seq::<CompressedPostingChunk>::empty(),
            r.arena() == Seq::<u8>::empty(),
            r.spec_last_doc_id() == 0,
    {
        let data: Vec<u8> = Vec::new();
        let chunks: Vec<CompressedPostingChunk> = Vec::new();
        proof {
            reveal(decoded);
            assert(decoded(chunks@, data@) =~= Seq::<u32>::empty());
            assert(decoded(chunks@, data@).take(0) =~= Seq::<u32>::empty());
            assert(well_formed(0, 0, chunks@, data@));
        }
        CompressedPostingList { len: 0, last_doc_id: 0, data, chunks }
    }
}

impl View for CompressedPostingList {
    type V = Seq<u32>;

    /// The ids of the list in ascending order.
    open spec fn view(&self) -> Seq<u32> {
        self.padded().take(self.spec_len() as int)
    }
}

impl CompressedPostingList {
    /// Number of ids, without the padding.
    pub closed spec fn spec_len(&self) -> nat {
        self.len as nat
    }

    /// The stored largest id, and 0 in the empty list.
    pub closed spec fn spec_last_doc_id(&self) -> u32 {
        self.last_doc_id
    }

    /// The directory.
    pub closed spec fn directory(&self) -> Seq<CompressedPostingChunk> {
        self.chunks@
    }

    /// The byte arena.
    pub closed spec fn arena(&self) -> Seq<u8> {
        self.data@
    }

    /// What the arena decodes to: the ids, and after them copies of the last
    /// id up to the end of the last block.
    pub open spec fn padded(&self) -> Seq<u32> {
        decoded(self.directory(), self.arena())
    }

    /// What holds of every list.
    #[verifier::type_invariant]
    pub open spec fn wf(&self) -> bool {
        well_formed(self.spec_len(), self.spec_last_doc_id(), self.directory(), self.arena())
    }

    /// `self` is what compressing the ids `ids` gives: it has their number
    /// and their last id, its directory and arena are those of the padded
    /// ids, and the codec reads every block back out of its bytes.
    pub open spec fn is_compression_of(&self, ids: Seq<u32>) -> bool {
        let padded = padded_list(ids);
        &&& self.spec_len() == ids.len()
        &&& self.spec_last_doc_id() == if ids.len() > 0 {
            ids.last()
        } else {
            0
        }
        &&& self.directory() == directory_of(padded)
        &&& self.arena() == arena_of(padded, block_count(padded))
        &&& forall|k: int| 0 <= k < block_count(padded) ==> packs_back(padded, k)
    }

    /// Compresses a posting list: pads it with copies of its last id to
    /// whole blocks, sizes every block, and packs each into its place.
    pub fn new(posting_list: PostingList) -> (r: Self)
        ensures
            r@ == posting_list@,
            r.is_compression_of(posting_list@),
    {
        let ghost ids = posting_list@;
        let mut list: Vec<PointOffsetType> = posting_list.into_vec();
        if list.is_empty() {
            proof {
                lemma_pad_len(0);
                assert(padded_list(ids) =~= Seq::<u32>::empty());
                assert(directory_of(padded_list(ids)) =~= Seq::<CompressedPostingChunk>::empty());
            }
            return Self::default();
        }
        let len: usize = list.len();
        let last_doc_id: PointOffsetType = list[len - 1];

        let bitpacker = new_bitpacker();

        while list.len() % BLOCK_LEN != 0
            invariant
                0 < len == ids.len() <= list@.len(),
                last_doc_id == ids.last(),
                list@ == ids + Seq::new((list@.len() - len) as nat, |i: int| last_doc_id),
                list@.len() - len + pad_len(list@.len()) == pad_len(len as nat),
            decreases pad_len(list@.len()),
        {
            proof {
                lemma_pad_step(list@.len());
            }
            list.push(last_doc_id);
            assert(list@ =~= ids + Seq::new((list@.len() - len) as nat, |i: int| last_doc_id));
        }
        proof {
            assert(pad_len(list@.len()) == 0);
            assert(list@ =~= padded_list(ids));
            lemma_padded_list(ids);
        }

        // fill chunks data
        let (chunks, data_size) = chunk_directory(&bitpacker, list.as_slice(), Ghost(len as nat));
        let data = pack_chunks(
            &bitpacker,
            list.as_slice(),
            chunks.as_slice(),
            data_size,
            Ghost(len as nat),
        );
        proof {
            lemma_compression_well_formed(list@, len as nat);
        }
        Self { len, last_doc_id, data, chunks }
    }

    /// What `size` adds up: four bytes, a slice pointer for each chunk, and
    /// the bytes of the arena.
    pub open spec fn spec_size(&self) -> nat {
        size_of::<u32>() + size_of::<Box<[CompressedPostingChunk]>>() * self.directory().len()
            + self.arena().len()
    }

    /// Bytes that the list is accounted with.
    pub fn size(&self) -> (bytes: usize)
        requires
            self.spec_size() <= usize::MAX,
        ensures
            bytes == self.spec_size(),
    {
        let per_chunk: usize = std::mem::size_of::<Box<[CompressedPostingChunk]>>();
        let chunks_count: usize = self.chunks.len();
        assert(per_chunk * chunks_count <= self.spec_size()) by (nonlinear_arith)
            requires
                per_chunk * chunks_count == size_of::<Box<[CompressedPostingChunk]>>()
                    * self.directory().len(),
                self.spec_size() == size_of::<u32>() + size_of::<Box<[CompressedPostingChunk]>>()
                    * self.directory().len() + self.arena().len(),
        ;
        std::mem::size_of::<u32>() + per_chunk * chunks_count + self.data.len()
    }

    /// Number of ids in the list.
    pub fn len(&self) -> (n: usize)
        ensures
            n == self@.len(),
    {
        proof {
            use_type_invariant(self);
            self.lemma_padded_len();
        }
        self.len
    }

    /// The directory: one entry for each block, in the order of the blocks.
    pub fn chunks(&self) -> (chunks: &[CompressedPostingChunk])
        ensures
            chunks@ == self.directory(),
    {
        self.chunks.as_slice()
    }

    /// The arena: the packed blocks, one after the other.
    pub fn data(&self) -> (data: &[u8])
        ensures
            data@ == self.arena(),
    {
        self.data.as_slice()
    }

    /// The largest id of the list, and 0 if the list is empty.
    pub fn last_doc_id(&self) -> (id: PointOffsetType)
        ensures
            id == self.spec_last_doc_id(),
            self@.len() > 0 ==> id == self@.last(),
    {
        proof {
            use_type_invariant(self);
            self.lemma_padded_len();
        }
        self.last_doc_id
    }

    /// Whether `val` lies between the first and the last id.
    pub open spec fn in_range(&self, val: u32) -> bool {
        &&& self.directory().len() > 0
        &&& self.directory()[0].initial <= val <= self.spec_last_doc_id()
    }

    /// Size in bytes of chunk `chunk_index`.
    pub(crate) fn get_chunk_size(
        chunks: &[CompressedPostingChunk],
        data: &[u8],
        chunk_index: usize,
    ) -> (size: usize)
        requires
            chunk_index < chunks@.len(),
            layout_fits(chunks@, data@.len()),
        ensures
            size == chunk_size(chunks@, data@.len(), chunk_index as int),
    {
        assert(chunk_size(chunks@, data@.len(), chunk_index as int) >= 0);
        let count: usize = chunks.len();
        if chunk_index + 1 < count {
            chunks[chunk_index + 1].offset as usize - chunks[chunk_index].offset as usize
        } else {
            data.len() - chunks[chunk_index].offset as usize
        }
    }

    /// The chunk that alone can hold `doc_id`: the last one from
    /// `start_chunk` on (from the first, if none is given) whose first id is
    /// not above `doc_id`. `None` if there is no such chunk.
    pub(crate) fn find_chunk(
        &self,
        doc_id: &PointOffsetType,
        start_chunk: Option<usize>,
    ) -> (found: Option<usize>)
        requires
            start_chunk matches Some(start) ==> start <= self.directory().len(),
        ensures
            match found {
                Some(k) => {
                    &&& is_candidate(self.directory(), k as int, *doc_id)
                    &&& start_chunk matches Some(start) ==> start <= k
                },
                None => {
                    let start = if let Some(start) = start_chunk { start as int } else { 0 };
                    start < self.directory().len() ==> *doc_id < self.directory()[start].initial
                },
            },
    {
        proof {
            use_type_invariant(self);
            self.lemma_initials_increase();
        }
        let start_chunk: usize = if let Some(idx) = start_chunk { idx } else { 0 };
        let suffix = slice_subrange(self.chunks.as_slice(), start_chunk, self.chunks.len());
        assert forall|j: int| 0 <= j < suffix@.len() implies suffix@[j]
            == self.directory()[start_chunk + j] by {}
        match search_initial(suffix, *doc_id) {
            // doc_id is the initial value of the chunk with index idx
            Ok(idx) => {
                assert(suffix@[idx as int].initial == *doc_id);
                Some(start_chunk + idx)
            },
            // chunk idx has larger initial value than doc_id
            // so we need the previous chunk
            Err(idx) => {
                if idx > 0 {
                    assert(suffix@[idx - 1].initial < *doc_id);
                    assert(idx < suffix@.len() ==> suffix@[idx as int].initial > *doc_id);
                    Some(start_chunk + idx - 1)
                } else {
                    assert(0 < suffix@.len() ==> suffix@[0].initial > *doc_id);
                    None
                }
            },
        }
    }

    /// Whether `val` lies between the first and the last id.
    pub(crate) fn is_in_postings_range(&self, val: PointOffsetType) -> (inside: bool)
        ensures
            inside == self.in_range(val),
    {
        self.chunks.len() > 0 && val >= self.chunks[0].initial && val <= self.last_doc_id
    }

    /// Decodes chunk `chunk_index` into `decompressed`.
    pub(crate) fn decompress_chunk(
        &self,
        bitpacker: &BitPacker4x,
        chunk_index: usize,
        decompressed: &mut [PointOffsetType; 128],
    )
        requires
            chunk_index < self.directory().len(),
        ensures
            final(decompressed)@ == decoded_chunk(
                self.directory(),
                self.arena(),
                chunk_index as int,
            ),
    {
        proof {
            use_type_invariant(self);
            lemma_layout_offsets(self.directory(), self.arena().len());
        }
        let chunk = self.chunks[chunk_index];
        let chunk_size: usize = Self::get_chunk_size(
            self.chunks.as_slice(),
            self.data.as_slice(),
            chunk_index,
        );
        let chunk_bits: usize = (chunk_size * 8) / BLOCK_LEN;
        let start: usize = chunk.offset as usize;
        assert(start + chunk_size == chunk_end(
            self.directory(),
            self.arena().len(),
            chunk_index as int,
        ) <= self.data.len());
        let bytes = slice_subrange(self.data.as_slice(), start, start + chunk_size);
        decompress_sorted(bitpacker, chunk.initial, bytes, decompressed, chunk_bits as u8);
    }

    /// Whether `val` is in the list.
    pub fn contains(&self, val: &PointOffsetType) -> (found: bool)
        ensures
            found == self@.contains(*val),
    {
        proof {
            use_type_invariant(self);
        }
        if !self.is_in_postings_range(*val) {
            proof {
                self.lemma_outside_range(*val);
            }
            return false;
        }
        // find the chunk that may contain the value and check if the value is in the chunk
        let chunk_index = self.find_chunk(val, None);
        if let Some(chunk_index) = chunk_index {
            proof {
                self.lemma_candidate_decides(chunk_index as int, *val);
            }
            if self.chunks[chunk_index].initial == *val {
                return true;
            }
            let mut decompressed: [PointOffsetType; 128] = [0u32; 128];
            self.decompress_chunk(&new_bitpacker(), chunk_index, &mut decompressed);
            proof {
                self.lemma_chunk_sorted(chunk_index as int);
            }
            match binary_search(decompressed.as_slice(), *val) {
                Ok(_) => true,
                Err(at) => {
                    proof {
                        lemma_search_decides_membership(decompressed@, *val, at as int);
                    }
                    false
                },
            }
        } else {
            false
        }
    }

    /// The ids in ascending order: every chunk is decoded in turn, and the
    /// padding of the last one is left out.
    pub fn iter(&self) -> (ids: Vec<PointOffsetType>)
        ensures
            ids@ == self@,
    {
        proof {
            use_type_invariant(self);
            self.lemma_padded_len();
        }
        let bitpacker = new_bitpacker();
        let mut ids: Vec<PointOffsetType> = Vec::with_capacity(self.len);
        let chunks_count: usize = self.chunks.len();
        let mut chunk_index: usize = 0;
        while chunk_index < chunks_count
            invariant
                self.wf(),
                chunks_count == self.directory().len(),
                chunk_index <= chunks_count,
                self.padded().len() == BLOCK_LEN * self.directory().len(),
                ids@.len() <= self.spec_len(),
                ids@.len() == self.spec_len() || ids@.len() == BLOCK_LEN * chunk_index,
                ids@ == self.padded().take(ids@.len() as int),
            decreases chunks_count - chunk_index,
        {
            let mut decompressed: [PointOffsetType; 128] = [0u32; 128];
            self.decompress_chunk(&bitpacker, chunk_index, &mut decompressed);
            let mut taken: usize = 0;
            while taken < BLOCK_LEN && ids.len() < self.len
                invariant
                    self.wf(),
                    chunk_index < chunks_count == self.directory().len(),
                    self.padded().len() == BLOCK_LEN * self.directory().len(),
                    decompressed@ == decoded_chunk(
                        self.directory(),
                        self.arena(),
                        chunk_index as int,
                    ),
                    taken <= BLOCK_LEN,
                    ids@.len() <= self.spec_len(),
                    ids@.len() == self.spec_len() || ids@.len() == BLOCK_LEN * chunk_index + taken,
                    ids@ == self.padded().take(ids@.len() as int),
                decreases BLOCK_LEN - taken,
            {
                proof {
                    self.lemma_padded_index(chunk_index as int, taken as int);
                }
                ids.push(decompressed[taken]);
                taken += 1;
                assert(ids@ =~= self.padded().take(ids@.len() as int));
            }
            chunk_index += 1;
        }
        ids
    }

    /// The first ids of the chunks are in strictly increasing order.
    pub proof fn lemma_initials_increase(&self)
        requires
            self.wf(),
        ensures
            forall|j: int, k: int|
                0 <= j < k < self.directory().len() ==> self.directory()[j].initial
                    < self.directory()[k].initial,
    {
        let dir = self.directory();
        self.lemma_padded_len();
        assert forall|j: int, k: int| 0 <= j < k < dir.len() implies dir[j].initial
            < dir[k].initial by {
            self.lemma_padded_index(j, 0);
            self.lemma_padded_index(k, 0);
            assert(self@[128 * j] == self.padded()[128 * j]);
            assert(self@[128 * k] == self.padded()[128 * k]);
        }
    }

    /// Element `j` of chunk `k` is element `128 * k + j` of the padded list.
    pub proof fn lemma_padded_index(&self, k: int, j: int)
        requires
            0 <= k < self.directory().len(),
            0 <= j < BLOCK_LEN,
        ensures
            self.padded()[128 * k + j] == decoded_chunk(self.directory(), self.arena(), k)[j],
            0 <= 128 * k + j < self.padded().len(),
            self.padded().len() == BLOCK_LEN * self.directory().len(),
    {
        reveal(decoded);
        let i = 128 * k + j;
        assert(i / 128 == k && i % 128 == j);
    }

    /// The padded list has 128 ids for each chunk.
    pub proof fn lemma_padded_len(&self)
        ensures
            self.padded().len() == BLOCK_LEN * self.directory().len(),
    {
        reveal(decoded);
    }

    /// Every chunk decodes to a block in ascending order.
    pub proof fn lemma_chunk_sorted(&self, k: int)
        requires
            self.wf(),
            0 <= k < self.directory().len(),
        ensures
            nondecreasing(decoded_chunk(self.directory(), self.arena(), k)),
    {
        let block = decoded_chunk(self.directory(), self.arena(), k);
        assert forall|i: int, j: int| 0 <= i <= j < block.len() implies block[i] <= block[j] by {
            self.lemma_padded_index(k, i);
            self.lemma_padded_index(k, j);
        }
    }

    /// No id lies below the first chunk's first id or above the last id.
    pub proof fn lemma_outside_range(&self, val: u32)
        requires
            self.wf(),
            !self.in_range(val),
        ensures
            !self@.contains(val),
    {
        if self@.contains(val) {
            let i = choose|i: int| 0 <= i < self@.len() && self@[i] == val;
            let n = self.spec_len() as int;
            self.lemma_padded_len();
            assert(self.directory().len() > 0);
            self.lemma_padded_index(0, 0);
            assert(self.padded()[i] == val);
            assert(self.padded()[0] <= self.padded()[i]);
            assert(self.padded()[i] <= self.padded()[n - 1]);
        }
    }

    /// Within the range of the list, `val` is an id exactly if the chunk
    /// that `k` names as the candidate for it decodes to a block that holds it.
    pub proof fn lemma_candidate_decides(&self, k: int, val: u32)
        requires
            self.wf(),
            self.in_range(val),
            is_candidate(self.directory(), k, val),
        ensures
            self@.contains(val) <==> decoded_chunk(self.directory(), self.arena(), k).contains(val),
            self.directory()[k].initial == val ==> self@.contains(val),
    {
        let dir = self.directory();
        let block = decoded_chunk(dir, self.arena(), k);
        let n = self.spec_len() as int;
        let padded = self.padded();
        self.lemma_padded_len();
        if block.contains(val) {
            let j = choose|j: int| 0 <= j < block.len() && block[j] == val;
            self.lemma_padded_index(k, j);
            let i = 128 * k + j;
            if i < n {
                assert(self@[i] == val);
            } else {
                assert(padded[i] == self.spec_last_doc_id());
                assert(padded[n - 1] == self.spec_last_doc_id());
                assert(self@[n - 1] == val);
            }
        }
        if self@.contains(val) {
            let i = choose|i: int| 0 <= i < self@.len() && self@[i] == val;
            assert(padded[i] == val);
            let ki = i / 128;
            let ji = i % 128;
            self.lemma_padded_index(ki, ji);
            self.lemma_padded_index(ki, 0);
            self.lemma_padded_index(k, 0);
            if ki == k {
                assert(block[ji] == val);
            } else if ki < k {
                // the candidate starts after `i`, at an id that is not above `val`
                assert(padded[i] <= padded[128 * k]);
                assert(block[0] == val);
            } else {
                assert(k + 1 < dir.len());
                self.lemma_padded_index(k + 1, 0);
                assert(padded[128 * (k + 1)] <= padded[i]);
                assert(false);
            }
        }
        if dir[k].initial == val {
            assert(block[0] == val);
        }
    }
}

/// Looks for the chunk that begins with `val`, by binary search on the first
/// ids. `Ok` carries its index. `Err` carries the number of chunks that begin
/// below `val`.
fn search_initial(chunks: &[CompressedPostingChunk], val: PointOffsetType) -> (found: Result<
    usize,
    usize,
>)
    requires
        initials_increase(chunks@),
    ensures
        match found {
            Ok(i) => i < chunks@.len() && chunks@[i as int].initial == val,
            Err(i) => {
                &&& i <= chunks@.len()
                &&& forall|j: int| 0 <= j < i ==> chunks@[j].initial < val
                &&& forall|j: int| i <= j < chunks@.len() ==> chunks@[j].initial > val
            },
        },
{
    let mut low: usize = 0;
    let mut high: usize = chunks.len();
    while low < high
        invariant
            low <= high <= chunks@.len(),
            initials_increase(chunks@),
            forall|j: int| 0 <= j < low ==> chunks@[j].initial < val,
            forall|j: int| high <= j < chunks@.len() ==> chunks@[j].initial > val,
        decreases high - low,
    {
        let mid: usize = low + (high - low) / 2;
        let probe: PointOffsetType = chunks[mid].initial;
        if probe == val {
            return Ok(mid);
        } else if probe < val {
            low = mid + 1;
        } else {
            high = mid;
        }
    }
    Err(low)
}

/// Compressing keeps the ids and their order: what the compressed list
/// yields is what the posting list yields.
pub proof fn lemma_compress_keeps_ids(list: PostingList, compressed: CompressedPostingList)
    requires
        list.wf(),
        compressed.is_compression_of(list@),
    ensures
        compressed@ == list@,
        compressed@.len() == list@.len(),
{
    let ids = list@;
    let padded = padded_list(ids);
    if ids.len() == 0 {
        compressed.lemma_padded_len();
        assert(compressed@ =~= ids);
    } else {
        lemma_padded_list(ids);
        lemma_compression_well_formed(padded, ids.len());
    }
}

/// An id is in the compressed list exactly if it is in the posting list
/// that was compressed.
pub proof fn lemma_compress_keeps_membership(
    list: PostingList,
    compressed: CompressedPostingList,
    val: u32,
)
    requires
        list.wf(),
        compressed.is_compression_of(list@),
    ensures
        compressed@.contains(val) == list@.contains(val),
{
    lemma_compress_keeps_ids(list, compressed);
}

/// The compressed list stores as its last id the largest id of the posting
/// list that was compressed.
pub proof fn lemma_compress_keeps_last(list: PostingList, compressed: CompressedPostingList)
    requires
        list.wf(),
        compressed.is_compression_of(list@),
        list@.len() > 0,
    ensures
        list@.contains(compressed.spec_last_doc_id()),
        forall|i: int| 0 <= i < list@.len() ==> list@[i] <= compressed.spec_last_doc_id(),
{
    assert(list@[list@.len() - 1] == compressed.spec_last_doc_id());
}

/// Compressing again what a compressed list yields gives the same list:
/// the same length, last id, directory and arena.
pub proof fn lemma_recompress_is_identical(
    list: PostingList,
    compressed: CompressedPostingList,
    relisted: PostingList,
    recompressed: CompressedPostingList,
)
    requires
        list.wf(),
        compressed.is_compression_of(list@),
        relisted@ == compressed@,
        recompressed.is_compression_of(relisted@),
    ensures
        recompressed@.len() == compressed@.len(),
        recompressed.spec_last_doc_id() == compressed.spec_last_doc_id(),
        recompressed.directory() == compressed.directory(),
        recompressed.arena() == compressed.arena(),
{
    lemma_compress_keeps_ids(list, compressed);
    lemma_compress_keeps_ids(relisted, recompressed);
}

} // verus!
