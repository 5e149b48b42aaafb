//! The layout of a compressed posting list: a directory of chunks over a
//! byte arena, and what the two decode to.

use crate::codec::{packed_size, unpacked_block, BLOCK_LEN, MAX_BITS};
use crate::mutable::PointOffsetType;
use crate::sorted::{nondecreasing, strictly_increasing};
use vstd::prelude::*;

verus! {

/// Directory entry of one block.
#[derive(Clone, Copy, Debug)]
pub struct CompressedPostingChunk {
    /// The block's first id.
    pub initial: PointOffsetType,
    /// Where the block's bytes begin in the arena.
    pub offset: u32,
}

impl Default for CompressedPostingChunk {
    /// The entry of a block that begins with id 0 at the start of the arena.
    fn default() -> (r: Self)
        ensures
            r.initial == 0,
            r.offset == 0,
    {
        CompressedPostingChunk { initial: 0, offset: 0 }
    }
}

/// Where the bytes of chunk `k` end: at the next chunk's offset, or at the
/// end of the arena for the last chunk.
pub open spec fn chunk_end(dir: Seq<CompressedPostingChunk>, arena_len: nat, k: int) -> int {
    if k + 1 < dir.len() {
        dir[k + 1].offset as int
    } else {
        arena_len as int
    }
}

/// Number of bytes of chunk `k`.
pub open spec fn chunk_size(dir: Seq<CompressedPostingChunk>, arena_len: nat, k: int) -> int {
    chunk_end(dir, arena_len, k) - dir[k].offset
}

/// Bit width of chunk `k`, recovered from its size.
pub open spec fn chunk_bits(dir: Seq<CompressedPostingChunk>, arena_len: nat, k: int) -> int {
    chunk_size(dir, arena_len, k) * 8 / (BLOCK_LEN as int)
}

/// The bytes of chunk `k`.
pub open spec fn chunk_bytes(dir: Seq<CompressedPostingChunk>, arena: Seq<u8>, k: int) -> Seq<u8> {
    arena.subrange(dir[k].offset as int, chunk_end(dir, arena.len(), k))
}

/// The 128 ids that chunk `k` decodes to.
pub open spec fn decoded_chunk(dir: Seq<CompressedPostingChunk>, arena: Seq<u8>, k: int) -> Seq<
    u32,
> {
    unpacked_block(dir[k].initial, chunk_bytes(dir, arena, k), chunk_bits(dir, arena.len(), k) as u8)
}

/// All chunks decoded, one after the other.
#[verifier::opaque]
pub open spec fn decoded(dir: Seq<CompressedPostingChunk>, arena: Seq<u8>) -> Seq<u32> {
    Seq::new(
        BLOCK_LEN as nat * dir.len(),
        |i: int| decoded_chunk(dir, arena, i / (BLOCK_LEN as int))[i % (BLOCK_LEN as int)],
    )
}

/// The chunks lie one after the other from the start of the arena to its
/// end, each has the size of a packed block of some width up to 32 bits,
/// and only the last may be empty.
pub open spec fn layout_fits(dir: Seq<CompressedPostingChunk>, arena_len: nat) -> bool {
    &&& dir.len() == 0 ==> arena_len == 0
    &&& dir.len() > 0 ==> dir[0].offset == 0
    &&& forall|k: int|
        0 <= k < dir.len() ==> {
            let size = #[trigger] chunk_size(dir, arena_len, k);
            &&& 0 <= size <= packed_size(MAX_BITS as nat)
            &&& size % 16 == 0
            &&& k + 1 < dir.len() ==> size > 0
        }
}

/// What holds of the parts of every compressed list of `n` ids: there are
/// as many chunks as `n` ids need, they fit the arena, each decodes to a
/// block that begins with the id that the directory gives, and the decoded
/// blocks together are the ids in strictly ascending order, followed by
/// copies of the last one.
pub open spec fn well_formed(
    n: nat,
    last_doc_id: u32,
    dir: Seq<CompressedPostingChunk>,
    arena: Seq<u8>,
) -> bool {
    let padded = decoded(dir, arena);
    &&& n <= usize::MAX
    &&& n <= BLOCK_LEN * dir.len() < n + BLOCK_LEN
    &&& layout_fits(dir, arena.len())
    &&& n == 0 ==> last_doc_id == 0
    &&& forall|k: int|
        0 <= k < dir.len() ==> {
            &&& (#[trigger] decoded_chunk(dir, arena, k)).len() == BLOCK_LEN
            &&& decoded_chunk(dir, arena, k)[0] == dir[k].initial
        }
    &&& nondecreasing(padded)
    &&& strictly_increasing(padded.take(n as int))
    &&& forall|i: int| 0 <= i && n - 1 <= i < padded.len() ==> padded[i] == last_doc_id
}

/// In a fitting layout the offsets ascend and no chunk ends beyond the arena.
pub proof fn lemma_layout_offsets(dir: Seq<CompressedPostingChunk>, arena_len: nat)
    requires
        layout_fits(dir, arena_len),
    ensures
        forall|j: int, k: int| 0 <= j < k < dir.len() ==> dir[j].offset < dir[k].offset,
        forall|k: int|
            0 <= k < dir.len() ==> 0 <= dir[k].offset <= #[trigger] chunk_end(dir, arena_len, k)
                <= arena_len,
{
    assert forall|k: int| 0 <= k < dir.len() implies dir[k].offset <= #[trigger] chunk_end(
        dir,
        arena_len,
        k,
    ) <= arena_len by {
        lemma_chunk_ends_in_arena(dir, arena_len, k);
    }
    assert forall|j: int, k: int| 0 <= j < k < dir.len() implies dir[j].offset
        < dir[k].offset by {
        lemma_offsets_ascend(dir, arena_len, j, k);
    }
}

/// No chunk ends before it begins or beyond the arena.
proof fn lemma_chunk_ends_in_arena(dir: Seq<CompressedPostingChunk>, arena_len: nat, k: int)
    requires
        layout_fits(dir, arena_len),
        0 <= k < dir.len(),
    ensures
        dir[k].offset <= chunk_end(dir, arena_len, k) <= arena_len,
    decreases dir.len() - k,
{
    assert(chunk_size(dir, arena_len, k) >= 0);
    if k + 1 < dir.len() {
        lemma_chunk_ends_in_arena(dir, arena_len, k + 1);
    }
}

/// A later chunk begins after an earlier one.
proof fn lemma_offsets_ascend(dir: Seq<CompressedPostingChunk>, arena_len: nat, j: int, k: int)
    requires
        layout_fits(dir, arena_len),
        0 <= j <= k < dir.len(),
    ensures
        dir[j].offset <= dir[k].offset,
        j < k ==> dir[j].offset < dir[k].offset,
    decreases k - j,
{
    if j < k {
        lemma_offsets_ascend(dir, arena_len, j, k - 1);
        assert(chunk_size(dir, arena_len, k - 1) > 0);
    }
}

/// Chunk `k` is the last one whose first id is not above `val`.
pub open spec fn is_candidate(dir: Seq<CompressedPostingChunk>, k: int, val: u32) -> bool {
    &&& 0 <= k < dir.len()
    &&& dir[k].initial <= val
    &&& k + 1 < dir.len() ==> val < dir[k + 1].initial
}

/// The first ids of the chunks are in strictly increasing order.
pub open spec fn initials_increase(chunks: Seq<CompressedPostingChunk>) -> bool {
    forall|j: int, k: int| 0 <= j < k < chunks.len() ==> chunks[j].initial < chunks[k].initial
}

} // verus!
