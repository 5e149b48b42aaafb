//! Building the layout: a list of ids is padded to whole blocks, each
//! block is sized, and the blocks are packed one after the other.

use crate::codec::{
    bits_needed, compress_sorted, compressed_block_size, is_sorted_block, lemma_bits_needed_fit,
    lemma_strict_block_size, num_bits_sorted, packed_block, packed_size, unpacked_block,
    BLOCK_LEN, MAX_BITS,
};
use crate::compressed::CompressedPostingList;
use crate::layout::{
    chunk_bits, chunk_end, chunk_size, decoded, decoded_chunk, layout_fits, lemma_layout_offsets,
    well_formed, CompressedPostingChunk,
};
use crate::mutable::PointOffsetType;
use crate::sorted::{nondecreasing, strictly_increasing};
use bitpacking::BitPacker4x;
use vstd::prelude::*;
use vstd::slice::slice_subrange;

verus! {

/// Number of copies of the last id that fill up the last block of `n` ids.
pub open spec fn pad_len(n: nat) -> nat {
    ((BLOCK_LEN - n % (BLOCK_LEN as nat)) % (BLOCK_LEN as int)) as nat
}

/// The ids, followed by copies of the last one up to a multiple of 128.
pub open spec fn padded_list(ids: Seq<u32>) -> Seq<u32> {
    ids + Seq::new(pad_len(ids.len()), |i: int| ids.last())
}

/// Number of blocks of a padded list.
pub open spec fn block_count(padded: Seq<u32>) -> nat {
    padded.len() / (BLOCK_LEN as nat)
}

/// Block `k` of a padded list.
pub open spec fn block_at(padded: Seq<u32>, k: int) -> Seq<u32> {
    padded.subrange(BLOCK_LEN * k, BLOCK_LEN * k + BLOCK_LEN)
}

/// Bit width of block `k`: what its largest step needs, the first step being
/// the one from the block's first id to itself.
pub open spec fn block_bits(padded: Seq<u32>, k: int) -> nat {
    bits_needed(padded[BLOCK_LEN * k], block_at(padded, k))
}

/// Bytes that the first `k` blocks take together.
pub open spec fn offset_of(padded: Seq<u32>, k: nat) -> nat
    decreases k,
{
    if k == 0 {
        0
    } else {
        offset_of(padded, (k - 1) as nat) + packed_size(block_bits(padded, k - 1))
    }
}

/// The directory of a padded list: for each block its first id and the
/// bytes that the blocks before it take.
pub open spec fn directory_of(padded: Seq<u32>) -> Seq<CompressedPostingChunk> {
    Seq::new(
        block_count(padded),
        |k: int|
            (CompressedPostingChunk {
                initial: padded[BLOCK_LEN * k],
                offset: offset_of(padded, k as nat) as u32,
            }),
    )
}

/// The first `k` blocks of a padded list, each packed at its own width, one
/// after the other.
pub open spec fn arena_of(padded: Seq<u32>, k: nat) -> Seq<u8>
    decreases k,
{
    if k == 0 {
        Seq::empty()
    } else {
        arena_of(padded, (k - 1) as nat) + packed_block(
            padded[BLOCK_LEN * (k - 1)],
            block_at(padded, k - 1),
            block_bits(padded, k - 1) as u8,
        )
    }
}

/// `padded` holds `n` ids in strictly ascending order and then copies of the
/// last one up to the end of its last block.
pub open spec fn is_padded(padded: Seq<u32>, n: nat) -> bool {
    &&& 0 < n <= padded.len() < n + BLOCK_LEN
    &&& padded.len() % (BLOCK_LEN as nat) == 0
    &&& strictly_increasing(padded.take(n as int))
    &&& forall|i: int| n - 1 <= i < padded.len() ==> #[trigger] padded[i] == padded[n - 1]
}

/// The padding is shorter than a block and fills the last block up.
pub(crate) proof fn lemma_pad_len(n: nat)
    ensures
        pad_len(n) < BLOCK_LEN,
        (n + pad_len(n)) % (BLOCK_LEN as nat) == 0,
{
    let r = n % 128;
    let q = n / 128;
    assert(n == 128 * q + r);
    if r != 0 {
        assert(pad_len(n) == 128 - r);
        assert(n + pad_len(n) == 128 * (q + 1));
    }
}

/// One more id in an unfinished block leaves one copy less to add.
pub(crate) proof fn lemma_pad_step(n: nat)
    requires
        n % (BLOCK_LEN as nat) != 0,
    ensures
        pad_len(n + 1) + 1 == pad_len(n),
{
    let r = n % 128;
    let q = n / 128;
    assert(n == 128 * q + r);
    if r + 1 < 128 {
        assert((n + 1) % 128 == r + 1) by {
            assert(n + 1 == 128 * q + (r + 1));
        }
    } else {
        assert((n + 1) % 128 == 0) by {
            assert(n + 1 == 128 * (q + 1));
        }
    }
}

/// Padding a strictly ascending list gives a padded list of as many ids.
pub(crate) proof fn lemma_padded_list(ids: Seq<u32>)
    requires
        strictly_increasing(ids),
        ids.len() > 0,
    ensures
        is_padded(padded_list(ids), ids.len()),
        padded_list(ids).take(ids.len() as int) == ids,
{
    let padded = padded_list(ids);
    let n = ids.len();
    lemma_pad_len(n);
    assert(padded.len() == n + pad_len(n));
    assert(padded.take(n as int) =~= ids);
    assert forall|i: int| n - 1 <= i < padded.len() implies #[trigger] padded[i] == padded[n
        - 1] by {
        assert(padded[n - 1] == ids[n - 1]);
    }
}

/// A padded list is in ascending order.
proof fn lemma_padded_nondecreasing(padded: Seq<u32>, n: nat)
    requires
        is_padded(padded, n),
    ensures
        nondecreasing(padded),
{
    let ids = padded.take(n as int);
    assert forall|i: int, j: int| 0 <= i <= j < padded.len() implies padded[i] <= padded[j] by {
        if j < n {
            assert(ids[i] == padded[i] && ids[j] == padded[j]);
        } else if i < n {
            assert(ids[i] == padded[i] && ids[n - 1] == padded[n - 1]);
        }
    }
}

/// What the codec asks of a block holds of each block of a padded list, and
/// every block but the last is strictly ascending.
proof fn lemma_block_sorted(padded: Seq<u32>, n: nat, k: int)
    requires
        is_padded(padded, n),
        0 <= k < block_count(padded),
    ensures
        is_sorted_block(padded[BLOCK_LEN * k], block_at(padded, k)),
        block_at(padded, k)[0] == padded[BLOCK_LEN * k],
        block_bits(padded, k) <= MAX_BITS,
        BLOCK_LEN * (k + 1) <= n ==> strictly_increasing(block_at(padded, k)),
{
    let block = block_at(padded, k);
    lemma_padded_nondecreasing(padded, n);
    assert forall|i: int, j: int| 0 <= i <= j < block.len() implies block[i] <= block[j] by {
        assert(block[i] == padded[BLOCK_LEN * k + i]);
        assert(block[j] == padded[BLOCK_LEN * k + j]);
    }
    lemma_bits_needed_fit(padded[BLOCK_LEN * k], block);
    if BLOCK_LEN * (k + 1) <= n {
        let ids = padded.take(n as int);
        assert forall|i: int, j: int| 0 <= i < j < block.len() implies block[i] < block[j] by {
            assert(block[i] == ids[BLOCK_LEN * k + i]);
            assert(block[j] == ids[BLOCK_LEN * k + j]);
        }
    }
}

/// The bytes before block `k` number at most 512 for each block, and, while
/// `k` is a block of the list, at most the distance from the first id to the
/// last id before block `k`: so every offset fits in 32 bits.
proof fn lemma_offset_bound(padded: Seq<u32>, n: nat, k: nat)
    requires
        is_padded(padded, n),
        k <= block_count(padded),
    ensures
        offset_of(padded, k) <= 512 * k,
        offset_of(padded, k) <= u32::MAX,
        0 < k < block_count(padded) ==> offset_of(padded, k) + 62 * k
            <= padded[BLOCK_LEN * k - 1] - padded[0],
    decreases k,
{
    if k > 0 {
        let j = (k - 1) as nat;
        lemma_offset_bound(padded, n, j);
        lemma_block_sorted(padded, n, j as int);
        let block = block_at(padded, j as int);
        if k < block_count(padded) {
            lemma_strict_block_size(block);
            assert(block[BLOCK_LEN - 1] == padded[BLOCK_LEN * k - 1]);
            assert(block[0] == padded[BLOCK_LEN * j]);
            if j > 0 {
                let ids = padded.take(n as int);
                assert(ids[BLOCK_LEN * j - 1] < ids[BLOCK_LEN * j as int]);
            }
        }
    }
}

/// Chunk `k` of the directory of a padded list begins where the blocks
/// before it end and has the size of block `k` at its width, and that size
/// gives the width back.
proof fn lemma_directory_chunk(padded: Seq<u32>, n: nat, k: int)
    requires
        is_padded(padded, n),
        0 <= k < block_count(padded),
    ensures
        directory_of(padded)[k].initial == padded[BLOCK_LEN * k],
        directory_of(padded)[k].offset == offset_of(padded, k as nat),
        chunk_end(directory_of(padded), offset_of(padded, block_count(padded)), k)
            == offset_of(padded, (k + 1) as nat),
        chunk_size(directory_of(padded), offset_of(padded, block_count(padded)), k)
            == 16 * block_bits(padded, k),
        chunk_bits(directory_of(padded), offset_of(padded, block_count(padded)), k)
            == block_bits(padded, k),
        block_bits(padded, k) <= MAX_BITS,
        k + 1 < block_count(padded) ==> block_bits(padded, k) >= 1,
{
    let count = block_count(padded);
    let dir = directory_of(padded);
    let total = offset_of(padded, count);
    lemma_block_sorted(padded, n, k);
    if k + 1 < count {
        lemma_strict_block_size(block_at(padded, k));
    }
    lemma_offset_bound(padded, n, k as nat);
    lemma_offset_bound(padded, n, (k + 1) as nat);
    lemma_block_sorted(padded, n, k);
    let bits = block_bits(padded, k);
    assert(packed_size(bits) == 16 * bits);
    assert(offset_of(padded, (k + 1) as nat) == offset_of(padded, k as nat) + packed_size(bits));
    assert(dir[k].offset == offset_of(padded, k as nat));
    if k + 1 < count {
        assert(dir[k + 1].offset == offset_of(padded, (k + 1) as nat));
    }
    assert(chunk_size(dir, total, k) == 16 * bits);
    assert((16 * bits) * 8 / 128 == bits);
}

/// The directory of a padded list fits the arena of its packed blocks.
proof fn lemma_directory_layout(padded: Seq<u32>, n: nat)
    requires
        is_padded(padded, n),
    ensures
        layout_fits(directory_of(padded), offset_of(padded, block_count(padded))),
{
    let dir = directory_of(padded);
    let total = offset_of(padded, block_count(padded));
    assert forall|k: int| 0 <= k < dir.len() implies {
        let size = #[trigger] chunk_size(dir, total, k);
        &&& 0 <= size <= packed_size(MAX_BITS as nat)
        &&& size % 16 == 0
        &&& k + 1 < dir.len() ==> size > 0
    } by {
        lemma_directory_chunk(padded, n, k);
    }
    lemma_directory_chunk(padded, n, 0);
}

/// The codec's part in block `k`: the packed block has the size of its
/// width and decodes back to the block.
pub open spec fn packs_back(padded: Seq<u32>, k: int) -> bool {
    let initial = padded[BLOCK_LEN * k];
    let bits = block_bits(padded, k) as u8;
    let bytes = packed_block(initial, block_at(padded, k), bits);
    &&& bytes.len() == packed_size(bits as nat)
    &&& unpacked_block(initial, bytes, bits) == block_at(padded, k)
}

/// The first `k` packed blocks take as many bytes as their sizes add up to.
proof fn lemma_arena_len(padded: Seq<u32>, n: nat, k: nat)
    requires
        is_padded(padded, n),
        k <= block_count(padded),
        forall|j: int| 0 <= j < k ==> packs_back(padded, j),
    ensures
        arena_of(padded, k).len() == offset_of(padded, k),
    decreases k,
{
    if k > 0 {
        lemma_arena_len(padded, n, (k - 1) as nat);
        lemma_block_sorted(padded, n, k - 1);
        assert(packs_back(padded, k - 1));
    }
}

/// The bytes of block `k` stand in the arena from the offset of block `k`
/// to that of the next.
proof fn lemma_arena_chunk(padded: Seq<u32>, n: nat, count: nat, k: int)
    requires
        is_padded(padded, n),
        count <= block_count(padded),
        0 <= k < count,
        forall|j: int| 0 <= j < count ==> packs_back(padded, j),
    ensures
        arena_of(padded, count).subrange(
            offset_of(padded, k as nat) as int,
            offset_of(padded, (k + 1) as nat) as int,
        ) == packed_block(padded[BLOCK_LEN * k], block_at(padded, k), block_bits(padded, k) as u8),
    decreases count,
{
    let before = arena_of(padded, (count - 1) as nat);
    let lo = offset_of(padded, k as nat) as int;
    let hi = offset_of(padded, (k + 1) as nat) as int;
    lemma_arena_len(padded, n, (count - 1) as nat);
    lemma_arena_len(padded, n, count);
    lemma_arena_len(padded, n, k as nat);
    lemma_arena_len(padded, n, (k + 1) as nat);
    if k == count - 1 {
        assert(arena_of(padded, count).subrange(lo, hi) =~= packed_block(
            padded[BLOCK_LEN * k],
            block_at(padded, k),
            block_bits(padded, k) as u8,
        ));
    } else {
        lemma_arena_chunk(padded, n, (count - 1) as nat, k);
        lemma_offsets_of_ascend(padded, (k + 1) as nat, (count - 1) as nat);
        assert(arena_of(padded, count).subrange(lo, hi) =~= before.subrange(lo, hi));
    }
}

/// Later blocks do not begin before earlier ones.
proof fn lemma_offsets_of_ascend(padded: Seq<u32>, j: nat, k: nat)
    requires
        j <= k,
    ensures
        offset_of(padded, j) <= offset_of(padded, k),
    decreases k,
{
    if j < k {
        lemma_offsets_of_ascend(padded, j, (k - 1) as nat);
    }
}

/// Once every block is known to pack back, the directory and the arena of
/// a padded list decode to it, block by block.
proof fn lemma_decodes_back(padded: Seq<u32>, n: nat)
    requires
        is_padded(padded, n),
        forall|j: int| 0 <= j < block_count(padded) ==> packs_back(padded, j),
    ensures
        forall|k: int|
            0 <= k < block_count(padded) ==> #[trigger] decoded_chunk(
                directory_of(padded),
                arena_of(padded, block_count(padded)),
                k,
            ) == block_at(padded, k),
        decoded(directory_of(padded), arena_of(padded, block_count(padded)))
            == padded,
        arena_of(padded, block_count(padded)).len() == offset_of(
            padded,
            block_count(padded),
        ),
{
    let count = block_count(padded);
    let dir = directory_of(padded);
    let arena = arena_of(padded, count);
    lemma_arena_len(padded, n, count);
    assert forall|k: int| 0 <= k < count implies #[trigger] decoded_chunk(dir, arena, k)
        == block_at(padded, k) by {
        lemma_directory_chunk(padded, n, k);
        lemma_arena_chunk(padded, n, count, k);
        assert(packs_back(padded, k));
    }
    reveal(decoded);
    assert forall|i: int| 0 <= i < padded.len() implies decoded(dir, arena)[i] == padded[i] by {
        let k = i / (BLOCK_LEN as int);
        let j = i % (BLOCK_LEN as int);
        assert(decoded_chunk(dir, arena, k) == block_at(padded, k));
        assert(block_at(padded, k)[j] == padded[BLOCK_LEN * k + j]);
    }
    assert(decoded(dir, arena) =~= padded);
}

/// The directory and the arena of a padded list of `n` ids, with the last
/// id, make a well-formed compressed list that holds the ids.
pub(crate) proof fn lemma_compression_well_formed(padded: Seq<u32>, n: nat)
    requires
        is_padded(padded, n),
        n <= usize::MAX,
        forall|j: int| 0 <= j < block_count(padded) ==> packs_back(padded, j),
    ensures
        well_formed(
            n,
            padded[n - 1],
            directory_of(padded),
            arena_of(padded, block_count(padded)),
        ),
        decoded(directory_of(padded), arena_of(padded, block_count(padded)))
            == padded,
{
    let dir = directory_of(padded);
    let arena = arena_of(padded, block_count(padded));
    lemma_decodes_back(padded, n);
    lemma_directory_layout(padded, n);
    lemma_padded_nondecreasing(padded, n);
    lemma_chunks_begin(padded, n);
    assert(dir.len() == block_count(padded));
}

/// Every block has 128 ids and begins with the id that the directory gives.
proof fn lemma_chunks_begin(padded: Seq<u32>, n: nat)
    requires
        is_padded(padded, n),
    ensures
        forall|k: int|
            0 <= k < block_count(padded) ==> {
                &&& (#[trigger] block_at(padded, k)).len() == BLOCK_LEN
                &&& block_at(padded, k)[0] == directory_of(padded)[k].initial
            },
{
    assert forall|k: int| 0 <= k < block_count(padded) implies {
        &&& (#[trigger] block_at(padded, k)).len() == BLOCK_LEN
        &&& block_at(padded, k)[0] == directory_of(padded)[k].initial
    } by {
        lemma_directory_chunk(padded, n, k);
        lemma_block_sorted(padded, n, k);
    }
}

/// First pass over a padded list: the directory, and the size of the
/// arena that the packed blocks will take.
pub(crate) fn chunk_directory(
    bitpacker: &BitPacker4x,
    list: &[PointOffsetType],
    Ghost(n): Ghost<nat>,
) -> (r: (Vec<CompressedPostingChunk>, usize))
    requires
        is_padded(list@, n),
    ensures
        r.0@ == directory_of(list@),
        r.1 == offset_of(list@, block_count(list@)),
{
    let chunks_count: usize = list.len() / BLOCK_LEN;
    let mut chunks: Vec<CompressedPostingChunk> = Vec::with_capacity(chunks_count);
    let mut data_size: usize = 0;
    let mut chunk_index: usize = 0;
    while chunk_index < chunks_count
        invariant
            is_padded(list@, n),
            list@.len() <= usize::MAX,
            chunks_count == block_count(list@),
            chunk_index <= chunks_count,
            chunks@.len() == chunk_index,
            forall|j: int| 0 <= j < chunk_index ==> chunks@[j] == directory_of(list@)[j],
            data_size == offset_of(list@, chunk_index as nat),
        decreases chunks_count - chunk_index,
    {
        proof {
            lemma_block_sorted(list@, n, chunk_index as int);
            lemma_offset_bound(list@, n, chunk_index as nat);
            lemma_offset_bound(list@, n, (chunk_index + 1) as nat);
        }
        let first: usize = chunk_index * BLOCK_LEN;
        let chunk_data = slice_subrange(list, first, first + BLOCK_LEN);
        let initial: PointOffsetType = chunk_data[0];
        let chunk_bits: u8 = num_bits_sorted(bitpacker, initial, chunk_data);
        let chunk_size: usize = compressed_block_size(chunk_bits);
        chunks.push(CompressedPostingChunk { initial, offset: data_size as u32 });
        data_size += chunk_size;
        chunk_index += 1;
    }
    assert(chunks@ =~= directory_of(list@));
    (chunks, data_size)
}

/// Second pass over a padded list: packs each block into its place in
/// an arena of `data_size` bytes.
pub(crate) fn pack_chunks(
    bitpacker: &BitPacker4x,
    list: &[PointOffsetType],
    chunks: &[CompressedPostingChunk],
    data_size: usize,
    Ghost(n): Ghost<nat>,
) -> (data: Vec<u8>)
    requires
        is_padded(list@, n),
        chunks@ == directory_of(list@),
        data_size == offset_of(list@, block_count(list@)),
    ensures
        data@ == arena_of(list@, block_count(list@)),
        forall|j: int| 0 <= j < block_count(list@) ==> packs_back(list@, j),
{
    let chunks_count: usize = chunks.len();
    let list_len: usize = list.len();
    let mut data: Vec<u8> = vec![0u8; data_size];
    let mut chunk_index: usize = 0;
    proof {
        lemma_directory_layout(list@, n);
    }
    while chunk_index < chunks_count
        invariant
            is_padded(list@, n),
            list@.len() <= usize::MAX,
            chunks@ == directory_of(list@),
            chunks_count == block_count(list@),
            chunk_index <= chunks_count,
            data_size == offset_of(list@, chunks_count as nat),
            layout_fits(chunks@, data_size as nat),
            data@.len() == data_size,
            data@.take(offset_of(list@, chunk_index as nat) as int) == arena_of(
                list@,
                chunk_index as nat,
            ),
            forall|j: int| 0 <= j < chunk_index ==> packs_back(list@, j),
        decreases chunks_count - chunk_index,
    {
        proof {
            lemma_block_sorted(list@, n, chunk_index as int);
            lemma_directory_chunk(list@, n, chunk_index as int);
            lemma_layout_offsets(chunks@, data_size as nat);
            lemma_offsets_of_ascend(list@, (chunk_index + 1) as nat, chunks_count as nat);
        }
        let ghost before = data@;
        let chunk = chunks[chunk_index];
        let chunk_size: usize = CompressedPostingList::get_chunk_size(
            chunks,
            data.as_slice(),
            chunk_index,
        );
        let chunk_bits: usize = (chunk_size * 8) / BLOCK_LEN;
        let first: usize = chunk_index * BLOCK_LEN;
        let chunk_data = slice_subrange(list, first, first + BLOCK_LEN);
        let start: usize = chunk.offset as usize;
        let whole = data.as_mut_slice();
        let (_, rest) = whole.split_at_mut(start);
        let (slot, _) = rest.split_at_mut(chunk_size);
        compress_sorted(bitpacker, chunk.initial, chunk_data, slot, chunk_bits as u8);
        proof {
            let end = start + chunk_size;
            assert(data@.take(start as int) =~= before.take(start as int));
            assert(data@.subrange(start as int, end as int) =~= packed_block(
                chunk.initial,
                chunk_data@,
                chunk_bits as u8,
            ));
            assert(data@.take(end as int) =~= data@.take(start as int) + data@.subrange(
                start as int,
                end as int,
            ));
            assert(packs_back(list@, chunk_index as int));
        }
        chunk_index += 1;
    }
    assert(data@.take(data_size as int) =~= data@);
    data
}

} // verus!
