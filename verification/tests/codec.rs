use bitpacking::{BitPacker, BitPacker4x};
use posting_list::codec::BLOCK_LEN;
use posting_list::{CompressedPostingList, PostingList};

#[test]
fn test_compressed_posting_visitor() {
    let mut chunk: Vec<u32> = Vec::new();
    for i in 0..BitPacker4x::BLOCK_LEN as u32 {
        chunk.push(1000 + 2 * i);
    }
    let initial = 1000;

    let bitpacker = BitPacker4x::new();
    let chunk_bits: u8 = bitpacker.num_bits_sorted(initial, &chunk);
    let chunk_size = BitPacker4x::compressed_block_size(chunk_bits);
    println!("BLOCK_SIZE: {}", BitPacker4x::BLOCK_LEN * 4);
    println!("chunk_bits: {}", chunk_bits);
    println!("chunk_size: {}", chunk_size);

    let mut compressed_chunk = vec![0u8; chunk_size].into_boxed_slice();
    let compressed_size =
        bitpacker.compress_sorted(initial, &chunk, &mut compressed_chunk, chunk_bits);
    println!("compressed_size: {}", compressed_size);

    let mut decompressed = vec![0u32; BitPacker4x::BLOCK_LEN];
    bitpacker.decompress_sorted(initial, &compressed_chunk, &mut decompressed, chunk_bits);
    assert_eq!(decompressed, chunk);

    // the library stores the same block in the same bytes
    let mut list = PostingList::default();
    for id in &chunk {
        list.insert(*id);
    }
    let compressed = CompressedPostingList::new(list);
    assert_eq!(compressed.data(), &compressed_chunk[..]);
    assert_eq!(compressed.iter(), chunk);
}

#[test]
fn block_length_is_that_of_the_codec() {
    assert_eq!(BLOCK_LEN, BitPacker4x::BLOCK_LEN);
    assert_eq!(BLOCK_LEN, 128);
}
