use bitpacking::{BitPacker, BitPacker4x};
use posting_list::{CompressedPostingList, PostingList};

fn list_of(ids: &[u32]) -> PostingList {
    let mut list = PostingList::default();
    for id in ids {
        list.insert(*id);
    }
    list
}

fn next_random(state: &mut u64) -> u64 {
    *state ^= *state << 13;
    *state ^= *state >> 7;
    *state ^= *state << 17;
    *state
}

#[test]
fn empty_list_compresses_to_nothing() {
    let compressed = CompressedPostingList::new(PostingList::default());
    assert_eq!(compressed.len(), 0);
    assert_eq!(compressed.iter(), Vec::<u32>::new());
    assert!(!compressed.contains(&0));
    assert!(!compressed.contains(&u32::MAX));
    assert_eq!(compressed.chunks().len(), 0);
    assert_eq!(compressed.data().len(), 0);
    assert_eq!(compressed.last_doc_id(), 0);
}

#[test]
fn default_compressed_list_is_empty() {
    let compressed = CompressedPostingList::default();
    assert_eq!(compressed.len(), 0);
    assert_eq!(compressed.iter(), Vec::<u32>::new());
    assert!(!compressed.contains(&5));
    assert_eq!(compressed.chunks().len(), 0);
}

#[test]
fn single_element_list() {
    let compressed = CompressedPostingList::new(PostingList::new(42));
    assert_eq!(compressed.len(), 1);
    assert_eq!(compressed.last_doc_id(), 42);
    assert_eq!(compressed.chunks().len(), 1);
    assert_eq!(compressed.chunks()[0].initial, 42);
    assert_eq!(compressed.chunks()[0].offset, 0);
    assert!(!compressed.contains(&41));
    assert!(compressed.contains(&42));
    assert!(!compressed.contains(&43));
    assert_eq!(compressed.iter(), vec![42]);
    // 128 copies of one id need no bits at all
    assert_eq!(compressed.data().len(), 0);
}

#[test]
fn exactly_one_full_block() {
    let ids: Vec<u32> = (0..128u32).map(|i| 1000 + 2 * i).collect();
    let compressed = CompressedPostingList::new(list_of(&ids));
    assert_eq!(compressed.len(), 128);
    assert_eq!(compressed.chunks().len(), 1);
    assert_eq!(compressed.chunks()[0].initial, 1000);
    assert_eq!(compressed.last_doc_id(), 1254);
    assert_eq!(compressed.iter(), ids);
    assert!(compressed.contains(&1000));
    assert!(!compressed.contains(&1001));
    assert!(compressed.contains(&1254));
    assert!(!compressed.contains(&1255));
    // steps of 2 take 2 bits each: 128 * 2 / 8 bytes
    assert_eq!(compressed.data().len(), 32);
}

#[test]
fn sparse_list_is_padded_but_iterates_its_ids() {
    let compressed = CompressedPostingList::new(list_of(&[10, 20, 30]));
    assert_eq!(compressed.len(), 3);
    assert_eq!(compressed.last_doc_id(), 30);
    assert_eq!(compressed.chunks().len(), 1);
    assert_eq!(compressed.chunks()[0].initial, 10);
    assert_eq!(compressed.iter(), vec![10, 20, 30]);
    assert!(compressed.contains(&30));
    assert!(!compressed.contains(&31));
    assert!(compressed.contains(&10));
    assert!(compressed.contains(&20));
    assert!(!compressed.contains(&15));
    assert!(!compressed.contains(&9));
    // the largest step is 10, which takes 4 bits
    assert_eq!(compressed.data().len(), 64);
}

#[test]
fn padding_decodes_to_copies_of_the_last_id() {
    let compressed = CompressedPostingList::new(list_of(&[10, 20, 30]));
    let chunk = &compressed.chunks()[0];
    let mut block = vec![0u32; 128];
    BitPacker4x::new().decompress_sorted(chunk.initial, compressed.data(), &mut block, 4);
    assert_eq!(&block[..3], &[10, 20, 30]);
    assert!(block[3..].iter().all(|id| *id == 30));
}

#[test]
fn two_blocks_have_two_chunks() {
    let ids: Vec<u32> = (0..256u32).collect();
    let compressed = CompressedPostingList::new(list_of(&ids));
    assert_eq!(compressed.len(), 256);
    assert_eq!(compressed.chunks().len(), 2);
    assert_eq!(compressed.chunks()[0].initial, 0);
    assert_eq!(compressed.chunks()[1].initial, 128);
    assert_eq!(compressed.chunks()[0].offset, 0);
    // steps of 1 take 1 bit each: the first block has 16 bytes
    assert_eq!(compressed.chunks()[1].offset, 16);
    assert_eq!(compressed.data().len(), 32);
    assert_eq!(compressed.last_doc_id(), 255);
    assert_eq!(compressed.iter(), ids);
    for id in 0..256u32 {
        assert!(compressed.contains(&id));
    }
    assert!(!compressed.contains(&256));
}

#[test]
fn offsets_add_up_the_block_sizes() {
    // first block: steps of 1 (1 bit, 16 bytes); second: steps of 1000 (10 bits, 160 bytes);
    // third: one real id and padding after a first step of 0 (0 bits)
    let mut ids: Vec<u32> = (0..128u32).collect();
    ids.extend((0..128u32).map(|i| 10_000 + 1000 * i));
    ids.push(1_000_000);
    let compressed = CompressedPostingList::new(list_of(&ids));
    let chunks = compressed.chunks();
    assert_eq!(chunks.len(), 3);
    assert_eq!((chunks[0].initial, chunks[0].offset), (0, 0));
    assert_eq!((chunks[1].initial, chunks[1].offset), (10_000, 16));
    assert_eq!((chunks[2].initial, chunks[2].offset), (1_000_000, 176));
    assert_eq!(compressed.data().len(), 176);
    assert_eq!(compressed.iter(), ids);
    assert!(compressed.contains(&1_000_000));
    assert!(compressed.contains(&137_000));
    assert!(!compressed.contains(&137_001));
    assert!(!compressed.contains(&5_000));
}

#[test]
fn arena_holds_what_the_codec_packs() {
    let ids: Vec<u32> = (0..128u32).map(|i| 7 + 3 * i).collect();
    let compressed = CompressedPostingList::new(list_of(&ids));
    let bitpacker = BitPacker4x::new();
    let bits = bitpacker.num_bits_sorted(7, &ids);
    assert_eq!(bits, 2);
    let mut expected = vec![0u8; BitPacker4x::compressed_block_size(bits)];
    bitpacker.compress_sorted(7, &ids, &mut expected, bits);
    assert_eq!(compressed.data(), &expected[..]);
    assert!(expected.iter().any(|byte| *byte != 0));
}

#[test]
fn widest_steps_take_32_bits() {
    let mut ids: Vec<u32> = vec![0, 0x8000_0000];
    ids.push(u32::MAX);
    let compressed = CompressedPostingList::new(list_of(&ids));
    assert_eq!(compressed.data().len(), 512);
    assert_eq!(compressed.iter(), ids);
    assert_eq!(compressed.last_doc_id(), u32::MAX);
    assert!(compressed.contains(&u32::MAX));
    assert!(compressed.contains(&0));
    assert!(!compressed.contains(&1));
}

#[test]
fn compression_keeps_ids_length_and_last() {
    let ids: Vec<u32> = (0..1000u32).map(|i| i * i + 3).collect();
    let list = list_of(&ids);
    let compressed = CompressedPostingList::new(list.clone());
    assert_eq!(compressed.iter(), list.iter());
    assert_eq!(compressed.len(), list.len());
    assert_eq!(compressed.last_doc_id(), *ids.iter().max().unwrap());
    for probe in 0..2000u32 {
        assert_eq!(compressed.contains(&probe), list.contains(&probe));
    }
}

#[test]
fn compressing_again_gives_the_same_list() {
    let ids: Vec<u32> = (0..700u32).map(|i| 5 * i + (i % 3)).collect();
    let first = CompressedPostingList::new(list_of(&ids));
    let second = CompressedPostingList::new(list_of(&first.iter()));
    assert_eq!(second.len(), first.len());
    assert_eq!(second.last_doc_id(), first.last_doc_id());
    assert_eq!(second.data(), first.data());
    assert_eq!(second.chunks().len(), first.chunks().len());
    for (a, b) in first.chunks().iter().zip(second.chunks().iter()) {
        assert_eq!((a.initial, a.offset), (b.initial, b.offset));
    }
}

#[test]
fn size_adds_header_directory_and_arena() {
    let per_chunk = std::mem::size_of::<Box<[u64]>>();
    let empty = CompressedPostingList::default();
    assert_eq!(empty.size(), 4);
    let ids: Vec<u32> = (0..256u32).collect();
    let compressed = CompressedPostingList::new(list_of(&ids));
    assert_eq!(compressed.size(), 4 + 2 * per_chunk + 32);
}

#[test]
fn fuzz_round_trip() {
    let mut state: u64 = 0x2545_F491_4F6C_DD1D;
    for _ in 0..1000 {
        let wanted = (next_random(&mut state) % 10_001) as usize;
        let mut ids: Vec<u32> = (0..wanted)
            .map(|_| (next_random(&mut state) % 1_000_000_001) as u32)
            .collect();
        ids.sort_unstable();
        ids.dedup();
        let compressed = CompressedPostingList::new(list_of(&ids));
        assert_eq!(compressed.len(), ids.len());
        assert_eq!(compressed.iter(), ids);
        for _ in 0..100 {
            let probe = (next_random(&mut state) % 1_000_000_001) as u32;
            assert_eq!(compressed.contains(&probe), ids.binary_search(&probe).is_ok());
        }
        for at in [0, ids.len() / 2, ids.len().saturating_sub(1)] {
            if at < ids.len() {
                assert!(compressed.contains(&ids[at]));
            }
        }
    }
}
