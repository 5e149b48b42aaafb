use posting_list::{CompressedPostingList, CompressedPostingVisitor, PostingList};

fn list_of(ids: &[u32]) -> PostingList {
    let mut list = PostingList::default();
    for id in ids {
        list.insert(*id);
    }
    list
}

#[test]
fn cross_block_probing() {
    let ids: Vec<u32> = (0..256u32).collect();
    let compressed = CompressedPostingList::new(list_of(&ids));
    assert_eq!(compressed.chunks().len(), 2);
    assert_eq!(compressed.chunks()[0].initial, 0);
    assert_eq!(compressed.chunks()[1].initial, 128);
    let mut visitor = CompressedPostingVisitor::new(&compressed);
    assert_eq!(visitor.decompressed_chunk_idx(), None);
    let answers: Vec<bool> =
        [0u32, 50, 127, 128, 200, 255, 256].iter().map(|probe| visitor.contains(probe)).collect();
    assert_eq!(answers, vec![true, true, true, true, true, true, false]);
    assert_eq!(visitor.decompressed_chunk_idx(), Some(1));
}

#[test]
fn visitor_states_follow_the_probes() {
    let ids: Vec<u32> = (0..256u32).collect();
    let compressed = CompressedPostingList::new(list_of(&ids));
    let mut visitor = CompressedPostingVisitor::new(&compressed);
    // a chunk's first id is answered from the directory
    assert!(visitor.contains(&0));
    assert_eq!(visitor.decompressed_chunk_idx(), None);
    assert!(visitor.contains(&50));
    assert_eq!(visitor.decompressed_chunk_idx(), Some(0));
    assert!(visitor.contains(&127));
    assert_eq!(visitor.decompressed_chunk_idx(), Some(0));
    assert!(visitor.contains(&128));
    assert_eq!(visitor.decompressed_chunk_idx(), Some(0));
    assert!(visitor.contains(&200));
    assert_eq!(visitor.decompressed_chunk_idx(), Some(1));
    assert!(!visitor.contains(&256));
    assert_eq!(visitor.decompressed_chunk_idx(), Some(1));
}

#[test]
fn visitor_on_empty_list_finds_nothing() {
    let compressed = CompressedPostingList::new(PostingList::default());
    let mut visitor = CompressedPostingVisitor::new(&compressed);
    assert!(!visitor.contains(&0));
    assert!(!visitor.contains(&7));
    assert!(!visitor.contains(&u32::MAX));
    assert_eq!(visitor.decompressed_chunk_idx(), None);
}

#[test]
fn visitor_moves_on_from_a_later_chunk() {
    // five chunks: the search for the next chunk starts at the cached one
    let ids: Vec<u32> = (0..600u32).map(|i| 3 * i + 1).collect();
    let compressed = CompressedPostingList::new(list_of(&ids));
    assert_eq!(compressed.chunks().len(), 5);
    let mut visitor = CompressedPostingVisitor::new(&compressed);
    assert!(visitor.contains(&(3 * 130 + 1)));
    assert_eq!(visitor.decompressed_chunk_idx(), Some(1));
    assert!(!visitor.contains(&(3 * 131)));
    assert!(visitor.contains(&(3 * 300 + 1)));
    assert_eq!(visitor.decompressed_chunk_idx(), Some(2));
    assert!(visitor.contains(&(3 * 520 + 1)));
    assert_eq!(visitor.decompressed_chunk_idx(), Some(4));
    assert!(!visitor.contains(&(3 * 520 + 2)));
    assert!(visitor.contains(&(3 * 599 + 1)));
    assert!(!visitor.contains(&(3 * 599 + 2)));
    assert_eq!(visitor.decompressed_chunk_idx(), Some(4));
}

#[test]
fn visitor_answers_in_the_padding_of_the_last_block() {
    let compressed = CompressedPostingList::new(list_of(&[10, 20, 30]));
    let mut visitor = CompressedPostingVisitor::new(&compressed);
    assert!(!visitor.contains(&5));
    assert!(!visitor.contains(&15));
    assert_eq!(visitor.decompressed_chunk_idx(), Some(0));
    assert!(visitor.contains(&20));
    assert!(!visitor.contains(&25));
    assert!(visitor.contains(&30));
    assert!(!visitor.contains(&31));
}

#[test]
fn visitor_agrees_with_the_posting_list() {
    let mut state: u32 = 99;
    let mut ids: Vec<u32> = Vec::new();
    let mut id: u32 = 0;
    for _ in 0..3000 {
        state = state.wrapping_mul(1664525).wrapping_add(1013904223);
        id += 1 + (state >> 24) % 17;
        ids.push(id);
    }
    let list = list_of(&ids);
    let compressed = CompressedPostingList::new(list.clone());
    for stride in [1u32, 2, 7, 64, 1000] {
        let mut visitor = CompressedPostingVisitor::new(&compressed);
        let mut probe: u32 = 0;
        while probe < id + 50 {
            assert_eq!(visitor.contains(&probe), list.contains(&probe));
            probe += stride;
        }
    }
}
