use posting_list::sorted::binary_search;
use posting_list::PostingList;

fn list_of(ids: &[u32]) -> PostingList {
    let mut list = PostingList::default();
    for id in ids {
        list.insert(*id);
    }
    list
}

#[test]
fn new_list_holds_its_one_id() {
    let list = PostingList::new(42);
    assert_eq!(list.len(), 1);
    assert_eq!(list.iter(), vec![42]);
    assert!(list.contains(&42));
    assert!(!list.contains(&41));
    assert!(!list.contains(&43));
}

#[test]
fn default_list_is_empty() {
    let list = PostingList::default();
    assert_eq!(list.len(), 0);
    assert_eq!(list.iter(), Vec::<u32>::new());
    assert!(!list.contains(&0));
    assert!(!list.contains(&u32::MAX));
}

#[test]
fn insert_keeps_ascending_order() {
    let list = list_of(&[30, 10, 20, 5, 25, 40, 0, u32::MAX]);
    assert_eq!(list.iter(), vec![0, 5, 10, 20, 25, 30, 40, u32::MAX]);
    assert_eq!(list.len(), 8);
}

#[test]
fn insert_of_present_id_changes_nothing() {
    let mut list = list_of(&[1, 2, 3]);
    list.insert(2);
    list.insert(1);
    list.insert(3);
    assert_eq!(list.iter(), vec![1, 2, 3]);
    assert_eq!(list.len(), 3);
}

#[test]
fn remove_takes_the_id_out() {
    let mut list = list_of(&[1, 2, 3, 4]);
    list.remove(3);
    assert_eq!(list.iter(), vec![1, 2, 4]);
    assert!(!list.contains(&3));
    list.remove(1);
    assert_eq!(list.iter(), vec![2, 4]);
    list.remove(4);
    assert_eq!(list.iter(), vec![2]);
    list.remove(2);
    assert_eq!(list.iter(), Vec::<u32>::new());
    assert_eq!(list.len(), 0);
}

#[test]
fn remove_of_absent_id_changes_nothing() {
    let mut list = list_of(&[10, 20]);
    list.remove(15);
    list.remove(0);
    list.remove(30);
    assert_eq!(list.iter(), vec![10, 20]);
    let mut empty = PostingList::default();
    empty.remove(7);
    assert_eq!(empty.len(), 0);
}

#[test]
fn inserts_and_removes_leave_a_strictly_increasing_list() {
    let mut list = PostingList::default();
    let mut state: u32 = 12345;
    for step in 0..2000u32 {
        state = state.wrapping_mul(1664525).wrapping_add(1013904223);
        let id = (state >> 16) % 300;
        if step % 3 == 2 {
            list.remove(id);
            assert!(!list.contains(&id));
        } else {
            list.insert(id);
            assert!(list.contains(&id));
        }
        let ids = list.iter();
        assert_eq!(ids.len(), list.len());
        for pair in ids.windows(2) {
            assert!(pair[0] < pair[1]);
        }
    }
}

#[test]
fn clone_holds_the_same_ids() {
    let list = list_of(&[3, 1, 2]);
    let copy = list.clone();
    assert_eq!(copy.iter(), vec![1, 2, 3]);
    assert_eq!(list.iter(), vec![1, 2, 3]);
}

#[test]
fn size_counts_capacity_and_header() {
    let header = std::mem::size_of::<Vec<u32>>();
    assert_eq!(PostingList::size_with_capacity(0), header);
    assert_eq!(PostingList::size_with_capacity(10), 40 + header);
    let single = PostingList::new(7);
    assert_eq!(single.size(), 4 + header);
    let list = list_of(&[1, 2, 3, 4, 5, 6, 7, 8, 9]);
    assert!(list.size() >= 9 * 4 + header);
    assert_eq!((list.size() - header) % 4, 0);
    assert_eq!(PostingList::default().size(), header);
}

#[test]
fn binary_search_finds_index_or_insertion_point() {
    let list = [1u32, 3, 5, 7];
    assert_eq!(binary_search(&list, 1), Ok(0));
    assert_eq!(binary_search(&list, 5), Ok(2));
    assert_eq!(binary_search(&list, 7), Ok(3));
    assert_eq!(binary_search(&list, 0), Err(0));
    assert_eq!(binary_search(&list, 4), Err(2));
    assert_eq!(binary_search(&list, 8), Err(4));
    assert_eq!(binary_search(&[], 8), Err(0));
    let repeated = [2u32, 2, 2, 9, 9];
    assert!(binary_search(&repeated, 2).is_ok());
    assert!(binary_search(&repeated, 9).is_ok());
    assert_eq!(binary_search(&repeated, 5), Err(3));
}
