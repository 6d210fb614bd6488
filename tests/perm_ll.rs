use fast_hampath::perm_ll::PLinkedList;

#[test]
fn plinkedlist_insert_create() {
    let mut pll = PLinkedList::new(10, 2);
    pll.insert_after(2, 3);
    pll.insert_after(3, 1);
    pll.insert_after(1, 7);
    pll.insert_after(7, 4);
    pll.insert_after(4, 5);
    pll.insert_after(5, 9);
    pll.insert_after(9, 0);
    pll.insert_after(0, 6);
    pll.insert_after(6, 8);
    let order = pll.to_vec();
    assert_eq!(order, vec![2, 3, 1, 7, 4, 5, 9, 0, 6, 8]);
}

#[test]
fn plinkedlist_insert() {
    let mut pll = PLinkedList::new(3, 0);
    pll.insert_after(0, 2);
    pll.insert_after(0, 1);
    let order = pll.to_vec();
    assert_eq!(order, vec![0, 1, 2]);
}

#[test]
fn plinkedlist_prepend() {
    let mut pll = PLinkedList::new(3, 0);
    pll.insert_after(0, 2);
    pll.insert_at_start(1);
    let order = pll.to_vec();
    assert_eq!(order, vec![1, 0, 2]);
}

#[test]
fn plinkedlist_append() {
    let mut pll = PLinkedList::new(3, 0);
    pll.insert_after(0, 2);
    pll.insert_at_end(1);
    let order = pll.to_vec();
    assert_eq!(order, vec![0, 2, 1]);
}

#[test]
fn plinkedlist_single_element() {
    let pll = PLinkedList::new(4, 3);
    assert_eq!(pll.first(), 3);
    assert_eq!(pll.last(), 3);
    assert_eq!(pll.get_succ(3), None);
    assert_eq!(pll.to_vec(), vec![3]);
}

#[test]
fn plinkedlist_successors_and_bounds() {
    let mut pll = PLinkedList::new(5, 2);
    pll.insert_at_end(4);
    pll.insert_at_start(0);
    pll.insert_after(2, 1);
    assert_eq!(pll.to_vec(), vec![0, 2, 1, 4]);
    assert_eq!(pll.first(), 0);
    assert_eq!(pll.last(), 4);
    assert_eq!(pll.get_succ(0), Some(2));
    assert_eq!(pll.get_succ(2), Some(1));
    assert_eq!(pll.get_succ(1), Some(4));
    assert_eq!(pll.get_succ(4), None);
    assert_eq!(pll.get_succ(3), None);
}

#[test]
fn plinkedlist_insert_after_tail_moves_tail() {
    let mut pll = PLinkedList::new(3, 1);
    pll.insert_after(1, 0);
    assert_eq!(pll.last(), 0);
    pll.insert_after(0, 2);
    assert_eq!(pll.last(), 2);
    assert_eq!(pll.to_vec(), vec![1, 0, 2]);
}

#[test]
fn plinkedlist_iterator_walks_and_restarts() {
    let mut pll = PLinkedList::new(3, 0);
    pll.insert_at_end(2);
    pll.insert_at_end(1);
    for _ in 0..2 {
        let mut it = pll.iter();
        assert_eq!(it.next(), Some(0));
        assert_eq!(it.next(), Some(2));
        assert_eq!(it.next(), Some(1));
        assert_eq!(it.next(), None);
        assert_eq!(it.next(), None);
    }
}
