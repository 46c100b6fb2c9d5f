use flightradar::iter::BefAftWindowIterator;

#[test]
fn windows_show_each_item_with_its_neighbours() {
    let list = vec![10, 20, 30];
    let mut it = BefAftWindowIterator::new(&list);
    assert_eq!(it.next(), Some((None, &10, Some(&20))));
    assert_eq!(it.next(), Some((Some(&10), &20, Some(&30))));
    assert_eq!(it.next(), Some((Some(&20), &30, None)));
    assert_eq!(it.next(), None);
    assert_eq!(it.next(), None);
}

#[test]
fn single_item_has_no_neighbours() {
    let list = vec!['x'];
    let mut it = BefAftWindowIterator::new(&list);
    assert_eq!(it.next(), Some((None, &'x', None)));
    assert_eq!(it.next(), None);
}

#[test]
fn empty_list_has_no_windows() {
    let list: Vec<u8> = vec![];
    let mut it = BefAftWindowIterator::new(&list);
    assert_eq!(it.next(), None);
    assert_eq!(it.next(), None);
}
