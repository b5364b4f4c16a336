use sqsh::stats::ProbTable;

#[test]
fn insert_vec() {
    let mut test = ProbTable::new();
    test.insert(vec![3, 2, 1]);
    test.insert(vec![3, 2, 1]);
    test.insert(vec![3, 2, 1]);
    let mut iter = test.iter();

    assert_eq!(iter.next(), Some(vec![3, 2, 1]));
    assert_eq!(iter.next(), None);
    assert_eq!(test.members(), 1);
    assert_eq!(test.indexed(), 1);
    assert!(test.is_coherent());
}

#[test]
fn test_insert_nodes() {
    let mut test = ProbTable::<u8>::new();
    test.insert(0);
    test.insert(1);
    test.insert(2);
    test.insert(3);
    assert_eq!(test.members(), 4);
    assert_eq!(test.indexed(), 4);
    assert!(test.is_coherent());
}

#[test]
fn test_insert_same_nodes() {
    let mut test = ProbTable::<u8>::new();
    test.insert(0);
    test.insert(0);
    test.insert(1);
    test.insert(0);
    assert_eq!(test.members(), 2);
    assert_eq!(test.indexed(), 2);
    assert!(test.is_coherent());
}

#[test]
fn test_insert_late_dominant() {
    let mut test = ProbTable::<u8>::new();
    test.insert(1);
    assert!(test.is_coherent());
    test.insert(0);
    test.insert(0);
    test.insert(0);
    assert!(test.is_coherent());
    test.insert(2);
    test.insert(2);
    test.insert(2);
    test.insert(2);
    assert_eq!(test.members(), 3);
    assert_eq!(test.indexed(), 3);
    assert!(test.is_coherent());
    assert_eq!(test.rank(&2), Some(0));
    assert_eq!(test.rank(&0), Some(1));
    assert_eq!(test.position(0), Some(2));
    let mut iter = test.iter();
    assert_eq!(iter.next(), Some(2));
    assert_eq!(iter.next(), Some(0));
    assert_eq!(iter.next(), Some(1));
    assert_eq!(iter.next(), None);
}

#[test]
fn edge_case() {
    let mut test = ProbTable::<u8>::new();
    let data = vec![3, 4, 3, 3, 4, 5, 5, 5, 7, 7, 7, 7];
    test.feed(&data);
    println!("{:?}", test);
    assert!(test.is_coherent())
}

#[test]
fn table_lookups() {
    let mut table = ProbTable::<u8>::new();
    table.insert(42);
    table.insert(42);
    table.insert(31);

    assert_eq!(table.rank(&42), Some(0));
    assert_eq!(table.rank(&4), None);
    assert_eq!(table.count(&42), Some(2));
    assert_eq!(table.count(&9), None);
    assert_eq!(table.position(0), Some(42));
    assert_eq!(table.position(9), None);
}

#[test]
fn table_feed() {
    let mut table = ProbTable::<u8>::new();
    let data = vec![3, 4, 3, 3, 3, 3, 4, 5, 8];
    table.feed(&data);

    assert_eq!(table.members(), 4);
    assert!(table.capacity() >= 4);
    assert_eq!(table.rank(&3), Some(0));
    assert_eq!(table.rank(&9), None);
    assert_eq!(table.count(&3), Some(5));
    assert_eq!(table.count(&9), None);
    assert_eq!(table.position(0), Some(3));
    assert_eq!(table.position(1), Some(4));
    assert_eq!(table.position(2), Some(5));
    assert_eq!(table.position(3), Some(8));
    assert_eq!(table.position(4), None);
    let mut iter = table.iter();
    assert_eq!(iter.next(), Some(3));
    assert_eq!(iter.next(), Some(4));
    assert_eq!(iter.next(), Some(5));
    assert_eq!(iter.next(), Some(8));
    assert_eq!(iter.next(), None);
    assert_eq!(iter.next(), None);
}

#[test]
fn table_insert_reports_the_new_rank() {
    let mut table = ProbTable::<u8>::with_capacity(13);
    assert!(table.capacity() >= 13);
    assert_eq!(table.members(), 0);
    assert!(table.is_coherent());
    assert_eq!(table.insert(10), 0);
    assert_eq!(table.insert(20), 1);
    assert_eq!(table.insert(30), 2);
    // 30 catches up with the others: it moves to the first rank whose
    // count is below its own, and 10 takes its place.
    assert_eq!(table.insert(30), 0);
    assert_eq!(table.position(0), Some(30));
    assert_eq!(table.position(1), Some(20));
    assert_eq!(table.position(2), Some(10));
    assert_eq!(table.insert(10), 1);
    assert_eq!(table.position(1), Some(10));
    assert_eq!(table.position(2), Some(20));
    assert_eq!(table.insert(10), 0);
    assert_eq!(table.count(&10), Some(3));
    assert_eq!(table.count(&30), Some(2));
    assert_eq!(table.rank(&30), Some(1));
}

#[test]
fn table_stays_in_order_and_finds_each_symbol_at_its_rank() {
    let mut table = ProbTable::<u8>::new();
    let mut value: u8 = 1;
    for i in 0..500usize {
        value = value.wrapping_mul(29).wrapping_add(i as u8) % 23;
        let rank = table.insert(value);
        assert_eq!(table.rank(&value), Some(rank));
        assert!(table.is_coherent());
    }
    let mut before: Option<usize> = None;
    for rank in 0..table.members() {
        let symbol = table.position(rank).unwrap();
        assert_eq!(table.rank(&symbol), Some(rank));
        let count = table.count(&symbol).unwrap();
        if let Some(b) = before {
            assert!(b >= count);
        }
        before = Some(count);
    }
}
