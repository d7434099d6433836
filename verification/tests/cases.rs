use partitions::Partitions;

#[test]
fn case_1() {
    let mut iter = Partitions::new(10, 3);
    assert_eq!(iter.len(), 3);
    assert_eq!(iter.sum(), 10);
}

#[test]
fn case_1_next() {
    let mut iter = Partitions::new(10, 3);
    assert_eq!(iter.next(), Some(3));
    assert_eq!(iter.next(), Some(3));
    assert_eq!(iter.next(), Some(4));
}

#[test]
fn case_2() {
    let mut iter = Partitions::new(123, 14);
    assert_eq!(iter.len(), 14);
    assert_eq!(iter.sum(), 123usize);
}

#[test]
fn case_3() {
    let mut iter = Partitions::new(739845, 192873);
    assert_eq!(iter.len(), 192873);
    assert_eq!(iter.sum(), 739845usize);
}
