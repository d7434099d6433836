use partitions::Partitions;

fn drain(mut g: Partitions) -> Vec<usize> {
    let mut out = Vec::new();
    while let Some(v) = g.next() {
        out.push(v);
    }
    out
}

#[test]
fn conservation_concrete() {
    let shares = drain(Partitions::new(123, 14));
    assert_eq!(shares.iter().sum::<usize>(), 123);
    let shares = drain(Partitions::new(739845, 192873));
    assert_eq!(shares.iter().sum::<usize>(), 739845);
}

#[test]
fn count_concrete() {
    assert_eq!(drain(Partitions::new(123, 14)).len(), 14);
    assert_eq!(drain(Partitions::new(10, 3)).len(), 3);
}

#[test]
fn size_counts_down_per_pull() {
    let mut g = Partitions::new(10, 3);
    assert_eq!(g.len(), 3);
    g.next();
    assert_eq!(g.len(), 2);
    g.next();
    assert_eq!(g.len(), 1);
    g.next();
    assert_eq!(g.len(), 0);
}

#[test]
fn exhaustion_is_final() {
    let mut g = Partitions::new(1, 1);
    assert_eq!(g.next(), Some(1));
    assert_eq!(g.next(), None);
    assert_eq!(g.next(), None);
    assert_eq!(g.next(), None);
}

#[test]
fn zero_total_starts_exhausted() {
    let mut g = Partitions::new(0, 0);
    assert_eq!(g.len(), 0);
    assert_eq!(g.next(), None);
    assert_eq!(g.next(), None);
}

#[test]
fn near_equality_and_balance() {
    let shares = drain(Partitions::new(123, 14));
    let naive = 123 / 14;
    for &v in &shares {
        assert!(v == naive || v == naive + 1);
    }
    for w in shares.windows(2) {
        assert!(w[0] <= w[1] && w[1] <= w[0] + 1);
    }
}

#[test]
fn exact_shape_smallest_first() {
    // 123 = 14 * 8 + 11: eleven of the fourteen shares round up.
    let shares = drain(Partitions::new(123, 14));
    let mut expected = vec![8; 3];
    expected.extend(vec![9; 11]);
    assert_eq!(shares, expected);
    assert_eq!(drain(Partitions::new(9, 3)), vec![3, 3, 3]);
    assert_eq!(drain(Partitions::new(5, 1)), vec![5]);
}

#[test]
fn precondition_rejected() {
    assert!(Partitions::try_new(2, 5).is_none());
    let mut g = Partitions::try_new(10, 3).unwrap();
    assert_eq!(g.len(), 3);
    assert_eq!(g.sum(), 10);
}
