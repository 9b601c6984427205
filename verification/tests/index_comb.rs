use morsql::index_comb::given_bounds;

#[test]
fn index_test1() {
    let bounds = vec![2, 2, 2];
    let mut iter = given_bounds(bounds);
    let i0 = iter.next();
    assert_eq!(i0, Some(vec![0, 0, 0]));
    let i1 = iter.next();
    assert_eq!(i1, Some(vec![1, 0, 0]));
    let i2 = iter.next();
    assert_eq!(i2, Some(vec![0, 1, 0]));
    let i3 = iter.next();
    assert_eq!(i3, Some(vec![1, 1, 0]));
    let i4 = iter.next();
    assert_eq!(i4, Some(vec![0, 0, 1]));
    let i5 = iter.next();
    assert_eq!(i5, Some(vec![1, 0, 1]));
    let i6 = iter.next();
    assert_eq!(i6, Some(vec![0, 1, 1]));
    let i7 = iter.next();
    assert_eq!(i7, Some(vec![1, 1, 1]));
    let i8 = iter.next();
    assert_eq!(i8, None);
}

#[test]
fn zero_bound_yields_nothing() {
    let mut iter = given_bounds(vec![2, 0, 3]);
    assert_eq!(iter.next(), None);
    assert_eq!(iter.next(), None);
}

#[test]
fn single_dimension_counts_up() {
    let mut iter = given_bounds(vec![3]);
    assert_eq!(iter.next(), Some(vec![0]));
    assert_eq!(iter.next(), Some(vec![1]));
    assert_eq!(iter.next(), Some(vec![2]));
    assert_eq!(iter.next(), None);
}

#[test]
fn empty_bounds_yield_one_empty_tuple() {
    let mut iter = given_bounds(vec![]);
    assert_eq!(iter.next(), Some(vec![]));
    assert_eq!(iter.next(), None);
}

#[test]
fn mixed_radix_order() {
    let mut iter = given_bounds(vec![3, 2]);
    let mut all = Vec::new();
    while let Some(t) = iter.next() {
        all.push(t);
    }
    assert_eq!(
        all,
        vec![
            vec![0, 0],
            vec![1, 0],
            vec![2, 0],
            vec![0, 1],
            vec![1, 1],
            vec![2, 1],
        ]
    );
}
