use walker_constellation_calculator::coverage::{row_span, CoverageMap};

#[test]
fn combine_min_basics() {
    let mut a = CoverageMap::new(4, 2);
    let mut b = CoverageMap::new(4, 2);
    a.data[0] = Some(10);
    a.data[1] = None;
    b.data[0] = Some(5);
    b.data[1] = Some(7);
    a.combine_min(&b);
    assert_eq!(a.data[0], Some(5));
    assert_eq!(a.data[1], Some(7));
}

#[test]
fn new_map_is_uncovered() {
    let m = CoverageMap::new(3, 2);
    assert_eq!(m.width, 3);
    assert_eq!(m.height, 2);
    assert_eq!(m.data, vec![None; 6]);
    assert_eq!(m.uncovered_count(), 6);
    assert_eq!(m.latest_first_coverage(), None);
}

#[test]
fn combine_min_keeps_earlier_and_covered() {
    let mut a = CoverageMap::new(2, 2);
    let mut b = CoverageMap::new(2, 2);
    a.data = vec![Some(3), Some(9), None, None];
    b.data = vec![Some(4), Some(2), Some(8), None];
    a.combine_min(&b);
    assert_eq!(a.data, vec![Some(3), Some(2), Some(8), None]);
}

#[test]
fn combine_min_order_does_not_matter() {
    let x = vec![Some(3), None, Some(7), Some(1)];
    let y = vec![Some(5), Some(6), None, Some(0)];
    let z = vec![None, Some(2), Some(9), Some(4)];
    let mut first = CoverageMap::new(2, 2);
    first.data = x.clone();
    let mut second = CoverageMap::new(2, 2);
    second.data = x;
    let mut my = CoverageMap::new(2, 2);
    my.data = y;
    let mut mz = CoverageMap::new(2, 2);
    mz.data = z;
    first.combine_min(&my);
    first.combine_min(&mz);
    second.combine_min(&mz);
    second.combine_min(&my);
    assert_eq!(first.data, second.data);
    assert_eq!(first.data, vec![Some(3), Some(2), Some(7), Some(0)]);
}

#[test]
fn record_coverage_wraps_columns_and_keeps_earliest() {
    let mut m = CoverageMap::new(4, 3);
    m.record_coverage(5, 1, 20);
    assert_eq!(m.data[4 + 1], Some(20));
    m.record_coverage(-1, 2, 30);
    assert_eq!(m.data[2 * 4 + 3], Some(30));
    m.record_coverage(1, 1, 25);
    assert_eq!(m.data[5], Some(20));
    m.record_coverage(-7, 1, 10);
    assert_eq!(m.data[5], Some(10));
    assert_eq!(m.uncovered_count(), 10);
    assert_eq!(m.latest_first_coverage(), Some(30));
}

#[test]
fn latest_first_coverage_is_not_below_zero() {
    let mut m = CoverageMap::new(2, 1);
    m.data = vec![Some(-5), None];
    assert_eq!(m.latest_first_coverage(), Some(0));
    assert_eq!(m.uncovered_count(), 1);
}

#[test]
fn row_span_is_at_most_one_turn() {
    assert_eq!(row_span(3, 8, 10), (3, 8));
    assert_eq!(row_span(-4, 20, 10), (-4, 6));
    assert_eq!(row_span(-4, 6, 10), (-4, 6));
}
