use rust_1brc::{Station, TempResult};

fn st(name: &str, temp: i64) -> Station {
    Station { city: name.as_bytes().to_vec(), temp }
}

#[test]
fn new_seeds_all_fields_with_one_value() {
    let a = TempResult::new(&st("A", 125));
    assert_eq!(a.min, 125);
    assert_eq!(a.max, 125);
    assert_eq!(a.total, 125);
    assert_eq!(a.count, 1);
}

#[test]
fn update_tracks_min_max_total_count() {
    let mut a = TempResult::new(&st("A", 100));
    a.update(300);
    a.add_assign(&st("A", -50));
    assert_eq!(a.min, -50);
    assert_eq!(a.max, 300);
    assert_eq!(a.total, 350);
    assert_eq!(a.count, 3);
}

#[test]
fn merge_combines_extremes_and_sums() {
    let mut a = TempResult::new(&st("A", 100));
    a.update(200);
    let mut b = TempResult::new(&st("A", -70));
    b.update(40);
    let m = a.merge(&b);
    assert_eq!(m.min, -70);
    assert_eq!(m.max, 200);
    assert_eq!(m.total, 270);
    assert_eq!(m.count, 4);
}

#[test]
fn merge_is_commutative_and_associative_on_values() {
    let a = TempResult::new(&st("A", 17));
    let mut b = TempResult::new(&st("A", -3));
    b.update(99);
    let mut c = TempResult::new(&st("A", 5));
    c.update(5);
    c.update(-41);

    let ab = a.merge(&b);
    let ba = b.merge(&a);
    assert_eq!((ab.min, ab.max, ab.total, ab.count), (ba.min, ba.max, ba.total, ba.count));

    let ab_c = ab.merge(&c);
    let bc = b.merge(&c);
    let a_bc = a.merge(&bc);
    assert_eq!(
        (ab_c.min, ab_c.max, ab_c.total, ab_c.count),
        (a_bc.min, a_bc.max, a_bc.total, a_bc.count)
    );
}

#[test]
fn merging_a_seed_equals_updating() {
    let mut a = TempResult::new(&st("A", 10));
    a.update(30);
    let b = TempResult::new(&st("A", 20));
    let merged = a.merge(&b);
    let mut updated = TempResult::new(&st("A", 10));
    updated.update(30);
    updated.update(20);
    assert_eq!(
        (merged.min, merged.max, merged.total, merged.count),
        (updated.min, updated.max, updated.total, updated.count)
    );
}

#[test]
fn mean_is_rounded_to_nearest_tenth() {
    let mut a = TempResult::new(&st("A", 100));
    a.update(200);
    // 15.0 exactly
    assert_eq!(a.mean(), 150);
    a.update(200);
    // 500 / 3 = 166.67 tenths, nearest is 167
    assert_eq!(a.mean(), 167);
    let mut b = TempResult::new(&st("B", -1));
    b.update(-2);
    // -0.15 units: ties away from zero gives -0.2
    assert_eq!(b.mean(), -2);
}

#[test]
fn mean_stays_between_min_and_max() {
    let mut a = TempResult::new(&st("A", -37));
    for v in [-300, 555, 21, -8, 0, 999] {
        a.update(v);
    }
    let m = a.mean();
    assert!(a.min <= m && m <= a.max);
    assert!(a.count >= 1);
}
