use sylo::charset::CharSet;

#[test]
fn contains() {
    let set1 = CharSet::range(10, 20);
    let set2 = CharSet::range(30, 40);
    let set3 = CharSet::range(50, 60);
    let set4 = CharSet::range(70, 80);
    let set5 = CharSet::range(90, 100);
    let set = set1.union(&set2).union(&set3).union(&set4).union(&set5);

    for x in 0..10 { assert!(!set.contains(x)); }
    for x in 10..=20 { assert!(set.contains(x)); }
    for x in 21..30 { assert!(!set.contains(x)); }
    for x in 30..=40 { assert!(set.contains(x)); }
    for x in 41..50 { assert!(!set.contains(x)); }
    for x in 50..=60 { assert!(set.contains(x)); }
    for x in 61..70 { assert!(!set.contains(x)); }
    for x in 70..=80 { assert!(set.contains(x)); }
    for x in 81..90 { assert!(!set.contains(x)); }
    for x in 90..=100 { assert!(set.contains(x)); }
    for x in 101..110 { assert!(!set.contains(x)); }
}

#[test]
fn intersection() {
    let set1 = CharSet::range(60, 180);
    let set2 = set1.complement();

    assert_eq!(set2.intervals(), &[(0, 59), (181, 255)]);
    let empty: [(u8, u8); 0] = [];
    assert_eq!(set2.intersection(&set1).intervals(), &empty);
    assert_eq!(CharSet::empty().intervals(), CharSet::range(0, 255).complement().intervals());
}

#[test]
fn union() {
    let set1 = CharSet::range(60, 180);
    let set2 = CharSet::range(10, 20);
    let set3 = CharSet::range(150, 200);

    let union = set1.union(&set2).union(&set3);

    assert_eq!(union.intervals(), &[(10, 20), (60, 200)]);
}

#[test]
fn chars() {
    let set = CharSet::range(1, 3).union(&CharSet::range(5, 7));
    let mut iter = set.chars();
    assert_eq!(iter.next(), Some(1_u8));
    assert_eq!(iter.next(), Some(2_u8));
    assert_eq!(iter.next(), Some(3_u8));
    assert_eq!(iter.next(), Some(5_u8));
    assert_eq!(iter.next(), Some(6_u8));
    assert_eq!(iter.next(), Some(7_u8));
    assert_eq!(iter.next(), None);
}
