use batsmen::pipeline::filter_records;
use batsmen::record::Record;
use batsmen::slices;
use batsmen::sort::sorted;
use std::cmp::Ordering;

fn rec(initials: &str, surname: &str, runs: u32, average: i32) -> Record {
    Record {
        initials: initials.to_string(),
        surname: surname.to_string(),
        runs,
        average,
    }
}

#[test]
fn equality_spans_all_fields() {
    assert_eq!(rec("AB", "Clarke", 120, 46), rec("AB", "Clarke", 120, 46));
    assert_ne!(rec("AB", "Clarke", 120, 46), rec("AB", "Clarke", 120, 45));
    assert_ne!(rec("AB", "Clarke", 120, 46), rec("AB", "Clarke", 121, 46));
    assert_ne!(rec("AB", "Clarke", 120, 46), rec("AB", "Cook", 120, 46));
    assert_ne!(rec("AB", "Clarke", 120, 46), rec("CD", "Clarke", 120, 46));
}

#[test]
fn ordering_looks_at_runs_alone() {
    let a = rec("AB", "Clarke", 120, 46);
    let b = rec("EF", "Cook", 150, 50);
    let c = rec("GH", "Cullen", 150, 20);
    assert_eq!(a.partial_cmp(&b), Some(Ordering::Less));
    assert_eq!(b.partial_cmp(&a), Some(Ordering::Greater));
    assert_eq!(b.partial_cmp(&c), Some(Ordering::Equal));
    assert!(a < b);
    assert!(b >= c);
}

#[test]
fn filter_keeps_matching_surnames_in_order() {
    let v = vec![
        rec("AB", "Clarke", 120, 46),
        rec("CD", "Smith", 80, 30),
        rec("EF", "Cook", 150, 50),
    ];
    let kept = filter_records(&v);
    assert_eq!(kept.len(), 2);
    assert_eq!(kept[0].surname, "Clarke");
    assert_eq!(kept[1].surname, "Cook");
}

#[test]
fn filter_excludes_empty_surname() {
    let v = vec![rec("AB", "", 120, 46)];
    assert_eq!(filter_records(&v).len(), 0);
}

#[test]
fn filter_is_idempotent() {
    let v = vec![
        rec("AB", "Clarke", 120, 46),
        rec("CD", "Smith", 80, 30),
        rec("EF", "Cook", 150, 50),
        rec("GH", "cullen", 150, 20),
    ];
    let once = filter_records(&v);
    let twice = filter_records(&once);
    assert_eq!(once, twice);
}

#[test]
fn sort_is_descending_and_stable() {
    let v = vec![
        rec("AB", "Clarke", 120, 46),
        rec("EF", "Cook", 150, 50),
        rec("GH", "Cullen", 150, 20),
        rec("IJ", "Carr", 90, 10),
    ];
    let s = sorted(&v);
    assert_eq!(s.len(), 4);
    assert_eq!(s[0].surname, "Cook");
    assert_eq!(s[1].surname, "Cullen");
    assert_eq!(s[2].surname, "Clarke");
    assert_eq!(s[3].surname, "Carr");
    for w in s.windows(2) {
        assert!(w[0].runs >= w[1].runs);
    }
}

#[test]
fn sorting_twice_is_idempotent() {
    let v = vec![
        rec("AB", "Clarke", 120, 46),
        rec("EF", "Cook", 150, 50),
        rec("GH", "Cullen", 150, 20),
    ];
    let once = sorted(&v);
    let twice = sorted(&once);
    assert_eq!(once, twice);
}

#[test]
fn sorting_leaves_input_unchanged() {
    let v = vec![
        rec("AB", "Clarke", 120, 46),
        rec("EF", "Cook", 150, 50),
        rec("GH", "Cullen", 150, 20),
    ];
    let copy = v.clone();
    let _s = sorted(&v);
    assert_eq!(v, copy);
}

#[test]
fn sorting_empty_and_singleton() {
    assert_eq!(sorted(&Vec::new()), Vec::<Record>::new());
    let v = vec![rec("AB", "Clarke", 120, 46)];
    let s = sorted(&v);
    assert_eq!(s, v);
}

#[test]
fn slices_returns_the_two_words() {
    let (hello, world) = slices();
    assert_eq!(hello, "hello");
    assert_eq!(world, "world");
}
