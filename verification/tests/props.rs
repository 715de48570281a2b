use std::cmp::Ordering;

use mbox_algebra::{Config, MBox};

#[test]
fn from_count_zero_is_empty() {
    assert_eq!(MBox::from_count(0), MBox::new());
    assert!(MBox::from_count(0).boxes_ref().is_empty());
}

#[test]
fn sign_rules() {
    let pos = MBox::from_count(2);
    let neg = MBox::from_count(3).into_anti();
    assert!(pos.clone().add(neg.clone()).is_anti_box());
    assert!(neg.clone().add(pos.clone()).is_anti_box());
    assert!(neg.clone().add(neg.clone()).is_box());
    assert!(pos.clone().add(pos.clone()).is_box());
    assert!(pos.clone().mul(neg.clone()).is_anti_box());
    assert!(neg.clone().mul(pos.clone()).is_anti_box());
    assert!(neg.clone().mul(neg.clone()).is_box());
    assert!(pos.clone().mul(pos).is_box());
}

#[test]
fn power_laws() {
    let v = MBox::alpha().add(MBox::from_count(7)).wrap_anti();
    assert_eq!(v.clone().pow(0), MBox::from_count(1));
    assert_eq!(v.clone().pow(1), v);
}

#[test]
fn wrap_flip_involution() {
    let v = MBox::alpha().add(MBox::from_count(2));
    let wrapped = v.clone().wrap();
    assert_eq!(v.wrap().into_anti().into_anti(), wrapped);
}

#[test]
fn queries() {
    let zero = MBox::new();
    let anti_zero = MBox::new_anti();
    let one = MBox::from_count(1);
    assert!(zero.is_zero());
    assert!(!zero.is_anti_zero());
    assert!(anti_zero.is_anti_zero());
    assert!(!anti_zero.is_zero());
    assert!(!one.is_zero());
    assert_eq!(zero.box_type(), 1);
    assert_eq!(anti_zero.box_type(), -1);
    assert!(zero.is_box());
    assert!(anti_zero.is_anti_box());
}

#[test]
fn ordering_of_values() {
    let zero = MBox::new();
    let anti_zero = MBox::new_anti();
    let one = MBox::from_count(1);
    assert_eq!(zero.cmp(&anti_zero), Ordering::Less);
    assert_eq!(anti_zero.cmp(&zero), Ordering::Greater);
    assert_eq!(zero.cmp(&one), Ordering::Less);
    assert_eq!(one.cmp(&zero), Ordering::Greater);
    assert_eq!(one.cmp(&MBox::from_count(1)), Ordering::Equal);
    assert_eq!(one.cmp(&MBox::from_count(2)), Ordering::Less);
    assert!(zero < one);
    assert!(one < anti_zero);
}

#[test]
fn insert_replaces_equal_key() {
    let mut b = MBox::new();
    b.insert(MBox::new(), 3);
    b.insert(MBox::new(), 5);
    assert_eq!(b, MBox::from_count(5));
    assert_eq!(b.boxes_ref().len(), 1);
    let pairs = b.boxes();
    assert_eq!(pairs.len(), 1);
    assert_eq!(pairs[0].1, 5);
}

#[test]
fn annihilate_partial() {
    let mut b = MBox::new();
    b.insert(MBox::new(), 1);
    b.insert(MBox::new_anti(), 2);

    let mut rest = MBox::new();
    rest.insert(MBox::new_anti(), 1);
    assert_eq!(b.annihilate(), rest);
}

#[test]
fn annihilate_nested_and_idempotent() {
    let mut inner = MBox::new();
    inner.insert(MBox::new_anti(), 1);
    inner.insert(MBox::new(), 1);

    let mut b = MBox::new();
    b.insert(inner, 2);
    b.insert(MBox::alpha(), 1);

    let once = b.clone().annihilate();
    let twice = once.clone().annihilate();
    assert_eq!(once, twice);

    let mut expected = MBox::new();
    expected.insert(MBox::new(), 2);
    expected.insert(MBox::alpha(), 1);
    assert_eq!(once, expected);
}

#[test]
fn annihilate_keeps_untouched_terms() {
    let mut b = MBox::new_anti();
    b.insert(MBox::from_count(2), 4);
    let reduced = b.clone().annihilate();
    assert_eq!(reduced, b);
    assert!(reduced.is_anti_box());
}

#[test]
fn boxes_mut_ref_edits_in_place() {
    let mut b = MBox::new();
    b.boxes_mut_ref().push((MBox::new(), 2));
    assert_eq!(b, MBox::from_count(2));
    assert!(b.is_box());
    let mut a = MBox::new_anti();
    a.boxes_mut_ref().push((MBox::new(), 1));
    assert!(a.is_anti_box());
    assert_eq!(a, MBox::from_count(1).into_anti());
}

#[test]
fn config_build_ok() {
    let args = vec![String::from("prog"), String::from("notes.txt")];
    let config = Config::build(&args).unwrap();
    assert_eq!(config.file_path, "notes.txt");
}

#[test]
fn config_build_rejects_missing_path() {
    let args = vec![String::from("prog")];
    assert!(Config::build(&args).is_err());
}
