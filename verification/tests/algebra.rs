use mbox_algebra::MBox;

#[test]
fn add_1() {
    let three = MBox::from_count(3);
    let five = MBox::from_count(5);
    let eight = MBox::from_count(8);
    assert_eq!(three.add(five), eight);
}

#[test]
fn add_2() {
    let four = MBox::from_count(4);
    let alpha_5 = MBox::alpha().pow(5);

    let mut b0 = MBox::new();
    let b1 = MBox::new();
    let b2 = MBox::from_count(5);
    b0.insert(b1, 4);
    b0.insert(b2, 1);

    assert_eq!(four.add(alpha_5), b0);
}

#[test]
fn add_3() {
    let b1 = MBox::new();
    let b2 = MBox::new();
    let b3 = MBox::new();
    assert_eq!(b1.add(b2), b3);
}

#[test]
fn add_4() {
    let b1 = MBox::from_count(0);
    let b2 = MBox::from_count(0);
    let b3 = MBox::from_count(0);
    assert_eq!(b1.add(b2), b3);
}

#[test]
fn test_equality_1() {
    let mut b1 = MBox::from_count(2);
    let b2 = MBox::from_count(5);
    b1.insert(b2, 1);

    let mut b3 = MBox::from_count(2);
    let b4 = MBox::from_count(5);
    b3.insert(b4, 1);
    assert_eq!(b1, b3);
}

#[test]
fn test_equality_2() {
    let mut b1 = MBox::new();
    let b2 = MBox::from_count(5);
    let b3 = MBox::from_count(3);

    b1.insert(b2, 1);
    b1.insert(b3, 1);

    let mut b4 = MBox::new();
    let b5 = MBox::from_count(5);
    let b6 = MBox::from_count(3);

    b4.insert(b6, 1);
    b4.insert(b5, 1);

    assert_eq!(b1, b4);
}

#[test]
fn mult_1() {
    let b1 = MBox::from_count(3);
    let b2 = MBox::from_count(5);

    let b3 = MBox::from_count(15);

    assert_eq!(b1.mul(b2), b3);
}

#[test]
fn mult_2() {
    let one = MBox::from_count(1);
    let two = MBox::from_count(2);
    let alpha = MBox::alpha();

    let mut b = MBox::new();
    b.insert(MBox::new(), 1);
    b.insert(one.clone(), 2);

    let p = one.add(two.mul(alpha));

    assert_eq!(b, p);
}

#[test]
fn mult_3() {
    let b1 = MBox::new();
    let b2 = MBox::from_count(3);
    let mut b3 = MBox::new();
    b3.insert(b1.clone(), 3);
    b3.insert(b2.clone(), 1);

    let b4 = MBox::new();
    let b5 = MBox::from_count(2);
    let mut b6 = MBox::new();
    b6.insert(b4.clone(), 2);
    b6.insert(b5.clone(), 1);

    let two = MBox::from_count(2);
    let three = MBox::from_count(3);
    let six = MBox::from_count(6);
    let alpha = MBox::alpha();
    let alpha_2 = alpha.clone().pow(2);
    let alpha_3 = alpha.clone().pow(3);
    let alpha_5 = alpha.clone().pow(5);
    let p = six.add(three.mul(alpha_2)).add(two.mul(alpha_3)).add(alpha_5);

    assert_eq!(b3.mul(b6), p);
}

#[test]
fn mult_4() {
    let anti_one = MBox::from_count(1).into_anti();
    let two = MBox::from_count(2);
    let alpha = MBox::alpha();

    let mut b = MBox::new_anti();
    b.insert(MBox::new(), 1);
    b.insert(MBox::from_count(1), 2);

    let p = anti_one.add(two.mul(alpha));

    assert_eq!(b, p);
}

#[test]
fn test_annihilate_1() {
    let mut b = MBox::new();
    b.insert(MBox::new_anti(), 1);
    b.insert(MBox::new(), 1);

    assert_eq!(b.annihilate(), MBox::new());
}
