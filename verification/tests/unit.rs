use xvii::{Roman, RomanUnitIterator};

#[test]
fn to_digit_works() {
    let digits = b"mDcLxVi";
    assert!(digits.iter().all(|&d| xvii::to_digit(d).is_ok()));

    let digits = b"aBeFgH";
    assert!(digits.iter().all(|&d| xvii::to_digit(d).is_err()));
}

#[test]
fn i_equals_1() {
    assert_eq!(1, "i".parse::<Roman>().unwrap().value());
    assert_eq!(1, "I".parse::<Roman>().unwrap().value());
}

#[test]
fn i_equals_sequence_1() {
    assert_eq!(1, RomanUnitIterator::new("i").next().unwrap().unwrap());
    assert_eq!(1, RomanUnitIterator::new("I").next().unwrap().unwrap());
}

#[test]
fn ix_equals_9() {
    assert_eq!(9, "ix".parse::<Roman>().unwrap().value());
}

#[test]
fn iiiiix_equals_5() {
    // Yes, this reads oddly, but it is how units are meant to work: the
    // whole run of five is subtracted from the ten as one block.
    assert_eq!(5, "iiiiix".parse::<Roman>().unwrap().value());
}
