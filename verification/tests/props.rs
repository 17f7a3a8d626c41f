use xvii::{Error, Roman, Style, MAX};

#[test]
fn round_trip_every_value_uppercase() {
    for n in 1..=MAX {
        let v = Roman::new(n).unwrap();
        let parsed: Roman = v.to_uppercase().parse().unwrap();
        assert_eq!(n, parsed.value());
    }
}

#[test]
fn round_trip_every_value_lowercase() {
    for n in 1..=MAX {
        let v = Roman::new(n).unwrap();
        let parsed: Roman = v.to_lowercase().parse().unwrap();
        assert_eq!(n, parsed.value());
    }
}

#[test]
fn length_at_most_15_except_4888() {
    for n in 1..=MAX {
        let len = Roman::new(n).unwrap().to_string().len();
        if n == 4888 {
            assert_eq!(16, len);
            assert_eq!("MMMMDCCCLXXXVIII", Roman::new(n).unwrap().to_string());
        } else {
            assert!(len <= 15);
        }
    }
}

#[test]
fn length_follows_digit_complexity_not_magnitude() {
    let long = Roman::new(3888).unwrap().to_string();
    let short = Roman::new(3000).unwrap().to_string();
    assert_eq!("MMMDCCCLXXXVIII", long);
    assert_eq!(15, long.len());
    assert_eq!("MMM", short);
    assert_eq!(3, short.len());
    assert!(long.len() > short.len());
}

#[test]
fn parse_is_case_insensitive() {
    let mixed: Roman = "mCmLxXxIv".parse().unwrap();
    let upper: Roman = "MCMLXXXIV".parse().unwrap();
    let lower: Roman = "mcmlxxxiv".parse().unwrap();
    assert_eq!(1984, mixed.value());
    assert_eq!(mixed.value(), upper.value());
    assert_eq!(mixed.value(), lower.value());
}

#[test]
fn invalid_digits_are_rejected() {
    assert_eq!(Err(Error::InvalidDigit(b'A')), "A".parse::<Roman>());
    assert_eq!(Err(Error::InvalidDigit(b'A')), "XIIA".parse::<Roman>());
    assert_eq!(Err(Error::InvalidDigit(b' ')), "X I".parse::<Roman>());
}

#[test]
fn empty_input_is_out_of_range() {
    // An empty numeral sums to zero, which the range check rejects.
    assert_eq!(Err(Error::OutOfRange(0)), "".parse::<Roman>());
}

#[test]
fn long_runs_of_m_overflow() {
    let seventy_m: String = "M".repeat(70);
    assert_eq!(Err(Error::Overflow), seventy_m.parse::<Roman>());
}

#[test]
fn sum_above_max_is_out_of_range() {
    assert_eq!(Err(Error::OutOfRange(5000)), "MMMMM".parse::<Roman>());
}

#[test]
fn non_canonical_repetition_is_tolerated() {
    assert_eq!(4, "IIII".parse::<Roman>().unwrap().value());
    assert_eq!(40, "XXXX".parse::<Roman>().unwrap().value());
    assert_eq!(5, "IIIIIX".parse::<Roman>().unwrap().value());
}

#[test]
fn formats_1984_and_2999() {
    assert_eq!("MCMLXXXIV", Roman::new(1984).unwrap().to_uppercase());
    assert_eq!("MMCMXCIX", Roman::new(2999).unwrap().to_uppercase());
}

#[test]
fn constructor_rejects_zero_and_above_max() {
    assert!(Roman::new(0).is_none());
    assert!(Roman::new(5000).is_none());
    assert!(Roman::new(1).is_some());
    assert!(Roman::new(MAX).is_some());
}

#[test]
fn formatter_renders_both_styles() {
    let value = Roman::new(12).unwrap();
    assert_eq!("XII", value.format(Style::Upper).to_string());
    assert_eq!("xii", value.format(Style::Lower).to_string());
}

#[test]
fn lowercase_formatting() {
    assert_eq!("xlii", Roman::new(42).unwrap().to_lowercase());
    assert_eq!("XLII", Roman::new(42).unwrap().to_uppercase());
}

#[test]
fn value_accessors_agree() {
    let seventeen: Roman = "XVII".parse().unwrap();
    assert_eq!(17, seventeen.value());
    assert_eq!(17, seventeen.into_inner());
    assert_eq!("XVII", seventeen.to_string());
}

#[test]
fn to_digit_values() {
    assert_eq!(Ok(1000), xvii::to_digit(b'M'));
    assert_eq!(Ok(500), xvii::to_digit(b'd'));
    assert_eq!(Ok(100), xvii::to_digit(b'C'));
    assert_eq!(Ok(50), xvii::to_digit(b'l'));
    assert_eq!(Ok(10), xvii::to_digit(b'X'));
    assert_eq!(Ok(5), xvii::to_digit(b'v'));
    assert_eq!(Ok(1), xvii::to_digit(b'I'));
    assert_eq!(Err(Error::InvalidDigit(b'q')), xvii::to_digit(b'q'));
}

#[test]
fn ladder_is_strictly_descending() {
    let entries = xvii::roman::ladder::ladder();
    assert_eq!(13, entries.len());
    for pair in entries.windows(2) {
        assert!(pair[0].value > pair[1].value);
    }
    assert_eq!(1000, entries[0].value);
    assert_eq!("M", entries[0].upper);
    assert_eq!("m", entries[0].lower);
    assert_eq!("CM", entries[1].upper);
    assert_eq!(1, entries[12].value);
    assert_eq!("I", entries[12].upper);
}

#[test]
fn unit_iterator_consumes_invalid_byte_with_its_error() {
    // The invalid byte is consumed along with its error and the active run
    // survives, so iteration can go on behind it; a parse still stops at
    // the first error.
    let mut units = xvii::RomanUnitIterator::new("iAi");
    assert_eq!(
        Some(Err(Error::InvalidDigit(b'A'))),
        units.next()
    );
    assert_eq!(Some(Ok(2)), units.next());
    assert_eq!(None, units.next());
    assert_eq!(Err(Error::InvalidDigit(b'A')), "iAi".parse::<Roman>());
}

#[test]
fn unit_iterator_splits_units() {
    let mut units = xvii::RomanUnitIterator::new("xii");
    assert_eq!(Some(Ok(10)), units.next());
    assert_eq!(Some(Ok(2)), units.next());
    assert_eq!(None, units.next());

    let mut nine = xvii::RomanUnitIterator::new("IX");
    assert_eq!(Some(Ok(9)), nine.next());
    assert_eq!(None, nine.next());
}
