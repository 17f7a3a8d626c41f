use xvii::{Error, Roman};

#[test]
fn mcmlxxxiv_equals_1984() {
    assert_eq!("MCMLXXXIV", Roman::new(1984).unwrap().to_string());
}

#[test]
fn mmdxxix_equals_2529() {
    assert_eq!("MMDXXIX", Roman::new(2529).unwrap().to_string());
}

#[test]
fn mmcmxcix_equals_2999() {
    assert_eq!("MMCMXCIX", Roman::new(2999).unwrap().to_string());
}

#[test]
fn mmmcmxcix_value_equals_3999() {
    assert_eq!("MMMCMXCIX", Roman::new(3999).unwrap().to_string());
}

#[test]
fn max_value_equals_4999() {
    assert_eq!("MMMMCMXCIX", Roman::new(4999).unwrap().to_string());
}

#[test]
fn mmmmcmxcix_parses_as_4999() {
    let result: Roman = "MMMMCMXCIX".parse().unwrap();
    assert_eq!(4999, result.value());
}

#[test]
fn overflow() {
    assert_eq!(
        Err(Error::Overflow),
        "MMMMMMMMMMMMMMMMMMMMMMMMMMMMMMMMMMMMMMMMMMMMMMMMMMMMMMMMMMMMMMMMMCM".parse::<Roman>()
    );

    assert_eq!(
        Err(Error::Overflow),
        "CMCMCMCMCMCMCMCMCMCMCMCMCMCMCMCMCMCMCMCMCMCMCMCMCMCMCMCMCMCMCMCMCMCMCMCMCMCMCMCMCMCMCMCMCMCMCMCMCMCMCMCMCMCMCMCMCMCMCMCMCMCMCMCMCMCMCMCMCMCMCMCMCMCMCMCMCMCMCMCMCMCMCMCMCMCMCMCMCMCMCMCMCMCMCMCM".parse::<Roman>()
    );

    assert_eq!(
        Err(Error::Overflow),
        "MMMMMMMMMMMMMMMMMMMMMMMMMMMMMMMMMMMMMCMCMCMCMCMCMCMCMCMCMCMCMCMCMCMCMCMCMCMCMCDCDCDCDCDCDCDCDCDCDCDCDCDCDCDCDCDCDCDCDCDCDCDCDCDCDCDCDCDCDCDCDCDCDCDCDCDCDCDCDCDCDCDCDCDCDCDCDCDCDCDCDCDCDCDCDCDCDCDCDCDCD".parse::<Roman>()
    );

    assert_eq!(
        Err(Error::Overflow),
        "MMMMMMMMMMMMMMMMMMMMMMMMMMMMMMMMMMMMMMMMMMMMMMMMMMMMMMMMMMMMMMMMMM".parse::<Roman>()
    );

    assert_eq!(
        Err(Error::Overflow),
        "MMMMMMMMMMMMMMMMMMMMMMMMMMMMMMMMMMMMMMMMMMMMMMMMMMMMMMMMMMMMMMMMMMMMMMMMMMMMMMMMMMMMMMMMMMMMMMMMMMMMMMMMMMMMMMMMMMMMMMMMMMMMMMMMMMMMMMMMMMMMMMM".parse::<Roman>()
    );
}
