use power_token::keys::{id_of, key_of};

#[test]
fn an_id_is_written_in_decimal() {
    assert_eq!(key_of(0), "0");
    assert_eq!(key_of(7), "7");
    assert_eq!(key_of(10), "10");
    assert_eq!(key_of(256), "256");
    assert_eq!(key_of(1_000_000), "1000000");
    assert_eq!(key_of(u32::MAX), "4294967295");
}

#[test]
fn a_key_is_read_as_the_id_it_names() {
    assert_eq!(id_of("0"), Some(0));
    assert_eq!(id_of("9"), Some(9));
    assert_eq!(id_of("256"), Some(256));
    assert_eq!(id_of("4294967295"), Some(u32::MAX));
    for id in [0u32, 1, 9, 10, 99, 100, 255, 256, 65535, 123456789, u32::MAX] {
        assert_eq!(id_of(&key_of(id)), Some(id));
    }
}

#[test]
fn what_is_not_the_decimal_text_of_an_id_names_none() {
    assert_eq!(id_of(""), None);
    assert_eq!(id_of("00"), None);
    assert_eq!(id_of("01"), None);
    assert_eq!(id_of("-1"), None);
    assert_eq!(id_of("+1"), None);
    assert_eq!(id_of("1 "), None);
    assert_eq!(id_of("12a"), None);
    assert_eq!(id_of("1.0"), None);
    assert_eq!(id_of("4294967296"), None);
    assert_eq!(id_of("99999999999999999999999"), None);
    assert_eq!(id_of("١٢"), None);
}
