use toml_edit::integer::TomlIntegerFormat;

#[test]
fn positive() {
    assert_eq!(
        TomlIntegerFormat::new()
            .format(42)
            .map(|i| i.to_toml_value()),
        Some(String::from("42"))
    );
    assert_eq!(
        TomlIntegerFormat::new()
            .as_decimal()
            .format(42)
            .map(|i| i.to_toml_value()),
        Some(String::from("42"))
    );
    assert_eq!(
        TomlIntegerFormat::new()
            .as_hex_upper()
            .format(42)
            .map(|i| i.to_toml_value()),
        Some(String::from("0x2A"))
    );
    assert_eq!(
        TomlIntegerFormat::new()
            .as_hex_lower()
            .format(42)
            .map(|i| i.to_toml_value()),
        Some(String::from("0x2a"))
    );
    assert_eq!(
        TomlIntegerFormat::new()
            .as_octal()
            .format(42)
            .map(|i| i.to_toml_value()),
        Some(String::from("0o52"))
    );
    assert_eq!(
        TomlIntegerFormat::new()
            .as_binary()
            .format(42)
            .map(|i| i.to_toml_value()),
        Some(String::from("0b101010"))
    );
}

#[test]
fn negative() {
    assert_eq!(
        TomlIntegerFormat::new()
            .format(-42)
            .map(|i| i.to_toml_value()),
        Some(String::from("-42"))
    );
    assert_eq!(
        TomlIntegerFormat::new()
            .as_decimal()
            .format(-42)
            .map(|i| i.to_toml_value()),
        Some(String::from("-42"))
    );
    assert_eq!(
        TomlIntegerFormat::new()
            .as_hex_upper()
            .format(-42)
            .map(|i| i.to_toml_value()),
        None
    );
    assert_eq!(
        TomlIntegerFormat::new()
            .as_hex_lower()
            .format(-42)
            .map(|i| i.to_toml_value()),
        None
    );
    assert_eq!(
        TomlIntegerFormat::new()
            .as_octal()
            .format(-42)
            .map(|i| i.to_toml_value()),
        None
    );
    assert_eq!(
        TomlIntegerFormat::new()
            .as_binary()
            .format(-42)
            .map(|i| i.to_toml_value()),
        None
    );
}

#[test]
fn integer_extremes() {
    let f = TomlIntegerFormat::default();
    assert_eq!(f.format(0).unwrap().to_toml_value(), "0");
    assert_eq!(f.format(i128::MIN).unwrap().to_toml_value(), i128::MIN.to_string());
    assert_eq!(f.format(i128::MAX).unwrap().to_toml_value(), i128::MAX.to_string());
    assert_eq!(f.as_binary().format(0).unwrap().to_toml_value(), "0b0");
    assert_eq!(f.as_hex_upper().format(255).unwrap().to_toml_value(), "0xFF");
}
