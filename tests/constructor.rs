use bigint::{Base, BigInt};

#[test]
fn should_create_a_bigint_from_2_bytes() {
    // Given
    let data = vec![0xE4, 0x08];

    // When
    let bigint = BigInt::from_bytes(data.clone());

    // Then
    assert_eq!(bigint.data()[0], 0xE4);
    assert_eq!(bigint.data()[1], 0x08);
}

#[test]
fn should_create_a_bigint_from_a_string() {
    // Given
    let data = "1234567890".to_string();

    // When
    let bigint = BigInt::from_string(data, Base::Decimal);

    // Then
    assert_eq!(*bigint.data(), vec![0xD2, 0x02, 0x96, 0x49]);
}

#[test]
fn should_create_a_bigint_from_a_string_hexadecimal() {
    // Given
    let data = "1A2B".to_string();

    // When
    let bigint = BigInt::from_string(data, Base::Hexadecimal);

    // Then
    assert_eq!(*bigint.data(), vec![0x2B, 0x1A]);
}

#[test]
fn should_create_bigint_from_an_empty_string() {
    let bigint_value = BigInt::from_string("".to_string(), Base::Decimal);

    assert_eq!(bigint_value.to_string(Base::Binary), "0");
    assert_eq!(bigint_value.to_string(Base::Octal), "0");
    assert_eq!(bigint_value.to_string(Base::Decimal), "0");
    assert_eq!(bigint_value.to_string(Base::Hexadecimal), "0");
}

#[test]
fn should_create_bigint_from_a_string_with_zero() {
    let bigint_value = BigInt::from_string("0".to_string(), Base::Decimal);

    assert_eq!(bigint_value.to_string(Base::Binary), "0");
    assert_eq!(bigint_value.to_string(Base::Octal), "0");
    assert_eq!(bigint_value.to_string(Base::Decimal), "0");
    assert_eq!(bigint_value.to_string(Base::Hexadecimal), "0");
}

#[test]
fn should_create_bigint_from_a_string_with_a_single_digit() {
    let bigint_value = BigInt::from_string("1".to_string(), Base::Decimal);

    assert_eq!(bigint_value.to_string(Base::Binary), "1");
    assert_eq!(bigint_value.to_string(Base::Octal), "1");
    assert_eq!(bigint_value.to_string(Base::Decimal), "1");
    assert_eq!(bigint_value.to_string(Base::Hexadecimal), "1");
}

#[test]
fn should_create_bigint_from_a_string_with_a_small_number() {
    let bigint_value = BigInt::from_string("123".to_string(), Base::Decimal);

    assert_eq!(bigint_value.to_string(Base::Binary), "1111011");
    assert_eq!(bigint_value.to_string(Base::Octal), "173");
    assert_eq!(bigint_value.to_string(Base::Decimal), "123");
    assert_eq!(bigint_value.to_string(Base::Hexadecimal), "7B");
}

#[test]
fn should_create_bigint_from_a_string_with_a_big_number() {
    let bigint_value = BigInt::from_string("1234567890".to_string(), Base::Decimal);

    assert_eq!(
        bigint_value.to_string(Base::Binary),
        "1001001100101100000001011010010"
    );
    assert_eq!(bigint_value.to_string(Base::Octal), "11145401322");
    assert_eq!(bigint_value.to_string(Base::Decimal), "1234567890");
    assert_eq!(bigint_value.to_string(Base::Hexadecimal), "499602D2");
}
