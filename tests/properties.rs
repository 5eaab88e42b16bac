use bigint::{Base, BigInt};

#[test]
fn round_trip_keeps_canonical_strings() {
    let cases = [
        ("101101", Base::Binary),
        ("7654321", Base::Octal),
        ("98765432109876543210", Base::Decimal),
        ("DEADBEEF0123", Base::Hexadecimal),
        ("0", Base::Decimal),
    ];
    for (text, base) in cases {
        let value = BigInt::from_string(text.to_string(), base);
        assert_eq!(value.to_string(base), text);
    }
}

#[test]
fn round_trip_gives_canonical_form() {
    let value = BigInt::from_string("00ff".to_string(), Base::Hexadecimal);
    assert_eq!(value.to_string(Base::Hexadecimal), "FF");

    let value = BigInt::from_string("0000".to_string(), Base::Binary);
    assert_eq!(value.to_string(Base::Binary), "0");

    let value = BigInt::from_string("00120".to_string(), Base::Decimal);
    assert_eq!(value.to_string(Base::Decimal), "120");
}

#[test]
fn rendered_text_parses_back() {
    let value = BigInt::from_bytes(vec![0x15, 0xCD, 0x5B, 0x07]);
    for base in [Base::Binary, Base::Octal, Base::Decimal, Base::Hexadecimal] {
        let text = value.to_string(base);
        assert_eq!(BigInt::from_string(text, base), value);
    }
}

#[test]
fn lower_case_letters_read_as_upper_case() {
    let lower = BigInt::from_string("1a2b".to_string(), Base::Hexadecimal);
    let upper = BigInt::from_string("1A2B".to_string(), Base::Hexadecimal);
    assert_eq!(lower, upper);
    assert_eq!(*lower.data(), vec![0x2B, 0x1A]);
}

#[test]
fn parsing_zero_strings() {
    assert_eq!(
        *BigInt::from_string("".to_string(), Base::Decimal).data(),
        Vec::<u8>::new()
    );
    assert_eq!(*BigInt::from_string("0".to_string(), Base::Decimal).data(), vec![0]);
    assert_eq!(*BigInt::from_string("000".to_string(), Base::Octal).data(), vec![0]);
}

#[test]
fn adding_empty_value_is_identity() {
    let v = BigInt::from_bytes(vec![0xE4, 0x08]);
    assert_eq!(v.clone() + BigInt::from_bytes(vec![]), v);

    let padded = BigInt::from_bytes(vec![0x07, 0x00, 0x00]);
    assert_eq!(padded.clone() + BigInt::from_bytes(vec![]), padded);

    let empty = BigInt::from_bytes(vec![]);
    assert_eq!(empty.clone() + BigInt::from_bytes(vec![]), empty);
}

#[test]
fn addition_commutes() {
    let a = BigInt::from_bytes(vec![0xFF, 0x10]);
    let b = BigInt::from_bytes(vec![0x02, 0xFF, 0xFF]);
    assert_eq!(a.clone() + b.clone(), b + a);

    let c = BigInt::from_bytes(vec![0x01]);
    let d = BigInt::from_bytes(vec![0xFF, 0xFF, 0xFF]);
    assert_eq!(c.clone() + d.clone(), d + c);
}

#[test]
fn carry_grows_result_by_one_chunk() {
    let sum = BigInt::from_bytes(vec![0xFF, 0xFF]) + BigInt::from_bytes(vec![0x01]);
    assert_eq!(sum, BigInt::from_bytes(vec![0x00, 0x00, 0x01]));

    let sum = BigInt::from_bytes(vec![0xFF]) + BigInt::from_bytes(vec![0xFF]);
    assert_eq!(*sum.data(), vec![0xFE, 0x01]);
}

#[test]
fn addition_keeps_zero_chunks_of_the_operands() {
    let sum = BigInt::from_bytes(vec![0x01, 0x00]) + BigInt::from_bytes(vec![0x02]);
    assert_eq!(*sum.data(), vec![0x03, 0x00]);
}

#[test]
fn zero_chunks_are_zero() {
    let zero = BigInt::from_bytes(vec![0, 0, 0]);
    assert!(zero.is_zero());
    assert_eq!(zero.to_string(Base::Decimal), "0");
    assert_eq!(zero.to_string(Base::Hexadecimal), "0");
}

#[test]
fn decimal_to_hexadecimal_and_binary() {
    let value = BigInt::from_string("1234567890".to_string(), Base::Decimal);
    assert_eq!(value.to_string(Base::Hexadecimal), "499602D2");
    assert_eq!(
        value.to_string(Base::Binary),
        "1001001100101100000001011010010"
    );
}

#[test]
fn equality_does_not_trim() {
    assert_ne!(
        BigInt::from_bytes(vec![0xE4, 0x08]),
        BigInt::from_bytes(vec![0xE4])
    );

    let padded = BigInt::from_bytes(vec![0xE4, 0x00]);
    let short = BigInt::from_bytes(vec![0xE4]);
    assert_ne!(padded, short);
    assert_eq!(padded.to_string(Base::Decimal), short.to_string(Base::Decimal));

    // Values built by parsing are normalized, so they compare equal.
    let a = BigInt::from_string("228".to_string(), Base::Decimal);
    let b = BigInt::from_string("0228".to_string(), Base::Decimal);
    assert_eq!(a, b);
    assert_eq!(a, short);
}

#[test]
fn multiply_edge_cases() {
    let zero = BigInt::from_bytes(vec![0, 0]);
    assert_eq!(*zero.multiply_by_small(7).data(), Vec::<u8>::new());

    let value = BigInt::from_bytes(vec![0x05, 0x01]);
    assert_eq!(*value.multiply_by_small(0).data(), vec![0, 0]);
    assert_eq!(*value.multiply_by_small(1).data(), vec![0x05, 0x01]);

    let top = BigInt::from_bytes(vec![0xFF]);
    assert_eq!(*top.multiply_by_small(0xFF).data(), vec![0x01, 0xFE]);
}

#[test]
fn divide_edge_cases() {
    let (q, r) = BigInt::from_bytes(vec![0, 0]).divide_by_small(3);
    assert_eq!(*q.data(), Vec::<u8>::new());
    assert_eq!(r, 0);

    let (q, r) = BigInt::from_bytes(vec![0x07, 0x00]).divide_by_small(10);
    assert_eq!(*q.data(), vec![0]);
    assert_eq!(r, 7);

    let (q, r) = BigInt::from_bytes(vec![0x00, 0x01]).divide_by_small(2);
    assert_eq!(*q.data(), vec![0x80]);
    assert_eq!(r, 0);

    let (q, r) = BigInt::from_bytes(vec![0xFF, 0xFF]).divide_by_small(0xFF);
    assert_eq!(*q.data(), vec![0x01, 0x01]);
    assert_eq!(r, 0);

    let (q, r) = BigInt::from_bytes(vec![0x2A]).divide_by_small(1);
    assert_eq!(*q.data(), vec![0x2A]);
    assert_eq!(r, 0);
}

#[test]
fn radix_of_each_base() {
    assert_eq!(Base::Binary.to_radix(), 2);
    assert_eq!(Base::Octal.to_radix(), 8);
    assert_eq!(Base::Decimal.to_radix(), 10);
    assert_eq!(Base::Hexadecimal.to_radix(), 16);
}

#[test]
fn both_stored_forms_of_zero_compare_equal() {
    assert_eq!(BigInt::from_bytes(vec![]), BigInt::from_bytes(vec![0]));
    assert_eq!(BigInt::from_bytes(vec![0]), BigInt::from_bytes(vec![]));

    let empty = BigInt::from_string("".to_string(), Base::Decimal);
    let zero = BigInt::from_string("0".to_string(), Base::Decimal);
    assert_eq!(empty, zero);

    let (small_quotient, _) = BigInt::from_bytes(vec![0x07]).divide_by_small(10);
    let (zero_quotient, _) = BigInt::from_bytes(vec![]).divide_by_small(10);
    assert_eq!(small_quotient, zero_quotient);

    // Longer zero sequences are not trimmed by equality.
    assert_ne!(BigInt::from_bytes(vec![0, 0]), BigInt::from_bytes(vec![]));
    assert_ne!(BigInt::from_bytes(vec![0x05]), BigInt::from_bytes(vec![]));
}
