use libbson::decimal::Decimal128;
use libbson::layout::bson_decimal128_t;
use libbson::parse::{bson_decimal128_from_string, bson_decimal128_from_string_w_len};

fn value(high: u64, low: u64) -> Decimal128 {
    Decimal128(bson_decimal128_t { high, low })
}

fn parsed(s: &str) -> (u64, u64) {
    let d = bson_decimal128_from_string(s);
    (d.high, d.low)
}

#[test]
fn bytes_are_little_endian_low_word_first() {
    let v = value(0x0102030405060708, 0x1112131415161718);
    assert_eq!(
        v.to_bytes(),
        [
            0x18, 0x17, 0x16, 0x15, 0x14, 0x13, 0x12, 0x11, 0x08, 0x07, 0x06, 0x05, 0x04, 0x03,
            0x02, 0x01
        ]
    );
}

#[test]
fn bytes_round_trip() {
    for (high, low) in [
        (0x3040000000000000u64, 1u64),
        (0xfc00000000000000, 0xdeadbeef),
        (0, 0),
        (u64::MAX, u64::MAX),
        (0x2ffc3cde6fff9732, 0xde825cd07e96aff2),
    ] {
        let v = value(high, low);
        assert_eq!(Decimal128::from_bytes(v.to_bytes()), v);
    }
    let mut b = [0u8; 16];
    for i in 0..16 {
        b[i] = (i as u8) * 17 + 3;
    }
    assert_eq!(Decimal128::from_bytes(b).to_bytes(), b);
}

#[test]
fn formatting_is_a_function_of_the_bits() {
    let a = value(0x3042000000000000, 0x41a);
    let b = Decimal128::from_bytes(a.to_bytes());
    assert_eq!(a.to_string(), b.to_string());
    assert_eq!(a.to_string(), "1.050E+4");
}

#[test]
fn parse_format_parse_is_stable() {
    for s in ["00012345678901234567", "+1.0", "1.050E+9", "-0.000", "1E-6200", "12e3", "junk", "-inf"] {
        let once = Decimal128::parse(s);
        let twice = Decimal128::parse(&once.to_string());
        let thrice = Decimal128::parse(&twice.to_string());
        assert_eq!(twice, thrice);
    }
}

#[test]
fn malformed_text_reads_as_canonical_nan() {
    for s in ["", "+", "-", ".", "1..2", "1e+", "1e5x", "abc", "1 ", " 1", "infinit", "0x10", "--1"] {
        assert_eq!(parsed(s), (0x7c00000000000000, 0));
    }
}

#[test]
fn signed_zero_keeps_its_sign() {
    let neg = bson_decimal128_from_string("-0");
    let pos = bson_decimal128_from_string("0");
    assert_eq!(neg.high ^ pos.high, 0x8000000000000000);
    assert_eq!(neg.low, pos.low);
    assert_eq!(Decimal128(neg).to_string(), "-0");
    assert_eq!(Decimal128(pos).to_string(), "0");
}

#[test]
fn literal_scenarios() {
    assert_eq!(value(0x3040000000000000, 1).to_string(), "1");
    assert_eq!(value(0x303e000000000000, 1).to_string(), "0.1");
    assert_eq!(parsed("0.12345"), (0x3036000000000000, 0x3039));
    assert_eq!(parsed("Infinity").0, 0x7800000000000000);
    assert_eq!(parsed("-Inf").0, 0xf800000000000000);
    assert_eq!(value(0x3298000000000000, 0).to_string(), "0E+300");
    assert_eq!(parsed("1.24abc").0, 0x7c00000000000000);
}

#[test]
fn nan_never_shows_its_sign() {
    assert_eq!(parsed("-NaN"), (0x7c00000000000000, 0));
    assert_eq!(value(0xfe00000000000000, 7).to_string(), "NaN");
    assert_eq!(value(0xf800000000000000, 0).to_string(), "-Infinity");
}

#[test]
fn scientific_exponents() {
    assert_eq!(parsed("1E+3"), (0x3046000000000000, 1));
    assert_eq!(parsed("1.05E+3"), (0x3042000000000000, 0x69));
    assert_eq!(parsed("1e-2"), (0x303c000000000000, 1));
    assert_eq!(parsed("1.050E+9"), (0x304c000000000000, 0x41a));
    assert_eq!(parsed("9.999987654321E+112"), (0x3108000000000000, 0x000009184db63eb1));
    assert_eq!(parsed("-1E-6176"), (0x8000000000000000, 1));
}

#[test]
fn large_exponents_are_shifted_into_the_coefficient() {
    assert_eq!(
        parsed("1.000000000000000000000000000000000E+6144"),
        (0x5ffe314dc6448d93, 0x38c15b0a00000000)
    );
    // 1E+6144 needs the exponent 6111 and 34 digits.
    assert_eq!(parsed("1E+6144"), (0x5ffe314dc6448d93, 0x38c15b0a00000000));
    assert_eq!(parsed("1E+6145"), (0x7c00000000000000, 0));
    assert_eq!(parsed("1E+99999999999999999999999999999999"), (0x7c00000000000000, 0));
}

#[test]
fn small_exponents_drop_trailing_zeros() {
    assert_eq!(parsed("10E-6177"), (0, 1));
    assert_eq!(parsed("1E-6177"), (0x7c00000000000000, 0));
    assert_eq!(parsed("1E-99999999999999999999999999999999"), (0x7c00000000000000, 0));
}

#[test]
fn zeros_clamp_the_exponent() {
    assert_eq!(parsed("0E+6200"), (0x5ffe000000000000, 0));
    assert_eq!(parsed("0E-6200"), (0, 0));
    assert_eq!(parsed("-0E-99999999999999999999999999999999"), (0x8000000000000000, 0));
    assert_eq!(parsed("0.000"), (0x303a000000000000, 0));
    assert_eq!(value(0x303a000000000000, 0).to_string(), "0.000");
    assert_eq!(value(0x2b90000000000000, 0).to_string(), "0E-600");
}

#[test]
fn too_many_digits() {
    // 34 significant digits fit; a 35th that is not zero does not.
    assert_eq!(
        parsed("1234567890123456789012345678901234"),
        (0x30403cde6fff9732, 0xde825cd07e96aff2)
    );
    assert_eq!(parsed("12345678901234567890123456789012345"), (0x7c00000000000000, 0));
    // Trailing zeros beyond 34 digits move into the exponent.
    assert_eq!(
        parsed("12345678901234567890123456789012340"),
        (0x30423cde6fff9732, 0xde825cd07e96aff2)
    );
}

#[test]
fn bounded_read() {
    assert_eq!(bson_decimal128_from_string_w_len("12345", 3).low, 123);
    assert_eq!(bson_decimal128_from_string_w_len("1.5xyz", 3).low, 15);
    assert_eq!(bson_decimal128_from_string_w_len("7", 100).low, 7);
    assert_eq!(bson_decimal128_from_string_w_len("infinity", 3).high, 0x7800000000000000);
}

#[test]
fn plain_and_point_forms() {
    assert_eq!(parsed("1."), (0x3040000000000000, 1));
    assert_eq!(parsed(".5"), (0x303e000000000000, 5));
    assert_eq!(parsed("+12"), (0x3040000000000000, 12));
    assert_eq!(value(0x3040000000000000, 105).to_string(), "105");
    assert_eq!(value(0x3032000000000000, 12345).to_string(), "0.0012345");
    assert_eq!(value(0x302c000000000000, 1).to_string(), "1E-10");
}

#[test]
fn coefficient_above_the_largest_reads_as_zero() {
    // 10^34 in the plain form.
    assert_eq!(value(0x3041ed09bead87c0, 0x378d8e6400000000).to_string(), "0");
    // The `11` form.
    assert_eq!(value(0x6000000000000000, 0).to_string(), "0E-6176");
}

#[test]
fn from_str_parses() {
    let d: Decimal128 = "2.50".parse().unwrap();
    assert_eq!(d.to_string(), "2.50");
}
