use csv_sql_loader::types::SqlType;

#[test]
fn test_infer_null() {
    assert_eq!(SqlType::infer_from_str(""), SqlType::Null);
    assert_eq!(SqlType::infer_from_str("null"), SqlType::Null);
    assert_eq!(SqlType::infer_from_str("NULL"), SqlType::Null);
    assert_eq!(SqlType::infer_from_str("\\N"), SqlType::Null);
}

#[test]
fn test_infer_boolean() {
    assert_eq!(SqlType::infer_from_str("true"), SqlType::Boolean);
    assert_eq!(SqlType::infer_from_str("false"), SqlType::Boolean);
}

#[test]
fn test_infer_integers() {
    assert_eq!(SqlType::infer_from_str("42"), SqlType::SmallInt);
    assert_eq!(SqlType::infer_from_str("32767"), SqlType::SmallInt);
    assert_eq!(SqlType::infer_from_str("32768"), SqlType::Integer);
    assert_eq!(SqlType::infer_from_str("2147483648"), SqlType::BigInt);
}

#[test]
fn test_infer_floats() {
    assert_eq!(SqlType::infer_from_str("3.14"), SqlType::Real);
    assert_eq!(SqlType::infer_from_str("3.14159265359"), SqlType::Real);
}

#[test]
fn test_infer_dates() {
    assert_eq!(SqlType::infer_from_str("2024-01-15"), SqlType::Date);
    assert_eq!(SqlType::infer_from_str("2024/01/15"), SqlType::Date);
}

#[test]
fn test_infer_timestamps() {
    assert_eq!(SqlType::infer_from_str("2024-01-15 10:30:00"), SqlType::Timestamp);
    assert_eq!(SqlType::infer_from_str("2024-01-15T10:30:00"), SqlType::Timestamp);
}

#[test]
fn test_infer_text() {
    assert_eq!(SqlType::infer_from_str("hello world"), SqlType::Text);
    assert_eq!(SqlType::infer_from_str("abc123"), SqlType::Text);
}

#[test]
fn test_type_merge() {
    assert_eq!(SqlType::SmallInt.merge(&SqlType::Integer), SqlType::Integer);
    assert_eq!(SqlType::Integer.merge(&SqlType::BigInt), SqlType::BigInt);
    assert_eq!(SqlType::SmallInt.merge(&SqlType::Real), SqlType::DoublePrecision);
    assert_eq!(SqlType::Integer.merge(&SqlType::Text), SqlType::Text);
    assert_eq!(SqlType::Null.merge(&SqlType::Integer), SqlType::Integer);
}

#[test]
fn test_merge_commutative_pairs() {
    let tags = [
        SqlType::Null,
        SqlType::Boolean,
        SqlType::SmallInt,
        SqlType::Integer,
        SqlType::BigInt,
        SqlType::Real,
        SqlType::DoublePrecision,
        SqlType::Timestamp,
        SqlType::Date,
        SqlType::Text,
    ];
    for a in tags.iter() {
        for b in tags.iter() {
            assert_eq!(a.merge(b), b.merge(a));
            assert_eq!(SqlType::Null.merge(a), a.clone());
            assert_eq!(a.merge(a), a.clone());
        }
    }
}

#[test]
fn test_merge_associative_triples() {
    let tags = [
        SqlType::Null,
        SqlType::Boolean,
        SqlType::SmallInt,
        SqlType::Integer,
        SqlType::BigInt,
        SqlType::Real,
        SqlType::DoublePrecision,
        SqlType::Timestamp,
        SqlType::Date,
        SqlType::Text,
    ];
    for a in tags.iter() {
        for b in tags.iter() {
            for c in tags.iter() {
                assert_eq!(a.merge(b).merge(c), a.merge(&b.merge(c)));
            }
        }
    }
}

#[test]
fn test_infer_huge_and_special_numbers() {
    // Too wide for 64-bit integers, still a finite 32-bit real.
    assert_eq!(SqlType::infer_from_str("99999999999999999999"), SqlType::Real);
    // Finite only in 64 bits.
    assert_eq!(SqlType::infer_from_str("1e200"), SqlType::DoublePrecision);
    assert_eq!(SqlType::infer_from_str("3.5e38"), SqlType::DoublePrecision);
    // Beyond every finite range.
    assert_eq!(SqlType::infer_from_str("1e999"), SqlType::Text);
    // The words the real parsers accept are not numbers for inference.
    assert_eq!(SqlType::infer_from_str("inf"), SqlType::Text);
    assert_eq!(SqlType::infer_from_str("NaN"), SqlType::Text);
    // Signs and fractions.
    assert_eq!(SqlType::infer_from_str("-32768"), SqlType::SmallInt);
    assert_eq!(SqlType::infer_from_str("-32769"), SqlType::Integer);
    assert_eq!(SqlType::infer_from_str("+5"), SqlType::SmallInt);
    assert_eq!(SqlType::infer_from_str(".5"), SqlType::Real);
    assert_eq!(SqlType::infer_from_str("5."), SqlType::Real);
    assert_eq!(SqlType::infer_from_str("."), SqlType::Text);
    assert_eq!(SqlType::infer_from_str("1e"), SqlType::Text);
}

#[test]
fn test_inference_agrees_with_standard_parsers() {
    // The library classifies numeric text by its own exact decimal analysis;
    // hold it against what the standard parsers actually accept as finite.
    let cases = [
        "3.14",
        "-3.14",
        "+.5",
        "5.",
        "-0.0e0",
        "1e38",
        "3.4e38",
        "3.40282347e38",
        "3.402824e38",
        "3.40282356779733661e38",
        "3.4028235677973367e38",
        "340282356779733661637539395458142568448",
        "340282356779733661637539395458142568447",
        "1e39",
        "-1e39",
        "1e308",
        "1.7976931348623157e308",
        "1.7976931348623158e308",
        "1.79769313486231581e308",
        "1.8e308",
        "1e-45",
        "1e-46",
        "1e-300",
        "1e-400",
        "5e-324",
        "2.2e-308",
        "0e99999999999999999999",
        "00000000000000000000000000001",
        "9999999999999999999999999999999999999999",
        ".5e-2",
        "1e999",
        "-1e999",
        "inf",
        "-inf",
        "infinity",
        "NaN",
        "nan",
        " 1",
        "1 ",
        "0x1p3",
        "1_000.5",
        "1e",
        "e5",
        ".",
        "..5",
        "1.2.3",
        "1e2e3",
        "1e+5",
        "1e-0",
    ];
    for s in cases.iter() {
        let expected = if s.is_empty()
            || s.eq_ignore_ascii_case("null")
            || s.eq_ignore_ascii_case("\\N")
        {
            SqlType::Null
        } else if s.parse::<bool>().is_ok() {
            SqlType::Boolean
        } else if s.parse::<i16>().is_ok() {
            SqlType::SmallInt
        } else if s.parse::<i32>().is_ok() {
            SqlType::Integer
        } else if s.parse::<i64>().is_ok() {
            SqlType::BigInt
        } else if s.parse::<f32>().map(|v| v.is_finite()).unwrap_or(false) {
            SqlType::Real
        } else if s.parse::<f64>().map(|v| v.is_finite()).unwrap_or(false) {
            SqlType::DoublePrecision
        } else {
            // None of these case texts is a date or a timestamp.
            SqlType::Text
        };
        assert_eq!(SqlType::infer_from_str(s), expected, "disagreement on {:?}", s);
    }
}

#[test]
fn test_to_sql_names() {
    assert_eq!(SqlType::Null.to_sql(), "TEXT");
    assert_eq!(SqlType::Boolean.to_sql(), "BOOLEAN");
    assert_eq!(SqlType::SmallInt.to_sql(), "SMALLINT");
    assert_eq!(SqlType::Integer.to_sql(), "INTEGER");
    assert_eq!(SqlType::BigInt.to_sql(), "BIGINT");
    assert_eq!(SqlType::Real.to_sql(), "REAL");
    assert_eq!(SqlType::DoublePrecision.to_sql(), "DOUBLE PRECISION");
    assert_eq!(SqlType::Timestamp.to_sql(), "TIMESTAMP");
    assert_eq!(SqlType::Date.to_sql(), "DATE");
    assert_eq!(SqlType::Text.to_sql(), "TEXT");
}
