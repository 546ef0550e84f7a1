use block_explorer::filters::{
    FilterError, FormatHashFilter, FormatNumberFilter, FormatTimeFilter, NumberText, TemplateNumber,
};
use block_explorer::grouping::{format_int, group_fixed_point};

#[test]
fn format_int_groups_thousands() {
    assert_eq!(format_int(0), "0");
    assert_eq!(format_int(7), "7");
    assert_eq!(format_int(999), "999");
    assert_eq!(format_int(1000), "1,000");
    assert_eq!(format_int(1234567), "1,234,567");
    assert_eq!(format_int(i64::MAX), "9,223,372,036,854,775,807");
}

#[test]
fn format_int_counts_the_minus_sign() {
    assert_eq!(format_int(-1), "-1");
    assert_eq!(format_int(-123), "-,123");
    assert_eq!(format_int(-1234), "-1,234");
    assert_eq!(format_int(-123456), "-,123,456");
    assert_eq!(format_int(i64::MIN), "-9,223,372,036,854,775,808");
}

#[test]
fn format_int_without_commas_is_the_decimal_text() {
    for v in [0i64, 5, 12, 123, 1234, 98765, -5, -4321, 1_000_000_007, i64::MIN, i64::MAX] {
        assert_eq!(format_int(v).replace(',', ""), v.to_string());
    }
}

#[test]
fn group_fixed_point_groups_the_whole_part() {
    assert_eq!(group_fixed_point("1234.50"), "1,234.50");
    assert_eq!(group_fixed_point("0.125"), "0.125");
    assert_eq!(group_fixed_point("-1234567.125"), "-1,234,567.125");
    assert_eq!(group_fixed_point("123456."), "123,456.");
}

#[test]
fn group_fixed_point_loses_the_sign_of_minus_zero() {
    assert_eq!(group_fixed_point("-0.50"), "0.50");
}

#[test]
fn group_fixed_point_keeps_the_first_fraction_only() {
    assert_eq!(group_fixed_point("12.3.4"), "12.3");
}

#[test]
fn rounded_places_from_the_argument() {
    assert_eq!(FormatNumberFilter::rounded_places(None), 0);
    assert_eq!(FormatNumberFilter::rounded_places(Some(None)), 0);
    assert_eq!(FormatNumberFilter::rounded_places(Some(Some(3))), 3);
    assert_eq!(FormatNumberFilter::rounded_places(Some(Some(-1))), usize::MAX);
}

#[test]
fn format_hash_shortens_a_block_hash() {
    let hash = "000000000000000000026f2b5f1fc0e1a7b8c8b0f7d0b3d6b1e8e7a6c6d5e3f8";
    assert_eq!(FormatHashFilter.filter(Some(hash)), Ok("00000000...c6d5e3f8".to_string()));
}

#[test]
fn format_hash_of_sixteen_bytes() {
    assert_eq!(
        FormatHashFilter.filter(Some("abcdefghijklmnop")),
        Ok("abcdefgh...ijklmnop".to_string())
    );
}

#[test]
fn format_hash_counts_bytes_not_characters() {
    // four two-byte characters make the first eight bytes
    let hash = "éééémiddleéééé";
    assert_eq!(FormatHashFilter.filter(Some(hash)), Ok("éééé...éééé".to_string()));
    assert_eq!(FormatHashFilter.filter(Some("ééééééé")), Err(FilterError::HashTooShort));
}

#[test]
fn format_hash_refusals() {
    assert_eq!(FormatHashFilter.filter(None), Err(FilterError::ValueNotString));
    assert_eq!(FormatHashFilter.filter(Some("abcdefghijklmno")), Err(FilterError::HashTooShort));
    assert_eq!(FormatHashFilter.filter(Some("")), Err(FilterError::HashTooShort));
}

#[test]
fn format_hash_result_is_nineteen_bytes() {
    let hash = "0123456789abcdefXYZ0123456789abcdef";
    let short = FormatHashFilter.filter(Some(hash)).unwrap();
    assert_eq!(short.len(), 19);
    assert_eq!(&short.as_bytes()[..8], &hash.as_bytes()[..8]);
    assert_eq!(&short.as_bytes()[11..], &hash.as_bytes()[hash.len() - 8..]);
}

#[test]
fn format_time_writes_utc_date_and_time() {
    assert_eq!(FormatTimeFilter.filter(Some(0)), Ok("1970-01-01 00:00:00".to_string()));
    assert_eq!(FormatTimeFilter.filter(Some(1431648000)), Ok("2015-05-15 00:00:00".to_string()));
    assert_eq!(FormatTimeFilter.filter(Some(-1)), Ok("1969-12-31 23:59:59".to_string()));
    assert_eq!(FormatTimeFilter.filter(Some(1709210096)), Ok("2024-02-29 12:34:56".to_string()));
}

#[test]
fn format_time_years_outside_four_digits() {
    assert_eq!(FormatTimeFilter.filter(Some(-30610224001)), Ok("0999-12-31 23:59:59".to_string()));
    assert_eq!(
        FormatTimeFilter.filter(Some(253402300800)),
        Ok("+10000-01-01 00:00:00".to_string())
    );
    assert_eq!(
        FormatTimeFilter.filter(Some(-62184495539)),
        Ok("-0001-06-15 01:01:01".to_string())
    );
}

#[test]
fn format_time_layout_is_nineteen_characters() {
    for secs in [0i64, 86399, 951782400, 1700000000, 4102444800] {
        let text = FormatTimeFilter.filter(Some(secs)).unwrap();
        let chars: Vec<char> = text.chars().collect();
        assert_eq!(chars.len(), 19);
        assert_eq!((chars[4], chars[7], chars[10], chars[13], chars[16]), ('-', '-', ' ', ':', ':'));
    }
}

#[test]
fn format_time_accepts_far_timestamps() {
    assert!(FormatTimeFilter.filter(Some(8_000_000_000_000)).is_ok());
    assert!(FormatTimeFilter.filter(Some(-8_000_000_000_000)).is_ok());
}

#[test]
fn format_time_refusals() {
    assert_eq!(FormatTimeFilter.filter(None), Err(FilterError::ValueNotInteger));
    assert_eq!(FormatTimeFilter.filter(Some(i64::MAX)), Err(FilterError::TimestampOutOfRange));
    assert_eq!(FormatTimeFilter.filter(Some(i64::MIN)), Err(FilterError::TimestampOutOfRange));
}

#[test]
fn filter_error_messages() {
    assert_eq!(FilterError::ValueNotString.message(), "failed to parse value as string");
    assert_eq!(FilterError::ValueNotInteger.message(), "failed to parse value as string");
    assert_eq!(FilterError::HashTooShort.message(), "hash is too short to format");
    assert_eq!(
        FilterError::TimestampOutOfRange.message(),
        "failed to create datetime from timestamp"
    );
    assert_eq!(FilterError::UnsupportedNumberType.message(), "unsupported number type");
    assert_eq!(FilterError::ValueNotNumber.message(), "failed to parse value as number");
}

#[test]
fn format_int_negative_is_minus_then_magnitude() {
    for v in [-1i64, -12, -1234, -12345, -1234567, -98765432] {
        assert_eq!(format_int(v), format!("-{}", format_int(-v)));
    }
    // a full last group gives the sign a group of its own
    assert_eq!(format_int(-123456), "-,123,456");
}

#[test]
fn group_fixed_point_only_adds_commas() {
    for text in ["1234567.89", "-98765.4321", "0.5", "1000.000", "-1.25"] {
        assert_eq!(group_fixed_point(text).replace(',', ""), text);
    }
}

#[test]
fn timestamp_texts_follow_the_timestamps() {
    let stamps = [0i64, 59, 60, 3599, 3600, 86399, 86400, 951782399, 951782400, 1709210096, 253402300799];
    let texts: Vec<String> = stamps.iter().map(|s| FormatTimeFilter.filter(Some(*s)).unwrap()).collect();
    for (i, a) in texts.iter().enumerate() {
        assert_eq!(a.len(), 19);
        for (j, b) in texts.iter().enumerate() {
            assert_eq!(a <= b, stamps[i] <= stamps[j]);
            assert_eq!(a == b, stamps[i] == stamps[j]);
        }
    }
    assert_eq!(texts[10], "9999-12-31 23:59:59");
}

#[test]
fn format_number_chooses_the_branch() {
    assert_eq!(
        FormatNumberFilter.filter(TemplateNumber::Integer(1234567)),
        Ok(NumberText::Grouped("1,234,567".to_string()))
    );
    assert_eq!(FormatNumberFilter.filter(TemplateNumber::Float), Ok(NumberText::WriteFloat));
    assert_eq!(
        FormatNumberFilter.filter(TemplateNumber::OtherNumber),
        Err(FilterError::UnsupportedNumberType)
    );
    assert_eq!(
        FormatNumberFilter.filter(TemplateNumber::NotANumber),
        Err(FilterError::ValueNotNumber)
    );
}
