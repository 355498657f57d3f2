use cutr::parse_position;
use cutr::render_position_list;

#[test]
fn test_parse_position() {
    // The empty string is an error.
    assert!(parse_position("".to_string()).is_err());

    // Zero is an error.
    let result = parse_position("0".to_string());
    assert!(result.is_err());
    assert_eq!(
        result.unwrap_err().message(),
        r#"illegal list value: "0""#
    );

    let result = parse_position("0-1".to_string());
    assert!(result.is_err());
    assert_eq!(
        result.unwrap_err().message(),
        r#"illegal list value: "0""#
    );

    // A leading "+" is an error.
    let result = parse_position("+1".to_string());
    assert!(result.is_err());
    assert_eq!(
        result.unwrap_err().message(),
        r#"illegal list value: "+1""#
    );

    let result = parse_position("+1-2".to_string());
    assert!(result.is_err());
    assert_eq!(
        result.unwrap_err().message(),
        r#"illegal list value: "+1-2""#
    );

    let result = parse_position("1-+2".to_string());
    assert!(result.is_err());
    assert_eq!(
        result.unwrap_err().message(),
        r#"illegal list value: "1-+2""#
    );

    // Any non-number is an error.
    let result = parse_position("a".to_string());
    assert!(result.is_err());
    assert_eq!(
        result.unwrap_err().message(),
        r#"illegal list value: "a""#
    );

    let result = parse_position("1,a".to_string());
    assert!(result.is_err());
    assert_eq!(
        result.unwrap_err().message(),
        r#"illegal list value: "a""#
    );

    let result = parse_position("1-a".to_string());
    assert!(result.is_err());
    assert_eq!(
        result.unwrap_err().message(),
        r#"illegal list value: "1-a""#
    );

    let result = parse_position("a-1".to_string());
    assert!(result.is_err());
    assert_eq!(
        result.unwrap_err().message(),
        r#"illegal list value: "a-1""#
    );

    // Improper ranges
    assert!(parse_position("-".to_string()).is_err());
    assert!(parse_position(",".to_string()).is_err());
    assert!(parse_position("1,".to_string()).is_err());
    assert!(parse_position("1-".to_string()).is_err());
    assert!(parse_position("1-1-1".to_string()).is_err());
    assert!(parse_position("1-1-a".to_string()).is_err());

    // First number must be less than the second
    let result = parse_position("1-1".to_string());
    assert!(result.is_err());
    assert_eq!(
        result.unwrap_err().message(),
        r#"First number in range (1) must be lower than second number (1)"#
    );

    let result = parse_position("2-1".to_string());
    assert!(result.is_err());
    assert_eq!(
        result.unwrap_err().message(),
        r#"First number in range (2) must be lower than second number (1)"#
    );

    // Acceptable ranges
    let result = parse_position("1".to_string());
    assert!(result.is_ok());
    assert_eq!(result.unwrap(), vec![0..1]);

    let result = parse_position("1".to_string());
    assert!(result.is_ok());
    assert_eq!(result.unwrap(), vec![0..1]);

    let result = parse_position("01".to_string());
    assert!(result.is_ok());
    assert_eq!(result.unwrap(), vec![0..1]);

    let result = parse_position("1,3".to_string());
    assert!(result.is_ok());
    assert_eq!(result.unwrap(), vec![0..1, 2..3]);

    let result = parse_position("001,003".to_string());
    assert!(result.is_ok());
    assert_eq!(result.unwrap(), vec![0..1, 2..3]);

    let result = parse_position("1-3".to_string());
    assert!(result.is_ok());
    assert_eq!(result.unwrap(), vec![0..3]);

    let result = parse_position("0001-03".to_string());
    assert!(result.is_ok());
    assert_eq!(result.unwrap(), vec![0..3]);

    let result = parse_position("1,7,3-5".to_string());
    assert!(result.is_ok());
    assert_eq!(result.unwrap(), vec![0..1, 6..7, 2..5]);

    let result = parse_position("15,19-20".to_string());
    assert!(result.is_ok());
    assert_eq!(result.unwrap(), vec![14..15, 18..20]);
}

#[test]
fn test_parse_illegal_tokens_echoed() {
    // Each rejected token is echoed verbatim; an empty token echoes as "".
    let cases = [
        ("", r#"illegal list value: """#),
        (",", r#"illegal list value: """#),
        ("1,", r#"illegal list value: """#),
        ("-", r#"illegal list value: "-""#),
        ("1-", r#"illegal list value: "1-""#),
        ("1-1-1", r#"illegal list value: "1-1-1""#),
        ("1-1-a", r#"illegal list value: "1-1-a""#),
    ];
    for (spec, message) in cases {
        let result = parse_position(spec.to_string());
        assert_eq!(result.unwrap_err().message(), message);
    }
}

#[test]
fn test_parse_single_index_value() {
    // A single-index token n yields exactly [n-1, n).
    assert_eq!(parse_position("5".to_string()).unwrap(), vec![4..5]);
    assert_eq!(parse_position("42".to_string()).unwrap(), vec![41..42]);
}

#[test]
fn test_parse_range_token_value() {
    // A range token n1-n2 yields exactly [n1-1, n2).
    assert_eq!(parse_position("3-7".to_string()).unwrap(), vec![2..7]);
    assert_eq!(parse_position("1-2".to_string()).unwrap(), vec![0..2]);
}

#[test]
fn test_parse_leading_zeros() {
    // Leading zeros are insignificant.
    assert_eq!(
        parse_position("007".to_string()).unwrap(),
        parse_position("7".to_string()).unwrap()
    );
    assert_eq!(
        parse_position("0001-03".to_string()).unwrap(),
        parse_position("1-3".to_string()).unwrap()
    );
}

#[test]
fn test_parse_order_preserved() {
    // List order is preserved, never sorted.
    assert_eq!(
        parse_position("15,19-20".to_string()).unwrap(),
        vec![14..15, 18..20]
    );
    assert_eq!(
        parse_position("19-20,15".to_string()).unwrap(),
        vec![18..20, 14..15]
    );
}

#[test]
fn test_parse_largest_values() {
    // The largest representable index still parses; one past it does not.
    let max = usize::MAX;
    let result = parse_position(max.to_string());
    assert_eq!(result.unwrap(), vec![max - 1..max]);

    let too_large = "18446744073709551616";
    let result = parse_position(too_large.to_string());
    assert!(result.is_err());
    assert_eq!(
        result.unwrap_err().message(),
        format!(r#"illegal list value: "{}""#, too_large)
    );
}

#[test]
fn test_render_roundtrip() {
    // Re-parsing the canonical one-based rendering reproduces the ranges.
    let parsed = parse_position("1,7,3-5".to_string()).unwrap();
    let rendered = render_position_list(&parsed);
    assert_eq!(rendered, "1,7,3-5");
    assert_eq!(parse_position(rendered).unwrap(), parsed);

    let parsed = parse_position("15,19-20".to_string()).unwrap();
    let rendered = render_position_list(&parsed);
    assert_eq!(rendered, "15,19-20");
    assert_eq!(parse_position(rendered).unwrap(), parsed);
}
