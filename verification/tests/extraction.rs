use cutr::extract_bytes_from_line;
use cutr::extract_chars_from_line;
use cutr::extract_fields_from_record;

#[test]
fn test_extract_fields() {
    let rec = csv::StringRecord::from(vec!["Captain", "Sham", "12345"]);
    assert_eq!(extract_fields_from_record(&rec, &[0..1]), &["Captain"]);
    assert_eq!(extract_fields_from_record(&rec, &[1..2]), &["Sham"]);
    assert_eq!(
        extract_fields_from_record(&rec, &[0..1, 2..3]),
        &["Captain", "12345"]
    );
    assert_eq!(
        extract_fields_from_record(&rec, &[0..1, 3..4]),
        &["Captain"]
    );
    assert_eq!(
        extract_fields_from_record(&rec, &[1..2, 0..1]),
        &["Sham", "Captain"]
    );
}

#[test]
fn test_extract_chars() {
    assert_eq!(extract_chars_from_line("", &[0..1]), "".to_string());
    assert_eq!(extract_chars_from_line("ábc", &[0..1]), "á".to_string());
    assert_eq!(
        extract_chars_from_line("ábc", &[0..1, 2..3]),
        "ác".to_string()
    );
    assert_eq!(extract_chars_from_line("ábc", &[0..3]), "ábc".to_string());
    assert_eq!(
        extract_chars_from_line("ábc", &[2..3, 1..2]),
        "cb".to_string()
    );
    assert_eq!(
        extract_chars_from_line("ábc", &[0..1, 1..2, 4..5]),
        "áb".to_string()
    );
}

#[test]
fn test_extract_bytes() {
    assert_eq!(extract_bytes_from_line("ábc", &[0..1]), "�".to_string());
    assert_eq!(extract_bytes_from_line("ábc", &[0..2]), "á".to_string());
    assert_eq!(extract_bytes_from_line("ábc", &[0..3]), "áb".to_string());
    assert_eq!(extract_bytes_from_line("ábc", &[0..4]), "ábc".to_string());
    assert_eq!(
        extract_bytes_from_line("ábc", &[3..4, 2..3]),
        "cb".to_string()
    );
    assert_eq!(
        extract_bytes_from_line("ábc", &[0..2, 5..6]),
        "á".to_string()
    );
}

#[test]
fn test_extract_fields_overlapping_ranges() {
    // Overlapping ranges emit a field once per range that covers it.
    let rec = csv::StringRecord::from(vec!["a", "b", "c"]);
    assert_eq!(
        extract_fields_from_record(&rec, &[0..2, 1..3]),
        &["a", "b", "b", "c"]
    );
}

#[test]
fn test_extract_chars_empty_ranges() {
    // A range with start not below end selects nothing.
    assert_eq!(extract_chars_from_line("abc", &[1..1]), "".to_string());
    assert_eq!(extract_chars_from_line("abc", &[2..1, 0..1]), "a".to_string());
}
