use cutr::format_field;
use cutr::get_file_info;
use cutr::FileInfo;

#[test]
fn test_get_file_info() {
    let text = "I don't want the world.\nI just want your half.\r\n";
    let file_info = get_file_info(text);
    assert_eq!(
        file_info,
        FileInfo {
            line_count: 2,
            word_count: 10,
            char_count: 48,
            byte_count: 48,
        }
    );
}

#[test]
fn test_format_field() {
    // Should return the empty string when show is false.
    assert_eq!(format_field(1, false), "");

    // Formatting for a single-digit number.
    assert_eq!(format_field(3, true), "       3");

    // Formatting for a double-digit number.
    assert_eq!(format_field(10, true), "      10");
}

#[test]
fn test_get_file_info_multibyte() {
    // Bytes count the UTF-8 encoding; characters count codepoints.
    let text = "áb c\n";
    let file_info = get_file_info(text);
    assert_eq!(
        file_info,
        FileInfo {
            line_count: 1,
            word_count: 2,
            char_count: 5,
            byte_count: 6,
        }
    );
}

#[test]
fn test_get_file_info_empty_and_unterminated() {
    // No text means no lines; text after the last newline is one more line.
    let empty = get_file_info("");
    assert_eq!(
        empty,
        FileInfo { line_count: 0, word_count: 0, char_count: 0, byte_count: 0 }
    );

    let unterminated = get_file_info("one\ntwo");
    assert_eq!(
        unterminated,
        FileInfo { line_count: 2, word_count: 2, char_count: 7, byte_count: 7 }
    );
}

#[test]
fn test_format_field_wide_value() {
    // A numeral of eight or more digits is not truncated.
    assert_eq!(format_field(12345678, true), "12345678");
    assert_eq!(format_field(123456789, true), "123456789");
}
