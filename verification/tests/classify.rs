use scan_archiver::classify::{
    extract_dst_path, extract_suffix, is_valid_fmt, is_valid_range, parse, split_into_parent_date,
    validate,
};
use scan_archiver::error::ProcessError;

fn assert_invalid_range(input: &str, max: u16) {
    assert!(!is_valid_range(input, max));
}

fn assert_valid_range(input: &str, max: u16) {
    assert!(is_valid_range(input, max));
}

#[test]
fn test_is_valid_range_valid() {
    assert_valid_range("10", 15);
    assert_valid_range("10", 10);
}

#[test]
fn test_is_valid_range_invalid() {
    assert_invalid_range("20", 15);
    assert_invalid_range("20", 10);
    assert_invalid_range("15", 10);
    assert_invalid_range("32", 10);
    assert_invalid_range("10", 0);
    assert_invalid_range("", 10);
    assert_invalid_range("abc", 10);
    assert_invalid_range("10a", 10);
    assert_invalid_range("a10", 10);
}

#[test]
fn test_parse_date_valid() {
    let result = parse("01102024");
    assert!(result.is_ok());
    assert_eq!(result.unwrap(), ("01", "10", "2024"));
}

#[test]
fn test_parse_date_invalid() {
    let result1 = parse("0110202a");
    assert!(result1.is_err());
    assert_eq!(
        result1.unwrap_err().message(),
        "Date Error: No valid date format."
    );

    let result2 = parse("011020241234");
    assert!(result2.is_err());
    assert_eq!(
        result2.unwrap_err().message(),
        "Date Error: No valid date format."
    );
}

#[test]
fn test_is_valid_fmt_valid() {
    assert!(is_valid_fmt("01102024"));
    assert!(is_valid_fmt("10102024"));
}

#[test]
fn test_is_valid_fmt_invalid() {
    assert!(!is_valid_fmt("0110202a"));
    assert!(!is_valid_fmt("101020241234"));
    assert!(!is_valid_fmt(""));
}

#[test]
fn test_validate_valid() {
    assert!(validate("01102024").is_ok());
    assert!(validate("10102024").is_ok());
}

#[test]
fn test_validate_invalid() {
    assert!(validate("0110202a").is_err());
    assert!(validate("101020241234").is_err());
    assert!(validate("").is_err());
}

#[test]
fn test_split_into_parent_date_valid() {
    let result = split_into_parent_date("example-about_01102024.txt");
    assert!(result.is_ok());
    assert_eq!(result.unwrap(), ("example-about", "01102024"));
}

#[test]
fn test_split_into_parent_date_invalid() {
    let result1 = split_into_parent_date("example-about.txt");
    assert!(result1.is_err());

    let result2 = split_into_parent_date("example");
    assert!(result2.is_err());
}

#[test]
fn utils_test_extract_dst_path_valid() {
    let target = "target";
    let parent_path = "parent";

    let (parent, destination) =
        extract_dst_path("parent/example-about_01102024.txt", target)
            .expect("Unwrap failed on valid example.");
    assert_eq!(destination, "target/2024/10/01/example-about.txt");
    assert_eq!(parent, parent_path);
}

#[test]
fn test_extract_dst_path_invalid() {
    let target = "target";

    let result1 = extract_dst_path("invalid_file_name.txt", target);
    assert!(result1.is_err());

    let result2 = extract_dst_path("example-about.txt", target);
    assert!(result2.is_err());

    let result3 = extract_dst_path("example-about", target);
    assert!(result3.is_err());
}

#[test]
fn main_test_extract_dst_path_valid() {
    let target = "target";

    let result = extract_dst_path("example-about_01102024.txt", target).expect("Test failed.");

    assert_eq!(result.1, "target/2024/10/01/example-about.txt");
}

#[test]
fn test_extract_dst_path_invalid_date_format() {
    let result = extract_dst_path("invalid_file_name.txt", "target");

    assert!(result.is_err());
    assert_eq!(
        result.unwrap_err().message(),
        "Date Error: No valid date format."
    );
}

#[test]
fn test_extract_dst_path_formatting_error() {
    let result = extract_dst_path("example-about.txt", "target");

    assert!(result.is_err());
    assert_eq!(
        result.unwrap_err().message(),
        "Separator Error: File name does not contain expected separator: _."
    );
}

#[test]
fn test_extract_dst_path_stem_error() {
    let result = extract_dst_path("example-about", "target");

    assert!(result.is_err());
    assert_eq!(
        result.unwrap_err().message(),
        "Extension Error: No valid file extension."
    );
}

#[test]
fn missing_extension_is_rejected() {
    let result = extract_dst_path("example-about_01102024", "target");
    assert_eq!(result.unwrap_err(), ProcessError::Extension);
}

#[test]
fn short_date_segment_is_rejected() {
    let result = extract_dst_path("about_0110202.txt", "target");
    assert_eq!(result.unwrap_err(), ProcessError::Date);
}

#[test]
fn long_date_segment_is_rejected() {
    let result = extract_dst_path("about_011020241234.txt", "target");
    assert_eq!(result.unwrap_err(), ProcessError::Date);
}

#[test]
fn out_of_range_day_is_rejected() {
    let result = extract_dst_path("about_32132024.txt", "target");
    assert_eq!(result.unwrap_err(), ProcessError::Date);
}

#[test]
fn out_of_range_month_is_rejected() {
    let result = extract_dst_path("about_01132024.txt", "target");
    assert_eq!(result.unwrap_err(), ProcessError::Date);
}

#[test]
fn out_of_range_year_is_rejected() {
    let result = extract_dst_path("about_01102100.txt", "target");
    assert_eq!(result.unwrap_err(), ProcessError::Date);
}

#[test]
fn zero_fields_are_accepted() {
    // Only upper bounds are checked: day 00 and month 00 pass.
    let result = extract_dst_path("about_00002099.txt", "target").unwrap();
    assert_eq!(result.1, "target/2099/00/00/about.txt");
}

#[test]
fn ceiling_values_are_accepted() {
    let result = extract_dst_path("about_31122099.pdf", "target").unwrap();
    assert_eq!(result.1, "target/2099/12/31/about.pdf");
}

#[test]
fn hidden_file_has_no_extension() {
    // A name whose only dot is its first character has no extension.
    let result = extract_dst_path(".txt", "target");
    assert_eq!(result.unwrap_err(), ProcessError::Extension);
}

#[test]
fn empty_extension_is_kept() {
    let result = extract_dst_path("about_01102024.", "target").unwrap();
    assert_eq!(result.1, "target/2024/10/01/about.");
}

#[test]
fn date_is_taken_from_second_segment_only() {
    // Exactly one separator occurrence is consumed; text after a further
    // separator is not examined.
    let result = extract_dst_path("cat_01102024_extra.txt", "target").unwrap();
    assert_eq!(result.1, "target/2024/10/01/cat.txt");

    let result = extract_dst_path("a_01102024_b.txt", "target").unwrap();
    assert_eq!(result.1, "target/2024/10/01/a.txt");
}

#[test]
fn extract_suffix_takes_text_after_last_dot() {
    assert_eq!(extract_suffix("archive.tar.gz").unwrap(), "gz");
    assert_eq!(extract_suffix("dir.d/no-dot-here").unwrap_err(), ProcessError::Extension);
}

#[test]
fn parent_of_plain_file_name_is_empty() {
    let (parent, _) = extract_dst_path("about_01102024.txt", "target").unwrap();
    assert_eq!(parent, "");
}

#[test]
fn nested_parent_is_kept_whole() {
    let (parent, destination) =
        extract_dst_path("inbox/2024/letter_05082024.pdf", "archive").unwrap();
    assert_eq!(parent, "inbox/2024");
    assert_eq!(destination, "archive/2024/08/05/letter.pdf");
}
