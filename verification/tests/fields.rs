use star_rating::errors::ParseError;
use star_rating::errors::StarRatingError;
use star_rating::parsing::parse_hit_object_line;
use star_rating::parsing::read_column_count;
use star_rating::parsing::read_metadata;
use star_rating::parsing::string_to_int;

#[test]
fn plain_integers_parse() {
    assert_eq!(string_to_int("512"), 512);
    assert_eq!(string_to_int("0"), 0);
    assert_eq!(string_to_int("+42"), 42);
    assert_eq!(string_to_int("-7"), -7);
}

#[test]
fn fractions_truncate_toward_zero() {
    assert_eq!(string_to_int("12.9"), 12);
    assert_eq!(string_to_int("-3.7"), -3);
    assert_eq!(string_to_int("1."), 1);
    assert_eq!(string_to_int(".5"), 0);
}

#[test]
fn malformed_fields_evaluate_to_zero() {
    assert_eq!(string_to_int(""), 0);
    assert_eq!(string_to_int("abc"), 0);
    assert_eq!(string_to_int("-"), 0);
    assert_eq!(string_to_int("."), 0);
    assert_eq!(string_to_int("1.2.3"), 0);
    assert_eq!(string_to_int("10:20"), 0);
}

#[test]
fn huge_fields_clamp_to_i32() {
    assert_eq!(string_to_int("3000000000"), i32::MAX);
    assert_eq!(string_to_int("-3000000000"), i32::MIN);
    assert_eq!(string_to_int("2147483647"), i32::MAX);
    assert_eq!(string_to_int("-2147483648"), i32::MIN);
}

#[test]
fn hold_line_parses_all_fields() {
    let mut columns = Vec::new();
    let mut starts = Vec::new();
    let mut ends = Vec::new();
    let mut types = Vec::new();
    let r = parse_hit_object_line(
        "256,192,1000,128,0,2000:0:0:0:",
        4,
        &mut columns,
        &mut starts,
        &mut ends,
        &mut types,
    );
    assert!(r.is_ok());
    // x = 256 over a column width of 512 / 4 = 128.
    assert_eq!(columns, vec![2]);
    assert_eq!(starts, vec![1000]);
    assert_eq!(types, vec![128]);
    assert_eq!(ends, vec![2000]);
}

#[test]
fn tap_line_parses_all_fields() {
    let mut columns = Vec::new();
    let mut starts = Vec::new();
    let mut ends = Vec::new();
    let mut types = Vec::new();
    let r = parse_hit_object_line(
        "64,192,500,1,0,0:0:0:0:",
        4,
        &mut columns,
        &mut starts,
        &mut ends,
        &mut types,
    );
    assert!(r.is_ok());
    assert_eq!(columns, vec![0]);
    assert_eq!(starts, vec![500]);
    assert_eq!(types, vec![1]);
    assert_eq!(ends, vec![0]);
}

#[test]
fn short_line_is_rejected_and_buffers_untouched() {
    let mut columns = Vec::new();
    let mut starts = Vec::new();
    let mut ends = Vec::new();
    let mut types = Vec::new();
    let r = parse_hit_object_line("1,2,3", 4, &mut columns, &mut starts, &mut ends, &mut types);
    assert!(matches!(r, Err(StarRatingError::ParseError(_))));
    if let Err(e) = r {
        assert_eq!(
            e.message(),
            "Parse error: Insufficient data: Invalid hit object line: 1,2,3"
        );
    }
    assert!(columns.is_empty());
    assert!(starts.is_empty());
    assert!(ends.is_empty());
    assert!(types.is_empty());
}

#[test]
fn column_count_reads_last_digit() {
    assert_eq!(read_column_count("CircleSize:4"), 4);
    assert_eq!(read_column_count("CircleSize:7  "), 7);
    // A trailing 0 means ten columns.
    assert_eq!(read_column_count("CircleSize:0"), 10);
    // Only the last character counts.
    assert_eq!(read_column_count("CircleSize:12"), 2);
    // Lines without the tag are not column-count lines.
    assert_eq!(read_column_count("OverallDifficulty:8"), -1);
    // A tagged line ending in a non-digit yields 0.
    assert_eq!(read_column_count("CircleSize:x"), 0);
}

#[test]
fn metadata_lines_are_ignored() {
    read_metadata("[Metadata]");
    read_metadata("Title:Example");
}

#[test]
fn parse_error_messages() {
    let e = ParseError::FileNotFound("chart.osu".to_string());
    assert_eq!(e.message(), "File not found: chart.osu");
    let e = ParseError::InvalidValue("CircleSize".to_string(), "x".to_string());
    assert_eq!(e.message(), "Invalid value for CircleSize: x");
    let wrapped = StarRatingError::from_parse(&ParseError::MissingSection("HitObjects".to_string()));
    assert_eq!(wrapped.message(), "Parse error: Missing section: HitObjects");
}

#[test]
fn star_rating_error_messages() {
    let e = StarRatingError::CalculationError("weights".to_string());
    assert_eq!(e.message(), "Calculation error: weights");
    let e = StarRatingError::MissingData("notes".to_string());
    assert_eq!(e.message(), "Missing data: notes");
    let e = StarRatingError::InvalidFormat("header".to_string());
    assert_eq!(e.message(), "Invalid format: header");
    let e = StarRatingError::FileError("denied".to_string());
    assert_eq!(e.message(), "File error: denied");
}
