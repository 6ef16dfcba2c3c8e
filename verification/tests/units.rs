use bytes::Bytes;
use form_data::Error;
use form_data::MultipartContent;
use form_data::NamePart;
use form_data::Part;
use form_data::PartItem;
use form_data::Value;
use form_data::check_file_size;
use form_data::check_filename;
use form_data::check_float;
use form_data::count_field;
use form_data::flatten_items;
use form_data::parse_i64;
use form_data::parse_multipart_name;
use form_data::trim_ws;

#[test]
fn repeated_trailing_brackets_are_all_stripped() {
    let r = parse_multipart_name("a[b]]".to_string()).unwrap();
    assert_eq!(
        r,
        vec![
            NamePart::Mapping("a".to_string()),
            NamePart::Mapping("b".to_string()),
        ]
    );
}

#[test]
fn deep_paths_parse_in_order() {
    let r = parse_multipart_name("a[b][c][]".to_string()).unwrap();
    assert_eq!(
        r,
        vec![
            NamePart::Mapping("a".to_string()),
            NamePart::Mapping("b".to_string()),
            NamePart::Mapping("c".to_string()),
            NamePart::Array,
        ]
    );
}

#[test]
fn filename_base_discards_directories() {
    assert_eq!(
        check_filename(Some("dir/sub/pic.png".to_string())),
        Ok("pic.png".to_string())
    );
    assert_eq!(
        check_filename(Some("plain.bin".to_string())),
        Ok("plain.bin".to_string())
    );
}

#[test]
fn unusable_filenames_are_rejected() {
    assert_eq!(check_filename(None), Err(Error::Filename));
    assert_eq!(check_filename(Some(String::new())), Err(Error::Filename));
    assert_eq!(check_filename(Some("dir/".to_string())), Err(Error::Filename));
    assert_eq!(check_filename(Some("a/.".to_string())), Err(Error::Filename));
    assert_eq!(check_filename(Some("..".to_string())), Err(Error::Filename));
}

#[test]
fn file_size_accounting_is_exact_at_the_limit() {
    assert_eq!(check_file_size(0, 10, 10), Ok(10));
    assert_eq!(check_file_size(10, 0, 10), Ok(10));
    assert_eq!(check_file_size(10, 1, 10), Err(Error::FileSize));
}

#[test]
fn counting_is_strictly_below_each_maximum() {
    let file = MultipartContent::File {
        filename: "f".to_string(),
        stored_as: "s".to_string(),
    };
    let text = MultipartContent::Text("t".to_string());
    assert_eq!(count_field(&file, 0, 0, 2, 2), Ok((1, 0)));
    assert_eq!(count_field(&file, 1, 0, 2, 2), Err(Error::FileCount));
    assert_eq!(count_field(&text, 0, 0, 2, 2), Ok((0, 1)));
    assert_eq!(count_field(&text, 0, 1, 2, 2), Err(Error::FieldCount));
    assert_eq!(count_field(&text, 5, 0, 2, 0), Err(Error::FieldCount));
}

#[test]
fn integer_literals_parse_exactly() {
    assert_eq!(parse_i64("0"), Some(0));
    assert_eq!(parse_i64("+7"), Some(7));
    assert_eq!(parse_i64("-0"), Some(0));
    assert_eq!(parse_i64("007"), Some(7));
    assert_eq!(parse_i64(""), None);
    assert_eq!(parse_i64("+"), None);
    assert_eq!(parse_i64("1 2"), None);
    assert_eq!(parse_i64("99999999999999999999999"), None);
}

#[test]
fn float_literal_check_matches_the_float_grammar() {
    for ok in ["0", "1.5", ".5", "5.", "1e10", "1E-3", "-inf", "nan", "INFINITY"] {
        assert!(check_float(ok), "{ok}");
        assert!(ok.parse::<f64>().is_ok(), "{ok}");
    }
    for bad in ["", ".", "e5", "1e+", "--1", "0x1", "1_000"] {
        assert!(!check_float(bad), "{bad}");
        assert!(bad.parse::<f64>().is_err(), "{bad}");
    }
}

#[test]
fn whitespace_is_trimmed_from_both_ends() {
    assert_eq!(trim_ws(" \t x y \r\n"), "x y");
    assert_eq!(trim_ws(""), "");
    assert_eq!(trim_ws("   "), "");
}

#[test]
fn flattening_preserves_arrival_order() {
    let field = |name: &str| {
        PartItem::Field(Part {
            content_disposition: Some(name.to_string()),
            content_type: String::new(),
            body: Vec::new(),
        })
    };
    let items = vec![
        field("one"),
        PartItem::Nested(vec![field("two"), PartItem::Nested(vec![field("three")])]),
        field("four"),
    ];
    let flat = flatten_items(items);
    let names: Vec<_> = flat
        .iter()
        .map(|p| p.content_disposition.clone().unwrap())
        .collect();
    assert_eq!(names, vec!["one", "two", "three", "four"]);
}

#[test]
fn content_turns_into_the_matching_leaf_value() {
    assert_eq!(
        Value::from(MultipartContent::Int(4)),
        Value::Int(4)
    );
    assert_eq!(
        Value::from(MultipartContent::Text("t".to_string())),
        Value::Text("t".to_string())
    );
    assert_eq!(
        Value::from(MultipartContent::Bytes(Bytes::copy_from_slice(b"b"))),
        Value::Bytes(Bytes::copy_from_slice(b"b"))
    );
    assert_eq!(
        Value::from(MultipartContent::File {
            filename: "f".to_string(),
            stored_as: "s".to_string()
        }),
        Value::File("f".to_string(), "s".to_string())
    );
}
