use bytes::Bytes;
use form_data::Error;
use form_data::Field;
use form_data::FilenameGenerator;
use form_data::Form;
use form_data::Part;
use form_data::PartItem;
use form_data::Value;
use form_data::handle_multipart;

struct FixedGen;

impl FilenameGenerator for FixedGen {
    fn next_filename(&self, _mime_type: &str) -> Option<String> {
        Some("uploads/stored.png".to_string())
    }
}

struct RefusingGen;

impl FilenameGenerator for RefusingGen {
    fn next_filename(&self, _mime_type: &str) -> Option<String> {
        None
    }
}

fn part(disposition: &str, body: &[&[u8]]) -> PartItem {
    PartItem::Field(Part {
        content_disposition: Some(disposition.to_string()),
        content_type: "text/plain".to_string(),
        body: body.iter().map(|b| Bytes::copy_from_slice(b)).collect(),
    })
}

fn map(entries: Vec<(&str, Value)>) -> Value {
    Value::Mapping(entries.into_iter().map(|(k, v)| (k.to_string(), v)).collect())
}

fn demo_form() -> Form<FixedGen> {
    Form::new()
        .field("title", Field::text())
        .field("tags", Field::array(Field::text()))
        .field("cover", Field::file(FixedGen))
}

#[test]
fn whole_form_decodes_to_the_declared_shape() {
    let parts = vec![
        part("form-data; name=\"title\"", &[b"Hello"]),
        part("form-data; name=\"tags[]\"", &[b"a"]),
        part("form-data; name=\"tags[]\"", &[b"b"]),
        part(
            "form-data; name=\"cover\"; filename=\"pic.png\"",
            &[b"PNGDATA"],
        ),
    ];
    let v = handle_multipart(parts, &demo_form()).unwrap();
    assert_eq!(
        v,
        map(vec![
            ("title", Value::Text("Hello".to_string())),
            (
                "tags",
                Value::Array(vec![
                    Value::Text("a".to_string()),
                    Value::Text("b".to_string()),
                ])
            ),
            (
                "cover",
                Value::File("pic.png".to_string(), "uploads/stored.png".to_string())
            ),
        ])
    );
}

#[test]
fn filename_directories_are_discarded() {
    let parts = vec![part(
        "form-data; name=\"cover\"; filename=\"../secret/pic.png\"",
        &[b"PNGDATA"],
    )];
    let v = handle_multipart(parts, &demo_form()).unwrap();
    assert_eq!(
        v,
        map(vec![(
            "cover",
            Value::File("pic.png".to_string(), "uploads/stored.png".to_string())
        )])
    );
}

#[test]
fn part_named_outside_the_schema_fails_with_a_type_error() {
    let parts = vec![part("form-data; name=\"unknown\"", &[b"x"])];
    assert_eq!(handle_multipart(parts, &demo_form()), Err(Error::FieldType));
}

#[test]
fn bad_numeric_field_aborts_the_whole_decode() {
    let form: Form<FixedGen> = Form::new()
        .field("n", Field::integer())
        .field("title", Field::text());
    let parts = vec![
        part("form-data; name=\"title\"", &[b"kept so far"]),
        part("form-data; name=\"n\"", &[b"abc"]),
    ];
    assert_eq!(handle_multipart(parts, &form), Err(Error::ParseInt));
}

#[test]
fn field_count_limit_accepts_one_less_than_the_maximum() {
    // The count check is strictly less-than: with max_fields = 2 exactly
    // one scalar field is accepted, and a second fails.
    let form: Form<FixedGen> = Form::new()
        .max_fields(2)
        .field("title", Field::text())
        .field("tags", Field::array(Field::text()));
    let one = vec![part("form-data; name=\"title\"", &[b"x"])];
    assert!(handle_multipart(one, &form).is_ok());
    let two = vec![
        part("form-data; name=\"title\"", &[b"x"]),
        part("form-data; name=\"tags[]\"", &[b"y"]),
    ];
    assert_eq!(handle_multipart(two, &form), Err(Error::FieldCount));
}

#[test]
fn file_count_limit_accepts_one_less_than_the_maximum() {
    let form = demo_form().max_files(2);
    let one = vec![part(
        "form-data; name=\"cover\"; filename=\"a.png\"",
        &[b"z"],
    )];
    assert!(handle_multipart(one, &form).is_ok());
    let two = vec![
        part("form-data; name=\"cover\"; filename=\"a.png\"", &[b"z"]),
        part("form-data; name=\"cover\"; filename=\"b.png\"", &[b"z"]),
    ];
    assert_eq!(handle_multipart(two, &form), Err(Error::FileCount));
}

#[test]
fn oversized_field_fails_and_returns_no_value() {
    let form = demo_form().max_field_size(4);
    let parts = vec![part("form-data; name=\"title\"", &[b"12345"])];
    assert_eq!(handle_multipart(parts, &form), Err(Error::FieldSize));
}

#[test]
fn oversized_file_fails_with_a_file_size_error() {
    let form = demo_form().max_file_size(4);
    let parts = vec![part(
        "form-data; name=\"cover\"; filename=\"a.png\"",
        &[b"123", b"456"],
    )];
    assert_eq!(handle_multipart(parts, &form), Err(Error::FileSize));
}

#[test]
fn file_part_without_filename_fails() {
    let parts = vec![part("form-data; name=\"cover\"", &[b"z"])];
    assert_eq!(handle_multipart(parts, &demo_form()), Err(Error::Filename));
}

#[test]
fn refusing_generator_fails_the_decode() {
    let form: Form<RefusingGen> = Form::new().field("cover", Field::file(RefusingGen));
    let parts = vec![part(
        "form-data; name=\"cover\"; filename=\"a.png\"",
        &[b"z"],
    )];
    assert_eq!(handle_multipart(parts, &form), Err(Error::GenFilename));
}

#[test]
fn part_without_a_name_fails() {
    let parts = vec![part("form-data; filename=\"a.png\"", &[b"z"])];
    assert_eq!(handle_multipart(parts, &demo_form()), Err(Error::Field));
}

#[test]
fn part_without_a_disposition_fails() {
    let parts = vec![PartItem::Field(Part {
        content_disposition: None,
        content_type: "text/plain".to_string(),
        body: Vec::new(),
    })];
    assert_eq!(
        handle_multipart(parts, &demo_form()),
        Err(Error::ContentDisposition)
    );
}

#[test]
fn nested_parts_are_flattened_in_order() {
    let inner = vec![
        part("form-data; name=\"tags[]\"", &[b"a"]),
        part("form-data; name=\"tags[]\"", &[b"b"]),
    ];
    let parts = vec![
        part("form-data; name=\"title\"", &[b"t"]),
        PartItem::Nested(inner),
        part("form-data; name=\"tags[]\"", &[b"c"]),
    ];
    let v = handle_multipart(parts, &demo_form()).unwrap();
    assert_eq!(
        v,
        map(vec![
            ("title", Value::Text("t".to_string())),
            (
                "tags",
                Value::Array(vec![
                    Value::Text("a".to_string()),
                    Value::Text("b".to_string()),
                    Value::Text("c".to_string()),
                ])
            ),
        ])
    );
}

#[test]
fn empty_stream_decodes_to_an_empty_map() {
    let v = handle_multipart(Vec::new(), &demo_form()).unwrap();
    assert_eq!(v, Value::Mapping(Vec::new()));
}

#[test]
fn error_statuses_split_server_from_client_faults() {
    assert_eq!(Error::GenFilename.http_status(), 500);
    assert_eq!(Error::MkDir.http_status(), 500);
    assert_eq!(Error::FsPool.http_status(), 500);
    assert_eq!(Error::FieldSize.http_status(), 400);
    assert_eq!(Error::ContentDisposition.http_status(), 400);
    assert_eq!(Error::ParseInt.http_status(), 400);
}
