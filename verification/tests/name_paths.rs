use form_data::Error;
use form_data::NamePart;
use form_data::parse_multipart_name;

#[test]
fn plain_name_is_one_map_step() {
    let r = parse_multipart_name("a".to_string()).unwrap();
    assert_eq!(r, vec![NamePart::Mapping("a".to_string())]);
}

#[test]
fn bracket_key_is_two_map_steps() {
    let r = parse_multipart_name("a[b]".to_string()).unwrap();
    assert_eq!(
        r,
        vec![
            NamePart::Mapping("a".to_string()),
            NamePart::Mapping("b".to_string()),
        ]
    );
}

#[test]
fn empty_brackets_are_an_array_step() {
    let r = parse_multipart_name("a[]".to_string()).unwrap();
    assert_eq!(r, vec![NamePart::Mapping("a".to_string()), NamePart::Array]);
}

#[test]
fn key_and_array_combine() {
    let r = parse_multipart_name("a[b][]".to_string()).unwrap();
    assert_eq!(
        r,
        vec![
            NamePart::Mapping("a".to_string()),
            NamePart::Mapping("b".to_string()),
            NamePart::Array,
        ]
    );
}

#[test]
fn leading_bracket_fails() {
    let r = parse_multipart_name("[x]".to_string());
    assert_eq!(r, Err(Error::ContentDisposition));
}

#[test]
fn leading_array_step_fails() {
    let r = parse_multipart_name("][a]".to_string());
    assert!(r.is_err());
}

#[test]
fn is_map_tells_steps_apart() {
    assert!(NamePart::Mapping("k".to_string()).is_map());
    assert!(!NamePart::Array.is_map());
}
