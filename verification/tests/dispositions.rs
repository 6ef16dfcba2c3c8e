use form_data::Error;
use form_data::parse_content_disposition;

#[test]
fn name_and_filename_are_read() {
    let h = "form-data; name=\"title\"; filename=\"pic.png\"";
    let cd = parse_content_disposition(Some(h)).unwrap();
    assert_eq!(cd.name, Some("title".to_string()));
    assert_eq!(cd.filename, Some("pic.png".to_string()));
}

#[test]
fn unquoted_values_and_spacing_are_accepted() {
    let h = "form-data;  name = title ; filename =  upload.bin";
    let cd = parse_content_disposition(Some(h)).unwrap();
    assert_eq!(cd.name, Some("title".to_string()));
    assert_eq!(cd.filename, Some("upload.bin".to_string()));
}

#[test]
fn unknown_attributes_are_ignored() {
    let h = "form-data; charset=utf-8; name=\"a\"";
    let cd = parse_content_disposition(Some(h)).unwrap();
    assert_eq!(cd.name, Some("a".to_string()));
    assert_eq!(cd.filename, None);
}

#[test]
fn the_disposition_type_token_is_skipped() {
    // Even a leading token holding an `=` is not an attribute.
    let h = "name=first; name=\"second\"";
    let cd = parse_content_disposition(Some(h)).unwrap();
    assert_eq!(cd.name, Some("second".to_string()));
}

#[test]
fn a_missing_header_is_rejected() {
    assert_eq!(parse_content_disposition(None), Err(Error::ContentDisposition));
}

#[test]
fn a_header_without_attributes_has_none() {
    let cd = parse_content_disposition(Some("form-data")).unwrap();
    assert_eq!(cd.name, None);
    assert_eq!(cd.filename, None);
}
