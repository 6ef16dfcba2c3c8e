use bytes::Bytes;
use form_data::Error;
use form_data::FieldTerminator;
use form_data::FilenameGenerator;
use form_data::MultipartContent;
use form_data::handle_form_data;

struct NoGen;

impl FilenameGenerator for NoGen {
    fn next_filename(&self, _mime_type: &str) -> Option<String> {
        None
    }
}

fn chunks(parts: &[&[u8]]) -> Vec<Bytes> {
    parts.iter().map(|p| Bytes::copy_from_slice(p)).collect()
}

#[test]
fn text_field_decodes_utf8() {
    let body = chunks(&[b"Hel", b"lo"]);
    let term: FieldTerminator<NoGen> = FieldTerminator::Text;
    let r = handle_form_data(&body, &term, 100);
    assert_eq!(r, Ok(MultipartContent::Text("Hello".to_string())));
}

#[test]
fn bytes_field_keeps_chunks_in_order() {
    // Fails if buffering dropped or reordered a chunk.
    let body = chunks(&[b"ab", b"cd", b"ef"]);
    let term: FieldTerminator<NoGen> = FieldTerminator::Bytes;
    let r = handle_form_data(&body, &term, 100);
    assert_eq!(
        r,
        Ok(MultipartContent::Bytes(Bytes::copy_from_slice(b"abcdef")))
    );
}

#[test]
fn body_reaching_the_field_limit_is_rejected() {
    // Appending would meet the limit exactly: rejected.
    let body = chunks(&[b"12345678"]);
    let term: FieldTerminator<NoGen> = FieldTerminator::Text;
    assert_eq!(handle_form_data(&body, &term, 8), Err(Error::FieldSize));
}

#[test]
fn body_just_below_the_field_limit_is_accepted() {
    let body = chunks(&[b"1234567"]);
    let term: FieldTerminator<NoGen> = FieldTerminator::Text;
    assert_eq!(
        handle_form_data(&body, &term, 8),
        Ok(MultipartContent::Text("1234567".to_string()))
    );
}

#[test]
fn invalid_utf8_is_a_parse_field_error() {
    let body = chunks(&[&[0xff, 0xfe]]);
    let term: FieldTerminator<NoGen> = FieldTerminator::Text;
    assert_eq!(handle_form_data(&body, &term, 100), Err(Error::ParseField));
}

#[test]
fn integer_field_parses_a_full_literal() {
    let body = chunks(&[b"-42"]);
    let term: FieldTerminator<NoGen> = FieldTerminator::Int;
    assert_eq!(
        handle_form_data(&body, &term, 100),
        Ok(MultipartContent::Int(-42))
    );
}

#[test]
fn integer_field_trims_surrounding_whitespace() {
    let body = chunks(&[b"  17 \n"]);
    let term: FieldTerminator<NoGen> = FieldTerminator::Int;
    assert_eq!(
        handle_form_data(&body, &term, 100),
        Ok(MultipartContent::Int(17))
    );
}

#[test]
fn non_numeric_integer_body_is_a_parse_int_error() {
    let body = chunks(&[b"abc"]);
    let term: FieldTerminator<NoGen> = FieldTerminator::Int;
    assert_eq!(handle_form_data(&body, &term, 100), Err(Error::ParseInt));
}

#[test]
fn partial_integer_match_is_rejected() {
    let body = chunks(&[b"12x"]);
    let term: FieldTerminator<NoGen> = FieldTerminator::Int;
    assert_eq!(handle_form_data(&body, &term, 100), Err(Error::ParseInt));
}

#[test]
fn integer_bounds_are_exact() {
    let term: FieldTerminator<NoGen> = FieldTerminator::Int;
    let min = chunks(&[b"-9223372036854775808"]);
    assert_eq!(
        handle_form_data(&min, &term, 100),
        Ok(MultipartContent::Int(i64::MIN))
    );
    let max = chunks(&[b"9223372036854775807"]);
    assert_eq!(
        handle_form_data(&max, &term, 100),
        Ok(MultipartContent::Int(i64::MAX))
    );
    let over = chunks(&[b"9223372036854775808"]);
    assert_eq!(handle_form_data(&over, &term, 100), Err(Error::ParseInt));
}

#[test]
fn float_field_keeps_the_accepted_literal_text() {
    let body = chunks(&[b" 3.25e2 "]);
    let term: FieldTerminator<NoGen> = FieldTerminator::Float;
    assert_eq!(
        handle_form_data(&body, &term, 100),
        Ok(MultipartContent::Float("3.25e2".to_string()))
    );
}

#[test]
fn float_special_words_are_accepted() {
    let term: FieldTerminator<NoGen> = FieldTerminator::Float;
    for ok in ["inf", "-Infinity", "NaN", "+.5", "7.", "1e9", "-0.25"] {
        let body = chunks(&[ok.as_bytes()]);
        assert_eq!(
            handle_form_data(&body, &term, 100),
            Ok(MultipartContent::Float(ok.trim().to_string())),
            "{ok}"
        );
    }
}

#[test]
fn malformed_float_bodies_are_a_parse_float_error() {
    let term: FieldTerminator<NoGen> = FieldTerminator::Float;
    for bad in ["abc", "", ".", "1e", "1.2.3", "in", "5 5"] {
        let body = chunks(&[bad.as_bytes()]);
        assert_eq!(
            handle_form_data(&body, &term, 100),
            Err(Error::ParseFloat),
            "{bad}"
        );
    }
}

#[test]
fn scalar_body_against_a_file_terminator_is_a_type_error() {
    let gen = std::sync::Arc::new(NoGen);
    let term: FieldTerminator<NoGen> = FieldTerminator::File(gen);
    let body = chunks(&[b"data"]);
    assert_eq!(handle_form_data(&body, &term, 100), Err(Error::FieldType));
}

#[test]
fn empty_body_is_an_empty_text() {
    let body: Vec<Bytes> = Vec::new();
    let term: FieldTerminator<NoGen> = FieldTerminator::Text;
    assert_eq!(
        handle_form_data(&body, &term, 0),
        Ok(MultipartContent::Text(String::new()))
    );
}
