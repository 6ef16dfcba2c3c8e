use form_data::Field;
use form_data::FieldTerminator;
use form_data::FilenameGenerator;
use form_data::Form;
use form_data::NamePart;

struct NoGen;

impl FilenameGenerator for NoGen {
    fn next_filename(&self, _mime_type: &str) -> Option<String> {
        None
    }
}

fn key(k: &str) -> NamePart {
    NamePart::Mapping(k.to_string())
}

#[test]
fn text_field_matches_its_name() {
    let form: Form<NoGen> = Form::new().field("a", Field::text());
    let path = vec![key("a")];
    let term = form.valid_field(&path);
    assert!(matches!(term, Some(FieldTerminator::Text)));
}

#[test]
fn extra_step_after_leaf_matches_nothing() {
    let form: Form<NoGen> = Form::new().field("a", Field::text());
    let path = vec![key("a"), key("b")];
    assert!(form.valid_field(&path).is_none());
}

#[test]
fn unknown_key_matches_nothing() {
    let form: Form<NoGen> = Form::new().field("a", Field::text());
    let path = vec![key("b")];
    assert!(form.valid_field(&path).is_none());
}

#[test]
fn nested_map_and_array_match() {
    let form: Form<NoGen> = Form::new().field(
        "outer",
        Field::map()
            .field("ints", Field::array(Field::integer()))
            .field("note", Field::text())
            .finalize(),
    );
    let path = vec![key("outer"), key("ints"), NamePart::Array];
    assert!(matches!(form.valid_field(&path), Some(FieldTerminator::Int)));
    let path = vec![key("outer"), key("note")];
    assert!(matches!(form.valid_field(&path), Some(FieldTerminator::Text)));
    let path = vec![key("outer"), key("ints")];
    assert!(form.valid_field(&path).is_none());
}

#[test]
fn duplicate_key_is_shadowed_by_the_first() {
    let form: Form<NoGen> = Form::new()
        .field("a", Field::text())
        .field("a", Field::integer());
    let path = vec![key("a")];
    assert!(matches!(form.valid_field(&path), Some(FieldTerminator::Text)));
}

#[test]
fn array_step_against_map_node_matches_nothing() {
    let form: Form<NoGen> = Form::new().field("a", Field::text());
    let path = vec![NamePart::Array];
    assert!(form.valid_field(&path).is_none());
}
