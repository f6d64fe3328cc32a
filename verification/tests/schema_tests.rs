use storage_core::schema::{Field, FieldError, Schema, SchemaError, Type};

fn get_test_schema() -> Schema {
    Schema::from_str("id BIGINT, cost FLOAT, available BOOLEAN, date TIMESTAMP").unwrap()
}

#[test]
fn from_str_should_return_struct() {
    assert_eq!(
        Schema::from_str("id INT, name STRING, minor BOOLEAN, ").unwrap(),
        Schema {
            fields: vec![
                Field::build("id".to_string(), Type::Int),
                Field::build("name".to_string(), Type::String),
                Field::build("minor".to_string(), Type::Boolean),
            ],
        },
    );
}

#[test]
#[should_panic]
fn from_str_should_panic_with_invalid_schema() {
    Schema::from_str("id INT, name STRIN, minor ").unwrap();
}

#[test]
fn tuple_size_should_return_max_bytes() {
    let schema = get_test_schema();
    assert_eq!(33, schema.tuple_size(None));
}

#[test]
fn tuple_size_should_return_size_with_null() {
    let schema = get_test_schema();
    assert_eq!(9, schema.tuple_size(Some(&[1, 0, 0, 1])));
}

#[test]
fn field_from_str_should_return_struct() {
    assert_eq!(
        Field::from_str("id INT").unwrap(),
        Field::build("id".to_string(), Type::Int)
    );
}

#[test]
#[should_panic]
fn field_from_str_should_panic_if_invalid_string() {
    Field::from_str("id INT fail").unwrap();
}

#[test]
fn from_str_should_aggregate_all_field_errors() {
    match Schema::from_str("id INT, name STRIN, minor ") {
        Err(SchemaError::InvalidSchema { errors, definition }) => {
            assert_eq!(definition, "id INT, name STRIN, minor ");
            assert_eq!(errors.len(), 2);
            assert_eq!(
                errors[0],
                FieldError::UnknownType {
                    token: "STRIN".to_string()
                }
            );
            assert_eq!(
                errors[1],
                FieldError::InvalidField {
                    definition: " minor".to_string()
                }
            );
        }
        Ok(_) => panic!("schema with malformed fields must not parse"),
    }
}

#[test]
fn field_from_str_should_report_unknown_type() {
    match Field::from_str("price MONEY") {
        Err(FieldError::UnknownType { token }) => assert_eq!(token, "MONEY"),
        other => panic!("expected an unknown-type error, got {:?}", other),
    }
}

#[test]
fn type_from_str_should_map_every_keyword() {
    assert_eq!(Type::from_str("INT").unwrap(), Type::Int);
    assert_eq!(Type::from_str("BIGINT").unwrap(), Type::Bigint);
    assert_eq!(Type::from_str("FLOAT").unwrap(), Type::Float);
    assert_eq!(Type::from_str("BOOLEAN").unwrap(), Type::Boolean);
    assert_eq!(Type::from_str("STRING").unwrap(), Type::String);
    assert_eq!(Type::from_str("TIMESTAMP").unwrap(), Type::Timestamp);
}

#[test]
fn type_byte_sizes_are_fixed() {
    assert_eq!(Type::Int.get_byte_size(), 4);
    assert_eq!(Type::Bigint.get_byte_size(), 8);
    assert_eq!(Type::Float.get_byte_size(), 8);
    assert_eq!(Type::Boolean.get_byte_size(), 1);
    assert_eq!(Type::String.get_byte_size(), 255);
    assert_eq!(Type::Timestamp.get_byte_size(), 16);
}

#[test]
fn tuple_size_pairs_only_up_to_shorter_sequence() {
    let schema = get_test_schema();
    assert_eq!(16, schema.tuple_size(Some(&[0, 0])));
    assert_eq!(33, schema.tuple_size(Some(&[0, 0, 0, 0, 1, 1])));
}

#[test]
fn get_type_returns_the_field_type() {
    let field = Field::build("cost".to_string(), Type::Float);
    assert_eq!(*field.get_type(), Type::Float);
}

#[test]
fn from_str_tolerates_surrounding_whitespace() {
    let schema = Schema::from_str("  id INT , name STRING  ").unwrap();
    assert_eq!(schema.fields.len(), 2);
    assert_eq!(schema.fields[0], Field::build("id".to_string(), Type::Int));
    assert_eq!(
        schema.fields[1],
        Field::build("name".to_string(), Type::String)
    );
}

#[test]
fn from_str_of_empty_definition_has_no_fields() {
    let schema = Schema::from_str("   ").unwrap();
    assert_eq!(schema.fields.len(), 0);
}
