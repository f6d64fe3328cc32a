use storage_core::schema::Schema;
use storage_core::tuple::{PageError, Tuple};

fn get_test_schema() -> Schema {
    Schema::from_str("id BIGINT, cost FLOAT, available BOOLEAN, date TIMESTAMP").unwrap()
}

#[test]
#[should_panic]
fn build_should_panic_if_data_dont_match_schema() {
    Tuple::build(&get_test_schema(), &[0, 0, 1, 0], &[4; 33]).unwrap();
}

#[test]
fn as_bytes_should_convert_tuple() {
    assert_eq!(
        Tuple::build(&get_test_schema(), &[0, 0, 1, 0], &[4; 32])
            .unwrap()
            .as_bytes(),
        vec![
            0, 0, 0, 1, 0, 4, 4, 4, 4, 4, 4, 4, 4, 4, 4, 4, 4, 4, 4, 4, 4, 4, 4, 4, 4, 4, 4, 4, 4,
            4, 4, 4, 4, 4, 4, 4, 4,
        ]
    )
}

#[test]
fn from_bytes_should_convert_bytes() {
    assert_eq!(
        Tuple::from_bytes(
            &[
                0, 0, 0, 1, 0, 4, 4, 4, 4, 4, 4, 4, 4, 4, 4, 4, 4, 4, 4, 4, 4, 4, 4, 4, 4, 4, 4,
                4, 4, 4, 4, 4, 4, 4, 4, 4, 4,
            ],
            Some(&get_test_schema()),
        )
        .unwrap(),
        Tuple::build(&get_test_schema(), &[0, 0, 1, 0], &[4; 32]).unwrap()
    )
}

#[test]
fn round_trip_with_all_fields_null() {
    let schema = get_test_schema();
    let tuple = Tuple::build(&schema, &[1, 1, 1, 1], &[]).unwrap();
    let bytes = tuple.as_bytes();
    assert_eq!(bytes, vec![0, 1, 1, 1, 1]);
    assert_eq!(Tuple::from_bytes(&bytes, Some(&schema)).unwrap(), tuple);
}

#[test]
fn round_trip_with_leading_null() {
    let schema = get_test_schema();
    let tuple = Tuple::build(&schema, &[1, 0, 0, 1], &[7; 9]).unwrap();
    let bytes = tuple.as_bytes();
    assert_eq!(bytes.len(), 1 + 4 + 9);
    assert_eq!(Tuple::from_bytes(&bytes, Some(&schema)).unwrap(), tuple);
}

#[test]
fn build_corruption_error_carries_offending_input() {
    let schema = get_test_schema();
    match Tuple::build(&schema, &[0, 0, 1, 0], &[4; 33]) {
        Err(PageError::CorruptedTuple {
            schema: sc,
            nulls,
            data,
        }) => {
            assert_eq!(sc, schema);
            assert_eq!(nulls, vec![0, 0, 1, 0]);
            assert_eq!(data, vec![4; 33]);
        }
        _ => panic!("mismatched data length must be reported as corruption"),
    }
}

#[test]
fn from_bytes_without_schema_fails() {
    assert!(matches!(
        Tuple::from_bytes(&[0, 0, 0], None),
        Err(PageError::MissingSchema)
    ));
}
