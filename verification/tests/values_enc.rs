use pgr::encode::encode;
use pgr::value::parse_int;
use pgr::value::coerce;
use pgr::{ArgMode, EncodeError, OutputSpec, Payload, PgArg, PgValue};

fn arg(name: &str, mode: ArgMode, ty: &str) -> PgArg {
    PgArg { name: name.to_owned(), mode, ty: ty.to_owned() }
}

#[test]
fn parse_int_reads_signed_decimals() {
    assert_eq!(parse_int("42"), Some(42));
    assert_eq!(parse_int("-7"), Some(-7));
    assert_eq!(parse_int("0"), Some(0));
    assert_eq!(parse_int("999999999999999999"), Some(999_999_999_999_999_999));
}

#[test]
fn parse_int_rejects_malformed_text() {
    assert_eq!(parse_int(""), None);
    assert_eq!(parse_int("-"), None);
    assert_eq!(parse_int("4x2"), None);
    assert_eq!(parse_int("1234567890123456789"), None); // nineteen digits
}

#[test]
fn coerce_enforces_the_four_byte_range() {
    assert!(matches!(coerce("int4", "2147483647"), Some(PgValue::Int(2147483647))));
    assert!(coerce("int4", "2147483648").is_none());
    assert!(matches!(coerce("int8", "2147483648"), Some(PgValue::Int(2147483648))));
}

#[test]
fn coerce_reads_booleans_and_passes_text_through() {
    assert!(matches!(coerce("bool", "t"), Some(PgValue::Bool(true))));
    assert!(matches!(coerce("boolean", "false"), Some(PgValue::Bool(false))));
    assert!(coerce("bool", "yes").is_none());
    assert!(matches!(coerce("pgr.user_t", "42"), Some(PgValue::Text(s)) if s == "42"));
}

fn named(n: &str, v: PgValue) -> (String, PgValue) {
    (n.to_owned(), v)
}

#[test]
fn scalar_takes_the_single_value() {
    let rows = vec![vec![named("count", PgValue::Int(5))]];
    match encode(&OutputSpec::Scalar, &vec![], &rows) {
        Ok(Payload::Scalar(PgValue::Int(5))) => {}
        other => panic!("expected the scalar five, got {:?}", other),
    }
}

#[test]
fn scalar_needs_a_row_and_a_column() {
    assert!(matches!(
        encode(&OutputSpec::Scalar, &vec![], &vec![]),
        Err(EncodeError::EmptyResult)
    ));
}

#[test]
fn row_takes_the_first_row() {
    let rows = vec![vec![named("id", PgValue::Int(1)), named("name", PgValue::Text("Ann".into()))]];
    match encode(&OutputSpec::Row, &vec![], &rows) {
        Ok(Payload::Row(fields)) => {
            assert_eq!(fields.len(), 2);
            assert_eq!(fields[0].0, "id");
            assert_eq!(fields[1].0, "name");
        }
        other => panic!("expected a row, got {:?}", other),
    }
}

#[test]
fn empty_rowset_is_valid_and_distinct_from_not_found() {
    match encode(&OutputSpec::RowSet, &vec![], &vec![]) {
        Ok(Payload::RowSet(rows)) => assert!(rows.is_empty()),
        other => panic!("expected an empty row set, got {:?}", other),
    }
}

#[test]
fn out_composite_pairs_out_names_with_columns() {
    let args = vec![arg("a", ArgMode::Out, "int4"), arg("b", ArgMode::Out, "text")];
    let rows = vec![vec![named("col1", PgValue::Int(1)), named("col2", PgValue::Text("x".into()))]];
    match encode(&OutputSpec::OutComposite(vec![0, 1]), &args, &rows) {
        Ok(Payload::Row(fields)) => {
            assert_eq!(fields.len(), 2);
            assert_eq!(fields[0].0, "a");
            assert!(matches!(fields[0].1, PgValue::Int(1)));
            assert_eq!(fields[1].0, "b");
            assert!(matches!(&fields[1].1, PgValue::Text(s) if s == "x"));
        }
        other => panic!("expected the out composite, got {:?}", other),
    }
}

#[test]
fn out_composite_rejects_misshapen_results() {
    let args = vec![arg("a", ArgMode::Out, "int4"), arg("b", ArgMode::Out, "text")];
    let one_col = vec![vec![named("col1", PgValue::Int(1))]];
    assert!(matches!(
        encode(&OutputSpec::OutComposite(vec![0, 1]), &args, &one_col),
        Err(EncodeError::ShapeMismatch)
    ));
    assert!(matches!(
        encode(&OutputSpec::OutComposite(vec![0, 1]), &args, &vec![]),
        Err(EncodeError::EmptyResult)
    ));
}
