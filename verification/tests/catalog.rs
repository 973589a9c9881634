use pgr::pg_func::CatalogError;
use pgr::{ArgMode, CatalogRow, DiagKind, PgFunc};

fn strs(v: &[&str]) -> Vec<String> {
    v.iter().map(|s| s.to_string()).collect()
}

fn row(name: &str, names: &[&str], modes: &[&str], types: &[&str]) -> CatalogRow {
    CatalogRow {
        name: name.to_owned(),
        retset: false,
        rettype: "int4".to_owned(),
        argnames: strs(names),
        argmodes: strs(modes),
        argtypes: strs(types),
    }
}

#[test]
fn mode_codes_decode_to_the_five_modes() {
    let codes = strs(&["in", "out", "inout", "variadic", "table"]);
    let decoded: Vec<ArgMode> = (0..5).map(|i| ArgMode::decode(&codes, i).unwrap()).collect();
    assert_eq!(
        decoded,
        vec![ArgMode::In, ArgMode::Out, ArgMode::Inout, ArgMode::Variadic, ArgMode::Table]
    );
}

#[test]
fn unknown_mode_code_decodes_to_none() {
    assert_eq!(ArgMode::decode(&strs(&["sideways"]), 0), None);
}

#[test]
fn absent_mode_codes_mean_all_in() {
    assert_eq!(ArgMode::decode(&vec![], 7), Some(ArgMode::In));
}

#[test]
fn from_rows_builds_signatures_and_skips_bad_names() {
    let rows = vec![
        row(
            "get /user/:id?name&age",
            &["id", "name", "age"],
            &[],
            &["int4", "text", "int4"],
        ),
        row("not a routine endpoint", &[], &[], &[]),
    ];
    let (funcs, diags) = PgFunc::from_rows(&rows).unwrap();
    assert_eq!(funcs.len(), 1);
    assert_eq!(diags.len(), 1);
    assert_eq!(diags[0].kind, DiagKind::BadName);
    let f = &funcs[0];
    assert_eq!(f.name, "get /user/:id?name&age");
    assert_eq!(f.method, "get");
    assert_eq!(f.path, strs(&["user", ":id"]));
    assert_eq!(f.query, strs(&["name", "age"]));
    assert_eq!(f.args.len(), 3);
    assert_eq!(f.args[0].name, "id");
    assert_eq!(f.args[0].mode, ArgMode::In);
    assert_eq!(f.args[2].ty, "int4");
}

#[test]
fn from_rows_decodes_explicit_modes() {
    let rows = vec![row("get /pair", &["a", "b"], &["out", "out"], &["int4", "text"])];
    let (funcs, _) = PgFunc::from_rows(&rows).unwrap();
    assert_eq!(funcs[0].args[0].mode, ArgMode::Out);
    assert_eq!(funcs[0].args[1].mode, ArgMode::Out);
}

#[test]
fn unknown_mode_code_is_fatal() {
    let rows = vec![row("get /x", &["a"], &["zz"], &["int4"])];
    assert!(matches!(PgFunc::from_rows(&rows), Err(CatalogError::UnknownMode)));
}

#[test]
fn mismatched_argument_arity_is_fatal() {
    let rows = vec![row("get /x", &["a"], &[], &["int4", "text"])];
    assert!(matches!(PgFunc::from_rows(&rows), Err(CatalogError::ArityMismatch)));
}

#[test]
fn build_table_runs_the_whole_pipeline() {
    let rows = vec![
        row("get /user/:id", &["id"], &[], &["int4"]),
        row("get /user/:key", &["key"], &[], &["int4"]),
        row("broken name", &[], &[], &[]),
    ];
    let (table, diags) = pgr::build_table(&rows).unwrap();
    assert_eq!(table.routes.len(), 1);
    assert_eq!(diags.len(), 2);
    assert_eq!(diags[0].kind, DiagKind::BadName);
    assert_eq!(diags[1].kind, DiagKind::DuplicateRoute);
}

#[test]
fn interior_empty_segment_is_a_bad_name() {
    let rows = vec![row("get /a//b", &[], &[], &[])];
    let (funcs, diags) = PgFunc::from_rows(&rows).unwrap();
    assert_eq!(funcs.len(), 0);
    assert_eq!(diags.len(), 1);
    assert_eq!(diags[0].kind, DiagKind::BadName);
}
