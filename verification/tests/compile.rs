use pgr::{ArgMode, DiagKind, OutputSpec, PatternSeg, PgArg, PgFunc, RouteTable};

fn arg(name: &str, mode: ArgMode, ty: &str) -> PgArg {
    PgArg { name: name.to_owned(), mode, ty: ty.to_owned() }
}

fn func(name: &str, retset: bool, rettype: &str, args: Vec<PgArg>) -> PgFunc {
    // the compiler parses `name` itself; the parsed fields are only filled
    // in by introspection, so they can start empty here
    PgFunc {
        name: name.to_owned(),
        method: String::new(),
        path: vec![],
        query: vec![],
        retset,
        rettype: rettype.to_owned(),
        args,
    }
}

#[test]
fn duplicate_name_keeps_first_route_and_one_diagnostic() {
    let f1 = func("get /user/:id", false, "int4", vec![arg("id", ArgMode::In, "int4")]);
    let f2 = func("get /user/:id", false, "int4", vec![arg("id", ArgMode::In, "int4")]);
    let (table, diags) = RouteTable::compile(&vec![f1, f2]);
    assert_eq!(table.routes.len(), 1);
    assert_eq!(diags.len(), 1);
    assert_eq!(diags[0].kind, DiagKind::DuplicateRoute);
    assert_eq!(diags[0].routine, "get /user/:id");
}

#[test]
fn same_shape_different_param_names_collide() {
    let f1 = func("get /user/:id", false, "int4", vec![arg("id", ArgMode::In, "int4")]);
    let f2 = func("get /user/:key", false, "int4", vec![arg("key", ArgMode::In, "int4")]);
    let (table, diags) = RouteTable::compile(&vec![f1, f2]);
    assert_eq!(table.routes.len(), 1);
    assert_eq!(diags.len(), 1);
    assert_eq!(diags[0].kind, DiagKind::DuplicateRoute);
}

#[test]
fn variadic_routine_never_compiles() {
    let f = func(
        "get /sum",
        false,
        "int4",
        vec![arg("xs", ArgMode::Variadic, "int4")],
    );
    let (table, diags) = RouteTable::compile(&vec![f]);
    assert_eq!(table.routes.len(), 0);
    assert_eq!(diags.len(), 1);
    assert_eq!(diags[0].kind, DiagKind::UnsupportedMode);
}

#[test]
fn table_mode_routine_never_compiles() {
    let f = func("get /rows", true, "record", vec![arg("r", ArgMode::Table, "record")]);
    let (table, diags) = RouteTable::compile(&vec![f]);
    assert_eq!(table.routes.len(), 0);
    assert_eq!(diags[0].kind, DiagKind::UnsupportedMode);
}

#[test]
fn bad_name_is_skipped_with_diagnostic() {
    let good = func("get /ok", false, "int4", vec![]);
    let bad = func("nonsense", false, "int4", vec![]);
    let (table, diags) = RouteTable::compile(&vec![bad, good]);
    assert_eq!(table.routes.len(), 1);
    assert_eq!(diags.len(), 1);
    assert_eq!(diags[0].kind, DiagKind::BadName);
    assert_eq!(table.routes[0].routine, "get /ok");
}

#[test]
fn out_arguments_win_over_return_type() {
    let f = func(
        "get /pair",
        true,
        "pgr.some_set",
        vec![arg("a", ArgMode::Out, "int4"), arg("b", ArgMode::Out, "text")],
    );
    let (table, diags) = RouteTable::compile(&vec![f]);
    assert_eq!(diags.len(), 0);
    assert_eq!(table.routes.len(), 1);
    match &table.routes[0].output {
        OutputSpec::OutComposite(idxs) => assert_eq!(idxs, &vec![0usize, 1usize]),
        other => panic!("expected an out composite, got {:?}", other),
    }
}

#[test]
fn output_shapes_follow_return_type_without_outs() {
    let rowset = func("get /users", true, "pgr.user_t", vec![]);
    let row = func("get /one", false, "pgr.user_t", vec![]);
    let scalar = func("get /count", false, "int4", vec![]);
    let (table, diags) = RouteTable::compile(&vec![rowset, row, scalar]);
    assert_eq!(diags.len(), 0);
    assert!(matches!(table.routes[0].output, OutputSpec::RowSet));
    assert!(matches!(table.routes[1].output, OutputSpec::Row));
    assert!(matches!(table.routes[2].output, OutputSpec::Scalar));
}

#[test]
fn pattern_binds_params_positionally() {
    let f = func(
        "GET /user/:id/item/:n",
        false,
        "int4",
        vec![
            arg("skipped", ArgMode::Out, "int4"),
            arg("id", ArgMode::In, "int4"),
            arg("n", ArgMode::Inout, "int4"),
        ],
    );
    let (table, diags) = RouteTable::compile(&vec![f]);
    assert_eq!(diags.len(), 0);
    let route = &table.routes[0];
    assert_eq!(route.method, "get");
    assert_eq!(route.pattern.len(), 4);
    assert!(matches!(&route.pattern[0], PatternSeg::Lit(s) if s == "user"));
    assert!(matches!(route.pattern[1], PatternSeg::Param(1)));
    assert!(matches!(&route.pattern[2], PatternSeg::Lit(s) if s == "item"));
    assert!(matches!(route.pattern[3], PatternSeg::Param(2)));
}

#[test]
fn unbound_query_name_is_rejected() {
    let f = func("get /x?foo", false, "int4", vec![arg("bar", ArgMode::In, "int4")]);
    let (table, diags) = RouteTable::compile(&vec![f]);
    assert_eq!(table.routes.len(), 0);
    assert_eq!(diags[0].kind, DiagKind::UnboundQueryName);
}

#[test]
fn two_leftover_inputs_are_an_ambiguous_body() {
    let f = func(
        "post /x",
        false,
        "int4",
        vec![arg("a", ArgMode::In, "int4"), arg("b", ArgMode::In, "int4")],
    );
    let (table, diags) = RouteTable::compile(&vec![f]);
    assert_eq!(table.routes.len(), 0);
    assert_eq!(diags[0].kind, DiagKind::AmbiguousBody);
}

#[test]
fn one_leftover_input_becomes_the_body() {
    let f = func("post /x", false, "int4", vec![arg("payload", ArgMode::In, "text")]);
    let (table, diags) = RouteTable::compile(&vec![f]);
    assert_eq!(diags.len(), 0);
    assert_eq!(table.routes[0].body_binding, Some(0));
}

#[test]
fn too_many_path_params_are_rejected() {
    let f = func("get /:a/:b", false, "int4", vec![arg("a", ArgMode::In, "int4")]);
    let (table, diags) = RouteTable::compile(&vec![f]);
    assert_eq!(table.routes.len(), 0);
    assert_eq!(diags[0].kind, DiagKind::UnboundPathParam);
}
