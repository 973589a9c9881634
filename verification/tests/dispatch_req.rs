use pgr::dispatch::parse_query;
use pgr::{ArgMode, BoundArg, Dispatch, PgArg, PgFunc, PgValue, RouteTable};

fn arg(name: &str, mode: ArgMode, ty: &str) -> PgArg {
    PgArg { name: name.to_owned(), mode, ty: ty.to_owned() }
}

fn func(name: &str, retset: bool, rettype: &str, args: Vec<PgArg>) -> PgFunc {
    PgFunc {
        name: name.to_owned(),
        method: String::new(),
        path: vec![],
        query: vec![],
        retset,
        rettype: rettype.to_owned(),
        args,
    }
}

fn user_table() -> RouteTable {
    let f = func(
        "get /user/:id?name&age",
        false,
        "pgr.user_t",
        vec![
            arg("id", ArgMode::In, "int4"),
            arg("name", ArgMode::In, "text"),
            arg("age", ArgMode::In, "int4"),
        ],
    );
    let (table, diags) = RouteTable::compile(&vec![f]);
    assert_eq!(diags.len(), 0);
    table
}

fn pairs(raw: &[(&str, &str)]) -> Vec<(String, String)> {
    raw.iter().map(|(k, v)| (k.to_string(), v.to_string())).collect()
}

#[test]
fn dispatch_binds_in_declaration_order() {
    let table = user_table();
    let q = pairs(&[("name", "Ann"), ("age", "30")]);
    let d = table.dispatch("GET", "/user/42", &q, None);
    match d {
        Dispatch::Invoke(plan) => {
            assert_eq!(plan.routine, "get /user/:id?name&age");
            assert_eq!(plan.args.len(), 3);
            assert!(matches!(plan.args[0], BoundArg::Input(PgValue::Int(42))));
            assert!(matches!(&plan.args[1], BoundArg::Input(PgValue::Text(s)) if s == "Ann"));
            assert!(matches!(plan.args[2], BoundArg::Input(PgValue::Int(30))));
        }
        other => panic!("expected an invocation, got {:?}", other),
    }
}

#[test]
fn unmatched_path_is_not_found() {
    let table = user_table();
    let d = table.dispatch("GET", "/nosuch", &vec![], None);
    assert!(matches!(d, Dispatch::NotFound));
    assert_eq!(d.status(), 404);
}

#[test]
fn matching_shape_with_wrong_method_is_not_found() {
    let table = user_table();
    let q = pairs(&[("name", "Ann"), ("age", "30")]);
    let d = table.dispatch("POST", "/user/42", &q, None);
    assert!(matches!(d, Dispatch::NotFound));
    assert_eq!(d.status(), 404);
}

#[test]
fn method_match_ignores_case() {
    let table = user_table();
    let q = pairs(&[("name", "Ann"), ("age", "30")]);
    let d = table.dispatch("get", "/user/42", &q, None);
    assert!(matches!(d, Dispatch::Invoke(_)));
    assert_eq!(d.status(), 200);
}

#[test]
fn coercion_failure_names_the_argument() {
    let table = user_table();
    let q = pairs(&[("name", "Ann"), ("age", "30")]);
    let d = table.dispatch("GET", "/user/forty-two", &q, None);
    match d {
        Dispatch::BadArgument(name) => assert_eq!(name, "id"),
        other => panic!("expected a bad argument, got {:?}", other),
    }
}

#[test]
fn missing_query_value_names_the_argument() {
    let table = user_table();
    let q = pairs(&[("name", "Ann")]);
    let d = table.dispatch("GET", "/user/42", &q, None);
    match &d {
        Dispatch::MissingArgument(name) => assert_eq!(name, "age"),
        other => panic!("expected a missing argument, got {:?}", other),
    }
    assert_eq!(d.status(), 400);
}

#[test]
fn body_binding_takes_the_body() {
    let f = func("post /note", false, "int4", vec![arg("payload", ArgMode::In, "text")]);
    let (table, _) = RouteTable::compile(&vec![f]);
    let d = table.dispatch("POST", "/note", &vec![], Some("hello"));
    match d {
        Dispatch::Invoke(plan) => {
            assert!(matches!(&plan.args[0], BoundArg::Input(PgValue::Text(s)) if s == "hello"));
        }
        other => panic!("expected an invocation, got {:?}", other),
    }
    let missing = table.dispatch("POST", "/note", &vec![], None);
    assert!(matches!(missing, Dispatch::MissingArgument(n) if n == "payload"));
}

#[test]
fn out_arguments_are_placeholders() {
    let f = func(
        "get /pair",
        false,
        "int4",
        vec![arg("a", ArgMode::Out, "int4"), arg("b", ArgMode::Out, "text")],
    );
    let (table, _) = RouteTable::compile(&vec![f]);
    let d = table.dispatch("GET", "/pair", &vec![], None);
    match d {
        Dispatch::Invoke(plan) => {
            assert!(matches!(plan.args[0], BoundArg::Output));
            assert!(matches!(plan.args[1], BoundArg::Output));
        }
        other => panic!("expected an invocation, got {:?}", other),
    }
}

#[test]
fn first_matching_route_wins() {
    let a = func("get /x/:p", false, "int4", vec![arg("p", ArgMode::In, "text")]);
    let b = func("get /x/here", false, "int4", vec![]);
    let (table, _) = RouteTable::compile(&vec![a, b]);
    // a literal and a parameter differ in shape, so both routes compile;
    // the parameterized route stands first and takes the request
    assert_eq!(table.routes.len(), 2);
    let d = table.dispatch("GET", "/x/here", &vec![], None);
    match d {
        Dispatch::Invoke(plan) => assert_eq!(plan.route, 0),
        other => panic!("expected an invocation, got {:?}", other),
    }
}

#[test]
fn empty_path_segment_never_matches_a_param() {
    let f = func("get /a/:x/b", false, "int4", vec![arg("x", ArgMode::In, "text")]);
    let (table, diags) = RouteTable::compile(&vec![f]);
    assert_eq!(diags.len(), 0);
    // "/a//b" splits into three segments whose middle one is empty, so the
    // parameter slot rejects it; fewer segments fail on length alone
    let d = table.dispatch("GET", "/a//b", &vec![], None);
    assert!(matches!(d, Dispatch::NotFound));
    let short = table.dispatch("GET", "/a/b", &vec![], None);
    assert!(matches!(short, Dispatch::NotFound));
    let full = table.dispatch("GET", "/a/x/b", &vec![], None);
    assert!(matches!(full, Dispatch::Invoke(_)));
}

#[test]
fn parse_query_splits_pairs() {
    let q = parse_query("name=Ann&age=30");
    assert_eq!(q, pairs(&[("name", "Ann"), ("age", "30")]));
}

#[test]
fn parse_query_handles_empty_and_bare_names() {
    assert_eq!(parse_query(""), vec![]);
    assert_eq!(parse_query("flag"), pairs(&[("flag", "")]));
    assert_eq!(parse_query("a=1=2"), pairs(&[("a", "1=2")]));
}
