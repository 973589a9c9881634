use pgr::PgFunc;

#[test]
fn test_parse_name() {
    let result = PgFunc::parse_name("GET /user/:id?name&age").unwrap();
    assert_eq!(
        result,
        (
            "GET".to_owned(),
            vec!["user".to_owned(), ":id".to_owned()],
            vec!["name".to_owned(), "age".to_owned()]
        )
    );
}

#[test]
fn parse_name_without_query() {
    let result = PgFunc::parse_name("GET /users").unwrap();
    assert_eq!(result, ("GET".to_owned(), vec!["users".to_owned()], vec![]));
}

#[test]
fn parse_name_root_path() {
    let result = PgFunc::parse_name("get /").unwrap();
    assert_eq!(result, ("get".to_owned(), vec!["".to_owned()], vec![]));
}

#[test]
fn parse_name_case_insensitive_verb() {
    assert!(PgFunc::parse_name("Post /user").is_ok());
    assert!(PgFunc::parse_name("DELETE /user/:id").is_ok());
}

#[test]
fn parse_name_rejects_unknown_verb() {
    assert!(PgFunc::parse_name("FETCH /user").is_err());
}

#[test]
fn parse_name_rejects_missing_url() {
    assert!(PgFunc::parse_name("get").is_err());
}

#[test]
fn parse_name_rejects_three_tokens() {
    assert!(PgFunc::parse_name("get /user extra").is_err());
}

#[test]
fn parse_name_rejects_two_question_marks() {
    assert!(PgFunc::parse_name("get /user?a?b").is_err());
}

#[test]
fn parse_name_empty_query_after_separator() {
    let result = PgFunc::parse_name("get /user?").unwrap();
    assert_eq!(result.2, vec!["".to_owned()]);
}

#[test]
fn parse_path_trims_outer_slashes() {
    assert_eq!(PgFunc::parse_path("//a/b/"), vec!["a".to_owned(), "b".to_owned()]);
}

#[test]
fn parse_name_rejects_interior_empty_segment() {
    assert!(PgFunc::parse_name("get /a//b").is_err());
    assert!(PgFunc::parse_name("get /a//b?c").is_err());
}

#[test]
fn parse_path_empty_is_root_segment() {
    assert_eq!(PgFunc::parse_path(""), vec!["".to_owned()]);
    assert_eq!(PgFunc::parse_path("/"), vec!["".to_owned()]);
}

#[test]
fn reserialize_and_reparse_is_idempotent() {
    // parse, write the name back from its components, and parse again
    let (m, p, q) = PgFunc::parse_name("GET /a/:b?c&d").unwrap();
    assert_eq!(m, "GET");
    assert_eq!(p, vec!["a".to_owned(), ":b".to_owned()]);
    assert_eq!(q, vec!["c".to_owned(), "d".to_owned()]);
    let rebuilt = format!("{} /{}?{}", m, p.join("/"), q.join("&"));
    let again = PgFunc::parse_name(&rebuilt).unwrap();
    assert_eq!(again, (m, p, q));
}

#[test]
fn reserialize_without_query_is_idempotent() {
    let (m, p, q) = PgFunc::parse_name("put /thing/:id").unwrap();
    assert!(q.is_empty());
    let rebuilt = format!("{} /{}", m, p.join("/"));
    let again = PgFunc::parse_name(&rebuilt).unwrap();
    assert_eq!(again, (m, p, q));
}
