use hugsqlx_core::parser::parse_annotation_file;
use hugsqlx_core::parser::parse_queries;
use hugsqlx_core::parser::AnnotationErrorKind;
use hugsqlx_core::parser::Kind;
use hugsqlx_core::parser::Method;

#[test]
fn parsing_defaults() {
    let input = r#"
-- :name fetch_users
-- :doc Returns all the users from DB
SELECT user_id, email, name, picture FROM users
"#;

    let queries = parse_queries(input.to_string()).unwrap();
    assert_eq!(queries.len(), 1);
    assert_eq!(queries[0].name, "fetch_users");
    assert_eq!(
        queries[0].doc,
        Some("Returns all the users from DB".to_string())
    );
    assert_eq!(queries[0].kind, Kind::Untyped);
    assert_eq!(queries[0].method, Method::Execute);
}

#[test]
fn parsing_default_type() {
    let input = r#"
-- :name fetch_users :^
SELECT user_id, email, name, picture FROM users
"#;

    let queries = parse_queries(input.to_string()).unwrap();
    assert_eq!(queries.len(), 1);
    assert_eq!(queries[0].name, "fetch_users");
    assert_eq!(queries[0].doc, None);
    assert_eq!(queries[0].kind, Kind::Untyped);
    assert_eq!(queries[0].method, Method::FetchMany);
}

#[test]
fn parsing_type_aliases() {
    let input = r#"
-- :name fetch_users :<> :^
SELECT user_id, email, name, picture FROM users
"#;

    let queries = parse_queries(input.to_string()).unwrap();
    assert_eq!(queries.len(), 1);
    assert_eq!(queries[0].name, "fetch_users");
    assert_eq!(queries[0].doc, None);
    assert_eq!(queries[0].kind, Kind::Typed);
    assert_eq!(queries[0].method, Method::FetchMany);
}

#[test]
fn parsing_default_call_method() {
    let input = r#"
-- :name fetch_users :mapped
SELECT user_id, email, name, picture FROM users
"#;

    let queries = parse_queries(input.to_string()).unwrap();
    assert_eq!(queries.len(), 1);
    assert_eq!(queries[0].name, "fetch_users");
    assert_eq!(queries[0].doc, None);
    assert_eq!(queries[0].kind, Kind::Mapped);
    assert_eq!(queries[0].method, Method::Execute);
}

#[test]
fn parsing_multiple() {
    let input = r#"
-- :name fetch_users
-- :doc Returns all the users from DB
SELECT user_id, email, name, picture FROM users

-- :name fetch_user_by_id :untyped :1
-- :doc Fetches user by its identifier
SELECT user_id, email, name, picture
  FROM users
 WHERE user_id = $1

-- :name set_picture :typed :1
-- :doc Sets user's picture.
-- Picture is expected to be a valid URL.
UPDATE users
   -- expected URL to the picture
   SET picture = ?
 WHERE user_id = ?

-- :name delete_user :typed :1
DELETE FROM users
 WHERE user_id = ?
"#;

    let queries = parse_queries(input.to_string()).unwrap();
    assert_eq!(queries.len(), 4);

    assert_eq!(queries[0].name, "fetch_users".to_string());
    assert_eq!(
        queries[0].doc,
        Some("Returns all the users from DB".to_string())
    );
    assert_eq!(queries[0].kind, Kind::Untyped);
    assert_eq!(queries[0].method, Method::Execute);

    assert_eq!(queries[1].name, "fetch_user_by_id".to_string());
    assert_eq!(
        queries[1].doc,
        Some("Fetches user by its identifier".to_string())
    );
    assert_eq!(queries[1].kind, Kind::Untyped);
    assert_eq!(queries[1].method, Method::FetchOne);

    assert_eq!(queries[2].name, "set_picture".to_string());
    assert_eq!(
        queries[2].doc,
        Some("Sets user's picture.\nPicture is expected to be a valid URL.".to_string())
    );
    assert_eq!(queries[2].kind, Kind::Typed);
    assert_eq!(queries[2].method, Method::FetchOne);

    assert_eq!(queries[3].name, "delete_user".to_string());
    assert_eq!(queries[3].doc, None);
    assert_eq!(queries[3].kind, Kind::Typed);
    assert_eq!(queries[3].method, Method::FetchOne);
}

#[test]
fn query_count_matches_name_declarations() {
    let input = "-- :name a\nSELECT 1\n-- :name b :1\nSELECT 2\n-- :name c :<> :*\nSELECT 3\n";
    let queries = parse_queries(input.to_string()).unwrap();
    assert_eq!(queries.len(), 3);
}

#[test]
fn sql_body_is_trimmed_and_kept_verbatim() {
    let input = "-- :name q\n  SELECT a,\n         b\n    FROM t  \n\n";
    let queries = parse_queries(input.to_string()).unwrap();
    assert_eq!(queries.len(), 1);
    assert_eq!(queries[0].sql, "SELECT a,\n         b\n    FROM t");
}

#[test]
fn tokens_accepted_in_either_order() {
    let input = "-- :name q :^ :<>\nSELECT 1\n";
    let queries = parse_queries(input.to_string()).unwrap();
    assert_eq!(queries.len(), 1);
    assert_eq!(queries[0].kind, Kind::Typed);
    assert_eq!(queries[0].method, Method::FetchMany);
}

#[test]
fn doc_before_name_joins_the_same_unit() {
    let input = "-- :doc Adds a user\n-- :name add_user :!\nINSERT INTO users VALUES (?)\n";
    let queries = parse_queries(input.to_string()).unwrap();
    assert_eq!(queries.len(), 1);
    assert_eq!(queries[0].name, "add_user");
    assert_eq!(queries[0].doc, Some("Adds a user".to_string()));
    assert_eq!(queries[0].method, Method::Execute);
}

#[test]
fn whole_records_compare_by_their_fields() {
    let queries = parse_queries("-- :name q :1\nSELECT 1\n".to_string()).unwrap();
    let expected = hugsqlx_core::parser::Query {
        name: "q".to_string(),
        kind: Kind::Untyped,
        method: Method::FetchOne,
        doc: None,
        sql: "SELECT 1".to_string(),
    };
    assert_eq!(queries[0], expected);
    let errors = parse_queries("SELECT 2\n".to_string()).unwrap_err();
    let expected_err = hugsqlx_core::parser::AnnotationError {
        kind: AnnotationErrorKind::MissingName,
        sql: "SELECT 2".to_string(),
    };
    assert_eq!(errors[0], expected_err);
}

#[test]
fn empty_input_parses_to_no_queries() {
    let queries = parse_queries(String::new()).unwrap();
    assert_eq!(queries.len(), 0);
}

#[test]
fn unit_without_name_fails_and_others_still_parse() {
    let input = "SELECT 1 FROM nowhere\n\n-- :name good :1\nSELECT 2\n";
    let (queries, errors) = parse_annotation_file(input);
    assert_eq!(queries.len(), 1);
    assert_eq!(queries[0].name, "good");
    assert_eq!(queries[0].sql, "SELECT 2");
    assert_eq!(errors.len(), 1);
    assert_eq!(errors[0].kind, AnnotationErrorKind::MissingName);
    assert_eq!(errors[0].sql, "SELECT 1 FROM nowhere");
}

#[test]
fn invalid_identifier_is_an_error() {
    let input = "-- :name 1bad\nSELECT 1\n";
    let errors = parse_queries(input.to_string()).unwrap_err();
    assert_eq!(errors.len(), 1);
    assert_eq!(errors[0].kind, AnnotationErrorKind::InvalidName);
    assert_eq!(errors[0].sql, "SELECT 1");
}

#[test]
fn missing_identifier_is_an_error() {
    let input = "-- :name\nSELECT 1\n";
    let errors = parse_queries(input.to_string()).unwrap_err();
    assert_eq!(errors.len(), 1);
    assert_eq!(errors[0].kind, AnnotationErrorKind::InvalidName);
}

#[test]
fn unknown_token_is_an_error() {
    let input = "-- :name q :bogus\nSELECT 1\n";
    let errors = parse_queries(input.to_string()).unwrap_err();
    assert_eq!(errors.len(), 1);
    assert_eq!(errors[0].kind, AnnotationErrorKind::MalformedToken);
}

#[test]
fn doc_on_unterminated_last_line_is_an_error() {
    let input = "-- :name q\n-- :doc half written";
    let errors = parse_queries(input.to_string()).unwrap_err();
    assert_eq!(errors.len(), 1);
    assert_eq!(errors[0].kind, AnnotationErrorKind::UnterminatedDoc);
}

#[test]
fn error_message_cites_the_unit() {
    let input = "-- :name ?bad\nSELECT a FROM b\n";
    let errors = parse_queries(input.to_string()).unwrap_err();
    assert_eq!(errors.len(), 1);
    let msg = errors[0].message();
    assert!(msg.contains("SELECT a FROM b"));
}
