use hugsqlx_core::snake_to_pascal;

#[test]
fn snake_case_becomes_pascal_case() {
    assert_eq!(snake_to_pascal("fetch_users"), "FetchUsers");
    assert_eq!(snake_to_pascal("need_contain"), "NeedContain");
}

#[test]
fn underscores_are_dropped_wherever_they_stand() {
    assert_eq!(snake_to_pascal("_leading"), "Leading");
    assert_eq!(snake_to_pascal("a__b"), "AB");
    assert_eq!(snake_to_pascal("trailing_"), "Trailing");
}

#[test]
fn non_lowercase_characters_are_kept() {
    assert_eq!(snake_to_pascal("Already"), "Already");
    assert_eq!(snake_to_pascal("x9_y"), "X9Y");
    assert_eq!(snake_to_pascal(""), "");
}

#[test]
fn unicode_uppercase_expansions_are_kept_in_full() {
    assert_eq!(snake_to_pascal("\u{df}ab"), "SSab");
    assert_eq!(snake_to_pascal("stra\u{df}e_weg"), "Stra\u{df}eWeg");
}
